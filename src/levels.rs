//! Definition and repetition levels of a nested path, computed by a
//! recursive walk of the path.
use vstd::prelude::*;
use crate::nested::{
    is_well_formed,
    num_values_spec,
    path_wf,
    visited,
    zero_runs,
    zero_runs_sum,
    Nested,
};

verus! {

/// Why a nested path was refused.
#[derive(Debug, Clone, Copy, PartialEq, Eq)]
pub enum LevelsError {
    /// The path does not end in its only primitive, a validity does not
    /// cover its node, offsets decrease, or a node is shorter than the
    /// positions its parent reaches.
    MalformedNested,
}

/// The (definition, repetition) pairs emitted for position `p` of node `k`.
/// `d` is the definition level reached by the ancestors, `r` the repetition
/// level of the enclosing repeated node, and `first` the repetition level of
/// the first pair emitted.
pub open spec fn emit_pos(path: Seq<Nested>, k: int, p: int, d: int, r: int, first: int) -> Seq<
    (int, int),
>
    decreases path.len() - k, 0int, 0int,
{
    if k < 0 || k >= path.len() {
        Seq::empty()
    } else {
        let node = path[k];
        if node is Primitive {
            let def = match node.validity_view() {
                Some(v) => if v[p] {
                    d + 1
                } else {
                    d
                },
                None => d + node.opt_level(),
            };
            seq![(def, first)]
        } else if !node.valid_at(p) {
            seq![(d, first)]
        } else if node is Struct {
            emit_pos(path, k + 1, p, d + node.opt_level(), r, first)
        } else if node.run_start(p) >= node.run_end(p) {
            seq![(d + node.opt_level(), first)]
        } else {
            emit_range(
                path,
                k + 1,
                node.run_start(p),
                node.run_end(p),
                d + node.opt_level() + 1,
                r + 1,
                first,
            )
        }
    }
}

/// The pairs emitted for positions `s..e` of node `k`: the first position
/// starts at repetition level `first`, every later one at `r`.
pub open spec fn emit_range(
    path: Seq<Nested>,
    k: int,
    s: int,
    e: int,
    d: int,
    r: int,
    first: int,
) -> Seq<(int, int)>
    decreases path.len() - k, 1int, e - s,
{
    if k < 0 || k >= path.len() || e <= s {
        Seq::empty()
    } else {
        emit_range(path, k, s, e - 1, d, r, first) + emit_pos(
            path,
            k,
            e - 1,
            d,
            r,
            if e - 1 == s {
                first
            } else {
                r
            },
        )
    }
}

/// The (definition, repetition) pairs of a whole path: one row per position
/// of its root, each row starting at repetition level 0.
pub open spec fn levels(path: Seq<Nested>) -> Seq<(int, int)> {
    if path.len() == 0 {
        Seq::empty()
    } else {
        emit_range(path, 0, 0, path[0].spec_len(), 0, 0, 0)
    }
}

/// The definition levels of a sequence of pairs.
pub open spec fn def_part(l: Seq<(int, int)>) -> Seq<u32> {
    l.map_values(|x: (int, int)| x.0 as u32)
}

/// The repetition levels of a sequence of pairs.
pub open spec fn rep_part(l: Seq<(int, int)>) -> Seq<u32> {
    l.map_values(|x: (int, int)| x.1 as u32)
}

proof fn lemma_parts_concat(a: Seq<(int, int)>, b: Seq<(int, int)>)
    ensures
        def_part(a + b) == def_part(a) + def_part(b),
        rep_part(a + b) == rep_part(a) + rep_part(b),
{
    assert(def_part(a + b) =~= def_part(a) + def_part(b));
    assert(rep_part(a + b) =~= rep_part(a) + rep_part(b));
}

fn push_pair(defs: &mut Vec<u32>, reps: &mut Vec<u32>, d: u32, r: u32)
    ensures
        final(defs)@ == old(defs)@ + def_part(seq![(d as int, r as int)]),
        final(reps)@ == old(reps)@ + rep_part(seq![(d as int, r as int)]),
{
    defs.push(d);
    reps.push(r);
    assert(defs@ =~= old(defs)@ + def_part(seq![(d as int, r as int)]));
    assert(reps@ =~= old(reps)@ + rep_part(seq![(d as int, r as int)]));
}

pub(crate) proof fn lemma_child_run_in_range(path: Seq<Nested>, k: int, p: int)
    requires
        path_wf(path),
        0 <= k < path.len() - 1,
        path[k].is_repeated(),
        0 <= p < visited(path, k),
    ensures
        0 <= path[k].run_start(p) <= path[k].run_end(p) <= visited(path, k + 1),
{
    let node = path[k];
    assert(node.node_wf());
    assert(visited(path, k) <= node.spec_len());
    assert(visited(path, k + 1) <= path[k + 1].spec_len());
    if node is FixedSizeList {
        let w = node->width as int;
        let c = visited(path, k);
        assert(0 <= w * p <= w * (p + 1) <= w * c) by (nonlinear_arith)
            requires
                0 <= p < c,
                w >= 0,
        ;
    } else {
        let o = node.offsets_view();
        assert(o[0] <= o[p]);
        assert(o[p] <= o[p + 1]);
        assert(o[p + 1] <= o[visited(path, k)]);
    }
}

fn levels_pos(
    path: &[Nested],
    k: usize,
    p: usize,
    d: u32,
    r: u32,
    first: u32,
    defs: &mut Vec<u32>,
    reps: &mut Vec<u32>,
)
    requires
        path_wf(path@),
        k < path@.len(),
        p < visited(path@, k as int),
        d + 2 * (path@.len() - k) <= u32::MAX,
        r + (path@.len() - k) <= u32::MAX,
    ensures
        final(defs)@ == old(defs)@ + def_part(emit_pos(path@, k as int, p as int, d as int, r as int, first as int)),
        final(reps)@ == old(reps)@ + rep_part(emit_pos(path@, k as int, p as int, d as int, r as int, first as int)),
    decreases path@.len() - k, 0int, 0int,
{
    let node = &path[k];
    proof {
        assert(node.node_wf());
        assert(visited(path@, k as int) <= node.spec_len());
    }
    let opt: u32 = if node.is_opt() {
        1
    } else {
        0
    };
    match node {
        Nested::Primitive(validity, _, _) => {
            let def = match validity {
                Some(bits) => if bits[p] {
                    d + 1
                } else {
                    d
                },
                None => d + opt,
            };
            push_pair(defs, reps, def, first);
            return;
        },
        _ => {},
    }
    proof {
        assert(k < path@.len() - 1);
    }
    if !node.is_valid(p) {
        push_pair(defs, reps, d, first);
        return;
    }
    if let Nested::Struct(..) = node {
        levels_pos(path, k + 1, p, d + opt, r, first, defs, reps);
        return;
    }
    proof {
        lemma_child_run_in_range(path@, k as int, p as int);
        assert(visited(path@, k + 1) <= path@[k + 1].spec_len());
        assert(path@[k + 1].spec_len() <= usize::MAX);
    }
    let (s, e) = node.run_bounds(p);
    if s == e {
        push_pair(defs, reps, d + opt, first);
    } else {
        levels_range(path, k + 1, s, e, d + opt + 1, r + 1, first, defs, reps);
    }
}

fn levels_range(
    path: &[Nested],
    k: usize,
    s: usize,
    e: usize,
    d: u32,
    r: u32,
    first: u32,
    defs: &mut Vec<u32>,
    reps: &mut Vec<u32>,
)
    requires
        path_wf(path@),
        k < path@.len(),
        s <= e <= visited(path@, k as int),
        d + 2 * (path@.len() - k) <= u32::MAX,
        r + (path@.len() - k) <= u32::MAX,
    ensures
        final(defs)@ == old(defs)@ + def_part(
            emit_range(path@, k as int, s as int, e as int, d as int, r as int, first as int),
        ),
        final(reps)@ == old(reps)@ + rep_part(
            emit_range(path@, k as int, s as int, e as int, d as int, r as int, first as int),
        ),
    decreases path@.len() - k, 1int, 0int,
{
    let ghost d0 = defs@;
    let ghost r0 = reps@;
    let mut p = s;
    while p < e
        invariant
            path_wf(path@),
            k < path@.len(),
            s <= p <= e <= visited(path@, k as int),
            d + 2 * (path@.len() - k) <= u32::MAX,
            r + (path@.len() - k) <= u32::MAX,
            defs@ == d0 + def_part(
                emit_range(path@, k as int, s as int, p as int, d as int, r as int, first as int),
            ),
            reps@ == r0 + rep_part(
                emit_range(path@, k as int, s as int, p as int, d as int, r as int, first as int),
            ),
        decreases e - p,
    {
        let f = if p == s {
            first
        } else {
            r
        };
        let ghost before = emit_range(
            path@,
            k as int,
            s as int,
            p as int,
            d as int,
            r as int,
            first as int,
        );
        let ghost here = emit_pos(path@, k as int, p as int, d as int, r as int, f as int);
        levels_pos(path, k, p, d, r, f, defs, reps);
        proof {
            lemma_parts_concat(before, here);
            assert(emit_range(path@, k as int, s as int, p + 1, d as int, r as int, first as int)
                == before + here);
        }
        p = p + 1;
    }
}

/// Computes both level sequences of a path, or refuses a malformed one.
fn levels_checked(nested: &[Nested], value_count: usize) -> (r: Result<
    (Vec<u32>, Vec<u32>),
    LevelsError,
>)
    requires
        nested@.len() < 0x4000_0000,
    ensures
        r is Ok <==> (nested@.len() == 0 || path_wf(nested@)),
        r matches Ok((d, rp)) ==> d@ == def_part(levels(nested@)) && rp@ == rep_part(
            levels(nested@),
        ),
{
    let mut defs: Vec<u32> = Vec::with_capacity(value_count);
    let mut reps: Vec<u32> = Vec::with_capacity(value_count);
    if nested.len() == 0 {
        assert(defs@ =~= def_part(levels(nested@)));
        assert(reps@ =~= rep_part(levels(nested@)));
        return Ok((defs, reps));
    }
    if !is_well_formed(nested) {
        return Err(LevelsError::MalformedNested);
    }
    let n = nested[0].len();
    levels_range(nested, 0, 0, n, 0, 0, 0, &mut defs, &mut reps);
    proof {
        assert(defs@ =~= def_part(levels(nested@)));
        assert(reps@ =~= rep_part(levels(nested@)));
    }
    Ok((defs, reps))
}

/// The definition and repetition levels of a path, in that order.
/// An empty path has no levels; a malformed one is refused.
pub fn to_levels(nested: &[Nested]) -> (r: Result<(Vec<u32>, Vec<u32>), LevelsError>)
    requires
        nested@.len() < 0x4000_0000,
    ensures
        r is Ok <==> (nested@.len() == 0 || path_wf(nested@)),
        r matches Ok((d, rp)) ==> d@ == def_part(levels(nested@)) && rp@ == rep_part(
            levels(nested@),
        ),
{
    levels_checked(nested, 0)
}

/// The definition levels of a path; `value_count` only sizes the result.
pub fn calculate_def_levels(nested: &[Nested], value_count: usize) -> (r: Result<
    Vec<u32>,
    LevelsError,
>)
    requires
        nested@.len() < 0x4000_0000,
    ensures
        r is Ok <==> (nested@.len() == 0 || path_wf(nested@)),
        r matches Ok(d) ==> d@ == def_part(levels(nested@)),
{
    match levels_checked(nested, value_count) {
        Ok((d, _)) => Ok(d),
        Err(e) => Err(e),
    }
}

/// The repetition levels of a path; `value_count` only sizes the result.
pub fn calculate_rep_levels(nested: &[Nested], value_count: usize) -> (r: Result<
    Vec<u32>,
    LevelsError,
>)
    requires
        nested@.len() < 0x4000_0000,
    ensures
        r is Ok <==> (nested@.len() == 0 || path_wf(nested@)),
        r matches Ok(rp) ==> rp@ == rep_part(levels(nested@)),
{
    match levels_checked(nested, value_count) {
        Ok((_, rp)) => Ok(rp),
        Err(e) => Err(e),
    }
}

proof fn lemma_first_rep_pos(path: Seq<Nested>, k: int, p: int, d: int, r: int, first: int)
    requires
        path_wf(path),
        0 <= k < path.len(),
    ensures
        emit_pos(path, k, p, d, r, first).len() > 0,
        emit_pos(path, k, p, d, r, first)[0].1 == first,
    decreases path.len() - k, 0int, 0int,
{
    let node = path[k];
    if !(node is Primitive) {
        assert(k < path.len() - 1);
        if node.valid_at(p) {
            if node is Struct {
                lemma_first_rep_pos(path, k + 1, p, d + node.opt_level(), r, first);
            } else if node.run_start(p) < node.run_end(p) {
                lemma_first_rep_range(
                    path,
                    k + 1,
                    node.run_start(p),
                    node.run_end(p),
                    d + node.opt_level() + 1,
                    r + 1,
                    first,
                );
            }
        }
    }
}

proof fn lemma_first_rep_range(
    path: Seq<Nested>,
    k: int,
    s: int,
    e: int,
    d: int,
    r: int,
    first: int,
)
    requires
        path_wf(path),
        0 <= k < path.len(),
        s < e,
    ensures
        emit_range(path, k, s, e, d, r, first).len() > 0,
        emit_range(path, k, s, e, d, r, first)[0].1 == first,
    decreases path.len() - k, 1int, e - s,
{
    if e - 1 == s {
        lemma_first_rep_pos(path, k, s, d, r, first);
        assert(emit_range(path, k, s, s, d, r, first).len() == 0);
    } else {
        lemma_first_rep_range(path, k, s, e - 1, d, r, first);
    }
}

/// Every row starts a new record: the first repetition level of a
/// non-empty level sequence is 0.
pub proof fn lemma_first_rep_is_zero(path: Seq<Nested>)
    requires
        path_wf(path),
        levels(path).len() > 0,
    ensures
        rep_part(levels(path))[0] == 0,
{
    if path[0].spec_len() <= 0 {
        assert(levels(path).len() == 0);
    } else {
        lemma_first_rep_range(path, 0, 0, path[0].spec_len(), 0, 0, 0);
    }
}

/// The most that nodes `k..` can add to a definition level: one for each
/// optional node, one more for each repeated node.
pub open spec fn max_def_from(path: Seq<Nested>, k: int) -> int
    decreases path.len() - k,
{
    if k < 0 || k >= path.len() {
        0
    } else {
        path[k].opt_level() + (if path[k].is_repeated() {
            1int
        } else {
            0int
        }) + max_def_from(path, k + 1)
    }
}

/// The largest definition level the path can have.
pub open spec fn max_def_level(path: Seq<Nested>) -> int {
    max_def_from(path, 0)
}

/// A leaf with validity bits is declared optional.
pub open spec fn leaf_nullability_consistent(path: Seq<Nested>) -> bool {
    path.last().validity_view() is Some ==> path.last().optional()
}

proof fn lemma_max_def_nonneg(path: Seq<Nested>, k: int)
    ensures
        max_def_from(path, k) >= 0,
    decreases path.len() - k,
{
    if 0 <= k < path.len() {
        lemma_max_def_nonneg(path, k + 1);
    }
}

/// Every definition level in `l` lies in `lo..=hi`.
pub open spec fn defs_within(l: Seq<(int, int)>, lo: int, hi: int) -> bool {
    forall|i: int| 0 <= i < l.len() ==> lo <= #[trigger] l[i].0 <= hi
}

proof fn lemma_def_bound_pos(path: Seq<Nested>, k: int, p: int, d: int, r: int, first: int)
    requires
        path_wf(path),
        leaf_nullability_consistent(path),
        0 <= k < path.len(),
    ensures
        defs_within(emit_pos(path, k, p, d, r, first), d, d + max_def_from(path, k)),
    decreases path.len() - k, 0int, 0int,
{
    let node = path[k];
    let e = emit_pos(path, k, p, d, r, first);
    let hi = d + max_def_from(path, k);
    lemma_max_def_nonneg(path, k + 1);
    if node is Primitive {
        assert(k == path.len() - 1);
        assert(path.last() == node);
        assert(max_def_from(path, k + 1) == 0);
        assert(max_def_from(path, k) == node.opt_level());
        assert(e.len() == 1);
        assert(d <= e[0].0 <= d + node.opt_level());
        assert(defs_within(e, d, hi));
    } else {
        assert(max_def_from(path, k) == node.opt_level() + (if node.is_repeated() {
            1int
        } else {
            0int
        }) + max_def_from(path, k + 1));
        assert(k < path.len() - 1);
        if !node.valid_at(p) {
            assert(e.len() == 1 && e[0].0 == d);
            assert(defs_within(e, d, hi));
        } else if node is Struct {
            lemma_def_bound_pos(path, k + 1, p, d + node.opt_level(), r, first);
            assert(e == emit_pos(path, k + 1, p, d + node.opt_level(), r, first));
            assert(defs_within(e, d, hi));
        } else if node.run_start(p) < node.run_end(p) {
            let s = node.run_start(p);
            let t = node.run_end(p);
            let dd = d + node.opt_level() + 1;
            lemma_def_bound_range(path, k + 1, s, t, dd, r + 1, first);
            assert(e == emit_range(path, k + 1, s, t, dd, r + 1, first));
            assert(defs_within(e, d, hi));
        } else {
            assert(e.len() == 1 && e[0].0 == d + node.opt_level());
            assert(defs_within(e, d, hi));
        }
    }
}

proof fn lemma_def_bound_range(
    path: Seq<Nested>,
    k: int,
    s: int,
    e: int,
    d: int,
    r: int,
    first: int,
)
    requires
        path_wf(path),
        leaf_nullability_consistent(path),
        0 <= k < path.len(),
    ensures
        defs_within(emit_range(path, k, s, e, d, r, first), d, d + max_def_from(path, k)),
    decreases path.len() - k, 1int, e - s,
{
    if s < e {
        let f = if e - 1 == s {
            first
        } else {
            r
        };
        let hi = d + max_def_from(path, k);
        lemma_def_bound_range(path, k, s, e - 1, d, r, first);
        lemma_def_bound_pos(path, k, e - 1, d, r, f);
        let a = emit_range(path, k, s, e - 1, d, r, first);
        let b = emit_pos(path, k, e - 1, d, r, f);
        assert(emit_range(path, k, s, e, d, r, first) == a + b);
        assert forall|i: int| 0 <= i < (a + b).len() implies d <= #[trigger] (a + b)[i].0 <= hi by {
            if i < a.len() {
                assert((a + b)[i] == a[i]);
            } else {
                assert((a + b)[i] == b[i - a.len()]);
            }
        }
    }
}

/// Every definition level lies between 0 and the path's maximum.
pub proof fn lemma_def_levels_bounded(path: Seq<Nested>)
    requires
        path_wf(path),
        leaf_nullability_consistent(path),
    ensures
        defs_within(levels(path), 0, max_def_level(path)),
{
    lemma_def_bound_range(path, 0, 0, path[0].spec_len(), 0, 0, 0);
}

/// Number of level entries position `p` of node `k` yields when every
/// position below it is taken as present.
pub open spec fn slots(path: Seq<Nested>, k: int, p: int) -> int
    decreases path.len() - k, 0int, 0int,
{
    if k < 0 || k >= path.len() {
        0
    } else {
        let node = path[k];
        if node is Primitive {
            1
        } else if node is Struct {
            slots(path, k + 1, p)
        } else if node.run_start(p) >= node.run_end(p) {
            1
        } else {
            slots_range(path, k + 1, node.run_start(p), node.run_end(p))
        }
    }
}

/// Sum of `slots` over positions `s..e` of node `k`.
pub open spec fn slots_range(path: Seq<Nested>, k: int, s: int, e: int) -> int
    decreases path.len() - k, 1int, e - s,
{
    if k < 0 || k >= path.len() || e <= s {
        0
    } else {
        slots_range(path, k, s, e - 1) + slots(path, k, e - 1)
    }
}

/// Every null position hides exactly one slot: a null list has an empty
/// run, a null struct covers one slot of its child.
pub open spec fn nulls_hide_one_slot(path: Seq<Nested>) -> bool {
    forall|k: int, p: int|
        0 <= k < path.len() - 1 && 0 <= p < visited(path, k) && !(#[trigger] path[k].valid_at(p))
            ==> slots(path, k, p) == 1
}

/// Every node but a struct is exactly as long as its parent reaches.
pub open spec fn path_dense(path: Seq<Nested>) -> bool {
    forall|k: int|
        0 <= k < path.len() && !(#[trigger] path[k] is Struct) ==> visited(path, k)
            == path[k].spec_len()
}

proof fn lemma_len_pos(path: Seq<Nested>, k: int, p: int, d: int, r: int, first: int)
    requires
        path_wf(path),
        nulls_hide_one_slot(path),
        0 <= k < path.len(),
        0 <= p < visited(path, k),
    ensures
        emit_pos(path, k, p, d, r, first).len() == slots(path, k, p),
    decreases path.len() - k, 0int, 0int,
{
    let node = path[k];
    if !(node is Primitive) {
        assert(k < path.len() - 1);
        if !node.valid_at(p) {
            assert(slots(path, k, p) == 1);
        } else if node is Struct {
            assert(visited(path, k + 1) == visited(path, k));
            lemma_len_pos(path, k + 1, p, d + node.opt_level(), r, first);
        } else if node.run_start(p) < node.run_end(p) {
            lemma_child_run_in_range(path, k, p);
            lemma_len_range(
                path,
                k + 1,
                node.run_start(p),
                node.run_end(p),
                d + node.opt_level() + 1,
                r + 1,
                first,
            );
        }
    }
}

proof fn lemma_len_range(path: Seq<Nested>, k: int, s: int, e: int, d: int, r: int, first: int)
    requires
        path_wf(path),
        nulls_hide_one_slot(path),
        0 <= k < path.len(),
        0 <= s <= e <= visited(path, k),
    ensures
        emit_range(path, k, s, e, d, r, first).len() == slots_range(path, k, s, e),
    decreases path.len() - k, 1int, e - s,
{
    if s < e {
        let f = if e - 1 == s {
            first
        } else {
            r
        };
        lemma_len_range(path, k, s, e - 1, d, r, first);
        lemma_len_pos(path, k, e - 1, d, r, f);
    }
}

proof fn lemma_slots_range_split(path: Seq<Nested>, k: int, a: int, b: int, c: int)
    requires
        a <= b <= c,
    ensures
        slots_range(path, k, a, c) == slots_range(path, k, a, b) + slots_range(path, k, b, c),
    decreases c - b,
{
    if b < c {
        lemma_slots_range_split(path, k, a, b, c - 1);
    }
}

/// Over the first `c` positions of a repeated node, the slots are its
/// empty runs plus the slots of the child positions its runs cover.
proof fn lemma_slots_repeated(path: Seq<Nested>, k: int, c: int)
    requires
        path_wf(path),
        0 <= k < path.len() - 1,
        path[k].is_repeated(),
        0 <= c <= visited(path, k),
    ensures
        slots_range(path, k, 0, c) == zero_runs(path[k], c) + slots_range(
            path,
            k + 1,
            0,
            path[k].run_start(c),
        ),
    decreases c,
{
    let node = path[k];
    if c == 0 {
        if node is FixedSizeList {
            assert(node->width as int * 0 == 0);
        }
        assert(node.run_start(0) == 0);
    } else {
        lemma_slots_repeated(path, k, c - 1);
        lemma_child_run_in_range(path, k, c - 1);
        lemma_slots_range_split(path, k + 1, 0, node.run_start(c - 1), node.run_start(c));
        assert(node.run_end(c - 1) == node.run_start(c));
        assert(slots_range(path, k, 0, c) == slots_range(path, k, 0, c - 1) + slots(path, k, c - 1));
        assert(zero_runs(node, c) == zero_runs(node, c - 1) + if node.run_start(c - 1) == node.run_end(
            c - 1,
        ) {
            1int
        } else {
            0int
        });
        if node.run_start(c - 1) == node.run_end(c - 1) {
            assert(slots(path, k, c - 1) == 1);
            assert(slots_range(path, k + 1, node.run_start(c - 1), node.run_start(c)) == 0);
        } else {
            assert(slots(path, k, c - 1) == slots_range(
                path,
                k + 1,
                node.run_start(c - 1),
                node.run_end(c - 1),
            ));
        }
    }
}

/// The slots of the positions a walk reaches at node `k` and below.
proof fn lemma_slots_total(path: Seq<Nested>, k: int)
    requires
        path_wf(path),
        path_dense(path),
        0 <= k < path.len(),
    ensures
        slots_range(path, k, 0, visited(path, k)) == zero_runs_from(path, k) + path.last().spec_len(),
    decreases path.len() - k,
{
    let node = path[k];
    let c = visited(path, k);
    lemma_visited_nonneg(path, k);
    if node is Primitive {
        assert(k == path.len() - 1);
        lemma_slots_ones(path, k, c);
        assert(zero_runs_from(path, k + 1) == 0);
        lemma_zero_runs_plain(node, node.spec_len());
    } else {
        assert(k < path.len() - 1);
        lemma_slots_total(path, k + 1);
        if node is Struct {
            lemma_slots_struct(path, k, c);
            lemma_zero_runs_plain(node, node.spec_len());
        } else {
            lemma_slots_repeated(path, k, c);
            assert(visited(path, k + 1) == node.run_start(c));
        }
    }
}

proof fn lemma_visited_nonneg(path: Seq<Nested>, k: int)
    requires
        path_wf(path),
        0 <= k < path.len(),
    ensures
        visited(path, k) >= 0,
    decreases k,
{
    if k > 0 {
        lemma_visited_nonneg(path, k - 1);
        let node = path[k - 1];
        let c = visited(path, k - 1);
        assert(node.node_wf());
        assert(c <= node.spec_len());
        if node is FixedSizeList {
            let w = node->width as int;
            assert(w * c >= 0) by (nonlinear_arith)
                requires
                    w >= 0,
                    c >= 0,
            ;
        } else if node is List || node is LargeList {
            assert(node.offsets_view()[0] <= node.offsets_view()[c]);
        }
    }
}

proof fn lemma_slots_ones(path: Seq<Nested>, k: int, c: int)
    requires
        0 <= k < path.len(),
        path[k] is Primitive,
        0 <= c,
    ensures
        slots_range(path, k, 0, c) == c,
    decreases c,
{
    if c > 0 {
        lemma_slots_ones(path, k, c - 1);
        assert(slots(path, k, c - 1) == 1);
        assert(slots_range(path, k, 0, c) == slots_range(path, k, 0, c - 1) + slots(path, k, c - 1));
    }
}

proof fn lemma_slots_struct(path: Seq<Nested>, k: int, c: int)
    requires
        0 <= k < path.len() - 1,
        path[k] is Struct,
        0 <= c,
    ensures
        slots_range(path, k, 0, c) == slots_range(path, k + 1, 0, c),
    decreases c,
{
    if c > 0 {
        lemma_slots_struct(path, k, c - 1);
        assert(slots(path, k, c - 1) == slots(path, k + 1, c - 1));
        assert(slots_range(path, k, 0, c) == slots_range(path, k, 0, c - 1) + slots(path, k, c - 1));
        assert(slots_range(path, k + 1, 0, c) == slots_range(path, k + 1, 0, c - 1) + slots(
            path,
            k + 1,
            c - 1,
        ));
    }
}

proof fn lemma_zero_runs_plain(node: Nested, n: int)
    requires
        !node.is_repeated(),
    ensures
        zero_runs(node, n) == 0,
    decreases n,
{
    if n > 0 {
        lemma_zero_runs_plain(node, n - 1);
    }
}

/// Empty runs over all positions of nodes `k..`.
pub open spec fn zero_runs_from(path: Seq<Nested>, k: int) -> int
    decreases path.len() - k,
{
    if k < 0 || k >= path.len() {
        0
    } else {
        zero_runs(path[k], path[k].spec_len()) + zero_runs_from(path, k + 1)
    }
}

proof fn lemma_zero_runs_prefix_suffix(path: Seq<Nested>, k: int)
    requires
        0 <= k <= path.len(),
    ensures
        zero_runs_sum(path, k) + zero_runs_from(path, k) == zero_runs_from(path, 0),
    decreases k,
{
    if k > 0 {
        lemma_zero_runs_prefix_suffix(path, k - 1);
    }
}

/// Both level sequences have `num_values` entries, for a path in which
/// every node but a struct is exactly as long as its parent reaches and
/// every null position hides exactly one slot.
pub proof fn lemma_level_count(path: Seq<Nested>)
    requires
        path_wf(path),
        path_dense(path),
        nulls_hide_one_slot(path),
    ensures
        def_part(levels(path)).len() == num_values_spec(path),
        rep_part(levels(path)).len() == num_values_spec(path),
{
    lemma_len_range(path, 0, 0, path[0].spec_len(), 0, 0, 0);
    lemma_slots_total(path, 0);
    lemma_zero_runs_prefix_suffix(path, path.len() as int);
    assert(zero_runs_from(path, path.len() as int) == 0);
}

} // verus!
