//! The descriptor of one leaf column's ancestry: an ordered path of nodes,
//! from the outermost container down to the primitive leaf.
use vstd::prelude::*;

verus! {

/// A variable-length list node: `offsets[i]..offsets[i + 1]` is the run of
/// inner positions that belongs to outer position `i`.
#[derive(Debug, PartialEq)]
pub struct ListNested {
    pub is_optional: bool,
    pub offsets: Vec<usize>,
    pub validity: Option<Vec<bool>>,
}

impl ListNested {
    pub fn new(offsets: Vec<usize>, validity: Option<Vec<bool>>, is_optional: bool) -> (r: Self)
        ensures
            r.is_optional == is_optional,
            r.offsets@ == offsets@,
            r.validity == validity,
    {
        ListNested { is_optional, offsets, validity }
    }
}

/// One node of a nested path.
#[derive(Debug, PartialEq)]
pub enum Nested {
    /// A leaf: validity, is_optional, length.
    Primitive(Option<Vec<bool>>, bool, usize),
    /// A list with 32-bit offsets in its source array.
    List(ListNested),
    /// A list with 64-bit offsets in its source array.
    LargeList(ListNested),
    /// A list whose runs all have the same width.
    FixedSizeList { validity: Option<Vec<bool>>, is_optional: bool, width: usize, len: usize },
    /// A struct: validity, is_optional, length.
    Struct(Option<Vec<bool>>, bool, usize),
}

/// The bits of an optional validity vector.
pub open spec fn bits_view(v: Option<Vec<bool>>) -> Option<Seq<bool>> {
    match v {
        Some(b) => Some(b@),
        None => None,
    }
}

impl Nested {
    /// The validity bits of the node, if it has any.
    pub open spec fn validity_view(&self) -> Option<Seq<bool>> {
        match self {
            Nested::Primitive(v, _, _) => bits_view(*v),
            Nested::List(l) => bits_view(l.validity),
            Nested::LargeList(l) => bits_view(l.validity),
            Nested::FixedSizeList { validity, .. } => bits_view(*validity),
            Nested::Struct(v, _, _) => bits_view(*v),
        }
    }

    /// Whether position `p` is present (a node without validity has no nulls).
    pub open spec fn valid_at(&self, p: int) -> bool {
        match self.validity_view() {
            Some(v) => v[p],
            None => true,
        }
    }

    pub open spec fn optional(&self) -> bool {
        match self {
            Nested::Primitive(_, o, _) => *o,
            Nested::List(l) => l.is_optional,
            Nested::LargeList(l) => l.is_optional,
            Nested::FixedSizeList { is_optional, .. } => *is_optional,
            Nested::Struct(_, o, _) => *o,
        }
    }

    /// 1 for an optional node, else 0.
    pub open spec fn opt_level(&self) -> int {
        if self.optional() {
            1
        } else {
            0
        }
    }

    pub open spec fn is_repeated(&self) -> bool {
        self is List || self is LargeList || self is FixedSizeList
    }

    /// The offsets of a list node (empty for other nodes).
    pub open spec fn offsets_view(&self) -> Seq<usize> {
        match self {
            Nested::List(l) => l.offsets@,
            Nested::LargeList(l) => l.offsets@,
            _ => Seq::empty(),
        }
    }

    /// Number of outer positions of the node.
    pub open spec fn spec_len(&self) -> int {
        match self {
            Nested::Primitive(_, _, n) => *n as int,
            Nested::FixedSizeList { len, .. } => *len as int,
            Nested::Struct(_, _, n) => *n as int,
            _ => if self.offsets_view().len() == 0 {
                0
            } else {
                self.offsets_view().len() - 1
            },
        }
    }

    /// First inner position of the run that belongs to outer position `p`.
    pub open spec fn run_start(&self, p: int) -> int {
        match self {
            Nested::FixedSizeList { width, .. } => *width as int * p,
            _ => self.offsets_view()[p] - self.offsets_view()[0],
        }
    }

    /// One past the last inner position of the run of outer position `p`.
    pub open spec fn run_end(&self, p: int) -> int {
        self.run_start(p + 1)
    }

    /// How many inner positions the first `c` outer positions reach.
    pub open spec fn inner_count(&self, c: int) -> int {
        if self.is_repeated() {
            self.run_start(c)
        } else {
            c
        }
    }

    /// Validity, when present, covers the node; offsets are non-empty and
    /// never decrease; the length fits in a `usize`.
    pub open spec fn node_wf(&self) -> bool {
        &&& self.spec_len() <= usize::MAX
        &&& (self.validity_view() matches Some(v) ==> v.len() == self.spec_len())
        &&& (self is List || self is LargeList) ==> {
            &&& self.offsets_view().len() >= 1
            &&& forall|i: int, j: int|
                0 <= i <= j < self.offsets_view().len() ==> self.offsets_view()[i]
                    <= self.offsets_view()[j]
        }
    }

    /// Whether position `p` is present, computed.
    pub fn is_valid(&self, p: usize) -> (b: bool)
        requires
            self.node_wf(),
            p < self.spec_len(),
        ensures
            b == self.valid_at(p as int),
    {
        let v = match self {
            Nested::Primitive(v, _, _) => v,
            Nested::List(l) => &l.validity,
            Nested::LargeList(l) => &l.validity,
            Nested::FixedSizeList { validity, .. } => validity,
            Nested::Struct(v, _, _) => v,
        };
        match v {
            Some(bits) => bits[p],
            None => true,
        }
    }

    /// Whether the node is optional, computed.
    pub fn is_opt(&self) -> (b: bool)
        ensures
            b == self.optional(),
    {
        match self {
            Nested::Primitive(_, o, _) => *o,
            Nested::List(l) => l.is_optional,
            Nested::LargeList(l) => l.is_optional,
            Nested::FixedSizeList { is_optional, .. } => *is_optional,
            Nested::Struct(_, o, _) => *o,
        }
    }

    /// The run of inner positions of outer position `p` of a repeated node.
    pub fn run_bounds(&self, p: usize) -> (r: (usize, usize))
        requires
            self.is_repeated(),
            self.node_wf(),
            p < self.spec_len(),
            self.run_end(p as int) <= usize::MAX,
        ensures
            r.0 == self.run_start(p as int),
            r.1 == self.run_end(p as int),
            r.0 <= r.1,
    {
        match self {
            Nested::FixedSizeList { width, .. } => {
                proof {
                    vstd::arithmetic::mul::lemma_mul_is_distributive_add(*width as int, p as int, 1);
                }
                (*width * p, *width * p + *width)
            },
            Nested::List(l) => {
                proof {
                    assert(self.offsets_view()[0] <= self.offsets_view()[p as int]);
                    assert(self.offsets_view()[p as int] <= self.offsets_view()[p + 1]);
                }
                let n = l.offsets.len();
                assert(p + 1 < n);
                let o0 = l.offsets[0];
                (l.offsets[p] - o0, l.offsets[p + 1] - o0)
            },
            Nested::LargeList(l) => {
                proof {
                    assert(self.offsets_view()[0] <= self.offsets_view()[p as int]);
                    assert(self.offsets_view()[p as int] <= self.offsets_view()[p + 1]);
                }
                let n = l.offsets.len();
                assert(p + 1 < n);
                let o0 = l.offsets[0];
                (l.offsets[p] - o0, l.offsets[p + 1] - o0)
            },
            _ => (0, 0),
        }
    }

    /// Number of outer positions, computed.
    pub fn len(&self) -> (r: usize)
        ensures
            r == self.spec_len(),
    {
        match self {
            Nested::Primitive(_, _, n) => *n,
            Nested::List(l) => if l.offsets.len() == 0 {
                0
            } else {
                l.offsets.len() - 1
            },
            Nested::LargeList(l) => if l.offsets.len() == 0 {
                0
            } else {
                l.offsets.len() - 1
            },
            Nested::FixedSizeList { len, .. } => *len,
            Nested::Struct(_, _, n) => *n,
        }
    }
}

/// Number of positions of node `k` that a walk from the root reaches.
pub open spec fn visited(path: Seq<Nested>, k: int) -> int
    decreases k,
{
    if k <= 0 {
        path[0].spec_len()
    } else {
        path[k - 1].inner_count(visited(path, k - 1))
    }
}

/// A path that the level computation accepts: non-empty, ending in its only
/// primitive, every node well formed, and every reached position in range.
pub open spec fn path_wf(path: Seq<Nested>) -> bool {
    &&& path.len() >= 1
    &&& path.last() is Primitive
    &&& forall|k: int| 0 <= k < path.len() - 1 ==> !(#[trigger] path[k] is Primitive)
    &&& forall|k: int| 0 <= k < path.len() ==> (#[trigger] path[k]).node_wf()
    &&& forall|k: int| 0 <= k < path.len() ==> visited(path, k) <= (#[trigger] path[k]).spec_len()
}

} // verus!

verus! {

/// Whether one node is well formed, computed.
fn node_is_wf(node: &Nested) -> (b: bool)
    ensures
        b == node.node_wf(),
{
    let n = node.len();
    let validity = match node {
        Nested::Primitive(v, _, _) => v,
        Nested::List(l) => &l.validity,
        Nested::LargeList(l) => &l.validity,
        Nested::FixedSizeList { validity, .. } => validity,
        Nested::Struct(v, _, _) => v,
    };
    if let Some(bits) = validity {
        if bits.len() != n {
            return false;
        }
    }
    let offsets = match node {
        Nested::List(l) => &l.offsets,
        Nested::LargeList(l) => &l.offsets,
        _ => {
            return true;
        },
    };
    assert(offsets@ == node.offsets_view());
    if offsets.len() == 0 {
        return false;
    }
    let mut i: usize = 0;
    while i < offsets.len() - 1
        invariant
            0 <= i < offsets@.len(),
            node is List || node is LargeList,
            offsets@ == node.offsets_view(),
            forall|a: int, b: int| 0 <= a <= b <= i ==> offsets@[a] <= offsets@[b],
        decreases offsets@.len() - i,
    {
        if offsets[i] > offsets[i + 1] {
            assert(node is List || node is LargeList);
            assert(!(node.offsets_view()[i as int] <= node.offsets_view()[i + 1]));
            return false;
        }
        i = i + 1;
    }
    true
}

/// Whether the path is one that the level computation accepts, computed.
pub fn is_well_formed(path: &[Nested]) -> (b: bool)
    ensures
        b == path_wf(path@),
{
    let n = path.len();
    if n == 0 {
        return false;
    }
    if !matches!(path[n - 1], Nested::Primitive(..)) {
        return false;
    }
    let mut c: usize = path[0].len();
    let mut k: usize = 0;
    while k < n
        invariant
            n == path@.len(),
            n >= 1,
            path@.last() is Primitive,
            0 <= k <= n,
            k < n ==> c == visited(path@, k as int),
            forall|j: int| 0 <= j < k && j < n - 1 ==> !(#[trigger] path@[j] is Primitive),
            forall|j: int| 0 <= j < k ==> (#[trigger] path@[j]).node_wf(),
            forall|j: int| 0 <= j < k ==> visited(path@, j) <= (#[trigger] path@[j]).spec_len(),
        decreases n - k,
    {
        let node = &path[k];
        if k + 1 < n && matches!(node, Nested::Primitive(..)) {
            return false;
        }
        if !node_is_wf(node) {
            return false;
        }
        if c > node.len() {
            return false;
        }
        if k + 1 < n {
            let next = match node {
                Nested::List(l) => {
                    proof {
                        assert(node.offsets_view()[0] <= node.offsets_view()[c as int]);
                    }
                    l.offsets[c] - l.offsets[0]
                },
                Nested::LargeList(l) => {
                    proof {
                        assert(node.offsets_view()[0] <= node.offsets_view()[c as int]);
                    }
                    l.offsets[c] - l.offsets[0]
                },
                Nested::FixedSizeList { width, .. } => match width.checked_mul(c) {
                    Some(m) => m,
                    None => {
                        proof {
                            assert(path@[k + 1].node_wf() ==> path@[k + 1].spec_len() <= usize::MAX);
                            assert(visited(path@, k + 1) == *width as int * c as int);
                        }
                        return false;
                    },
                },
                _ => c,
            };
            c = next;
        }
        k = k + 1;
    }
    true
}

/// Number of positions `p < n` of a repeated node whose run is empty.
pub open spec fn zero_runs(node: Nested, n: int) -> int
    decreases n,
{
    if n <= 0 {
        0
    } else {
        zero_runs(node, n - 1) + if node.is_repeated() && node.run_start(n - 1) == node.run_end(
            n - 1,
        ) {
            1int
        } else {
            0int
        }
    }
}

/// Empty runs over all positions of the first `k` nodes.
pub open spec fn zero_runs_sum(path: Seq<Nested>, k: int) -> int
    decreases k,
{
    if k <= 0 {
        0
    } else {
        zero_runs_sum(path, k - 1) + zero_runs(path[k - 1], path[k - 1].spec_len())
    }
}

/// The number of level entries a path emits: one per leaf value, and one
/// placeholder per empty run of a repeated node.
pub open spec fn num_values_spec(path: Seq<Nested>) -> int {
    zero_runs_sum(path, path.len() as int) + path.last().spec_len()
}

proof fn lemma_zero_runs_mono(node: Nested, a: int, b: int)
    requires
        0 <= a <= b,
    ensures
        0 <= zero_runs(node, a) <= zero_runs(node, b),
    decreases b - a,
{
    if a < b {
        lemma_zero_runs_mono(node, a, b - 1);
    } else {
        lemma_zero_runs_nonneg(node, a);
    }
}

proof fn lemma_zero_runs_nonneg(node: Nested, a: int)
    ensures
        0 <= zero_runs(node, a),
    decreases a,
{
    if a > 0 {
        lemma_zero_runs_nonneg(node, a - 1);
    }
}

proof fn lemma_zero_runs_sum_mono(path: Seq<Nested>, a: int, b: int)
    requires
        0 <= a <= b,
    ensures
        0 <= zero_runs_sum(path, a) <= zero_runs_sum(path, b),
    decreases b - a,
{
    if a < b {
        lemma_zero_runs_sum_mono(path, a, b - 1);
        lemma_zero_runs_nonneg(path[b - 1], path[b - 1].spec_len());
    } else {
        lemma_zero_runs_sum_nonneg(path, a);
    }
}

proof fn lemma_zero_runs_sum_nonneg(path: Seq<Nested>, a: int)
    ensures
        0 <= zero_runs_sum(path, a),
    decreases a,
{
    if a > 0 {
        lemma_zero_runs_sum_nonneg(path, a - 1);
        lemma_zero_runs_nonneg(path[a - 1], path[a - 1].spec_len());
    }
}

/// Total number of level entries of the path: the leaf's length plus one
/// placeholder for every empty run of every repeated node.
pub fn num_values(nested: &[Nested]) -> (r: usize)
    requires
        nested@.len() >= 1,
        nested@.last() is Primitive,
        num_values_spec(nested@) <= usize::MAX,
    ensures
        r == num_values_spec(nested@),
{
    let n = nested.len();
    let ghost path = nested@;
    proof {
        lemma_zero_runs_sum_mono(path, 0, n as int);
    }
    let mut total: usize = 0;
    let mut k: usize = 0;
    while k < n
        invariant
            n == path.len(),
            path == nested@,
            0 <= k <= n,
            total == zero_runs_sum(path, k as int),
            zero_runs_sum(path, n as int) + path.last().spec_len() <= usize::MAX,
            path.last().spec_len() >= 0,
        decreases n - k,
    {
        let node = &nested[k];
        let len = node.len();
        let mut p: usize = 0;
        proof {
            lemma_zero_runs_sum_mono(path, k + 1, n as int);
            lemma_zero_runs_mono(*node, 0, len as int);
        }
        while p < len
            invariant
                n == path.len(),
                path == nested@,
                0 <= k < n,
                *node == path[k as int],
                len == node.spec_len(),
                0 <= p <= len,
                total == zero_runs_sum(path, k as int) + zero_runs(*node, p as int),
                zero_runs_sum(path, k as int) + zero_runs(*node, len as int) <= usize::MAX,
            decreases len - p,
        {
            let empty = match node {
                Nested::List(l) => l.offsets[p] == l.offsets[p + 1],
                Nested::LargeList(l) => l.offsets[p] == l.offsets[p + 1],
                Nested::FixedSizeList { width, .. } => *width == 0,
                _ => false,
            };
            proof {
                lemma_zero_runs_mono(*node, p + 1, len as int);
                if node is FixedSizeList {
                    let w = node->width as int;
                    assert(w * (p + 1) == w * p + w) by (nonlinear_arith);
                }
            }
            if empty {
                total = total + 1;
            }
            p = p + 1;
        }
        k = k + 1;
    }
    total + nested[n - 1].len()
}

} // verus!
