//! Definition and repetition levels computed one pair at a time, with an
//! explicit stack of one frame per node of the path instead of recursion.
use vstd::prelude::*;
use crate::levels::{def_part, emit_pos, emit_range, levels, rep_part, LevelsError};
use crate::nested::{is_well_formed, path_wf, visited, Nested};
use crate::levels::lemma_child_run_in_range;

verus! {

/// The positions `p..e` of node `k` that are still to be walked; `first` is
/// the repetition level of the next pair, `r` that of every later one.
#[derive(Clone, Copy)]
struct Frame {
    k: usize,
    p: usize,
    e: usize,
    d: u32,
    r: u32,
    first: u32,
}

spec fn frame_levels(path: Seq<Nested>, f: Frame) -> Seq<(int, int)> {
    emit_range(path, f.k as int, f.p as int, f.e as int, f.d as int, f.r as int, f.first as int)
}

/// What the stack still has to emit: the top frame first.
spec fn pending(path: Seq<Nested>, stack: Seq<Frame>) -> Seq<(int, int)>
    decreases stack.len(),
{
    if stack.len() == 0 {
        Seq::empty()
    } else {
        frame_levels(path, stack.last()) + pending(path, stack.drop_last())
    }
}

/// A pull-based walk of a nested path that yields its (definition,
/// repetition) pairs in order.
pub struct LevelIter<'a> {
    nested: &'a [Nested],
    stack: Vec<Frame>,
    emitted: Ghost<Seq<(int, int)>>,
}

proof fn lemma_range_front(path: Seq<Nested>, k: int, p: int, e: int, d: int, r: int, first: int)
    requires
        0 <= k < path.len(),
        p < e,
    ensures
        emit_range(path, k, p, e, d, r, first) == emit_pos(path, k, p, d, r, first) + emit_range(
            path,
            k,
            p + 1,
            e,
            d,
            r,
            r,
        ),
    decreases e - p,
{
    if e - 1 == p {
        assert(emit_range(path, k, p, p, d, r, first) =~= Seq::<(int, int)>::empty());
        assert(emit_range(path, k, p + 1, e, d, r, r) =~= Seq::<(int, int)>::empty());
        assert(emit_range(path, k, p, e, d, r, first) =~= emit_pos(path, k, p, d, r, first));
    } else {
        lemma_range_front(path, k, p, e - 1, d, r, first);
        assert(emit_range(path, k, p, e, d, r, first) =~= emit_pos(path, k, p, d, r, first)
            + emit_range(path, k, p + 1, e, d, r, r));
    }
}

impl<'a> LevelIter<'a> {
    /// The path walked.
    pub closed spec fn path(&self) -> Seq<Nested> {
        self.nested@
    }

    /// The pairs yielded so far.
    pub closed spec fn yielded(&self) -> Seq<(int, int)> {
        self.emitted@
    }

    /// The pairs yielded so far and those still on the stack make up the
    /// levels of the path.
    pub closed spec fn wf(&self) -> bool {
        let path = self.nested@;
        let st = self.stack@;
        &&& path.len() > 0 ==> path_wf(path)
        &&& path.len() < 0x4000_0000
        &&& st.len() <= path.len()
        &&& forall|i: int|
            0 <= i < st.len() ==> {
                let f = #[trigger] st[i];
                &&& f.k == i
                &&& f.p <= f.e <= visited(path, i)
                &&& f.d + 2 * (path.len() - i) <= u32::MAX
                &&& f.r + (path.len() - i) <= u32::MAX
            }
        &&& self.emitted@ + pending(path, st) == levels(path)
    }

    /// Starts a walk of `nested`, or refuses a malformed path.
    pub fn new(nested: &'a [Nested]) -> (r: Result<Self, LevelsError>)
        requires
            nested@.len() < 0x4000_0000,
        ensures
            r is Ok <==> (nested@.len() == 0 || path_wf(nested@)),
            r matches Ok(it) ==> it.wf() && it.path() == nested@ && it.yielded() == Seq::<
                (int, int),
            >::empty(),
    {
        let mut stack: Vec<Frame> = Vec::new();
        if nested.len() == 0 {
            let it = LevelIter { nested, stack, emitted: Ghost(Seq::empty()) };
            proof {
                assert(it.emitted@ + pending(nested@, it.stack@) =~= levels(nested@));
            }
            return Ok(it);
        }
        if !is_well_formed(nested) {
            return Err(LevelsError::MalformedNested);
        }
        let root = Frame { k: 0, p: 0, e: nested[0].len(), d: 0, r: 0, first: 0 };
        stack.push(root);
        let it = LevelIter { nested, stack, emitted: Ghost(Seq::empty()) };
        proof {
            let st = it.stack@;
            assert(st.last() == root);
            assert(st.drop_last() =~= Seq::<Frame>::empty());
            assert(frame_levels(nested@, root) == levels(nested@));
            assert(pending(nested@, st.drop_last()) == Seq::<(int, int)>::empty());
            assert(pending(nested@, st) == frame_levels(nested@, st.last()) + pending(
                nested@,
                st.drop_last(),
            ));
            assert(pending(nested@, st) =~= levels(nested@));
            assert(it.emitted@ + pending(nested@, st) =~= levels(nested@));
        }
        Ok(it)
    }
}

impl<'a> LevelIter<'a> {
    /// What was yielded is the start of the path's levels.
    pub proof fn lemma_yielded_prefix(&self)
        requires
            self.wf(),
        ensures
            self.yielded().len() <= levels(self.path()).len(),
            self.yielded() == levels(self.path()).subrange(0, self.yielded().len() as int),
    {
        let e = self.emitted@;
        let l = levels(self.nested@);
        assert(l.subrange(0, e.len() as int) =~= e);
    }

    /// The next (definition, repetition) pair, or `None` once every pair of
    /// the path was yielded.
    pub fn next(&mut self) -> (r: Option<(u32, u32)>)
        requires
            old(self).wf(),
        ensures
            final(self).wf(),
            final(self).path() == old(self).path(),
            r is None ==> final(self).yielded() == old(self).yielded() && old(self).yielded()
                == levels(old(self).path()),
            r matches Some(x) ==> final(self).yielded() == old(self).yielded().push(
                (x.0 as int, x.1 as int),
            ),
    {
        let ghost path = self.nested@;
        // Drop the frames whose runs are done.
        let mut settled = false;
        while !settled
            invariant
                self.wf(),
                self.nested@ == path,
                self.emitted@ == old(self).emitted@,
                settled ==> self.stack@.len() == 0 || self.stack@.last().p < self.stack@.last().e,
            decreases self.stack@.len() + if settled {
                0int
            } else {
                1int
            },
        {
            let n = self.stack.len();
            if n == 0 {
                settled = true;
            } else if self.stack[n - 1].p < self.stack[n - 1].e {
                settled = true;
            } else {
                let ghost st = self.stack@;
                proof {
                    let f = st.last();
                    assert(frame_levels(path, f) =~= Seq::<(int, int)>::empty());
                }
                self.stack.pop();
                proof {
                    assert(self.stack@ =~= st.drop_last());
                    assert(pending(path, st) =~= pending(path, self.stack@));
                    assert forall|i: int| 0 <= i < self.stack@.len() implies {
                        let f = #[trigger] self.stack@[i];
                        &&& f.k == i
                        &&& f.p <= f.e <= visited(path, i)
                        &&& f.d + 2 * (path.len() - i) <= u32::MAX
                        &&& f.r + (path.len() - i) <= u32::MAX
                    } by {
                        assert(self.stack@[i] == st[i]);
                    }
                }
            }
        }
        if self.stack.len() == 0 {
            proof {
                assert(self.emitted@ + pending(path, self.stack@) =~= self.emitted@);
            }
            return None;
        }
        loop
            invariant
                self.wf(),
                self.nested@ == path,
                self.emitted@ == old(self).emitted@,
                path == old(self).nested@,
                self.stack@.len() > 0,
                self.stack@.last().p < self.stack@.last().e,
            decreases path.len() - self.stack@.len(),
        {
            let n = self.stack.len();
            let f = self.stack[n - 1];
            let ghost st = self.stack@;
            let ghost rest = st.drop_last();
            let k = f.k;
            let p = f.p;
            let first = f.first;
            let next = Frame { k: f.k, p: f.p + 1, e: f.e, d: f.d, r: f.r, first: f.r };
            proof {
                assert(st[n - 1] == f);
                assert(f.k == n - 1);
                assert(path_wf(path));
                lemma_range_front(
                    path,
                    k as int,
                    p as int,
                    f.e as int,
                    f.d as int,
                    f.r as int,
                    first as int,
                );
                assert(pending(path, st) == frame_levels(path, f) + pending(path, rest));
            }
            self.stack.set(n - 1, next);
            let ghost st1 = self.stack@;
            let ghost here = emit_pos(path, k as int, p as int, f.d as int, f.r as int, first as int);
            proof {
                assert(st1.drop_last() =~= rest);
                assert(st1.last() == next);
                assert(pending(path, st1) == frame_levels(path, next) + pending(path, rest));
                assert(pending(path, st) =~= here + pending(path, st1));
                assert(self.emitted@ + here + pending(path, st1) =~= levels(path));
            }
            let node = &self.nested[k];
            proof {
                assert(node.node_wf());
                assert(visited(path, k as int) <= node.spec_len());
            }
            let opt: u32 = if node.is_opt() {
                1
            } else {
                0
            };
            let mut emit: Option<u32> = None;
            if let Nested::Primitive(validity, _, _) = node {
                emit = Some(
                    match validity {
                        Some(bits) => if bits[p] {
                            f.d + 1
                        } else {
                            f.d
                        },
                        None => f.d + opt,
                    },
                );
            } else if !node.is_valid(p) {
                emit = Some(f.d);
            } else if let Nested::Struct(..) = node {
                proof {
                    assert(k < path.len() - 1);
                    assert(visited(path, k + 1) == visited(path, k as int));
                }
                let child = Frame { k: k + 1, p, e: p + 1, d: f.d + opt, r: f.r, first };
                self.stack.push(child);
                proof {
                    let c = emit_pos(path, k + 1, p as int, f.d + opt, f.r as int, first as int);
                    assert(opt == node.opt_level());
                    assert(here == c);
                    assert(emit_range(path, k + 1, p as int, p as int, f.d + opt, f.r as int, first as int)
                        =~= Seq::<(int, int)>::empty());
                    assert(frame_levels(path, child) =~= c);
                }
            } else {
                proof {
                    assert(k < path.len() - 1);
                    lemma_child_run_in_range(path, k as int, p as int);
                    assert(visited(path, k + 1) <= path[k + 1].spec_len());
                    assert(path[k + 1].spec_len() <= usize::MAX);
                }
                let (s, e) = node.run_bounds(p);
                if s == e {
                    emit = Some(f.d + opt);
                } else {
                    let child = Frame { k: k + 1, p: s, e, d: f.d + opt + 1, r: f.r + 1, first };
                    self.stack.push(child);
                    proof {
                        assert(frame_levels(path, child) == here);
                    }
                }
            }
            match emit {
                Some(def) => {
                    proof {
                        assert(here =~= seq![(def as int, first as int)]);
                    }
                    self.emitted = Ghost(self.emitted@.push((def as int, first as int)));
                    proof {
                        assert(self.nested@ == path);
                        assert(self.path() == old(self).path());
                        assert(self.emitted@ + pending(path, self.stack@) =~= levels(path));
                        assert forall|i: int| 0 <= i < self.stack@.len() implies {
                            let g = #[trigger] self.stack@[i];
                            &&& g.k == i
                            &&& g.p <= g.e <= visited(path, i)
                            &&& g.d + 2 * (path.len() - i) <= u32::MAX
                            &&& g.r + (path.len() - i) <= u32::MAX
                        } by {
                            if i < n - 1 {
                                assert(self.stack@[i] == st[i]);
                            }
                        }
                    }
                    return Some((def, first));
                },
                None => {
                    proof {
                        let st2 = self.stack@;
                        assert(st2.drop_last() =~= st1);
                        assert(pending(path, st2) =~= here + pending(path, st1));
                        assert forall|i: int| 0 <= i < st2.len() implies {
                            let g = #[trigger] st2[i];
                            &&& g.k == i
                            &&& g.p <= g.e <= visited(path, i)
                            &&& g.d + 2 * (path.len() - i) <= u32::MAX
                            &&& g.r + (path.len() - i) <= u32::MAX
                        } by {
                            if i < n - 1 {
                                assert(st2[i] == st[i]);
                            }
                        }
                    }
                },
            }
        }
    }
}

/// The definition and repetition levels of a path, pulled one pair at a
/// time from a [`LevelIter`]; the same result as the recursive walk.
pub fn to_levels_streaming(nested: &[Nested]) -> (r: Result<(Vec<u32>, Vec<u32>), LevelsError>)
    requires
        nested@.len() < 0x4000_0000,
    ensures
        r is Ok <==> (nested@.len() == 0 || path_wf(nested@)),
        r matches Ok((d, rp)) ==> d@ == def_part(levels(nested@)) && rp@ == rep_part(
            levels(nested@),
        ),
{
    let mut it = match LevelIter::new(nested) {
        Ok(it) => it,
        Err(e) => {
            return Err(e);
        },
    };
    let mut defs: Vec<u32> = Vec::new();
    let mut reps: Vec<u32> = Vec::new();
    let mut finished = false;
    proof {
        assert(defs@ =~= def_part(it.yielded()));
        assert(reps@ =~= rep_part(it.yielded()));
    }
    while !finished
        invariant
            it.wf(),
            it.path() == nested@,
            defs@ == def_part(it.yielded()),
            reps@ == rep_part(it.yielded()),
            finished ==> it.yielded() == levels(nested@),
        decreases levels(nested@).len() - it.yielded().len() + if finished {
            0int
        } else {
            1int
        },
    {
        proof {
            it.lemma_yielded_prefix();
        }
        match it.next() {
            Some((d, rp)) => {
                proof {
                    it.lemma_yielded_prefix();
                }
                defs.push(d);
                reps.push(rp);
                proof {
                    assert(defs@ =~= def_part(it.yielded()));
                    assert(reps@ =~= rep_part(it.yielded()));
                }
            },
            None => {
                finished = true;
            },
        }
    }
    Ok((defs, reps))
}

} // verus!
