//! The heap: an arena of managed cells addressed by stable indices, and a
//! tracing mark-sweep collector.
//!
//! A cell holds either a graph node or a thunk, together with one mark bit
//! used only during collection. Cells are never moved and freed slots are
//! never reused, so a reference to a swept cell is detected (the slot is
//! empty) rather than reading unrelated data.

use vstd::prelude::*;
use vstd::pervasive::VecAdditionalExecFns;

use crate::builtins::{Node, Thunk, ThunkEval};

verus! {

/// A stable reference to a heap cell.
#[derive(Clone, Copy, Debug, PartialEq, Eq, Structural)]
pub struct Gc(pub usize);

/// What a heap cell stores: a graph node, or a thunk.
pub enum HeapVal<T> {
    Full(Node),
    Susp(Thunk<T>),
}

/// The list of cell references still to visit during a collection.
pub type Worklist = Vec<Gc>;

/// A value that can name the heap references it holds, so the collector
/// can trace through it.
pub trait Mark {
    /// The heap references going out of this value.
    spec fn refs(&self) -> Seq<Gc>;

    /// Appends every outgoing heap reference to `worklist`.
    fn mark_refs(&self, worklist: &mut Worklist)
        ensures
            final(worklist)@ == old(worklist)@ + self.refs(),
    ;
}

/// The heap references a node holds.
pub open spec fn node_refs(n: Node) -> Seq<Gc> {
    match n {
        Node::Int(_) => seq![],
        Node::FnDef(_) => seq![],
        Node::App(l, r) => seq![l, r],
        Node::ThunkRef(g) => seq![g],
        Node::NodeRef(g) => seq![g],
    }
}

/// The heap references a cell value holds. An unevaluated thunk's
/// deferred computation is opaque and contributes no edges; a memoized
/// thunk's cached node does.
pub open spec fn val_refs<T: ThunkEval>(v: HeapVal<T>) -> Seq<Gc> {
    match v {
        HeapVal::Full(n) => node_refs(n),
        HeapVal::Susp(Thunk::UThunk(_)) => seq![],
        HeapVal::Susp(Thunk::EThunk(n)) => node_refs(n),
    }
}

impl Mark for Node {
    open spec fn refs(&self) -> Seq<Gc> {
        node_refs(*self)
    }

    /// Adds any contained heap references to the worklist of cells the
    /// collector still has to visit.
    fn mark_refs(&self, worklist: &mut Worklist) {
        match self {
            Node::Int(_) => {},
            Node::FnDef(_) => {},
            Node::App(nl, nr) => {
                worklist.push(*nl);
                worklist.push(*nr);
            },
            Node::ThunkRef(g) => {
                worklist.push(*g);
            },
            Node::NodeRef(g) => {
                worklist.push(*g);
            },
        }
        proof {
            assert(worklist@ =~= old(worklist)@ + self.refs());
        }
    }
}

impl<T: ThunkEval> Mark for HeapVal<T> {
    open spec fn refs(&self) -> Seq<Gc> {
        val_refs(*self)
    }

    fn mark_refs(&self, worklist: &mut Worklist) {
        match self {
            HeapVal::Full(n) => n.mark_refs(worklist),
            HeapVal::Susp(Thunk::UThunk(_)) => {
                proof {
                    assert(worklist@ =~= old(worklist)@ + self.refs());
                }
            },
            HeapVal::Susp(Thunk::EThunk(n)) => n.mark_refs(worklist),
        }
    }
}

/// Stores a value on the general-purpose heap.
pub fn store_boxed<T>(value: T) -> (r: Box<T>)
    ensures
        *r == value,
{
    Box::new(value)
}

/// The managed heap: cell values and their mark bits, index-aligned.
pub struct GcState<T> {
    cells: Vec<Option<HeapVal<T>>>,
    marks: Vec<bool>,
}

/// Cell `i` of heap `h` is allocated.
pub open spec fn live<T: ThunkEval>(h: Seq<Option<HeapVal<T>>>, i: int) -> bool {
    0 <= i < h.len() && h[i] is Some
}

/// Cell `i` is live and holds a reference to index `j`.
pub open spec fn edge<T: ThunkEval>(h: Seq<Option<HeapVal<T>>>, i: int, j: int) -> bool {
    live(h, i) && exists|k: int|
        0 <= k < val_refs(h[i]->Some_0).len() && val_refs(h[i]->Some_0)[k].0 == j
}

/// Index `j` is reachable from the root index set `R` in at most `n` edge
/// steps.
pub open spec fn reach_n<T: ThunkEval>(
    h: Seq<Option<HeapVal<T>>>,
    roots: Set<int>,
    j: int,
    n: nat,
) -> bool
    decreases n,
{
    if n == 0 {
        roots.contains(j)
    } else {
        reach_n(h, roots, j, (n - 1) as nat) || exists|i: int|
            reach_n(h, roots, i, (n - 1) as nat) && edge(h, i, j)
    }
}

/// Index `j` is reachable from the root index set `R`.
pub open spec fn reach<T: ThunkEval>(h: Seq<Option<HeapVal<T>>>, roots: Set<int>, j: int) -> bool {
    exists|n: nat| reach_n(h, roots, j, n)
}

/// What one mark-sweep pass leaves behind: every reachable cell keeps its
/// value, every other slot is empty.
pub open spec fn collect_spec<T: ThunkEval>(
    h: Seq<Option<HeapVal<T>>>,
    roots: Set<int>,
) -> Seq<Option<HeapVal<T>>> {
    Seq::new(h.len(), |i: int| if reach(h, roots, i) { h[i] } else { None })
}

/// The heap references held by the nodes of one frame, in order.
pub open spec fn node_refs_flat(fr: Seq<Node>) -> Seq<Gc>
    decreases fr.len(),
{
    if fr.len() == 0 {
        seq![]
    } else {
        node_refs_flat(fr.drop_last()) + node_refs(fr.last())
    }
}

/// The heap references held by all frames, in order.
pub open spec fn frames_refs(fs: Seq<Seq<Node>>) -> Seq<Gc>
    decreases fs.len(),
{
    if fs.len() == 0 {
        seq![]
    } else {
        frames_refs(fs.drop_last()) + node_refs_flat(fs.last())
    }
}

/// The root index set named by a worklist of references.
pub open spec fn idx_set(wl: Seq<Gc>) -> Set<int> {
    Set::new(|i: int| exists|k: int| 0 <= k < wl.len() && wl[k].0 == i)
}

impl<T: ThunkEval> GcState<T> {
    /// The heap contents, by cell index.
    pub closed spec fn spec_cells(&self) -> Seq<Option<HeapVal<T>>> {
        self.cells@
    }

    /// The mark bits, by cell index.
    pub closed spec fn spec_marks(&self) -> Seq<bool> {
        self.marks@
    }

    /// The heap is internally consistent: one mark bit per cell, and every
    /// mark clear (marks are only ever set transiently inside a collection).
    pub open spec fn wf(&self) -> bool {
        &&& self.spec_marks().len() == self.spec_cells().len()
        &&& forall|i: int| 0 <= i < self.spec_marks().len() ==> !self.spec_marks()[i]
    }

    /// An empty heap.
    pub fn new() -> (r: Self)
        ensures
            r.wf(),
            r.spec_cells().len() == 0,
    {
        GcState { cells: Vec::new(), marks: Vec::new() }
    }

    /// The total number of heap slots, allocated or swept.
    pub fn slot_count(&self) -> (r: usize)
        ensures
            r == self.spec_cells().len(),
    {
        self.cells.len()
    }

    /// The number of live (allocated, unswept) cells.
    pub fn live_count(&self) -> (r: usize)
        ensures
            r == count_live(self.spec_cells(), self.spec_cells().len() as int),
    {
        let mut n: usize = 0;
        let mut i: usize = 0;
        while i < self.cells.len()
            invariant
                0 <= i <= self.cells.len(),
                n == count_live(self.cells@, i as int),
                n <= i,
            decreases self.cells.len() - i,
        {
            if self.cells[i].is_some() {
                n = n + 1;
            }
            i = i + 1;
        }
        n
    }

    /// A borrow of the cell `g` points at, if it is live.
    pub fn cell_ref(&self, g: Gc) -> (r: Option<&HeapVal<T>>)
        ensures
            match r {
                Some(v) => live(self.spec_cells(), g.0 as int) && self.spec_cells()[g.0 as int]
                    == Some(*v),
                None => !live(self.spec_cells(), g.0 as int),
            },
    {
        if g.0 < self.cells.len() {
            self.cells[g.0].as_ref()
        } else {
            None
        }
    }

    /// Overwrites the live cell `g` with `v`.
    pub fn set_cell(&mut self, g: Gc, v: HeapVal<T>)
        requires
            live(old(self).spec_cells(), g.0 as int),
            old(self).spec_marks().len() == old(self).spec_cells().len(),
        ensures
            final(self).spec_cells() == old(self).spec_cells().update(g.0 as int, Some(v)),
            final(self).spec_marks() == old(self).spec_marks(),
    {
        self.cells.set(g.0, Some(v));
    }

    /// Stores `value` in a fresh cell and returns its reference.
    pub fn alloc_cell(&mut self, value: HeapVal<T>) -> (r: Gc)
        requires
            old(self).wf(),
        ensures
            final(self).wf(),
            r.0 == old(self).spec_cells().len(),
            final(self).spec_cells() == old(self).spec_cells().push(Some(value)),
            final(self).spec_marks() == old(self).spec_marks().push(false),
    {
        let idx = self.cells.len();
        self.cells.push(Some(value));
        self.marks.push(false);
        Gc(idx)
    }

    /// Stores a graph node in a fresh cell.
    pub fn alloc_node(&mut self, item: Node) -> (r: Gc)
        requires
            old(self).wf(),
        ensures
            final(self).wf(),
            r.0 == old(self).spec_cells().len(),
            final(self).spec_cells() == old(self).spec_cells().push(Some(HeapVal::Full(item))),
            final(self).spec_marks() == old(self).spec_marks().push(false),
    {
        self.alloc_cell(HeapVal::Full(item))
    }
}

/// The number of allocated cells among the first `k`.
pub open spec fn count_live<T: ThunkEval>(h: Seq<Option<HeapVal<T>>>, k: int) -> nat
    decreases k,
{
    if k <= 0 {
        0
    } else {
        count_live(h, k - 1) + if h[k - 1] is Some {
            1nat
        } else {
            0nat
        }
    }
}

/// Index `j` occurs on the worklist.
pub open spec fn pending(wl: Seq<Gc>, j: int) -> bool {
    exists|k: int| 0 <= k < wl.len() && wl[k].0 == j
}

/// During marking, every index an already-marked cell (or a root) leads to
/// is either dead, already marked, or still waiting on the worklist.
pub open spec fn settled<T: ThunkEval>(
    h: Seq<Option<HeapVal<T>>>,
    marks: Seq<bool>,
    wl: Seq<Gc>,
    j: int,
) -> bool {
    !live(h, j) || marks[j] || pending(wl, j)
}

/// The number of live cells among the first `k` that are not yet marked.
pub open spec fn count_unmarked<T: ThunkEval>(
    h: Seq<Option<HeapVal<T>>>,
    marks: Seq<bool>,
    k: int,
) -> nat
    decreases k,
{
    if k <= 0 {
        0
    } else {
        count_unmarked(h, marks, k - 1) + if live(h, k - 1) && !marks[k - 1] {
            1nat
        } else {
            0nat
        }
    }
}

proof fn lemma_count_unmarked_agree<T: ThunkEval>(
    h: Seq<Option<HeapVal<T>>>,
    m1: Seq<bool>,
    m2: Seq<bool>,
    k: int,
)
    requires
        forall|i: int| 0 <= i < k ==> m1[i] == m2[i],
    ensures
        count_unmarked(h, m1, k) == count_unmarked(h, m2, k),
    decreases k,
{
    if k > 0 {
        lemma_count_unmarked_agree(h, m1, m2, k - 1);
    }
}

proof fn lemma_count_unmarked_update<T: ThunkEval>(
    h: Seq<Option<HeapVal<T>>>,
    marks: Seq<bool>,
    k: int,
    j: int,
)
    requires
        0 <= j < k <= marks.len(),
        live(h, j),
        !marks[j],
    ensures
        count_unmarked(h, marks.update(j, true), k) < count_unmarked(h, marks, k),
    decreases k,
{
    if j == k - 1 {
        lemma_count_unmarked_agree(h, marks.update(j, true), marks, k - 1);
    } else {
        lemma_count_unmarked_update(h, marks, k - 1, j);
    }
}

proof fn lemma_reach_marked<T: ThunkEval>(
    h: Seq<Option<HeapVal<T>>>,
    roots: Set<int>,
    marks: Seq<bool>,
    j: int,
    n: nat,
)
    requires
        marks.len() == h.len(),
        reach_n(h, roots, j, n),
        live(h, j),
        forall|r: int| roots.contains(r) ==> !live(h, r) || marks[r],
        forall|i: int, k: int|
            0 <= i < h.len() && marks[i] && 0 <= k < val_refs(h[i]->Some_0).len() ==> {
                let j = (#[trigger] val_refs(h[i]->Some_0)[k]).0 as int;
                !live(h, j) || marks[j]
            },
    ensures
        marks[j],
    decreases n,
{
    if n == 0 {
        assert(roots.contains(j));
    } else {
        if reach_n(h, roots, j, (n - 1) as nat) {
            lemma_reach_marked(h, roots, marks, j, (n - 1) as nat);
        } else {
            let i = choose|i: int| reach_n(h, roots, i, (n - 1) as nat) && edge(h, i, j);
            lemma_reach_marked(h, roots, marks, i, (n - 1) as nat);
            let k = choose|k: int|
                0 <= k < val_refs(h[i]->Some_0).len() && val_refs(h[i]->Some_0)[k].0 == j;
            assert(!live(h, val_refs(h[i]->Some_0)[k].0 as int) || marks[val_refs(
                h[i]->Some_0,
            )[k].0 as int]);
        }
    }
}

impl<T: ThunkEval> GcState<T> {
    /// Runs one full mark-sweep collection with the references on
    /// `worklist` as roots: every cell reachable from a root keeps its
    /// value; every other cell is freed; every mark bit ends up clear.
    pub fn collect(&mut self, worklist: Worklist)
        requires
            old(self).wf(),
        ensures
            final(self).wf(),
            final(self).spec_cells() == collect_spec(
                old(self).spec_cells(),
                idx_set(worklist@),
            ),
    {
        let ghost h0 = self.cells@;
        let ghost roots = idx_set(worklist@);
        proof {
            assert(forall|k: int|
                0 <= k < worklist@.len() ==> {
                    let j = (#[trigger] worklist@[k]).0 as int;
                    roots.contains(j) && reach_n(h0, roots, j, 0)
                });
        }
        let mut wl = worklist;
        while wl.len() > 0
            invariant
                self.cells@ == h0,
                self.marks@.len() == h0.len(),
                forall|k: int|
                    0 <= k < wl@.len() ==> reach(h0, roots, (#[trigger] wl@[k]).0 as int),
                forall|i: int|
                    0 <= i < h0.len() && #[trigger] self.marks@[i] ==> live(h0, i) && reach(
                        h0,
                        roots,
                        i,
                    ),
                forall|i: int, k: int|
                    0 <= i < h0.len() && self.marks@[i] && 0 <= k < val_refs(
                        h0[i]->Some_0,
                    ).len() ==> settled(
                        h0,
                        self.marks@,
                        wl@,
                        (#[trigger] val_refs(h0[i]->Some_0)[k]).0 as int,
                    ),
                forall|r: int| #[trigger]
                    roots.contains(r) ==> settled(h0, self.marks@, wl@, r),
            decreases count_unmarked(h0, self.marks@, h0.len() as int), wl@.len(),
        {
            let ghost wl_before = wl@;
            let ghost marks_before = self.marks@;
            let g = wl.pop().unwrap();
            let ghost gi = g.0 as int;
            if g.0 < self.marks.len() && self.cells[g.0].is_some() && !self.marks[g.0] {
                self.marks.set(g.0, true);
                proof {
                    lemma_count_unmarked_update(h0, marks_before, h0.len() as int, gi);
                }
                match &self.cells[g.0] {
                    Some(v) => {
                        v.mark_refs(&mut wl);
                        proof {
                            let refs = val_refs(h0[gi]->Some_0);
                            assert(wl@ == wl_before.drop_last() + refs);
                            assert(reach(h0, roots, gi));
                            let n0 = choose|n: nat| reach_n(h0, roots, gi, n);
                            assert forall|k: int| 0 <= k < refs.len() implies reach(
                                h0,
                                roots,
                                (#[trigger] refs[k]).0 as int,
                            ) by {
                                let j = refs[k].0 as int;
                                assert(edge(h0, gi, j));
                                assert(reach_n(h0, roots, j, n0 + 1));
                            };
                            assert forall|k: int| 0 <= k < refs.len() implies pending(
                                wl@,
                                (#[trigger] refs[k]).0 as int,
                            ) by {
                                let p = wl_before.len() - 1 + k;
                                assert(wl@[p] == refs[k]);
                            };
                            assert forall|j: int|
                                settled(h0, marks_before, wl_before, j) implies settled(
                                h0,
                                self.marks@,
                                wl@,
                                j,
                            ) by {
                                if !live(h0, j) {
                                } else if marks_before[j] {
                                    assert(self.marks@[j]);
                                } else if pending(wl_before, j) {
                                    let k = choose|k: int|
                                        0 <= k < wl_before.len() && wl_before[k].0 == j;
                                    if k < wl_before.len() - 1 {
                                        assert(wl@[k] == wl_before[k]);
                                        assert(pending(wl@, j));
                                    } else {
                                        assert(j == gi);
                                        assert(self.marks@[j]);
                                    }
                                }
                            };
                            assert forall|k: int|
                                0 <= k < wl@.len() implies reach(
                                h0,
                                roots,
                                (#[trigger] wl@[k]).0 as int,
                            ) by {
                                if k < wl_before.len() - 1 {
                                    assert(wl@[k] == wl_before[k]);
                                } else {
                                    let kk = k - (wl_before.len() - 1);
                                    assert(wl@[k] == refs[kk]);
                                }
                            };
                            assert forall|i: int, k: int|
                                0 <= i < h0.len() && self.marks@[i] && 0 <= k < val_refs(
                                    h0[i]->Some_0,
                                ).len() implies settled(
                                h0,
                                self.marks@,
                                wl@,
                                (#[trigger] val_refs(h0[i]->Some_0)[k]).0 as int,
                            ) by {
                                let j = val_refs(h0[i]->Some_0)[k].0 as int;
                                if i == gi {
                                    assert(pending(wl@, j));
                                } else {
                                    assert(marks_before[i]);
                                    assert(settled(h0, marks_before, wl_before, j));
                                }
                            };
                        }
                    },
                    None => {
                        proof {
                            assert(false);
                        }
                    },
                }
            } else {
                proof {
                    assert(settled(h0, self.marks@, wl_before, gi) ==> settled(
                        h0,
                        self.marks@,
                        wl@,
                        gi,
                    ));
                    assert forall|j: int|
                        settled(h0, marks_before, wl_before, j) implies settled(
                        h0,
                        self.marks@,
                        wl@,
                        j,
                    ) by {
                        if live(h0, j) && !marks_before[j] && pending(wl_before, j) {
                            let k = choose|k: int|
                                0 <= k < wl_before.len() && wl_before[k].0 == j;
                            if k < wl_before.len() - 1 {
                                assert(wl@[k] == wl_before[k]);
                                assert(pending(wl@, j));
                            } else {
                                assert(j == gi);
                                assert(!live(h0, gi) || self.marks@[gi]);
                            }
                        }
                    };
                    lemma_count_unmarked_agree(h0, self.marks@, marks_before, h0.len() as int);
                }
            }
        }
        proof {
            assert forall|j: int| live(h0, j) && reach(h0, roots, j) implies #[trigger] self
                .marks@[j] by {
                let n = choose|n: nat| reach_n(h0, roots, j, n);
                lemma_reach_marked(h0, roots, self.marks@, j, n);
            };
        }
        let ghost m1 = self.marks@;
        let mut i: usize = 0;
        while i < self.cells.len()
            invariant
                self.cells@.len() == h0.len(),
                self.marks@.len() == h0.len(),
                0 <= i <= h0.len(),
                forall|j: int| 0 <= j < h0.len() ==> (#[trigger] m1[j] <==> live(h0, j) && reach(
                    h0,
                    roots,
                    j,
                )),
                forall|j: int|
                    0 <= j < i as int && m1[j] ==> #[trigger] self.cells@[j] == h0[j],
                forall|j: int|
                    0 <= j < i as int && !m1[j] ==> #[trigger] self.cells@[j] is None,
                forall|j: int| 0 <= j < i as int ==> !(#[trigger] self.marks@[j]),
                forall|j: int|
                    i as int <= j < h0.len() ==> #[trigger] self.cells@[j] == h0[j],
                forall|j: int|
                    i as int <= j < h0.len() ==> #[trigger] self.marks@[j] == m1[j],
            decreases h0.len() - i,
        {
            if self.marks[i] {
                self.marks.set(i, false);
            } else {
                self.cells.set(i, None);
            }
            i = i + 1;
        }
        proof {
            let target = collect_spec(h0, roots);
            assert forall|j: int| 0 <= j < h0.len() implies self.cells@[j] == target[j] by {
                if reach(h0, roots, j) && !live(h0, j) {
                    assert(h0[j] is None);
                }
            };
            assert(self.cells@ =~= target);
        }
    }
}

} // verus!
