//! Node model, thunks, and the built-in combinator set of the machine.

use vstd::prelude::*;

use crate::gc::{
    collect_spec, count_live, frames_refs, idx_set, live, node_refs, node_refs_flat, Gc, GcState,
    HeapVal, Mark, Worklist,
};
use crate::semantics::{
    arith_val, chase, cur_frame, force_cell_spec, frames_view, is_node_idx, is_thunk_idx,
    max_steps, mk_ap_spec, mv_wf, node_at, node_ok, realizes, run_spec, spine_args, step_spec,
    val_ok, with_cur, with_frames, MachineView, RunOut, StepRes, Task,
};
use crate::semantics::{
    lemma_node_ok_push, lemma_node_ok_refs_preserved, lemma_run_fail_step, lemma_run_mono,
    lemma_run_next_step, lemma_run_unique, lemma_spine_args_prefix_err, lemma_wf_alloc,
    lemma_wf_collect, lemma_wf_exit, lemma_wf_frames, lemma_wf_thunk_update, lemma_wf_two,
    lemma_wf_with_cur,
};

verus! {

/// The built-in binary arithmetic operations.
#[derive(Clone, Copy, Debug, PartialEq, Eq, Structural)]
pub enum Op {
    Add,
    Sub,
    Mul,
    Div,
}

/// A reference to a named, fixed-arity combinator.
#[derive(Clone, Copy, Debug, PartialEq, Eq, Structural)]
pub struct FnDef {
    pub op: Op,
    pub arity: usize,
}

/// The single value type living on the heap and on the evaluation stacks.
///
/// `App`, `ThunkRef` and `NodeRef` hold references into the machine's heap;
/// `NodeRef` is an indirection to another node's already-computed value.
#[derive(Clone, Copy, Debug, PartialEq, Eq, Structural)]
pub enum Node {
    Int(i64),
    FnDef(FnDef),
    App(Gc, Gc),
    ThunkRef(Gc),
    NodeRef(Gc),
}

/// Which operand of a binary combinator an error is about.
#[derive(Clone, Copy, Debug, PartialEq, Eq, Structural)]
pub enum Side {
    Left,
    Right,
}

/// The variant of a `Node`, used to report the actual shape of a value
/// where an integer was required.
#[derive(Clone, Copy, Debug, PartialEq, Eq, Structural)]
pub enum NodeKind {
    IntKind,
    FnDefKind,
    AppKind,
    ThunkRefKind,
    NodeRefKind,
}

/// The error taxonomy of the machine. All of these stem from the content of
/// the user program being run, so they are surfaced as result values rather
/// than aborts.
#[derive(Clone, Copy, Debug, PartialEq, Eq, Structural)]
pub enum VmError {
    /// A pop or peek was attempted on an empty frame.
    StackUnderflow,
    /// A combinator operand evaluated to a non-integer node; names the
    /// offending side and the actual node kind.
    TypeMismatch(Side, NodeKind),
    /// `unwind` reached a function with fewer pending spine arguments than
    /// its declared arity.
    ArityUnderflow,
    /// Integer division with a zero right operand.
    DivisionByZero,
    /// A heap reference does not point at a live cell of the expected kind.
    InvalidReference,
    /// The printer was handed a node that is not a finished value.
    RenderOfNonValue,
}

/// A suspended, possibly shared computation: either still unevaluated, or
/// memoized. The transition is one-way: once forced, a thunk stays
/// `EThunk` and later forces return the cached node.
pub enum Thunk<T> {
    UThunk(T),
    EThunk(Node),
}

/// A deferred computation that a thunk wraps. `thunk_spec` names, at the
/// specification level, the node the computation produces, and
/// `eval_thunk` must produce exactly that node.
pub trait ThunkEval: Sized {
    spec fn thunk_spec(&self) -> Node;

    fn eval_thunk(&self) -> (r: Node)
        ensures
            r == self.thunk_spec(),
    ;
}

/// A named deferred constant: forcing it yields the stored node.
pub struct TracedThunk {
    pub name: String,
    pub value: Node,
}

impl ThunkEval for TracedThunk {
    open spec fn thunk_spec(&self) -> Node {
        self.value
    }

    fn eval_thunk(&self) -> (r: Node) {
        self.value
    }
}

/// The spec-level variant tag of a node.
pub open spec fn spec_kind(n: Node) -> NodeKind {
    match n {
        Node::Int(_) => NodeKind::IntKind,
        Node::FnDef(_) => NodeKind::FnDefKind,
        Node::App(_, _) => NodeKind::AppKind,
        Node::ThunkRef(_) => NodeKind::ThunkRefKind,
        Node::NodeRef(_) => NodeKind::NodeRefKind,
    }
}

/// The variant tag of a node.
pub fn kind_of(n: &Node) -> (r: NodeKind)
    ensures
        r == spec_kind(*n),
{
    match n {
        Node::Int(_) => NodeKind::IntKind,
        Node::FnDef(_) => NodeKind::FnDefKind,
        Node::App(_, _) => NodeKind::AppKind,
        Node::ThunkRef(_) => NodeKind::ThunkRefKind,
        Node::NodeRef(_) => NodeKind::NodeRefKind,
    }
}

/// The add combinator reference.
pub fn fn_add() -> (r: FnDef)
    ensures
        r == (FnDef { op: Op::Add, arity: 2usize }),
{
    FnDef { op: Op::Add, arity: 2 }
}

/// The sub combinator reference.
pub fn fn_sub() -> (r: FnDef)
    ensures
        r == (FnDef { op: Op::Sub, arity: 2usize }),
{
    FnDef { op: Op::Sub, arity: 2 }
}

/// The mul combinator reference.
pub fn fn_mul() -> (r: FnDef)
    ensures
        r == (FnDef { op: Op::Mul, arity: 2usize }),
{
    FnDef { op: Op::Mul, arity: 2 }
}

/// The div combinator reference.
pub fn fn_div() -> (r: FnDef)
    ensures
        r == (FnDef { op: Op::Div, arity: 2usize }),
{
    FnDef { op: Op::Div, arity: 2 }
}

/// The machine: the managed heap, the stack of evaluation frames, and the
/// number of suspended thunk computations that have run.
pub struct State<T> {
    heap: GcState<T>,
    stacks: Vec<Vec<Node>>,
    tevals: u64,
}

impl<T: ThunkEval> View for State<T> {
    type V = MachineView<T>;

    closed spec fn view(&self) -> MachineView<T> {
        MachineView {
            heap: self.heap.spec_cells(),
            marks: self.heap.spec_marks(),
            frames: frames_view(self.stacks@),
            tevals: self.tevals as nat,
        }
    }
}

impl<T: ThunkEval> State<T> {
    /// The machine is well-formed: see `mv_wf`.
    pub open spec fn wf(&self) -> bool {
        mv_wf(self@)
    }

    /// A fresh machine: empty heap, one empty frame, no thunk has run.
    pub fn new() -> (r: Self)
        ensures
            r.wf(),
            r@.heap.len() == 0,
            r@.marks.len() == 0,
            r@.frames == seq![Seq::<Node>::empty()],
            r@.tevals == 0,
    {
        let mut stacks: Vec<Vec<Node>> = Vec::new();
        stacks.push(Vec::new());
        let s = State { heap: GcState::new(), stacks, tevals: 0 };
        proof {
            assert(s@.frames =~= seq![Seq::<Node>::empty()]);
        }
        s
    }

    /// The number of live heap cells, as the debug dump reports it.
    pub fn gc_dump(&self) -> (r: usize)
        ensures
            r == count_live(self@.heap, self@.heap.len() as int),
    {
        self.heap.live_count()
    }

    /// How many suspended thunk computations have run so far.
    pub fn thunk_evals(&self) -> (r: u64)
        ensures
            r as nat == self@.tevals,
    {
        self.tevals
    }

    fn cur_len(&self) -> (r: usize)
        requires
            self@.frames.len() >= 1,
        ensures
            r == cur_frame(self@).len(),
    {
        let n = self.stacks.len();
        self.stacks[n - 1].len()
    }

    fn cur_peek(&self) -> (r: Node)
        requires
            self@.frames.len() >= 1,
            cur_frame(self@).len() >= 1,
        ensures
            r == cur_frame(self@).last(),
    {
        let n = self.stacks.len();
        let fr = &self.stacks[n - 1];
        fr[fr.len() - 1]
    }

    fn cur_get(&self, i: usize) -> (r: Node)
        requires
            self@.frames.len() >= 1,
            i < cur_frame(self@).len(),
        ensures
            r == cur_frame(self@)[i as int],
    {
        let n = self.stacks.len();
        self.stacks[n - 1][i]
    }

    fn cur_pop(&mut self) -> (r: Node)
        requires
            old(self)@.frames.len() >= 1,
            cur_frame(old(self)@).len() >= 1,
        ensures
            final(self)@ == with_cur(old(self)@, cur_frame(old(self)@).drop_last()),
            r == cur_frame(old(self)@).last(),
    {
        let mut fr = self.stacks.pop().unwrap();
        let r = fr.pop().unwrap();
        self.stacks.push(fr);
        proof {
            let target = with_cur(old(self)@, cur_frame(old(self)@).drop_last());
            assert(self@.frames =~= target.frames);
            assert(self@ =~= target);
        }
        r
    }

    fn cur_push(&mut self, n: Node)
        requires
            old(self)@.frames.len() >= 1,
        ensures
            final(self)@ == with_cur(old(self)@, cur_frame(old(self)@).push(n)),
    {
        let mut fr = self.stacks.pop().unwrap();
        fr.push(n);
        self.stacks.push(fr);
        proof {
            let target = with_cur(old(self)@, cur_frame(old(self)@).push(n));
            assert(self@.frames =~= target.frames);
            assert(self@ =~= target);
        }
    }

    fn cur_set_top(&mut self, n: Node)
        requires
            old(self)@.frames.len() >= 1,
            cur_frame(old(self)@).len() >= 1,
        ensures
            final(self)@ == with_cur(
                old(self)@,
                cur_frame(old(self)@).update(cur_frame(old(self)@).len() - 1, n),
            ),
    {
        let mut fr = self.stacks.pop().unwrap();
        let l = fr.len();
        fr.set(l - 1, n);
        self.stacks.push(fr);
        proof {
            let target = with_cur(
                old(self)@,
                cur_frame(old(self)@).update(cur_frame(old(self)@).len() - 1, n),
            );
            assert(self@.frames =~= target.frames);
            assert(self@ =~= target);
        }
    }

    fn cur_truncate(&mut self, new_len: usize)
        requires
            old(self)@.frames.len() >= 1,
            new_len <= cur_frame(old(self)@).len(),
        ensures
            final(self)@ == with_cur(old(self)@, cur_frame(old(self)@).take(new_len as int)),
    {
        let mut fr = self.stacks.pop().unwrap();
        fr.truncate(new_len);
        self.stacks.push(fr);
        proof {
            let target = with_cur(old(self)@, cur_frame(old(self)@).take(new_len as int));
            assert(self@.frames =~= target.frames);
            assert(self@ =~= target);
        }
    }

    fn enter_frame(&mut self)
        ensures
            final(self)@ == with_frames(old(self)@, old(self)@.frames.push(Seq::empty())),
    {
        self.stacks.push(Vec::new());
        proof {
            let target = with_frames(old(self)@, old(self)@.frames.push(Seq::empty()));
            assert(self@.frames =~= target.frames);
            assert(self@ =~= target);
        }
    }

    fn exit_frame(&mut self)
        requires
            old(self)@.frames.len() >= 1,
        ensures
            final(self)@ == with_frames(old(self)@, old(self)@.frames.drop_last()),
    {
        let _ = self.stacks.pop();
        proof {
            let target = with_frames(old(self)@, old(self)@.frames.drop_last());
            assert(self@.frames =~= target.frames);
            assert(self@ =~= target);
        }
    }

    fn get_node(&self, g: Gc) -> (r: Option<Node>)
        ensures
            r == node_at(self@, g),
    {
        match self.heap.cell_ref(g) {
            Some(HeapVal::Full(n)) => Some(*n),
            _ => None,
        }
    }

    fn is_node_cell(&self, g: Gc) -> (r: bool)
        ensures
            r == is_node_idx(self@.heap, g),
    {
        match self.heap.cell_ref(g) {
            Some(HeapVal::Full(_)) => true,
            _ => false,
        }
    }

    fn is_thunk_cell(&self, g: Gc) -> (r: bool)
        ensures
            r == is_thunk_idx(self@.heap, g),
    {
        match self.heap.cell_ref(g) {
            Some(HeapVal::Susp(_)) => true,
            _ => false,
        }
    }

    fn validate_node(&self, n: &Node) -> (r: bool)
        ensures
            r == node_ok(self@.heap, *n),
    {
        match n {
            Node::Int(_) => true,
            Node::FnDef(_) => true,
            Node::App(l, r2) => self.is_node_cell(*l) && self.is_node_cell(*r2),
            Node::ThunkRef(g) => self.is_thunk_cell(*g),
            Node::NodeRef(g) => self.is_node_cell(*g),
        }
    }
}

/// The combinator's arithmetic, in wrapping 64-bit signed arithmetic.
fn arith_exec(op: Op, a: i64, b: i64) -> (r: i64)
    requires
        !(op == Op::Div && b == 0i64),
    ensures
        r == arith_val(op, a, b),
{
    match op {
        Op::Add => a.wrapping_add(b),
        Op::Sub => a.wrapping_sub(b),
        Op::Mul => a.wrapping_mul(b),
        Op::Div => {
            if a == i64::MIN && b == -1 {
                i64::MIN
            } else {
                let ua: u64 = if a < 0 {
                    (-(a as i128)) as u64
                } else {
                    a as u64
                };
                let ub: u64 = if b < 0 {
                    (-(b as i128)) as u64
                } else {
                    b as u64
                };
                proof {
                    assert(ua == vstd::math::abs(a as int));
                    assert(ub == vstd::math::abs(b as int));
                    assert(ua / ub <= ua) by (nonlinear_arith)
                        requires ub >= 1,
                    ;
                    if a == i64::MIN && b < 0 {
                        assert(ub >= 2);
                        assert(ua / ub <= ua / 2) by (nonlinear_arith)
                            requires ub >= 2,
                        ;
                    }
                }
                let uq: u64 = ua / ub;
                if (a < 0) != (b < 0) {
                    (-(uq as i128)) as i64
                } else {
                    uq as i64
                }
            }
        },
    }
}

impl<T: ThunkEval> State<T> {
    /// Forces the thunk cell `g` per `force_cell_spec`: a memoized thunk
    /// returns its cached node; an unevaluated one runs its computation,
    /// validates the result against the heap, memoizes it, and counts it.
    fn force_cell(&mut self, g: Gc) -> (r: Result<Node, VmError>)
        requires
            old(self).wf(),
        ensures
            final(self).wf(),
            r == force_cell_spec(old(self)@, g).0,
            final(self)@ == force_cell_spec(old(self)@, g).1,
    {
        match self.heap.cell_ref(g) {
            Some(HeapVal::Susp(Thunk::EThunk(n))) => Ok(*n),
            Some(HeapVal::Susp(Thunk::UThunk(t))) => {
                let n = t.eval_thunk();
                if self.validate_node(&n) {
                    proof {
                        lemma_wf_thunk_update(self@, g, n);
                    }
                    self.heap.set_cell(g, HeapVal::Susp(Thunk::EThunk(n)));
                    if self.tevals < u64::MAX {
                        self.tevals = self.tevals + 1;
                    }
                    proof {
                        assert(self@ =~= force_cell_spec(old(self)@, g).1);
                    }
                    Ok(n)
                } else {
                    Err(VmError::InvalidReference)
                }
            },
            _ => Err(VmError::InvalidReference),
        }
    }

    /// Runs the pending tasks (last first) until none remain or one fails,
    /// realizing the task machine of `run_spec`.
    #[verifier::rlimit(100)]
    fn run_tasks(&mut self, init: Vec<Task>) -> (r: Result<(), VmError>)
        requires
            old(self).wf(),
        ensures
            final(self).wf(),
            realizes(old(self)@, init@, r, final(self)@),
    {
        let mut tasks = init;
        let mut fuel: u64 = u64::MAX;
        let ghost mut steps: nat = 0nat;
        loop
            invariant
                self.wf(),
                steps + fuel == max_steps(),
                forall|f: nat|
                    run_spec(old(self)@, init@, f + steps) == run_spec(self@, tasks@, f),
            decreases fuel,
        {
            if tasks.len() == 0 {
                proof {
                    assert(run_spec(self@, tasks@, 0nat) == RunOut::<T>::Done(self@));
                    assert(run_spec(old(self)@, init@, 0nat + steps) == run_spec(
                        self@,
                        tasks@,
                        0nat,
                    ));
                    assert forall|f: nat|
                        !(run_spec(old(self)@, init@, f) is Short) implies run_spec(
                        old(self)@,
                        init@,
                        f,
                    ) == RunOut::<T>::Done(self@) by {
                        lemma_run_unique(old(self)@, init@, f, steps);
                    };
                }
                return Ok(());
            }
            if fuel == 0 {
                proof {
                    assert(run_spec(self@, tasks@, 0nat) is Short);
                    assert(run_spec(old(self)@, init@, 0nat + steps) is Short);
                    assert forall|f: nat| f <= max_steps() implies run_spec(
                        old(self)@,
                        init@,
                        f,
                    ) is Short by {
                        if !(run_spec(old(self)@, init@, f) is Short) {
                            lemma_run_mono(old(self)@, init@, f, max_steps());
                        }
                    };
                }
                return Err(VmError::StackUnderflow);
            }
            fuel = fuel - 1;
            let ghost pre = self@;
            let ghost tpre = tasks@;
            let t = tasks.pop().unwrap();
                        let ghost tafter = tasks@;
            let sres = match t {
                Task::Eval => self.step_eval(t, &mut tasks),
                Task::Unwind(d) => self.step_unwind(t, d, &mut tasks),
                Task::Exit => self.step_exit(t, &mut tasks),
                Task::ArithLeft(op) => self.step_arith_left(t, op, &mut tasks),
                Task::ArithRight(op, a) => self.step_arith_right(t, op, a, &mut tasks),
            };
            match sres {
                Ok(()) => {
                    proof {
                        let sr = step_spec(pre, t);
                        let push = sr->Next_1;
                        assert(tafter == tpre.drop_last());
                        assert(tasks@ == tpre.drop_last() + push);
                        lemma_run_next_step(
                            old(self)@,
                            init@,
                            pre,
                            tpre,
                            steps,
                            self@,
                            push,
                            tasks@,
                        );
                        steps = steps + 1nat;
                    }
                },
                Err(e) => {
                    proof {
                        lemma_run_fail_step(old(self)@, init@, pre, tpre, steps, e);
                    }
                    return Err(e);
                },
            }
        }
    }

    #[verifier::rlimit(100)]
    fn step_eval(&mut self, t: Task, tasks: &mut Vec<Task>) -> (r: Result<(), VmError>)
        requires
            old(self).wf(),
            t == Task::Eval,
        ensures
            final(self).wf(),
            match r {
                Ok(()) => step_spec(old(self)@, t) matches StepRes::Next(m2, push) && m2
                    == final(self)@ && final(tasks)@ == old(tasks)@ + push,
                Err(e) => step_spec(old(self)@, t) == StepRes::<T>::Fail(e),
            },
    {
        let ghost pre = self@;
        let ghost tpre = tasks@;

            if self.cur_len() == 0 {
                proof {
                    assert(step_spec(pre, t) == StepRes::<T>::Fail(
                        VmError::StackUnderflow,
                    ));
                }
                return Err(VmError::StackUnderflow);
            }
            let top = self.cur_peek();
            match top {
                Node::Int(_) => {
                    proof {
                        assert(step_spec(pre, t) == StepRes::<T>::Next(
                            pre,
                            Seq::<Task>::empty(),
                        ));
                        assert(tasks@ =~= tpre + Seq::<Task>::empty());
                    }
                },
                Node::FnDef(fd) => {
                    let _popped = self.cur_pop();
                    self.enter_frame();
                    tasks.push(Task::Exit);
                    tasks.push(Task::ArithLeft(fd.op));
                    tasks.push(Task::Eval);
                    proof {
                        let push = seq![Task::Exit, Task::ArithLeft(fd.op), Task::Eval];
                        let fs2 = pre.frames.update(
                            pre.frames.len() - 1,
                            cur_frame(pre).drop_last(),
                        ).push(Seq::<Node>::empty());
                        assert(self@.frames =~= fs2);
                        assert(self@ =~= with_frames(pre, fs2));
                        assert forall|k: int|
                            0 <= k < cur_frame(pre).drop_last().len() implies node_ok(
                            pre.heap,
                            #[trigger] cur_frame(pre).drop_last()[k],
                        ) by {
                            assert(cur_frame(pre).drop_last()[k] == pre.frames[
                                pre.frames.len() - 1][k]);
                        };
                        lemma_wf_two(
                            pre,
                            cur_frame(pre).drop_last(),
                            Seq::<Node>::empty(),
                        );
                        assert(step_spec(pre, t) == StepRes::<T>::Next(self@, push));
                        assert(tasks@ =~= tpre + push);
                    }
                },
                Node::App(_, _) => {
                    let a = self.cur_pop();
                    self.enter_frame();
                    self.cur_push(a);
                    tasks.push(Task::Exit);
                    tasks.push(Task::Unwind(0));
                    proof {
                        let push = seq![Task::Exit, Task::Unwind(0usize)];
                        let fs2 = pre.frames.update(
                            pre.frames.len() - 1,
                            cur_frame(pre).drop_last(),
                        ).push(seq![cur_frame(pre).last()]);
                        assert(self@.frames =~= fs2);
                        assert(self@ =~= with_frames(pre, fs2));
                        assert forall|k: int|
                            0 <= k < cur_frame(pre).drop_last().len() implies node_ok(
                            pre.heap,
                            #[trigger] cur_frame(pre).drop_last()[k],
                        ) by {
                            assert(cur_frame(pre).drop_last()[k] == pre.frames[
                                pre.frames.len() - 1][k]);
                        };
                        assert(node_ok(pre.heap, a));
                        lemma_wf_two(
                            pre,
                            cur_frame(pre).drop_last(),
                            seq![cur_frame(pre).last()],
                        );
                        assert(step_spec(pre, t) == StepRes::<T>::Next(self@, push));
                        assert(tasks@ =~= tpre + push);
                    }
                },
                Node::ThunkRef(g) => {
                    match self.force_cell(g) {
                        Err(e) => {
                            proof {
                                assert(step_spec(pre, t) == StepRes::<T>::Fail(e));
                            }
                            return Err(e);
                        },
                        Ok(n) => {
                            let ghost mid = self@;
                            self.cur_set_top(n);
                            tasks.push(Task::Eval);
                            proof {
                                let push = seq![Task::Eval];
                                assert(node_ok(mid.heap, n)) by {
                                    match crate::semantics::cell_at(pre, g) {
                                        Some(HeapVal::Susp(Thunk::EThunk(n0))) => {
                                            assert(live(pre.heap, g.0 as int));
                                            assert(val_ok(
                                                pre.heap,
                                                pre.heap[g.0 as int]->Some_0,
                                            ));
                                        },
                                        Some(HeapVal::Susp(Thunk::UThunk(t0))) => {
                                            lemma_wf_thunk_update(
                                                pre,
                                                g,
                                                t0.thunk_spec(),
                                            );
                                        },
                                        _ => {},
                                    }
                                };
                                assert forall|k: int|
                                    0 <= k < cur_frame(mid).update(
                                        cur_frame(mid).len() - 1,
                                        n,
                                    ).len() implies node_ok(
                                    mid.heap,
                                    #[trigger] cur_frame(mid).update(
                                        cur_frame(mid).len() - 1,
                                        n,
                                    )[k],
                                ) by {
                                    if k < cur_frame(mid).len() - 1 {
                                        assert(cur_frame(mid)[k] == mid.frames[
                                            mid.frames.len() - 1][k]);
                                    }
                                };
                                lemma_wf_with_cur(
                                    mid,
                                    cur_frame(mid).update(cur_frame(mid).len() - 1, n),
                                );
                                assert(step_spec(pre, t) == StepRes::<T>::Next(
                                    self@,
                                    push,
                                ));
                                assert(tasks@ =~= tpre + push);
                            }
                        },
                    }
                },
                Node::NodeRef(g) => {
                    match self.get_node(g) {
                        None => {
                            proof {
                                assert(step_spec(pre, t) == StepRes::<T>::Fail(
                                    VmError::InvalidReference,
                                ));
                            }
                            return Err(VmError::InvalidReference);
                        },
                        Some(n) => {
                            self.cur_set_top(n);
                            tasks.push(Task::Eval);
                            proof {
                                let push = seq![Task::Eval];
                                assert(node_ok(pre.heap, n)) by {
                                    assert(live(pre.heap, g.0 as int));
                                    assert(val_ok(
                                        pre.heap,
                                        pre.heap[g.0 as int]->Some_0,
                                    ));
                                };
                                assert forall|k: int|
                                    0 <= k < cur_frame(pre).update(
                                        cur_frame(pre).len() - 1,
                                        n,
                                    ).len() implies node_ok(
                                    pre.heap,
                                    #[trigger] cur_frame(pre).update(
                                        cur_frame(pre).len() - 1,
                                        n,
                                    )[k],
                                ) by {
                                    if k < cur_frame(pre).len() - 1 {
                                        assert(cur_frame(pre)[k] == pre.frames[
                                            pre.frames.len() - 1][k]);
                                    }
                                };
                                lemma_wf_with_cur(
                                    pre,
                                    cur_frame(pre).update(cur_frame(pre).len() - 1, n),
                                );
                                assert(step_spec(pre, t) == StepRes::<T>::Next(
                                    self@,
                                    push,
                                ));
                                assert(tasks@ =~= tpre + push);
                            }
                        },
                    }
                },
            }
        
        Ok(())
    }

    #[verifier::rlimit(100)]
    fn step_unwind(&mut self, t: Task, d: usize, tasks: &mut Vec<Task>) -> (r: Result<(), VmError>)
        requires
            old(self).wf(),
            t == Task::Unwind(d),
        ensures
            final(self).wf(),
            match r {
                Ok(()) => step_spec(old(self)@, t) matches StepRes::Next(m2, push) && m2
                    == final(self)@ && final(tasks)@ == old(tasks)@ + push,
                Err(e) => step_spec(old(self)@, t) == StepRes::<T>::Fail(e),
            },
    {
        let ghost pre = self@;
        let ghost tpre = tasks@;

            if self.cur_len() == 0 {
                proof {
                    assert(step_spec(pre, t) == StepRes::<T>::Fail(
                        VmError::StackUnderflow,
                    ));
                }
                return Err(VmError::StackUnderflow);
            }
            let top = self.cur_peek();
            match top {
                Node::App(l, _) => {
                    match self.get_node(l) {
                        None => {
                            proof {
                                assert(step_spec(pre, t) == StepRes::<T>::Fail(
                                    VmError::InvalidReference,
                                ));
                            }
                            return Err(VmError::InvalidReference);
                        },
                        Some(n) => {
                            if d == usize::MAX {
                                proof {
                                    assert(step_spec(pre, t) == StepRes::<T>::Fail(
                                        VmError::StackUnderflow,
                                    ));
                                }
                                return Err(VmError::StackUnderflow);
                            }
                            self.cur_push(n);
                            tasks.push(Task::Unwind(d + 1));
                            proof {
                                let push = seq![Task::Unwind((d + 1) as usize)];
                                let fr2 = cur_frame(pre).push(n);
                                assert(self@ =~= with_cur(pre, fr2));
                                assert(node_ok(pre.heap, n)) by {
                                    assert(live(pre.heap, l.0 as int));
                                    assert(val_ok(
                                        pre.heap,
                                        pre.heap[l.0 as int]->Some_0,
                                    ));
                                };
                                assert forall|k: int|
                                    0 <= k < fr2.len() implies node_ok(
                                    pre.heap,
                                    #[trigger] fr2[k],
                                ) by {
                                    if k < cur_frame(pre).len() {
                                        assert(fr2[k] == pre.frames[
                                            pre.frames.len() - 1][k]);
                                    }
                                };
                                lemma_wf_with_cur(pre, fr2);
                                assert(step_spec(pre, t) == StepRes::<T>::Next(
                                    self@,
                                    push,
                                ));
                                assert(tasks@ =~= tpre + push);
                            }
                        },
                    }
                },
                Node::ThunkRef(g) => {
                    match self.force_cell(g) {
                        Err(e) => {
                            proof {
                                assert(step_spec(pre, t) == StepRes::<T>::Fail(e));
                            }
                            return Err(e);
                        },
                        Ok(n) => {
                            let ghost mid = self@;
                            self.cur_set_top(n);
                            tasks.push(Task::Unwind(d));
                            proof {
                                let push = seq![Task::Unwind(d)];
                                assert(node_ok(mid.heap, n)) by {
                                    match crate::semantics::cell_at(pre, g) {
                                        Some(HeapVal::Susp(Thunk::EThunk(n0))) => {
                                            assert(live(pre.heap, g.0 as int));
                                            assert(val_ok(
                                                pre.heap,
                                                pre.heap[g.0 as int]->Some_0,
                                            ));
                                        },
                                        Some(HeapVal::Susp(Thunk::UThunk(t0))) => {
                                            lemma_wf_thunk_update(
                                                pre,
                                                g,
                                                t0.thunk_spec(),
                                            );
                                        },
                                        _ => {},
                                    }
                                };
                                assert forall|k: int|
                                    0 <= k < cur_frame(mid).update(
                                        cur_frame(mid).len() - 1,
                                        n,
                                    ).len() implies node_ok(
                                    mid.heap,
                                    #[trigger] cur_frame(mid).update(
                                        cur_frame(mid).len() - 1,
                                        n,
                                    )[k],
                                ) by {
                                    if k < cur_frame(mid).len() - 1 {
                                        assert(cur_frame(mid)[k] == mid.frames[
                                            mid.frames.len() - 1][k]);
                                    }
                                };
                                lemma_wf_with_cur(
                                    mid,
                                    cur_frame(mid).update(cur_frame(mid).len() - 1, n),
                                );
                                assert(step_spec(pre, t) == StepRes::<T>::Next(
                                    self@,
                                    push,
                                ));
                                assert(tasks@ =~= tpre + push);
                            }
                        },
                    }
                },
                Node::NodeRef(g) => {
                    match self.get_node(g) {
                        None => {
                            proof {
                                assert(step_spec(pre, t) == StepRes::<T>::Fail(
                                    VmError::InvalidReference,
                                ));
                            }
                            return Err(VmError::InvalidReference);
                        },
                        Some(n) => {
                            self.cur_set_top(n);
                            tasks.push(Task::Unwind(d));
                            proof {
                                let push = seq![Task::Unwind(d)];
                                assert(node_ok(pre.heap, n)) by {
                                    assert(live(pre.heap, g.0 as int));
                                    assert(val_ok(
                                        pre.heap,
                                        pre.heap[g.0 as int]->Some_0,
                                    ));
                                };
                                assert forall|k: int|
                                    0 <= k < cur_frame(pre).update(
                                        cur_frame(pre).len() - 1,
                                        n,
                                    ).len() implies node_ok(
                                    pre.heap,
                                    #[trigger] cur_frame(pre).update(
                                        cur_frame(pre).len() - 1,
                                        n,
                                    )[k],
                                ) by {
                                    if k < cur_frame(pre).len() - 1 {
                                        assert(cur_frame(pre)[k] == pre.frames[
                                            pre.frames.len() - 1][k]);
                                    }
                                };
                                lemma_wf_with_cur(
                                    pre,
                                    cur_frame(pre).update(cur_frame(pre).len() - 1, n),
                                );
                                assert(step_spec(pre, t) == StepRes::<T>::Next(
                                    self@,
                                    push,
                                ));
                                assert(tasks@ =~= tpre + push);
                            }
                        },
                    }
                },
                Node::FnDef(fd) => {
                    let _popped = self.cur_pop();
                    let ghost m_pop = self@;
                    if d >= fd.arity {
                        let clen = self.cur_len();
                        if clen < fd.arity {
                            proof {
                                assert(step_spec(pre, t) == StepRes::<T>::Fail(
                                    VmError::StackUnderflow,
                                ));
                            }
                            return Err(VmError::StackUnderflow);
                        }
                        let base = clen - fd.arity;
                        let ghost entries = cur_frame(m_pop).skip(base as int);
                        proof {
                            assert(cur_frame(m_pop) == cur_frame(pre).drop_last());
                        }
                        let mut args: Vec<Node> = Vec::new();
                        let mut j: usize = 0;
                        while j < fd.arity
                            invariant
                                pre == old(self)@,
                                self@ == m_pop,
                                self.wf(),
                                mv_wf(pre),
                                j <= fd.arity,
                                m_pop == with_cur(pre, cur_frame(pre).drop_last()),
                                pre.frames.len() >= 1,
                                cur_frame(pre).len() >= 1,
                                cur_frame(pre).last() == Node::FnDef(fd),
                                d >= fd.arity,
                                t == Task::Unwind(d),
                                base + fd.arity == cur_frame(m_pop).len(),
                                base + fd.arity <= usize::MAX,
                                entries == cur_frame(m_pop).skip(base as int),
                                entries.len() == fd.arity,
                                spine_args(pre, entries.take(j as int)) == Ok::<
                                    Seq<Node>,
                                    VmError,
                                >(args@),
                                args@.len() == j,
                                forall|k: int|
                                    0 <= k < args@.len() ==> node_ok(
                                        pre.heap,
                                        #[trigger] args@[k],
                                    ),
                            decreases fd.arity - j,
                        {
                            let entry = self.cur_get(base + j);
                            proof {
                                assert(entry == entries[j as int]);
                                assert(entries.take(j as int + 1).drop_last()
                                    =~= entries.take(j as int));
                                assert(entries.take(j as int + 1).last() == entry);
                            }
                            match entry {
                                Node::App(_, r2) => {
                                    match self.get_node(r2) {
                                        Some(n) => {
                                            args.push(n);
                                            proof {
                                                assert(node_at(pre, r2) == Some(n));
                                                assert(node_ok(pre.heap, n)) by {
                                                    assert(live(pre.heap, r2.0 as int));
                                                    assert(val_ok(
                                                        pre.heap,
                                                        pre.heap[r2.0 as int]->Some_0,
                                                    ));
                                                };
                                            }
                                        },
                                        None => {
                                            proof {
                                                assert(spine_args(
                                                    pre,
                                                    entries.take(j as int + 1),
                                                ) == Err::<Seq<Node>, VmError>(
                                                    VmError::InvalidReference,
                                                ));
                                                lemma_spine_args_prefix_err(
                                                    pre,
                                                    entries,
                                                    j as int + 1,
                                                    VmError::InvalidReference,
                                                );
                                                assert(step_spec(pre, t)
                                                    == StepRes::<T>::Fail(
                                                    VmError::InvalidReference,
                                                ));
                                            }
                                            return Err(VmError::InvalidReference);
                                        },
                                    }
                                },
                                _ => {
                                    proof {
                                        assert(spine_args(
                                            pre,
                                            entries.take(j as int + 1),
                                        ) == Err::<Seq<Node>, VmError>(
                                            VmError::StackUnderflow,
                                        ));
                                        lemma_spine_args_prefix_err(
                                            pre,
                                            entries,
                                            j as int + 1,
                                            VmError::StackUnderflow,
                                        );
                                        assert(step_spec(pre, t) == StepRes::<T>::Fail(
                                            VmError::StackUnderflow,
                                        ));
                                    }
                                    return Err(VmError::StackUnderflow);
                                },
                            }
                            j = j + 1;
                        }
                        proof {
                            assert(entries.take(fd.arity as int) =~= entries);
                        }
                        self.cur_truncate(base);
                        let mut j2: usize = 0;
                        while j2 < args.len()
                            invariant
                                j2 <= args@.len(),
                                pre.frames.len() >= 1,
                                cur_frame(pre).len() >= 1,
                                m_pop == with_cur(pre, cur_frame(pre).drop_last()),
                                base <= cur_frame(m_pop).len(),
                                self@ == with_cur(
                                    pre,
                                    cur_frame(m_pop).take(base as int) + args@.take(
                                        j2 as int,
                                    ),
                                ),
                                self.wf(),
                                forall|k: int|
                                    0 <= k < args@.len() ==> node_ok(
                                        pre.heap,
                                        #[trigger] args@[k],
                                    ),
                            decreases args@.len() - j2,
                        {
                            let a = args[j2];
                            let ghost before = self@;
                            self.cur_push(a);
                            proof {
                                assert(cur_frame(before) == cur_frame(m_pop).take(
                                    base as int,
                                ) + args@.take(j2 as int));
                                assert(cur_frame(m_pop).take(base as int) + args@.take(
                                    j2 as int + 1,
                                ) =~= cur_frame(before).push(a));
                                assert(self@ =~= with_cur(
                                    pre,
                                    cur_frame(m_pop).take(base as int) + args@.take(
                                        j2 as int + 1,
                                    ),
                                ));
                            }
                            j2 = j2 + 1;
                        }
                        tasks.push(Task::ArithLeft(fd.op));
                        tasks.push(Task::Eval);
                        proof {
                            let push = seq![Task::ArithLeft(fd.op), Task::Eval];
                            assert(args@.take(args@.len() as int) =~= args@);
                            assert(self@ =~= with_cur(
                                pre,
                                cur_frame(pre).drop_last().take(base as int) + args@,
                            ));
                            assert forall|k: int|
                                0 <= k < cur_frame(self@).len() implies node_ok(
                                pre.heap,
                                #[trigger] cur_frame(self@)[k],
                            ) by {
                                if k < base as int {
                                    assert(cur_frame(self@)[k] == cur_frame(
                                        pre,
                                    ).drop_last()[k]);
                                    assert(cur_frame(pre).drop_last()[k] == pre.frames[
                                        pre.frames.len() - 1][k]);
                                } else {
                                    assert(cur_frame(self@)[k] == args@[k - base
                                        as int]);
                                }
                            };
                            lemma_wf_with_cur(pre, cur_frame(self@));
                            assert(step_spec(pre, t) == StepRes::<T>::Next(
                                self@,
                                push,
                            ));
                            assert(tasks@ =~= tpre + push);
                        }
                    } else {
                        proof {
                            assert(step_spec(pre, t) == StepRes::<T>::Fail(
                                VmError::ArityUnderflow,
                            ));
                        }
                        return Err(VmError::ArityUnderflow);
                    }
                },
                Node::Int(_) => {
                    if d == 0 {
                        proof {
                            assert(step_spec(pre, t) == StepRes::<T>::Next(
                                pre,
                                Seq::<Task>::empty(),
                            ));
                            assert(tasks@ =~= tpre + Seq::<Task>::empty());
                        }
                    } else {
                        let clen = self.cur_len();
                        if clen <= d {
                            proof {
                                assert(step_spec(pre, t) == StepRes::<T>::Fail(
                                    VmError::StackUnderflow,
                                ));
                            }
                            return Err(VmError::StackUnderflow);
                        }
                        self.cur_truncate(clen - d);
                        proof {
                            let fr2 = cur_frame(pre).take(
                                cur_frame(pre).len() - d as int,
                            );
                            assert(self@ =~= with_cur(pre, fr2));
                            assert forall|k: int|
                                0 <= k < fr2.len() implies node_ok(
                                pre.heap,
                                #[trigger] fr2[k],
                            ) by {
                                assert(fr2[k] == pre.frames[pre.frames.len() - 1][k]);
                            };
                            lemma_wf_with_cur(pre, fr2);
                            assert(step_spec(pre, t) == StepRes::<T>::Next(
                                self@,
                                Seq::<Task>::empty(),
                            ));
                            assert(tasks@ =~= tpre + Seq::<Task>::empty());
                        }
                    }
                },
            }
        
        Ok(())
    }

    #[verifier::rlimit(100)]
    fn step_exit(&mut self, t: Task, tasks: &mut Vec<Task>) -> (r: Result<(), VmError>)
        requires
            old(self).wf(),
            t == Task::Exit,
        ensures
            final(self).wf(),
            match r {
                Ok(()) => step_spec(old(self)@, t) matches StepRes::Next(m2, push) && m2
                    == final(self)@ && final(tasks)@ == old(tasks)@ + push,
                Err(e) => step_spec(old(self)@, t) == StepRes::<T>::Fail(e),
            },
    {
        let ghost pre = self@;
        let ghost tpre = tasks@;

            if self.stacks.len() < 2 {
                proof {
                    assert(step_spec(pre, t) == StepRes::<T>::Fail(
                        VmError::StackUnderflow,
                    ));
                }
                return Err(VmError::StackUnderflow);
            }
            if self.cur_len() == 0 {
                proof {
                    assert(step_spec(pre, t) == StepRes::<T>::Fail(
                        VmError::StackUnderflow,
                    ));
                }
                return Err(VmError::StackUnderflow);
            }
            let rv = self.cur_pop();
            self.exit_frame();
            self.cur_push(rv);
            proof {
                let outer = pre.frames.drop_last();
                let fs2 = outer.update(pre.frames.len() - 2, outer.last().push(rv));
                assert(self@.frames =~= fs2);
                assert(self@ =~= with_frames(pre, fs2));
                assert(node_ok(pre.heap, rv));
                lemma_wf_exit(pre, rv);
                assert(step_spec(pre, t) == StepRes::<T>::Next(
                    self@,
                    Seq::<Task>::empty(),
                ));
                assert(tasks@ =~= tpre + Seq::<Task>::empty());
            }
        
        Ok(())
    }

    #[verifier::rlimit(100)]
    fn step_arith_left(&mut self, t: Task, op: Op, tasks: &mut Vec<Task>) -> (r: Result<(), VmError>)
        requires
            old(self).wf(),
            t == Task::ArithLeft(op),
        ensures
            final(self).wf(),
            match r {
                Ok(()) => step_spec(old(self)@, t) matches StepRes::Next(m2, push) && m2
                    == final(self)@ && final(tasks)@ == old(tasks)@ + push,
                Err(e) => step_spec(old(self)@, t) == StepRes::<T>::Fail(e),
            },
    {
        let ghost pre = self@;
        let ghost tpre = tasks@;

            if self.cur_len() == 0 {
                proof {
                    assert(step_spec(pre, t) == StepRes::<T>::Fail(
                        VmError::StackUnderflow,
                    ));
                }
                return Err(VmError::StackUnderflow);
            }
            let v = self.cur_pop();
            match v {
                Node::Int(a) => {
                    tasks.push(Task::ArithRight(op, a));
                    tasks.push(Task::Eval);
                    proof {
                        let push = seq![Task::ArithRight(op, a), Task::Eval];
                        assert forall|k: int|
                            0 <= k < cur_frame(pre).drop_last().len() implies node_ok(
                            pre.heap,
                            #[trigger] cur_frame(pre).drop_last()[k],
                        ) by {
                            assert(cur_frame(pre).drop_last()[k] == pre.frames[
                                pre.frames.len() - 1][k]);
                        };
                        lemma_wf_with_cur(pre, cur_frame(pre).drop_last());
                        assert(step_spec(pre, t) == StepRes::<T>::Next(self@, push));
                        assert(tasks@ =~= tpre + push);
                    }
                },
                _ => {
                    let e = VmError::TypeMismatch(Side::Left, kind_of(&v));
                    proof {
                        assert(step_spec(pre, t) == StepRes::<T>::Fail(e));
                    }
                    return Err(e);
                },
            }
        
        Ok(())
    }

    #[verifier::rlimit(100)]
    fn step_arith_right(&mut self, t: Task, op: Op, a: i64, tasks: &mut Vec<Task>) -> (r: Result<(), VmError>)
        requires
            old(self).wf(),
            t == Task::ArithRight(op, a),
        ensures
            final(self).wf(),
            match r {
                Ok(()) => step_spec(old(self)@, t) matches StepRes::Next(m2, push) && m2
                    == final(self)@ && final(tasks)@ == old(tasks)@ + push,
                Err(e) => step_spec(old(self)@, t) == StepRes::<T>::Fail(e),
            },
    {
        let ghost pre = self@;
        let ghost tpre = tasks@;

            if self.cur_len() == 0 {
                proof {
                    assert(step_spec(pre, t) == StepRes::<T>::Fail(
                        VmError::StackUnderflow,
                    ));
                }
                return Err(VmError::StackUnderflow);
            }
            let v = self.cur_pop();
            match v {
                Node::Int(b) => {
                    if op == Op::Div && b == 0 {
                        proof {
                            assert(step_spec(pre, t) == StepRes::<T>::Fail(
                                VmError::DivisionByZero,
                            ));
                        }
                        return Err(VmError::DivisionByZero);
                    }
                    let c = arith_exec(op, a, b);
                    self.cur_push(Node::Int(c));
                    proof {
                        let fr2 = cur_frame(pre).drop_last().push(
                            Node::Int(arith_val(op, a, b)),
                        );
                        assert(self@ =~= with_cur(pre, fr2));
                        assert forall|k: int|
                            0 <= k < fr2.len() implies node_ok(
                            pre.heap,
                            #[trigger] fr2[k],
                        ) by {
                            if k < cur_frame(pre).len() - 1 {
                                assert(fr2[k] == pre.frames[pre.frames.len() - 1][k]);
                            }
                        };
                        lemma_wf_with_cur(pre, fr2);
                        assert(step_spec(pre, t) == StepRes::<T>::Next(
                            self@,
                            Seq::<Task>::empty(),
                        ));
                        assert(tasks@ =~= tpre + Seq::<Task>::empty());
                    }
                },
                _ => {
                    let e = VmError::TypeMismatch(Side::Right, kind_of(&v));
                    proof {
                        assert(step_spec(pre, t) == StepRes::<T>::Fail(e));
                    }
                    return Err(e);
                },
            }
        
        Ok(())
    }
}


impl<T: ThunkEval> State<T> {
    /// Enters a fresh, empty frame on top of the frame stack.
    pub fn stack_enter_new(&mut self)
        requires
            old(self).wf(),
        ensures
            final(self).wf(),
            final(self)@ == with_frames(old(self)@, old(self)@.frames.push(Seq::empty())),
    {
        self.enter_frame();
        proof {
            let fs = old(self)@.frames.push(Seq::<Node>::empty());
            assert forall|f: int, k: int|
                0 <= f < fs.len() && 0 <= k < fs[f].len() implies node_ok(
                old(self)@.heap,
                #[trigger] fs[f][k],
            ) by {
                assert(fs[f][k] == old(self)@.frames[f][k]);
            };
            lemma_wf_frames(old(self)@, fs);
        }
    }

    /// Drops the current frame, resuming the one below it. The bottom
    /// frame cannot be dropped.
    pub fn stack_exit(&mut self) -> (r: Result<(), VmError>)
        requires
            old(self).wf(),
        ensures
            final(self).wf(),
            old(self)@.frames.len() >= 2 ==> r is Ok && final(self)@ == with_frames(
                old(self)@,
                old(self)@.frames.drop_last(),
            ),
            old(self)@.frames.len() < 2 ==> r == Err::<(), VmError>(VmError::StackUnderflow)
                && final(self)@ == old(self)@,
    {
        if self.stacks.len() < 2 {
            Err(VmError::StackUnderflow)
        } else {
            self.exit_frame();
            proof {
                let fs = old(self)@.frames.drop_last();
                assert forall|f: int, k: int|
                    0 <= f < fs.len() && 0 <= k < fs[f].len() implies node_ok(
                    old(self)@.heap,
                    #[trigger] fs[f][k],
                ) by {
                    assert(fs[f][k] == old(self)@.frames[f][k]);
                };
                lemma_wf_frames(old(self)@, fs);
            }
            Ok(())
        }
    }

    /// Pushes a node onto the current frame, after checking that every
    /// heap reference it holds points at a live cell of the right kind.
    pub fn stack_push(&mut self, node: Node) -> (r: Result<(), VmError>)
        requires
            old(self).wf(),
        ensures
            final(self).wf(),
            node_ok(old(self)@.heap, node) ==> r is Ok && final(self)@ == with_cur(
                old(self)@,
                cur_frame(old(self)@).push(node),
            ),
            !node_ok(old(self)@.heap, node) ==> r == Err::<(), VmError>(
                VmError::InvalidReference,
            ) && final(self)@ == old(self)@,
    {
        if self.validate_node(&node) {
            self.cur_push(node);
            proof {
                let fr2 = cur_frame(old(self)@).push(node);
                assert forall|k: int| 0 <= k < fr2.len() implies node_ok(
                    old(self)@.heap,
                    #[trigger] fr2[k],
                ) by {
                    if k < cur_frame(old(self)@).len() {
                        assert(fr2[k] == old(self)@.frames[old(self)@.frames.len() - 1][k]);
                    }
                };
                lemma_wf_with_cur(old(self)@, fr2);
            }
            Ok(())
        } else {
            Err(VmError::InvalidReference)
        }
    }

    /// Pops the current frame's top node.
    pub fn stack_pop(&mut self) -> (r: Result<Node, VmError>)
        requires
            old(self).wf(),
        ensures
            final(self).wf(),
            cur_frame(old(self)@).len() >= 1 ==> r == Ok::<Node, VmError>(
                cur_frame(old(self)@).last(),
            ) && final(self)@ == with_cur(old(self)@, cur_frame(old(self)@).drop_last()),
            cur_frame(old(self)@).len() == 0 ==> r == Err::<Node, VmError>(
                VmError::StackUnderflow,
            ) && final(self)@ == old(self)@,
    {
        if self.cur_len() == 0 {
            Err(VmError::StackUnderflow)
        } else {
            let n = self.cur_pop();
            proof {
                let fr2 = cur_frame(old(self)@).drop_last();
                assert forall|k: int| 0 <= k < fr2.len() implies node_ok(
                    old(self)@.heap,
                    #[trigger] fr2[k],
                ) by {
                    assert(fr2[k] == old(self)@.frames[old(self)@.frames.len() - 1][k]);
                };
                lemma_wf_with_cur(old(self)@, fr2);
            }
            Ok(n)
        }
    }

    /// The number of nodes on the current frame.
    pub fn stack_size(&self) -> (r: usize)
        requires
            self.wf(),
        ensures
            r == cur_frame(self@).len(),
    {
        self.cur_len()
    }

    /// The current frame's top node, without removing it.
    pub fn stack_peek(&self) -> (r: Result<Node, VmError>)
        requires
            self.wf(),
        ensures
            cur_frame(self@).len() >= 1 ==> r == Ok::<Node, VmError>(cur_frame(self@).last()),
            cur_frame(self@).len() == 0 ==> r == Err::<Node, VmError>(VmError::StackUnderflow),
    {
        if self.cur_len() == 0 {
            Err(VmError::StackUnderflow)
        } else {
            Ok(self.cur_peek())
        }
    }

    /// Pushes an integer literal onto the current frame.
    pub fn push_int(&mut self, int_val: i64)
        requires
            old(self).wf(),
        ensures
            final(self).wf(),
            final(self)@ == with_cur(
                old(self)@,
                cur_frame(old(self)@).push(Node::Int(int_val)),
            ),
    {
        self.cur_push(Node::Int(int_val));
        proof {
            let fr2 = cur_frame(old(self)@).push(Node::Int(int_val));
            assert forall|k: int| 0 <= k < fr2.len() implies node_ok(
                old(self)@.heap,
                #[trigger] fr2[k],
            ) by {
                if k < cur_frame(old(self)@).len() {
                    assert(fr2[k] == old(self)@.frames[old(self)@.frames.len() - 1][k]);
                }
            };
            lemma_wf_with_cur(old(self)@, fr2);
        }
    }

    /// Pushes a combinator reference onto the current frame.
    pub fn push_fn(&mut self, fn_def: FnDef)
        requires
            old(self).wf(),
        ensures
            final(self).wf(),
            final(self)@ == with_cur(
                old(self)@,
                cur_frame(old(self)@).push(Node::FnDef(fn_def)),
            ),
    {
        self.cur_push(Node::FnDef(fn_def));
        proof {
            let fr2 = cur_frame(old(self)@).push(Node::FnDef(fn_def));
            assert forall|k: int| 0 <= k < fr2.len() implies node_ok(
                old(self)@.heap,
                #[trigger] fr2[k],
            ) by {
                if k < cur_frame(old(self)@).len() {
                    assert(fr2[k] == old(self)@.frames[old(self)@.frames.len() - 1][k]);
                }
            };
            lemma_wf_with_cur(old(self)@, fr2);
        }
    }

    /// Stores a suspended computation in a fresh thunk cell and returns
    /// its reference; push `Node::ThunkRef` of it to use it.
    pub fn alloc_thunk(&mut self, t: T) -> (r: Gc)
        requires
            old(self).wf(),
        ensures
            final(self).wf(),
            r.0 == old(self)@.heap.len(),
            final(self)@ == (MachineView {
                heap: old(self)@.heap.push(Some(HeapVal::Susp(Thunk::UThunk(t)))),
                marks: old(self)@.marks.push(false),
                ..old(self)@
            }),
    {
        proof {
            lemma_wf_alloc(self@, HeapVal::Susp(Thunk::UThunk(t)));
        }
        let g = self.heap.alloc_cell(HeapVal::Susp(Thunk::UThunk(t)));
        proof {
            assert(self@ =~= (MachineView {
                heap: old(self)@.heap.push(Some(HeapVal::Susp(Thunk::UThunk(t)))),
                marks: old(self)@.marks.push(false),
                ..old(self)@
            }));
        }
        g
    }

    /// Appends to `worklist` the heap references held by every node on
    /// every frame: the collector's roots.
    fn mark_stack_roots(&self, worklist: &mut Worklist)
        ensures
            final(worklist)@ == old(worklist)@ + frames_refs(self@.frames),
    {
        let ghost w0 = worklist@;
        let mut fi: usize = 0;
        while fi < self.stacks.len()
            invariant
                fi <= self.stacks@.len(),
                worklist@ == w0 + frames_refs(self@.frames.take(fi as int)),
            decreases self.stacks@.len() - fi,
        {
            let ghost wf0 = worklist@;
            let fr = &self.stacks[fi];
            let mut ni: usize = 0;
            while ni < fr.len()
                invariant
                    ni <= fr@.len(),
                    worklist@ == wf0 + node_refs_flat(fr@.take(ni as int)),
                decreases fr@.len() - ni,
            {
                fr[ni].mark_refs(worklist);
                proof {
                    assert(fr@.take(ni as int + 1).drop_last() =~= fr@.take(ni as int));
                    assert(fr@.take(ni as int + 1).last() == fr@[ni as int]);
                    assert(worklist@ =~= wf0 + node_refs_flat(fr@.take(ni as int + 1)));
                }
                ni = ni + 1;
            }
            proof {
                assert(fr@.take(fr@.len() as int) =~= fr@);
                assert(self@.frames.take(fi as int + 1).drop_last() =~= self@.frames.take(
                    fi as int,
                ));
                assert(self@.frames.take(fi as int + 1).last() == self@.frames[fi as int]);
                assert(self@.frames[fi as int] == fr@);
                assert(worklist@ =~= w0 + frames_refs(self@.frames.take(fi as int + 1)));
            }
            fi = fi + 1;
        }
        proof {
            assert(self@.frames.take(self@.frames.len() as int) =~= self@.frames);
        }
    }

    /// Runs a full mark-sweep collection. The roots are the references on
    /// `worklist` together with every reference held by a node on a live
    /// frame: afterwards exactly the cells reachable from those roots
    /// remain, with their values unchanged, and every mark bit is clear.
    pub fn collect(&mut self, worklist: Worklist)
        requires
            old(self).wf(),
        ensures
            final(self).wf(),
            final(self)@ == (MachineView {
                heap: collect_spec(
                    old(self)@.heap,
                    idx_set(worklist@ + frames_refs(old(self)@.frames)),
                ),
                ..old(self)@
            }),
    {
        let mut wl = worklist;
        self.mark_stack_roots(&mut wl);
        proof {
            let roots = idx_set(wl@);
            assert forall|j: int|
                crate::semantics::frame_roots(self@.frames).contains(j) implies roots.contains(
                j,
            ) by {
                crate::semantics::lemma_frame_roots_in_refs(self@.frames, j);
                let q = choose|q: int|
                    0 <= q < frames_refs(self@.frames).len() && frames_refs(
                        self@.frames,
                    )[q].0 == j;
                assert(wl@[worklist@.len() + q] == frames_refs(self@.frames)[q]);
            };
            lemma_wf_collect(self@, roots);
        }
        self.heap.collect(wl);
        proof {
            let target = MachineView {
                heap: collect_spec(
                    old(self)@.heap,
                    idx_set(worklist@ + frames_refs(old(self)@.frames)),
                ),
                ..old(self)@
            };
            assert(self@.marks =~= target.marks);
            assert(self@ =~= target);
        }
    }

    /// Stores the two nodes in fresh cells, collecting first with both
    /// nodes' own references pre-marked so a collection can never free the
    /// children of a node that is about to be built.
    fn alloc_nodes(&mut self, node1: Node, node2: Node) -> (r: (Gc, Gc))
        requires
            old(self).wf(),
            node_ok(old(self)@.heap, node1),
            node_ok(old(self)@.heap, node2),
        ensures
            final(self).wf(),
            ({
                let h1 = collect_spec(
                    old(self)@.heap,
                    idx_set(
                        node_refs(node1) + node_refs(node2) + frames_refs(old(self)@.frames),
                    ),
                );
                &&& r.0.0 == h1.len()
                &&& r.1.0 == h1.len() + 1
                &&& final(self)@ == (MachineView {
                    heap: h1.push(Some(HeapVal::Full(node1))).push(Some(HeapVal::Full(node2))),
                    marks: old(self)@.marks.push(false).push(false),
                    ..old(self)@
                })
                &&& node_ok(final(self)@.heap, node1)
                &&& node_ok(final(self)@.heap, node2)
            }),
    {
        let mut wl: Worklist = Vec::new();
        node1.mark_refs(&mut wl);
        node2.mark_refs(&mut wl);
        proof {
            assert(wl@ =~= node_refs(node1) + node_refs(node2));
        }
        self.collect(wl);
        let ghost h1 = self@.heap;
        let ghost roots = idx_set(
            node_refs(node1) + node_refs(node2) + frames_refs(old(self)@.frames),
        );
        proof {
            assert(h1 == collect_spec(old(self)@.heap, roots)) by {
                assert((node_refs(node1) + node_refs(node2)) + frames_refs(old(self)@.frames)
                    =~= node_refs(node1) + node_refs(node2) + frames_refs(old(self)@.frames));
            };
            let comb = node_refs(node1) + node_refs(node2) + frames_refs(old(self)@.frames);
            assert forall|p: int| 0 <= p < node_refs(node1).len() implies roots.contains(
                (#[trigger] node_refs(node1)[p]).0 as int,
            ) by {
                assert(comb[p] == node_refs(node1)[p]);
            };
            assert forall|p: int| 0 <= p < node_refs(node2).len() implies roots.contains(
                (#[trigger] node_refs(node2)[p]).0 as int,
            ) by {
                assert(comb[node_refs(node1).len() + p] == node_refs(node2)[p]);
            };
            lemma_alloc_roots_preserved(old(self)@.heap, roots, node1, node2);
            assert(node_ok(h1, node1) && node_ok(h1, node2));
            lemma_wf_alloc(self@, HeapVal::Full(node1));
        }
        let g1 = self.heap.alloc_node(node1);
        proof {
            let m2 = MachineView {
                heap: h1.push(Some(HeapVal::Full(node1))),
                marks: old(self)@.marks.push(false),
                ..old(self)@
            };
            assert(self@.marks =~= m2.marks);
            assert(self@ =~= m2);
            lemma_node_ok_push(h1, node2, Some(HeapVal::Full(node1)));
            lemma_wf_alloc(self@, HeapVal::Full(node2));
        }
        let g2 = self.heap.alloc_node(node2);
        proof {
            let m3 = MachineView {
                heap: h1.push(Some(HeapVal::Full(node1))).push(Some(HeapVal::Full(node2))),
                marks: old(self)@.marks.push(false).push(false),
                ..old(self)@
            };
            assert(self@.marks =~= m3.marks);
            assert(self@ =~= m3);
            lemma_node_ok_push(h1.push(Some(HeapVal::Full(node1))), node1, Some(
                HeapVal::Full(node2),
            ));
            lemma_node_ok_push(h1.push(Some(HeapVal::Full(node1))), node2, Some(
                HeapVal::Full(node2),
            ));
        }
        (g1, g2)
    }

    /// Pops the function-side node, then the argument-side node, stores
    /// both (collecting first), and pushes their application.
    pub fn mk_ap(&mut self) -> (r: Result<(), VmError>)
        requires
            old(self).wf(),
        ensures
            final(self).wf(),
            cur_frame(old(self)@).len() < 2 ==> r == Err::<(), VmError>(
                VmError::StackUnderflow,
            ) && final(self)@ == old(self)@,
            cur_frame(old(self)@).len() >= 2 ==> r is Ok && final(self)@ == mk_ap_spec(
                old(self)@,
            ),
    {
        if self.cur_len() < 2 {
            return Err(VmError::StackUnderflow);
        }
        let nl = self.cur_pop();
        let nr = self.cur_pop();
        proof {
            assert(node_ok(old(self)@.heap, nl)) by {
                assert(cur_frame(old(self)@).last() == old(self)@.frames[
                    old(self)@.frames.len() - 1][cur_frame(old(self)@).len() - 1]);
            };
            assert(node_ok(old(self)@.heap, nr)) by {
                assert(cur_frame(old(self)@).drop_last().last() == old(self)@.frames[
                    old(self)@.frames.len() - 1][cur_frame(old(self)@).len() - 2]);
            };
            assert(self@ =~= with_cur(
                old(self)@,
                cur_frame(old(self)@).drop_last().drop_last(),
            ));
        }
        let (g1, g2) = self.alloc_nodes(nl, nr);
        let ghost m_alloc = self@;
        self.cur_push(Node::App(g1, g2));
        proof {
            let fr2 = cur_frame(m_alloc).push(Node::App(g1, g2));
            assert(node_ok(m_alloc.heap, Node::App(g1, g2)));
            assert forall|k: int| 0 <= k < fr2.len() implies node_ok(
                m_alloc.heap,
                #[trigger] fr2[k],
            ) by {
                if k < cur_frame(m_alloc).len() {
                    assert(fr2[k] == m_alloc.frames[m_alloc.frames.len() - 1][k]);
                }
            };
            lemma_wf_with_cur(m_alloc, fr2);
            assert(self@ =~= mk_ap_spec(old(self)@));
        }
        Ok(())
    }

    /// Reduces the current frame's top to head-normal form: exactly the
    /// outcome of the task machine started with one `Eval` task.
    pub fn eval(&mut self) -> (r: Result<(), VmError>)
        requires
            old(self).wf(),
        ensures
            final(self).wf(),
            realizes(old(self)@, seq![Task::Eval], r, final(self)@),
    {
        let mut tasks: Vec<Task> = Vec::new();
        tasks.push(Task::Eval);
        proof {
            assert(tasks@ =~= seq![Task::Eval]);
        }
        self.run_tasks(tasks)
    }

    /// Unwinds the current frame's application spine and dispatches the
    /// combinator at its head: exactly the outcome of the task machine
    /// started with one `Unwind` task.
    pub fn unwind(&mut self) -> (r: Result<(), VmError>)
        requires
            old(self).wf(),
        ensures
            final(self).wf(),
            realizes(old(self)@, seq![Task::Unwind(0usize)], r, final(self)@),
    {
        let mut tasks: Vec<Task> = Vec::new();
        tasks.push(Task::Unwind(0));
        proof {
            assert(tasks@ =~= seq![Task::Unwind(0usize)]);
        }
        self.run_tasks(tasks)
    }

    fn run_arith(&mut self, op: Op) -> (r: Result<(), VmError>)
        requires
            old(self).wf(),
        ensures
            final(self).wf(),
            realizes(
                old(self)@,
                seq![Task::ArithLeft(op), Task::Eval],
                r,
                final(self)@,
            ),
    {
        let mut tasks: Vec<Task> = Vec::new();
        tasks.push(Task::ArithLeft(op));
        tasks.push(Task::Eval);
        proof {
            assert(tasks@ =~= seq![Task::ArithLeft(op), Task::Eval]);
        }
        self.run_tasks(tasks)
    }

    /// The finished value on top of the current frame, for the printer.
    /// Indirections are followed to their target, and an integer target is
    /// rendered; an application, a bare combinator reference, a thunk, or
    /// an indirection chain that never resolves is a fatal non-value.
    pub fn render_int(&self) -> (r: Result<i64, VmError>)
        requires
            self.wf(),
        ensures
            cur_frame(self@).len() == 0 ==> r == Err::<i64, VmError>(VmError::StackUnderflow),
            cur_frame(self@).len() >= 1 ==> match chase(
                self@,
                cur_frame(self@).last(),
                self@.heap.len() as nat,
            ) {
                Some(Node::Int(v)) => r == Ok::<i64, VmError>(v),
                _ => r == Err::<i64, VmError>(VmError::RenderOfNonValue),
            },
    {
        if self.cur_len() == 0 {
            return Err(VmError::StackUnderflow);
        }
        let mut n = self.cur_peek();
        let mut left = self.heap.slot_count();
        loop
            invariant
                self@.frames.len() >= 1,
                cur_frame(self@).len() >= 1,
                chase(self@, cur_frame(self@).last(), self@.heap.len() as nat) == chase(
                    self@,
                    n,
                    left as nat,
                ),
            decreases left,
        {
            match n {
                Node::Int(v) => {
                    return Ok(v);
                },
                Node::NodeRef(g) => {
                    if left == 0 {
                        return Err(VmError::RenderOfNonValue);
                    }
                    match self.get_node(g) {
                        Some(n2) => {
                            n = n2;
                            left = left - 1;
                        },
                        None => {
                            return Err(VmError::RenderOfNonValue);
                        },
                    }
                },
                _ => {
                    return Err(VmError::RenderOfNonValue);
                },
            }
        }
    }
}

/// The children pre-marked for an allocation stay live through the
/// collection it triggers, so the nodes about to be stored stay valid.
proof fn lemma_alloc_roots_preserved<T: ThunkEval>(
    h: Seq<Option<HeapVal<T>>>,
    roots: Set<int>,
    node1: Node,
    node2: Node,
)
    requires
        node_ok(h, node1),
        node_ok(h, node2),
        forall|p: int|
            0 <= p < node_refs(node1).len() ==> roots.contains(
                (#[trigger] node_refs(node1)[p]).0 as int,
            ),
        forall|p: int|
            0 <= p < node_refs(node2).len() ==> roots.contains(
                (#[trigger] node_refs(node2)[p]).0 as int,
            ),
    ensures
        node_ok(collect_spec(h, roots), node1),
        node_ok(collect_spec(h, roots), node2),
{
    let h2 = collect_spec(h, roots);
    assert forall|p: int| 0 <= p < node_refs(node1).len() implies h2[(#[trigger] node_refs(
        node1,
    )[p]).0 as int] == h[node_refs(node1)[p].0 as int] by {
        let g = node_refs(node1)[p];
        assert(crate::gc::reach_n(h, roots, g.0 as int, 0));
        lemma_ref_in_range(h, node1, p);
    };
    lemma_node_ok_refs_preserved(h, h2, node1);
    assert forall|p: int| 0 <= p < node_refs(node2).len() implies h2[(#[trigger] node_refs(
        node2,
    )[p]).0 as int] == h[node_refs(node2)[p].0 as int] by {
        let g = node_refs(node2)[p];
        assert(crate::gc::reach_n(h, roots, g.0 as int, 0));
        lemma_ref_in_range(h, node2, p);
    };
    lemma_node_ok_refs_preserved(h, h2, node2);
}

/// A valid node's references all lie within the heap.
proof fn lemma_ref_in_range<T: ThunkEval>(h: Seq<Option<HeapVal<T>>>, n: Node, p: int)
    requires
        node_ok(h, n),
        0 <= p < node_refs(n).len(),
    ensures
        (node_refs(n)[p].0 as int) < h.len(),
{
    match n {
        Node::Int(_) => {},
        Node::FnDef(_) => {},
        Node::App(l, r) => {
            assert(node_refs(n)[0] == l && node_refs(n)[1] == r);
        },
        Node::ThunkRef(g) => {
            assert(node_refs(n)[0] == g);
        },
        Node::NodeRef(g) => {
            assert(node_refs(n)[0] == g);
        },
    }
}

/// Runs the add combinator against the current frame: force the left
/// operand, pop it, force the right operand, pop it, push the sum.
pub fn eval_add<T: ThunkEval>(state: &mut State<T>) -> (r: Result<(), VmError>)
    requires
        old(state).wf(),
    ensures
        final(state).wf(),
        realizes(
            old(state)@,
            seq![Task::ArithLeft(Op::Add), Task::Eval],
            r,
            final(state)@,
        ),
{
    state.run_arith(Op::Add)
}

/// Runs the sub combinator against the current frame.
pub fn eval_sub<T: ThunkEval>(state: &mut State<T>) -> (r: Result<(), VmError>)
    requires
        old(state).wf(),
    ensures
        final(state).wf(),
        realizes(
            old(state)@,
            seq![Task::ArithLeft(Op::Sub), Task::Eval],
            r,
            final(state)@,
        ),
{
    state.run_arith(Op::Sub)
}

/// Runs the mul combinator against the current frame.
pub fn eval_mul<T: ThunkEval>(state: &mut State<T>) -> (r: Result<(), VmError>)
    requires
        old(state).wf(),
    ensures
        final(state).wf(),
        realizes(
            old(state)@,
            seq![Task::ArithLeft(Op::Mul), Task::Eval],
            r,
            final(state)@,
        ),
{
    state.run_arith(Op::Mul)
}

/// Runs the div combinator against the current frame.
pub fn eval_div<T: ThunkEval>(state: &mut State<T>) -> (r: Result<(), VmError>)
    requires
        old(state).wf(),
    ensures
        final(state).wf(),
        realizes(
            old(state)@,
            seq![Task::ArithLeft(Op::Div), Task::Eval],
            r,
            final(state)@,
        ),
{
    state.run_arith(Op::Div)
}

} // verus!
