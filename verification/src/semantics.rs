//! The specification-level semantics of the spine evaluator.
//!
//! Evaluation is specified as a small-step task machine: a stack of pending
//! tasks is consumed one step at a time, and `run_spec` says what state a
//! task stack reaches within a given number of steps. The executable
//! evaluator's contracts state that it realizes exactly this machine.

use vstd::prelude::*;

use crate::builtins::{FnDef, Node, Op, Side, Thunk, ThunkEval, VmError, spec_kind};
use crate::gc::{live, node_refs, HeapVal, Gc};

verus! {

/// One pending step of the evaluator.
#[derive(Clone, Copy, Debug, PartialEq, Eq, Structural)]
pub enum Task {
    /// Reduce the top of the current frame to head-normal form.
    Eval,
    /// Continue unwinding the current frame's application spine; the
    /// argument counts the spine entries pushed so far.
    Unwind(usize),
    /// Take the current frame's top as the frame's result, drop the frame,
    /// and push the result onto the resuming frame.
    Exit,
    /// Pop the (forced) left operand of a binary combinator.
    ArithLeft(Op),
    /// Pop the (forced) right operand and push the combinator's result.
    ArithRight(Op, i64),
}

/// The whole machine as contracts see it: the heap cells, their mark bits,
/// the stack of frames, and how many suspended thunk computations have run.
#[verifier::ext_equal]
#[verifier::reject_recursive_types(T)]
pub ghost struct MachineView<T> {
    pub heap: Seq<Option<HeapVal<T>>>,
    pub marks: Seq<bool>,
    pub frames: Seq<Seq<Node>>,
    pub tevals: nat,
}

/// The outcome of one task step.
#[verifier::reject_recursive_types(T)]
pub ghost enum StepRes<T> {
    /// The machine moved to this state and pushed these tasks (the last
    /// one runs first).
    Next(MachineView<T>, Seq<Task>),
    /// Evaluation failed with this error.
    Fail(VmError),
}

/// The outcome of running a task stack for a bounded number of steps.
#[verifier::reject_recursive_types(T)]
pub ghost enum RunOut<T> {
    /// All tasks finished, leaving this state.
    Done(MachineView<T>),
    /// Evaluation failed with this error.
    Fail(VmError),
    /// The step budget ran out first.
    Short,
}

/// The cell `g` points at, if any.
pub open spec fn cell_at<T: ThunkEval>(m: MachineView<T>, g: Gc) -> Option<HeapVal<T>> {
    if (g.0 as int) < m.heap.len() {
        m.heap[g.0 as int]
    } else {
        None
    }
}

/// The node stored in the cell `g` points at, if it is a live node cell.
pub open spec fn node_at<T: ThunkEval>(m: MachineView<T>, g: Gc) -> Option<Node> {
    match cell_at(m, g) {
        Some(HeapVal::Full(n)) => Some(n),
        _ => None,
    }
}

/// `g` points at a live cell holding a graph node.
pub open spec fn is_node_idx<T: ThunkEval>(h: Seq<Option<HeapVal<T>>>, g: Gc) -> bool {
    (g.0 as int) < h.len() && h[g.0 as int] matches Some(HeapVal::Full(_))
}

/// `g` points at a live cell holding a thunk.
pub open spec fn is_thunk_idx<T: ThunkEval>(h: Seq<Option<HeapVal<T>>>, g: Gc) -> bool {
    (g.0 as int) < h.len() && h[g.0 as int] matches Some(HeapVal::Susp(_))
}

/// Every heap reference the node holds points at a live cell of the kind
/// the node expects.
pub open spec fn node_ok<T: ThunkEval>(h: Seq<Option<HeapVal<T>>>, n: Node) -> bool {
    match n {
        Node::Int(_) => true,
        Node::FnDef(_) => true,
        Node::App(l, r) => is_node_idx(h, l) && is_node_idx(h, r),
        Node::ThunkRef(g) => is_thunk_idx(h, g),
        Node::NodeRef(g) => is_node_idx(h, g),
    }
}

/// Every node a cell value holds is valid for the heap.
pub open spec fn val_ok<T: ThunkEval>(h: Seq<Option<HeapVal<T>>>, v: HeapVal<T>) -> bool {
    match v {
        HeapVal::Full(n) => node_ok(h, n),
        HeapVal::Susp(Thunk::UThunk(_)) => true,
        HeapVal::Susp(Thunk::EThunk(n)) => node_ok(h, n),
    }
}

/// Well-formedness of a machine state: mark bits aligned with cells and all
/// clear, at least one frame, and every node in every frame and in every
/// live cell valid for the heap.
pub open spec fn mv_wf<T: ThunkEval>(m: MachineView<T>) -> bool {
    &&& m.marks.len() == m.heap.len()
    &&& forall|i: int| 0 <= i < m.marks.len() ==> !m.marks[i]
    &&& m.frames.len() >= 1
    &&& forall|f: int, k: int|
        0 <= f < m.frames.len() && 0 <= k < m.frames[f].len() ==> node_ok(
            m.heap,
            #[trigger] m.frames[f][k],
        )
    &&& forall|i: int| live(m.heap, i) ==> val_ok(m.heap, #[trigger] m.heap[i]->Some_0)
}

/// The current (topmost) frame.
pub open spec fn cur_frame<T: ThunkEval>(m: MachineView<T>) -> Seq<Node> {
    m.frames.last()
}

/// The machine with its current frame replaced.
pub open spec fn with_cur<T: ThunkEval>(m: MachineView<T>, fr: Seq<Node>) -> MachineView<T> {
    MachineView { frames: m.frames.update(m.frames.len() - 1, fr), ..m }
}

/// Truncating 64-bit signed division (round toward zero), for a nonzero
/// divisor and excluding the one overflowing pair.
pub open spec fn div_trunc(a: int, b: int) -> int {
    if (a >= 0) == (b >= 0) {
        vstd::math::abs(a) as int / vstd::math::abs(b) as int
    } else {
        -(vstd::math::abs(a) as int / vstd::math::abs(b) as int)
    }
}

/// What a binary combinator computes, in wrapping 64-bit signed
/// arithmetic. Division by zero is excluded before this is applied;
/// the one overflowing division wraps.
pub open spec fn arith_val(op: Op, a: i64, b: i64) -> i64 {
    match op {
        Op::Add => a.wrapping_add(b),
        Op::Sub => a.wrapping_sub(b),
        Op::Mul => a.wrapping_mul(b),
        Op::Div => if a == i64::MIN && b == -1 {
            i64::MIN
        } else {
            div_trunc(a as int, b as int) as i64
        },
    }
}

/// The argument nodes of a saturated spine: each entry must be an
/// application node whose right child is a live node cell; its contents
/// are the argument, in spine order.
pub open spec fn spine_args<T: ThunkEval>(m: MachineView<T>, entries: Seq<Node>) -> Result<
    Seq<Node>,
    VmError,
>
    decreases entries.len(),
{
    if entries.len() == 0 {
        Ok(seq![])
    } else {
        match spine_args(m, entries.drop_last()) {
            Err(e) => Err(e),
            Ok(s) => match entries.last() {
                Node::App(_, r) => match node_at(m, r) {
                    Some(n) => Ok(s.push(n)),
                    None => Err(VmError::InvalidReference),
                },
                _ => Err(VmError::StackUnderflow),
            },
        }
    }
}

/// The machine with its frame stack replaced.
pub open spec fn with_frames<T: ThunkEval>(m: MachineView<T>, fs: Seq<Seq<Node>>) -> MachineView<
    T,
> {
    MachineView { frames: fs, ..m }
}

/// Follows a chain of indirection nodes for at most `fuel` hops: the first
/// non-indirection node found. A chain that leaves the heap, or that is
/// circular (and so cannot resolve within `fuel` hops), yields nothing.
pub open spec fn chase<T: ThunkEval>(m: MachineView<T>, n: Node, fuel: nat) -> Option<Node>
    decreases fuel,
{
    match n {
        Node::NodeRef(g) => if fuel == 0 {
            None
        } else {
            match node_at(m, g) {
                Some(n2) => chase(m, n2, (fuel - 1) as nat),
                None => None,
            }
        },
        _ => Some(n),
    }
}

/// Forcing the thunk cell `g`, apart from any frame change: a memoized
/// thunk yields its cached node and leaves the machine unchanged; an
/// unevaluated one runs its deferred computation, whose result is checked
/// against the heap, memoized in the cell, and counted.
pub open spec fn force_cell_spec<T: ThunkEval>(m: MachineView<T>, g: Gc) -> (Result<
    Node,
    VmError,
>, MachineView<T>) {
    match cell_at(m, g) {
        Some(HeapVal::Susp(Thunk::EThunk(n))) => (Ok(n), m),
        Some(HeapVal::Susp(Thunk::UThunk(t))) => {
            let n = t.thunk_spec();
            if !node_ok(m.heap, n) {
                (Err(VmError::InvalidReference), m)
            } else {
                let m2 = MachineView {
                    heap: m.heap.update(g.0 as int, Some(HeapVal::Susp(Thunk::EThunk(n)))),
                    tevals: if m.tevals < u64::MAX as nat {
                        m.tevals + 1
                    } else {
                        m.tevals
                    },
                    ..m
                };
                (Ok(n), m2)
            }
        },
        _ => (Err(VmError::InvalidReference), m),
    }
}

/// Forcing the thunk cell `g`: the resolved node replaces the top of the
/// current frame and `k` continues.
pub open spec fn force_step<T: ThunkEval>(m: MachineView<T>, g: Gc, k: Task) -> StepRes<T> {
    let (r, m2) = force_cell_spec(m, g);
    match r {
        Err(e) => StepRes::Fail(e),
        Ok(n) => StepRes::Next(
            with_cur(m2, cur_frame(m2).update(cur_frame(m2).len() - 1, n)),
            seq![k],
        ),
    }
}

/// One step of the task machine.
pub open spec fn step_spec<T: ThunkEval>(m: MachineView<T>, t: Task) -> StepRes<T> {
    let fr = cur_frame(m);
    match t {
        Task::Eval => {
            if m.frames.len() == 0 || fr.len() == 0 {
                StepRes::Fail(VmError::StackUnderflow)
            } else {
                match fr.last() {
                    Node::Int(_) => StepRes::Next(m, seq![]),
                    Node::FnDef(f) => {
                        let m2 = MachineView {
                            frames: m.frames.update(m.frames.len() - 1, fr.drop_last()).push(
                                seq![],
                            ),
                            ..m
                        };
                        StepRes::Next(m2, seq![Task::Exit, Task::ArithLeft(f.op), Task::Eval])
                    },
                    Node::App(_, _) => {
                        let m2 = MachineView {
                            frames: m.frames.update(m.frames.len() - 1, fr.drop_last()).push(
                                seq![fr.last()],
                            ),
                            ..m
                        };
                        StepRes::Next(m2, seq![Task::Exit, Task::Unwind(0)])
                    },
                    Node::ThunkRef(g) => force_step(m, g, Task::Eval),
                    Node::NodeRef(g) => match node_at(m, g) {
                        Some(n) => StepRes::Next(
                            with_cur(m, fr.update(fr.len() - 1, n)),
                            seq![Task::Eval],
                        ),
                        None => StepRes::Fail(VmError::InvalidReference),
                    },
                }
            }
        },
        Task::Unwind(d) => {
            if m.frames.len() == 0 || fr.len() == 0 {
                StepRes::Fail(VmError::StackUnderflow)
            } else {
                match fr.last() {
                    Node::App(l, _) => match node_at(m, l) {
                        Some(n) => {
                            if d == usize::MAX {
                                StepRes::Fail(VmError::StackUnderflow)
                            } else {
                                StepRes::Next(
                                    with_cur(m, fr.push(n)),
                                    seq![Task::Unwind((d + 1) as usize)],
                                )
                            }
                        },
                        None => StepRes::Fail(VmError::InvalidReference),
                    },
                    Node::ThunkRef(g) => force_step(m, g, Task::Unwind(d)),
                    Node::NodeRef(g) => match node_at(m, g) {
                        Some(n) => StepRes::Next(
                            with_cur(m, fr.update(fr.len() - 1, n)),
                            seq![Task::Unwind(d)],
                        ),
                        None => StepRes::Fail(VmError::InvalidReference),
                    },
                    Node::FnDef(f) => {
                        let fr2 = fr.drop_last();
                        if d >= f.arity {
                            if fr2.len() < f.arity {
                                StepRes::Fail(VmError::StackUnderflow)
                            } else {
                                let base = fr2.len() - f.arity;
                                match spine_args(m, fr2.skip(base)) {
                                    Err(e) => StepRes::Fail(e),
                                    Ok(args) => {
                                        let m2 = with_cur(m, fr2.take(base) + args);
                                        StepRes::Next(
                                            m2,
                                            seq![Task::ArithLeft(f.op), Task::Eval],
                                        )
                                    },
                                }
                            }
                        } else {
                            StepRes::Fail(VmError::ArityUnderflow)
                        }
                    },
                    Node::Int(_) => {
                        if d == 0 {
                            StepRes::Next(m, seq![])
                        } else if fr.len() <= d as nat {
                            StepRes::Fail(VmError::StackUnderflow)
                        } else {
                            StepRes::Next(with_cur(m, fr.take(fr.len() - d as int)), seq![])
                        }
                    },
                }
            }
        },
        Task::Exit => {
            if m.frames.len() < 2 || fr.len() == 0 {
                StepRes::Fail(VmError::StackUnderflow)
            } else {
                let r = fr.last();
                let outer = m.frames.drop_last();
                let m2 = MachineView {
                    frames: outer.update(outer.len() - 1, outer.last().push(r)),
                    ..m
                };
                StepRes::Next(m2, seq![])
            }
        },
        Task::ArithLeft(op) => {
            if m.frames.len() == 0 || fr.len() == 0 {
                StepRes::Fail(VmError::StackUnderflow)
            } else {
                match fr.last() {
                    Node::Int(a) => StepRes::Next(
                        with_cur(m, fr.drop_last()),
                        seq![Task::ArithRight(op, a), Task::Eval],
                    ),
                    n => StepRes::Fail(VmError::TypeMismatch(Side::Left, spec_kind(n))),
                }
            }
        },
        Task::ArithRight(op, a) => {
            if m.frames.len() == 0 || fr.len() == 0 {
                StepRes::Fail(VmError::StackUnderflow)
            } else {
                match fr.last() {
                    Node::Int(b) => {
                        if op == Op::Div && b == 0i64 {
                            StepRes::Fail(VmError::DivisionByZero)
                        } else {
                            StepRes::Next(
                                with_cur(
                                    m,
                                    fr.drop_last().push(Node::Int(arith_val(op, a, b))),
                                ),
                                seq![],
                            )
                        }
                    },
                    n => StepRes::Fail(VmError::TypeMismatch(Side::Right, spec_kind(n))),
                }
            }
        },
    }
}

/// Runs the task stack (last task first) for at most `fuel` steps.
pub open spec fn run_spec<T: ThunkEval>(
    m: MachineView<T>,
    tasks: Seq<Task>,
    fuel: nat,
) -> RunOut<T>
    decreases fuel,
{
    if tasks.len() == 0 {
        RunOut::Done(m)
    } else if fuel == 0 {
        RunOut::Short
    } else {
        match step_spec(m, tasks.last()) {
            StepRes::Fail(e) => RunOut::Fail(e),
            StepRes::Next(m2, push) => run_spec(m2, tasks.drop_last() + push, (fuel - 1) as nat),
        }
    }
}

/// The step budget under which the executable evaluator realizes
/// `run_spec` exactly.
pub open spec fn max_steps() -> nat {
    u64::MAX as nat
}

/// The executable evaluator realizes the task machine: started in state
/// `m0` with task stack `t0` and finishing in state `m1` with result `r`,
/// it returns `Ok` and lands exactly on the state the spec machine
/// reaches whenever the spec machine finishes within the step budget, and
/// it returns exactly the error the spec machine fails with whenever the
/// spec machine fails.
pub open spec fn realizes<T: ThunkEval>(
    m0: MachineView<T>,
    t0: Seq<Task>,
    r: Result<(), VmError>,
    m1: MachineView<T>,
) -> bool {
    &&& forall|f: nat, v: MachineView<T>|
        f <= max_steps() && run_spec(m0, t0, f) == RunOut::<T>::Done(v) ==> r is Ok && m1 == v
    &&& forall|f: nat, e: VmError|
        f <= max_steps() && run_spec(m0, t0, f) == RunOut::<T>::Fail(e) ==> r == Err::<
            (),
            VmError,
        >(e)
    &&& (r is Ok ==> exists|f: nat|
        f <= max_steps() && run_spec(m0, t0, f) == RunOut::<T>::Done(m1))
    &&& (r matches Err(e) ==> (exists|f: nat| run_spec(m0, t0, f) == RunOut::<T>::Fail(e)) || (
    forall|f: nat| f <= max_steps() ==> run_spec(m0, t0, f) is Short))
}

/// More fuel never changes a finished outcome.
pub proof fn lemma_run_mono<T: ThunkEval>(
    m: MachineView<T>,
    tasks: Seq<Task>,
    f1: nat,
    f2: nat,
)
    requires
        f1 <= f2,
        !(run_spec(m, tasks, f1) is Short),
    ensures
        run_spec(m, tasks, f2) == run_spec(m, tasks, f1),
    decreases f1,
{
    if tasks.len() == 0 {
    } else {
        match step_spec(m, tasks.last()) {
            StepRes::Fail(_) => {},
            StepRes::Next(m2, push) => {
                lemma_run_mono(m2, tasks.drop_last() + push, (f1 - 1) as nat, (f2 - 1) as nat);
            },
        }
    }
}

/// A task stack has at most one finished outcome, whatever the fuel.
pub proof fn lemma_run_unique<T: ThunkEval>(
    m: MachineView<T>,
    tasks: Seq<Task>,
    f1: nat,
    f2: nat,
)
    requires
        !(run_spec(m, tasks, f1) is Short),
        !(run_spec(m, tasks, f2) is Short),
    ensures
        run_spec(m, tasks, f1) == run_spec(m, tasks, f2),
{
    if f1 <= f2 {
        lemma_run_mono(m, tasks, f1, f2);
    } else {
        lemma_run_mono(m, tasks, f2, f1);
    }
}

/// Running a task stack to completion underneath earlier pending tasks:
/// once the later tasks have finished, the earlier ones run from the state
/// the later ones left.
pub proof fn lemma_run_seq<T: ThunkEval>(
    m0: MachineView<T>,
    t: Seq<Task>,
    pre: Seq<Task>,
    f1: nat,
    f2: nat,
    m1: MachineView<T>,
)
    requires
        run_spec(m0, t, f1) == RunOut::<T>::Done(m1),
        !(run_spec(m1, pre, f2) is Short),
    ensures
        run_spec(m0, pre + t, f1 + f2) == run_spec(m1, pre, f2),
    decreases f1,
{
    if t.len() == 0 {
        assert(m1 == m0);
        assert(pre + t =~= pre);
        lemma_run_mono(m1, pre, f2, f1 + f2);
    } else {
        match step_spec(m0, t.last()) {
            StepRes::Fail(_) => {
                assert(false);
            },
            StepRes::Next(m2, push) => {
                assert((pre + t).last() == t.last());
                assert((pre + t).drop_last() + push =~= pre + (t.drop_last() + push));
                lemma_run_seq(m2, t.drop_last() + push, pre, (f1 - 1) as nat, f2, m1);
            },
        }
    }
}

/// After a failing step, the whole run fails with that error, whatever
/// sufficient fuel it is given.
pub proof fn lemma_run_fail_step<T: ThunkEval>(
    m0: MachineView<T>,
    t0: Seq<Task>,
    pre: MachineView<T>,
    tpre: Seq<Task>,
    steps: nat,
    e: VmError,
)
    requires
        tpre.len() > 0,
        step_spec(pre, tpre.last()) == StepRes::<T>::Fail(e),
        forall|f: nat| run_spec(m0, t0, f + steps) == run_spec(pre, tpre, f),
    ensures
        run_spec(m0, t0, steps + 1) == RunOut::<T>::Fail(e),
        forall|f: nat|
            !(run_spec(m0, t0, f) is Short) ==> run_spec(m0, t0, f) == RunOut::<T>::Fail(e),
{
    assert(run_spec(pre, tpre, 1) == RunOut::<T>::Fail(e));
    assert(run_spec(m0, t0, 1 + steps) == run_spec(pre, tpre, 1));
    assert forall|f: nat| !(run_spec(m0, t0, f) is Short) implies run_spec(m0, t0, f)
        == RunOut::<T>::Fail(e) by {
        lemma_run_unique(m0, t0, f, steps + 1);
    };
}

/// A successful step carries the fuel-indexed correspondence one step
/// further.
pub proof fn lemma_run_next_step<T: ThunkEval>(
    m0: MachineView<T>,
    t0: Seq<Task>,
    pre: MachineView<T>,
    tpre: Seq<Task>,
    steps: nat,
    m2: MachineView<T>,
    push: Seq<Task>,
    t2: Seq<Task>,
)
    requires
        tpre.len() > 0,
        step_spec(pre, tpre.last()) == StepRes::<T>::Next(m2, push),
        t2 == tpre.drop_last() + push,
        forall|f: nat| run_spec(m0, t0, f + steps) == run_spec(pre, tpre, f),
    ensures
        forall|f: nat| run_spec(m0, t0, f + (steps + 1)) == run_spec(m2, t2, f),
{
    assert forall|f: nat| run_spec(m0, t0, f + (steps + 1)) == run_spec(m2, t2, f) by {
        assert(run_spec(m0, t0, (f + 1) + steps) == run_spec(pre, tpre, f + 1));
        assert(run_spec(pre, tpre, f + 1) == run_spec(m2, t2, f));
    };
}

/// Replacing the frame stack with one whose nodes are all valid preserves
/// well-formedness.
pub proof fn lemma_wf_frames<T: ThunkEval>(m: MachineView<T>, fs: Seq<Seq<Node>>)
    requires
        mv_wf(m),
        fs.len() >= 1,
        forall|f: int, k: int|
            0 <= f < fs.len() && 0 <= k < fs[f].len() ==> node_ok(m.heap, #[trigger] fs[f][k]),
    ensures
        mv_wf(with_frames(m, fs)),
{
}

/// Replacing the current frame with one whose nodes are all valid
/// preserves well-formedness.
pub proof fn lemma_wf_with_cur<T: ThunkEval>(m: MachineView<T>, fr2: Seq<Node>)
    requires
        mv_wf(m),
        forall|k: int| 0 <= k < fr2.len() ==> node_ok(m.heap, #[trigger] fr2[k]),
    ensures
        mv_wf(with_cur(m, fr2)),
{
    let fs = m.frames.update(m.frames.len() - 1, fr2);
    assert forall|f: int, k: int|
        0 <= f < fs.len() && 0 <= k < fs[f].len() implies node_ok(
        m.heap,
        #[trigger] fs[f][k],
    ) by {
        if f == m.frames.len() - 1 {
            assert(fs[f][k] == fr2[k]);
        } else {
            assert(fs[f][k] == m.frames[f][k]);
        }
    };
    lemma_wf_frames(m, fs);
}

/// Replacing the current frame and entering a fresh frame on top, both
/// with valid nodes only, preserves well-formedness.
pub proof fn lemma_wf_two<T: ThunkEval>(m: MachineView<T>, fr2: Seq<Node>, fr3: Seq<Node>)
    requires
        mv_wf(m),
        forall|k: int| 0 <= k < fr2.len() ==> node_ok(m.heap, #[trigger] fr2[k]),
        forall|k: int| 0 <= k < fr3.len() ==> node_ok(m.heap, #[trigger] fr3[k]),
    ensures
        mv_wf(with_frames(m, m.frames.update(m.frames.len() - 1, fr2).push(fr3))),
{
    let fs = m.frames.update(m.frames.len() - 1, fr2).push(fr3);
    assert forall|f: int, k: int|
        0 <= f < fs.len() && 0 <= k < fs[f].len() implies node_ok(
        m.heap,
        #[trigger] fs[f][k],
    ) by {
        if f == m.frames.len() {
            assert(fs[f][k] == fr3[k]);
        } else if f == m.frames.len() - 1 {
            assert(fs[f][k] == fr2[k]);
        } else {
            assert(fs[f][k] == m.frames[f][k]);
        }
    };
    lemma_wf_frames(m, fs);
}

/// Dropping the current frame and pushing a valid node onto the resuming
/// frame preserves well-formedness.
pub proof fn lemma_wf_exit<T: ThunkEval>(m: MachineView<T>, r: Node)
    requires
        mv_wf(m),
        m.frames.len() >= 2,
        node_ok(m.heap, r),
    ensures
        mv_wf(
            with_frames(
                m,
                m.frames.drop_last().update(
                    m.frames.len() - 2,
                    m.frames.drop_last().last().push(r),
                ),
            ),
        ),
{
    let outer = m.frames.drop_last();
    let fs = outer.update(m.frames.len() - 2, outer.last().push(r));
    assert forall|f: int, k: int|
        0 <= f < fs.len() && 0 <= k < fs[f].len() implies node_ok(
        m.heap,
        #[trigger] fs[f][k],
    ) by {
        if f == m.frames.len() - 2 {
            if k < outer.last().len() {
                assert(fs[f][k] == m.frames[f][k]);
            } else {
                assert(fs[f][k] == r);
            }
        } else {
            assert(fs[f][k] == m.frames[f][k]);
        }
    };
    lemma_wf_frames(m, fs);
}

/// Updating a live thunk cell to a memoized thunk with a valid node keeps
/// every cell kind, so every node valid before stays valid, and the
/// machine stays well-formed.
pub proof fn lemma_wf_thunk_update<T: ThunkEval>(m: MachineView<T>, g: Gc, n: Node)
    requires
        mv_wf(m),
        is_thunk_idx(m.heap, g),
        node_ok(m.heap, n),
    ensures
        ({
            let h2 = m.heap.update(g.0 as int, Some(HeapVal::Susp(Thunk::EThunk(n))));
            &&& forall|x: Node| node_ok(m.heap, x) == node_ok(h2, x)
            &&& mv_wf(MachineView { heap: h2, ..m })
        }),
{
    let h2 = m.heap.update(g.0 as int, Some(HeapVal::Susp(Thunk::EThunk(n))));
    assert(forall|x: Gc| is_node_idx(m.heap, x) == is_node_idx(h2, x));
    assert(forall|x: Gc| is_thunk_idx(m.heap, x) == is_thunk_idx(h2, x));
    assert forall|x: Node| node_ok(m.heap, x) == node_ok(h2, x) by {
        match x {
            Node::Int(_) => {},
            Node::FnDef(_) => {},
            Node::App(l, r) => {
                assert(is_node_idx(m.heap, l) == is_node_idx(h2, l));
                assert(is_node_idx(m.heap, r) == is_node_idx(h2, r));
            },
            Node::ThunkRef(x2) => {
                assert(is_thunk_idx(m.heap, x2) == is_thunk_idx(h2, x2));
            },
            Node::NodeRef(x2) => {
                assert(is_node_idx(m.heap, x2) == is_node_idx(h2, x2));
            },
        }
    };
    assert forall|i: int| live(h2, i) implies val_ok(h2, #[trigger] h2[i]->Some_0) by {
        if i == g.0 as int {
            assert(node_ok(h2, n));
        } else {
            assert(live(m.heap, i));
            assert(val_ok(m.heap, m.heap[i]->Some_0));
            assert(h2[i] == m.heap[i]);
            match m.heap[i]->Some_0 {
                HeapVal::Full(x) => {
                    assert(node_ok(h2, x));
                },
                HeapVal::Susp(Thunk::UThunk(_)) => {},
                HeapVal::Susp(Thunk::EThunk(x)) => {
                    assert(node_ok(h2, x));
                },
            }
        }
    };
}

/// Reachability is closed under heap edges.
pub proof fn lemma_reach_step<T: ThunkEval>(
    h: Seq<Option<HeapVal<T>>>,
    roots: Set<int>,
    i: int,
    j: int,
)
    requires
        crate::gc::reach(h, roots, i),
        crate::gc::edge(h, i, j),
    ensures
        crate::gc::reach(h, roots, j),
{
    let n = choose|n: nat| crate::gc::reach_n(h, roots, i, n);
    assert(crate::gc::reach_n(h, roots, j, n + 1));
}

/// The indices of the cells directly referenced from some frame.
pub open spec fn frame_roots(fs: Seq<Seq<Node>>) -> Set<int> {
    Set::new(
        |j: int|
            exists|f: int, k: int, p: int|
                0 <= f < fs.len() && 0 <= k < fs[f].len() && 0 <= p < node_refs(fs[f][k]).len()
                    && (#[trigger] node_refs(fs[f][k])[p]).0 == j,
    )
}

/// Collecting with every frame-referenced cell among the roots keeps the
/// machine well-formed.
pub proof fn lemma_wf_collect<T: ThunkEval>(m: MachineView<T>, roots: Set<int>)
    requires
        mv_wf(m),
        forall|j: int| frame_roots(m.frames).contains(j) ==> roots.contains(j),
    ensures
        mv_wf(
            MachineView { heap: crate::gc::collect_spec(m.heap, roots), ..m },
        ),
{
    let h2 = crate::gc::collect_spec(m.heap, roots);
    let h = m.heap;
    assert forall|g: Gc|
        crate::gc::reach(h, roots, g.0 as int) implies h2[g.0 as int] == h[g.0 as int] || (
    g.0 as int) >= h.len() by {};
    assert forall|f: int, k: int|
        0 <= f < m.frames.len() && 0 <= k < m.frames[f].len() implies node_ok(
        h2,
        #[trigger] m.frames[f][k],
    ) by {
        let n = m.frames[f][k];
        assert(node_ok(h, n));
        assert forall|p: int| 0 <= p < node_refs(n).len() implies {
            let g = #[trigger] node_refs(n)[p];
            crate::gc::reach(h, roots, g.0 as int)
        } by {
            let g = node_refs(n)[p];
            assert(frame_roots(m.frames).contains(g.0 as int));
            assert(crate::gc::reach_n(h, roots, g.0 as int, 0));
        };
        match n {
            Node::Int(_) => {},
            Node::FnDef(_) => {},
            Node::App(l, r) => {
                assert(node_refs(n)[0] == l && node_refs(n)[1] == r);
                assert(h2[l.0 as int] == h[l.0 as int]);
                assert(h2[r.0 as int] == h[r.0 as int]);
            },
            Node::ThunkRef(g) => {
                assert(node_refs(n)[0] == g);
                assert(h2[g.0 as int] == h[g.0 as int]);
            },
            Node::NodeRef(g) => {
                assert(node_refs(n)[0] == g);
                assert(h2[g.0 as int] == h[g.0 as int]);
            },
        }
    };
    assert forall|i: int| live(h2, i) implies val_ok(h2, #[trigger] h2[i]->Some_0) by {
        assert(crate::gc::reach(h, roots, i));
        assert(h2[i] == h[i]);
        assert(live(h, i));
        let v = h[i]->Some_0;
        assert(val_ok(h, v));
        match v {
            HeapVal::Full(n) => {
                lemma_node_ok_cell_preserved(h, roots, i, n);
            },
            HeapVal::Susp(Thunk::UThunk(_)) => {},
            HeapVal::Susp(Thunk::EThunk(n)) => {
                lemma_node_ok_cell_preserved(h, roots, i, n);
            },
        }
    };
}

/// A valid node held in a reachable live cell stays valid after
/// collection, because each of its targets is reachable too.
proof fn lemma_node_ok_cell_preserved<T: ThunkEval>(
    h: Seq<Option<HeapVal<T>>>,
    roots: Set<int>,
    i: int,
    n: Node,
)
    requires
        node_ok(h, n),
        live(h, i),
        crate::gc::reach(h, roots, i),
        crate::gc::val_refs(h[i]->Some_0) == node_refs(n),
    ensures
        node_ok(crate::gc::collect_spec(h, roots), n),
{
    let h2 = crate::gc::collect_spec(h, roots);
    assert forall|p: int| 0 <= p < node_refs(n).len() implies h2[(#[trigger] node_refs(
        n,
    )[p]).0 as int] == h[node_refs(n)[p].0 as int] by {
        let g = node_refs(n)[p];
        assert(crate::gc::edge(h, i, g.0 as int));
        lemma_reach_step(h, roots, i, g.0 as int);
        assert((g.0 as int) < h.len()) by {
            match n {
                Node::Int(_) => {},
                Node::FnDef(_) => {},
                Node::App(l, r) => {
                    assert(node_refs(n)[0] == l && node_refs(n)[1] == r);
                },
                Node::ThunkRef(g2) => {
                    assert(node_refs(n)[0] == g2);
                },
                Node::NodeRef(g2) => {
                    assert(node_refs(n)[0] == g2);
                },
            }
        };
    };
    lemma_node_ok_refs_preserved(h, h2, n);
}

/// A node valid for `h` stays valid for any heap that keeps the cells it
/// references.
pub proof fn lemma_node_ok_refs_preserved<T: ThunkEval>(
    h: Seq<Option<HeapVal<T>>>,
    h2: Seq<Option<HeapVal<T>>>,
    n: Node,
)
    requires
        node_ok(h, n),
        h2.len() == h.len(),
        forall|p: int|
            0 <= p < node_refs(n).len() ==> h2[(#[trigger] node_refs(n)[p]).0 as int] == h[
                node_refs(n)[p].0 as int
            ],
    ensures
        node_ok(h2, n),
{
    match n {
        Node::Int(_) => {},
        Node::FnDef(_) => {},
        Node::App(l, r) => {
            assert(node_refs(n)[0] == l && node_refs(n)[1] == r);
        },
        Node::ThunkRef(g) => {
            assert(node_refs(n)[0] == g);
        },
        Node::NodeRef(g) => {
            assert(node_refs(n)[0] == g);
        },
    }
}

/// The frame stack of an executable machine, frame by frame.
pub open spec fn frames_view(s: Seq<Vec<Node>>) -> Seq<Seq<Node>> {
    s.map_values(|v: Vec<Node>| v@)
}

/// What `mk_ap` leaves behind: the two topmost nodes of the current frame
/// are popped (function side first), a collection runs with them and the
/// remaining frames as roots, both are stored in fresh cells, and an
/// application of the first to the second is pushed.
pub open spec fn mk_ap_spec<T: ThunkEval>(m: MachineView<T>) -> MachineView<T> {
    let fr = cur_frame(m);
    let nl = fr.last();
    let nr = fr.drop_last().last();
    let m1 = with_cur(m, fr.drop_last().drop_last());
    let roots = crate::gc::idx_set(
        node_refs(nl) + node_refs(nr) + crate::gc::frames_refs(m1.frames),
    );
    let h1 = crate::gc::collect_spec(m1.heap, roots);
    let gl = Gc(h1.len() as usize);
    let gr = Gc((h1.len() + 1) as usize);
    let h2 = h1.push(Some(HeapVal::Full(nl))).push(Some(HeapVal::Full(nr)));
    MachineView {
        heap: h2,
        marks: m.marks.push(false).push(false),
        frames: m1.frames.update(
            m1.frames.len() - 1,
            cur_frame(m1).push(Node::App(gl, gr)),
        ),
        tevals: m.tevals,
    }
}

/// Appending a fresh cell whose value is valid keeps the machine
/// well-formed.
pub proof fn lemma_wf_alloc<T: ThunkEval>(m: MachineView<T>, v: HeapVal<T>)
    requires
        mv_wf(m),
        val_ok(m.heap, v),
    ensures
        mv_wf(
            MachineView { heap: m.heap.push(Some(v)), marks: m.marks.push(false), ..m },
        ),
{
    let h2 = m.heap.push(Some(v));
    assert forall|f: int, k: int|
        0 <= f < m.frames.len() && 0 <= k < m.frames[f].len() implies node_ok(
        h2,
        #[trigger] m.frames[f][k],
    ) by {
        lemma_node_ok_push(m.heap, m.frames[f][k], Some(v));
    };
    assert forall|i: int| live(h2, i) implies val_ok(h2, #[trigger] h2[i]->Some_0) by {
        if i < m.heap.len() {
            assert(live(m.heap, i));
            assert(val_ok(m.heap, m.heap[i]->Some_0));
            match m.heap[i]->Some_0 {
                HeapVal::Full(n) => lemma_node_ok_push(m.heap, n, Some(v)),
                HeapVal::Susp(Thunk::UThunk(_)) => {},
                HeapVal::Susp(Thunk::EThunk(n)) => lemma_node_ok_push(m.heap, n, Some(v)),
            }
        } else {
            assert(h2[i] == Some(v));
            match v {
                HeapVal::Full(n) => lemma_node_ok_push(m.heap, n, Some(v)),
                HeapVal::Susp(Thunk::UThunk(_)) => {},
                HeapVal::Susp(Thunk::EThunk(n)) => lemma_node_ok_push(m.heap, n, Some(v)),
            }
        }
    };
}

/// A reference held by a node of a frame occurs in the flattened
/// reference sequence of that frame.
pub proof fn lemma_node_refs_flat_contains(fr: Seq<Node>, k: int, p: int)
    requires
        0 <= k < fr.len(),
        0 <= p < node_refs(fr[k]).len(),
    ensures
        crate::gc::pending(crate::gc::node_refs_flat(fr), node_refs(fr[k])[p].0 as int),
    decreases fr.len(),
{
    let flat = crate::gc::node_refs_flat(fr);
    if k == fr.len() - 1 {
        let base = crate::gc::node_refs_flat(fr.drop_last()).len();
        assert(flat[base + p] == node_refs(fr[k])[p]);
    } else {
        lemma_node_refs_flat_contains(fr.drop_last(), k, p);
        let prefix = crate::gc::node_refs_flat(fr.drop_last());
        let q = choose|q: int|
            0 <= q < prefix.len() && prefix[q].0 == node_refs(fr.drop_last()[k])[p].0 as int;
        assert(fr.drop_last()[k] == fr[k]);
        assert(flat[q] == prefix[q]);
        assert(crate::gc::pending(flat, node_refs(fr[k])[p].0 as int));
    }
}

/// Every index in `frame_roots` occurs in the flattened reference
/// sequence of the frames.
pub proof fn lemma_frame_roots_in_refs(fs: Seq<Seq<Node>>, j: int)
    requires
        frame_roots(fs).contains(j),
    ensures
        crate::gc::pending(crate::gc::frames_refs(fs), j),
    decreases fs.len(),
{
    let (f, k, p) = choose|f: int, k: int, p: int|
        0 <= f < fs.len() && 0 <= k < fs[f].len() && 0 <= p < node_refs(fs[f][k]).len() && (
        #[trigger] node_refs(fs[f][k])[p]).0 == j;
    let whole = crate::gc::frames_refs(fs);
    if f == fs.len() - 1 {
        lemma_node_refs_flat_contains(fs[f], k, p);
        let flat = crate::gc::node_refs_flat(fs.last());
        let q = choose|q: int| 0 <= q < flat.len() && flat[q].0 == j;
        let base = crate::gc::frames_refs(fs.drop_last()).len();
        assert(whole[base + q] == flat[q]);
        assert(crate::gc::pending(whole, j));
    } else {
        assert(fs.drop_last()[f] == fs[f]);
        assert(frame_roots(fs.drop_last()).contains(j)) by {
            assert(0 <= f < fs.drop_last().len() && 0 <= k < fs.drop_last()[f].len() && 0 <= p
                < node_refs(fs.drop_last()[f][k]).len() && node_refs(fs.drop_last()[f][k])[p].0
                == j);
        };
        lemma_frame_roots_in_refs(fs.drop_last(), j);
        let prefix = crate::gc::frames_refs(fs.drop_last());
        let q = choose|q: int| 0 <= q < prefix.len() && prefix[q].0 == j;
        assert(whole[q] == prefix[q]);
        assert(crate::gc::pending(whole, j));
    }
}

/// A failing prefix of a spine keeps the whole spine failing with the same
/// error.
pub proof fn lemma_spine_args_prefix_err<T: ThunkEval>(
    m: MachineView<T>,
    s: Seq<Node>,
    p: int,
    e: VmError,
)
    requires
        0 <= p <= s.len(),
        spine_args(m, s.take(p)) == Err::<Seq<Node>, VmError>(e),
    ensures
        spine_args(m, s) == Err::<Seq<Node>, VmError>(e),
    decreases s.len(),
{
    if p == s.len() {
        assert(s.take(p) =~= s);
    } else {
        assert(s.drop_last().take(p) =~= s.take(p));
        lemma_spine_args_prefix_err(m, s.drop_last(), p, e);
    }
}

/// A node valid for `h` stays valid when fresh cells are appended.
pub proof fn lemma_node_ok_push<T: ThunkEval>(
    h: Seq<Option<HeapVal<T>>>,
    n: Node,
    v: Option<HeapVal<T>>,
)
    requires
        node_ok(h, n),
    ensures
        node_ok(h.push(v), n),
{
}

} // verus!
