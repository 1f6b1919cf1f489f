//! The laws of the machine, stated and proved over the same specification
//! functions its public contracts use: arithmetic correctness, the
//! division-by-zero and type-mismatch failures, thunk memoization, and
//! collector soundness and idempotence.

use vstd::prelude::*;

use crate::builtins::{spec_kind, FnDef, Node, NodeKind, Op, Side, Thunk, ThunkEval, VmError};
use crate::gc::{
    collect_spec, edge, frames_refs, idx_set, live, node_refs, node_refs_flat, reach, reach_n,
    val_refs, Gc, HeapVal,
};
use crate::prog::prog_graph;
use crate::semantics::{
    arith_val, cur_frame, div_trunc, lemma_reach_step, lemma_run_seq, max_steps, mk_ap_spec,
    node_at, realizes, run_spec, spine_args, step_spec, with_cur, MachineView, RunOut, StepRes,
    Task,
};

verus! {

/// Wrapping arithmetic agrees with exact arithmetic whenever the exact
/// result fits in 64 bits, and division truncates toward zero.
pub proof fn lemma_arith_val_exact(op: Op, a: i64, b: i64)
    ensures
        op == Op::Add && i64::MIN <= a + b <= i64::MAX ==> arith_val(op, a, b) == a + b,
        op == Op::Sub && i64::MIN <= a - b <= i64::MAX ==> arith_val(op, a, b) == a - b,
        op == Op::Mul && i64::MIN <= a * b <= i64::MAX ==> arith_val(op, a, b) == a * b,
        op == Op::Div && b != 0 && !(a == i64::MIN && b == -1) ==> arith_val(op, a, b)
            == div_trunc(a as int, b as int),
{
    if op == Op::Div && b != 0 && !(a == i64::MIN && b == -1) {
        let ua = vstd::math::abs(a as int);
        let ub = vstd::math::abs(b as int);
        let q = ua / ub;
        assert(ub >= 1);
        assert(0 <= q <= ua) by (nonlinear_arith)
            requires
                ub >= 1,
                ua >= 0,
                q == ua / ub,
        ;
        if a == i64::MIN && b < 0 {
            assert(ub >= 2);
            assert(q <= ua / 2) by (nonlinear_arith)
                requires
                    ub >= 2,
                    ua >= 0,
                    q == ua / ub,
            ;
        }
        assert(i64::MIN <= div_trunc(a as int, b as int) <= i64::MAX);
    }
}

/// Arithmetic correctness: with the current frame topped by the saturated
/// application `App(App(FnDef(op, 2), Int(a)), Int(b))` laid out on the
/// heap, one `Eval` finishes in ten steps, replacing the top with
/// `Int(arith_val(op, a, b))` and changing nothing else. Together with
/// `State::eval`'s contract this pins down what `eval` computes for every
/// such graph.
#[verifier::rlimit(100)]
pub proof fn lemma_arith_correct<T: ThunkEval>(
    m: MachineView<T>,
    op: Op,
    g1: Gc,
    g0: Gc,
    ga: Gc,
    gr: Gc,
    a: i64,
    b: i64,
)
    requires
        m.frames.len() >= 1,
        cur_frame(m).len() >= 1,
        cur_frame(m).last() == Node::App(g1, gr),
        (g1.0 as int) < m.heap.len(),
        m.heap[g1.0 as int] == Some(HeapVal::<T>::Full(Node::App(g0, ga))),
        (g0.0 as int) < m.heap.len(),
        m.heap[g0.0 as int] == Some(
            HeapVal::<T>::Full(Node::FnDef(crate::builtins::FnDef { op, arity: 2usize })),
        ),
        (ga.0 as int) < m.heap.len(),
        m.heap[ga.0 as int] == Some(HeapVal::<T>::Full(Node::Int(a))),
        (gr.0 as int) < m.heap.len(),
        m.heap[gr.0 as int] == Some(HeapVal::<T>::Full(Node::Int(b))),
        !(op == Op::Div && b == 0i64),
    ensures
        run_spec(m, seq![Task::Eval], 10) == RunOut::<T>::Done(
            with_cur(
                m,
                cur_frame(m).drop_last().push(Node::Int(arith_val(op, a, b))),
            ),
        ),
        10 <= max_steps(),
{
    let t0 = seq![Task::Eval];
    let fr = cur_frame(m);
    let li = m.frames.len() - 1;
    let fd = crate::builtins::FnDef { op, arity: 2usize };

    let m1 = MachineView {
        frames: m.frames.update(li, fr.drop_last()).push(seq![Node::App(g1, gr)]),
        ..m
    };
    assert(step_spec(m, Task::Eval) == StepRes::<T>::Next(
        m1,
        seq![Task::Exit, Task::Unwind(0usize)],
    )) by {
        assert(seq![fr.last()] =~= seq![Node::App(g1, gr)]);
        assert(m1 =~= (MachineView {
            frames: m.frames.update(li, fr.drop_last()).push(seq![fr.last()]),
            ..m
        }));
    };
    let t1 = t0.drop_last() + seq![Task::Exit, Task::Unwind(0usize)];
    assert(run_spec(m, t0, 10) == run_spec(m1, t1, 9));
    assert(t1 =~= seq![Task::Exit, Task::Unwind(0usize)]);

    let c1 = seq![Node::App(g1, gr)];
    assert(cur_frame(m1) == c1);
    let c2 = c1.push(Node::App(g0, ga));
    let m2 = with_cur(m1, c2);
    assert(step_spec(m1, Task::Unwind(0usize)) == StepRes::<T>::Next(
        m2,
        seq![Task::Unwind(1usize)],
    ));
    let t2 = t1.drop_last() + seq![Task::Unwind(1usize)];
    assert(run_spec(m1, t1, 9) == run_spec(m2, t2, 8));
    assert(t2 =~= seq![Task::Exit, Task::Unwind(1usize)]);

    assert(cur_frame(m2) == c2);
    let c3 = c2.push(Node::FnDef(fd));
    let m3 = with_cur(m2, c3);
    assert(step_spec(m2, Task::Unwind(1usize)) == StepRes::<T>::Next(
        m3,
        seq![Task::Unwind(2usize)],
    ));
    let t3 = t2.drop_last() + seq![Task::Unwind(2usize)];
    assert(run_spec(m2, t2, 8) == run_spec(m3, t3, 7));
    assert(t3 =~= seq![Task::Exit, Task::Unwind(2usize)]);

    assert(cur_frame(m3) == c3);
    assert(c3.last() == Node::FnDef(fd));
    let entries = c3.drop_last();
    assert(entries =~= c2);
    assert(entries.skip(0) =~= entries);
    assert(entries.drop_last() =~= c1);
    assert(c1.drop_last() =~= Seq::<Node>::empty());
    assert(spine_args(m3, Seq::<Node>::empty()) == Ok::<Seq<Node>, VmError>(
        Seq::<Node>::empty(),
    ));
    assert(spine_args(m3, c1) == Ok::<Seq<Node>, VmError>(seq![Node::Int(b)])) by {
        assert(Seq::<Node>::empty().push(Node::Int(b)) =~= seq![Node::Int(b)]);
    };
    let args = seq![Node::Int(b), Node::Int(a)];
    assert(spine_args(m3, entries) == Ok::<Seq<Node>, VmError>(args)) by {
        assert(seq![Node::Int(b)].push(Node::Int(a)) =~= args);
    };
    let c4 = entries.take(0) + args;
    assert(c4 =~= args);
    let m4 = with_cur(m3, c4);
    assert(step_spec(m3, Task::Unwind(2usize)) == StepRes::<T>::Next(
        m4,
        seq![Task::ArithLeft(op), Task::Eval],
    ));
    let t4 = t3.drop_last() + seq![Task::ArithLeft(op), Task::Eval];
    assert(run_spec(m3, t3, 7) == run_spec(m4, t4, 6));
    assert(t4 =~= seq![Task::Exit, Task::ArithLeft(op), Task::Eval]);

    assert(cur_frame(m4) == c4);
    assert(c4.last() == Node::Int(a));
    assert(step_spec(m4, Task::Eval) == StepRes::<T>::Next(m4, Seq::<Task>::empty()));
    let t5 = t4.drop_last() + Seq::<Task>::empty();
    assert(run_spec(m4, t4, 6) == run_spec(m4, t5, 5));
    assert(t5 =~= seq![Task::Exit, Task::ArithLeft(op)]);

    let c5 = c4.drop_last();
    assert(c5 =~= seq![Node::Int(b)]);
    let m5 = with_cur(m4, c5);
    assert(step_spec(m4, Task::ArithLeft(op)) == StepRes::<T>::Next(
        m5,
        seq![Task::ArithRight(op, a), Task::Eval],
    ));
    let t6 = t5.drop_last() + seq![Task::ArithRight(op, a), Task::Eval];
    assert(run_spec(m4, t5, 5) == run_spec(m5, t6, 4));
    assert(t6 =~= seq![Task::Exit, Task::ArithRight(op, a), Task::Eval]);

    assert(cur_frame(m5) == c5);
    assert(c5.last() == Node::Int(b));
    assert(step_spec(m5, Task::Eval) == StepRes::<T>::Next(m5, Seq::<Task>::empty()));
    let t7 = t6.drop_last() + Seq::<Task>::empty();
    assert(run_spec(m5, t6, 4) == run_spec(m5, t7, 3));
    assert(t7 =~= seq![Task::Exit, Task::ArithRight(op, a)]);

    let c6 = c5.drop_last().push(Node::Int(arith_val(op, a, b)));
    let m6 = with_cur(m5, c6);
    assert(step_spec(m5, Task::ArithRight(op, a)) == StepRes::<T>::Next(
        m6,
        Seq::<Task>::empty(),
    ));
    let t8 = t7.drop_last() + Seq::<Task>::empty();
    assert(run_spec(m5, t7, 3) == run_spec(m6, t8, 2));
    assert(t8 =~= seq![Task::Exit]);

    assert(cur_frame(m6) == c6);
    assert(c6.last() == Node::Int(arith_val(op, a, b)));
    assert(m6.frames.len() == m.frames.len() + 1);
    let outer = m6.frames.drop_last();
    let m7 = MachineView {
        frames: outer.update(outer.len() - 1, outer.last().push(c6.last())),
        ..m6
    };
    assert(step_spec(m6, Task::Exit) == StepRes::<T>::Next(m7, Seq::<Task>::empty()));
    let t9 = t8.drop_last() + Seq::<Task>::empty();
    assert(run_spec(m6, t8, 2) == run_spec(m7, t9, 1));
    assert(t9 =~= Seq::<Task>::empty());
    assert(run_spec(m7, t9, 1) == RunOut::<T>::Done(m7));

    let target = with_cur(m, fr.drop_last().push(Node::Int(arith_val(op, a, b))));
    assert(m7.frames =~= target.frames);
    assert(m7 =~= target);
}

/// Arithmetic correctness at the call boundary: any call of `State::eval`
/// (whose contract is `realizes` of one `Eval` task) on a machine topped
/// by the saturated application of a binary combinator to two integer
/// literals must return `Ok` and leave `Int(arith_val(op, a, b))` as the
/// new top, with the rest of the machine unchanged.
pub proof fn lemma_arith_correct_for_eval<T: ThunkEval>(
    m: MachineView<T>,
    op: Op,
    g1: Gc,
    g0: Gc,
    ga: Gc,
    gr: Gc,
    a: i64,
    b: i64,
    r: Result<(), VmError>,
    m1: MachineView<T>,
)
    requires
        m.frames.len() >= 1,
        cur_frame(m).len() >= 1,
        cur_frame(m).last() == Node::App(g1, gr),
        (g1.0 as int) < m.heap.len(),
        m.heap[g1.0 as int] == Some(HeapVal::<T>::Full(Node::App(g0, ga))),
        (g0.0 as int) < m.heap.len(),
        m.heap[g0.0 as int] == Some(
            HeapVal::<T>::Full(Node::FnDef(crate::builtins::FnDef { op, arity: 2usize })),
        ),
        (ga.0 as int) < m.heap.len(),
        m.heap[ga.0 as int] == Some(HeapVal::<T>::Full(Node::Int(a))),
        (gr.0 as int) < m.heap.len(),
        m.heap[gr.0 as int] == Some(HeapVal::<T>::Full(Node::Int(b))),
        !(op == Op::Div && b == 0i64),
        crate::semantics::realizes(m, seq![Task::Eval], r, m1),
    ensures
        r is Ok,
        m1 == with_cur(
            m,
            cur_frame(m).drop_last().push(Node::Int(arith_val(op, a, b))),
        ),
{
    lemma_arith_correct(m, op, g1, g0, ga, gr, a, b);
}

/// Division by zero: the same saturated application with `op == Div` and
/// right operand `Int(0)` never yields a value; its evaluation fails with
/// `DivisionByZero`.
#[verifier::rlimit(100)]
pub proof fn lemma_division_by_zero<T: ThunkEval>(
    m: MachineView<T>,
    g1: Gc,
    g0: Gc,
    ga: Gc,
    gr: Gc,
    a: i64,
)
    requires
        m.frames.len() >= 1,
        cur_frame(m).len() >= 1,
        cur_frame(m).last() == Node::App(g1, gr),
        (g1.0 as int) < m.heap.len(),
        m.heap[g1.0 as int] == Some(HeapVal::<T>::Full(Node::App(g0, ga))),
        (g0.0 as int) < m.heap.len(),
        m.heap[g0.0 as int] == Some(
            HeapVal::<T>::Full(
                Node::FnDef(crate::builtins::FnDef { op: Op::Div, arity: 2usize }),
            ),
        ),
        (ga.0 as int) < m.heap.len(),
        m.heap[ga.0 as int] == Some(HeapVal::<T>::Full(Node::Int(a))),
        (gr.0 as int) < m.heap.len(),
        m.heap[gr.0 as int] == Some(HeapVal::<T>::Full(Node::Int(0i64))),
    ensures
        run_spec(m, seq![Task::Eval], 10) == RunOut::<T>::Fail(VmError::DivisionByZero),
        10 <= max_steps(),
{
    let t0 = seq![Task::Eval];
    let fr = cur_frame(m);
    let li = m.frames.len() - 1;
    let fd = crate::builtins::FnDef { op: Op::Div, arity: 2usize };

    let m1 = MachineView {
        frames: m.frames.update(li, fr.drop_last()).push(seq![Node::App(g1, gr)]),
        ..m
    };
    assert(step_spec(m, Task::Eval) == StepRes::<T>::Next(
        m1,
        seq![Task::Exit, Task::Unwind(0usize)],
    )) by {
        assert(seq![fr.last()] =~= seq![Node::App(g1, gr)]);
        assert(m1 =~= (MachineView {
            frames: m.frames.update(li, fr.drop_last()).push(seq![fr.last()]),
            ..m
        }));
    };
    let t1 = t0.drop_last() + seq![Task::Exit, Task::Unwind(0usize)];
    assert(run_spec(m, t0, 10) == run_spec(m1, t1, 9));
    assert(t1 =~= seq![Task::Exit, Task::Unwind(0usize)]);

    let c1 = seq![Node::App(g1, gr)];
    assert(cur_frame(m1) == c1);
    let c2 = c1.push(Node::App(g0, ga));
    let m2 = with_cur(m1, c2);
    assert(step_spec(m1, Task::Unwind(0usize)) == StepRes::<T>::Next(
        m2,
        seq![Task::Unwind(1usize)],
    ));
    let t2 = t1.drop_last() + seq![Task::Unwind(1usize)];
    assert(run_spec(m1, t1, 9) == run_spec(m2, t2, 8));
    assert(t2 =~= seq![Task::Exit, Task::Unwind(1usize)]);

    assert(cur_frame(m2) == c2);
    let c3 = c2.push(Node::FnDef(fd));
    let m3 = with_cur(m2, c3);
    assert(step_spec(m2, Task::Unwind(1usize)) == StepRes::<T>::Next(
        m3,
        seq![Task::Unwind(2usize)],
    ));
    let t3 = t2.drop_last() + seq![Task::Unwind(2usize)];
    assert(run_spec(m2, t2, 8) == run_spec(m3, t3, 7));
    assert(t3 =~= seq![Task::Exit, Task::Unwind(2usize)]);

    assert(cur_frame(m3) == c3);
    let entries = c3.drop_last();
    assert(entries =~= c2);
    assert(entries.skip(0) =~= entries);
    assert(entries.drop_last() =~= c1);
    assert(c1.drop_last() =~= Seq::<Node>::empty());
    assert(spine_args(m3, Seq::<Node>::empty()) == Ok::<Seq<Node>, VmError>(
        Seq::<Node>::empty(),
    ));
    assert(spine_args(m3, c1) == Ok::<Seq<Node>, VmError>(seq![Node::Int(0i64)])) by {
        assert(Seq::<Node>::empty().push(Node::Int(0i64)) =~= seq![Node::Int(0i64)]);
    };
    let args = seq![Node::Int(0i64), Node::Int(a)];
    assert(spine_args(m3, entries) == Ok::<Seq<Node>, VmError>(args)) by {
        assert(seq![Node::Int(0i64)].push(Node::Int(a)) =~= args);
    };
    let c4 = entries.take(0) + args;
    assert(c4 =~= args);
    let m4 = with_cur(m3, c4);
    assert(step_spec(m3, Task::Unwind(2usize)) == StepRes::<T>::Next(
        m4,
        seq![Task::ArithLeft(Op::Div), Task::Eval],
    ));
    let t4 = t3.drop_last() + seq![Task::ArithLeft(Op::Div), Task::Eval];
    assert(run_spec(m3, t3, 7) == run_spec(m4, t4, 6));
    assert(t4 =~= seq![Task::Exit, Task::ArithLeft(Op::Div), Task::Eval]);

    assert(cur_frame(m4) == c4);
    assert(c4.last() == Node::Int(a));
    assert(step_spec(m4, Task::Eval) == StepRes::<T>::Next(m4, Seq::<Task>::empty()));
    let t5 = t4.drop_last() + Seq::<Task>::empty();
    assert(run_spec(m4, t4, 6) == run_spec(m4, t5, 5));
    assert(t5 =~= seq![Task::Exit, Task::ArithLeft(Op::Div)]);

    let c5 = c4.drop_last();
    assert(c5 =~= seq![Node::Int(0i64)]);
    let m5 = with_cur(m4, c5);
    assert(step_spec(m4, Task::ArithLeft(Op::Div)) == StepRes::<T>::Next(
        m5,
        seq![Task::ArithRight(Op::Div, a), Task::Eval],
    ));
    let t6 = t5.drop_last() + seq![Task::ArithRight(Op::Div, a), Task::Eval];
    assert(run_spec(m4, t5, 5) == run_spec(m5, t6, 4));
    assert(t6 =~= seq![Task::Exit, Task::ArithRight(Op::Div, a), Task::Eval]);

    assert(cur_frame(m5) == c5);
    assert(c5.last() == Node::Int(0i64));
    assert(step_spec(m5, Task::Eval) == StepRes::<T>::Next(m5, Seq::<Task>::empty()));
    let t7 = t6.drop_last() + Seq::<Task>::empty();
    assert(run_spec(m5, t6, 4) == run_spec(m5, t7, 3));
    assert(t7 =~= seq![Task::Exit, Task::ArithRight(Op::Div, a)]);

    assert(step_spec(m5, Task::ArithRight(Op::Div, a)) == StepRes::<T>::Fail(
        VmError::DivisionByZero,
    ));
    assert(run_spec(m5, t7, 3) == RunOut::<T>::Fail(VmError::DivisionByZero));
}

/// Type mismatch, left side: if the combinator's left operand is an
/// application that cannot be reduced (its spine head is an integer, so
/// evaluating it returns it unchanged), evaluation fails with
/// `TypeMismatch` naming the left side and the application's kind.
#[verifier::rlimit(100)]
pub proof fn lemma_type_mismatch_left<T: ThunkEval>(
    m: MachineView<T>,
    op: Op,
    g1: Gc,
    g0: Gc,
    ga: Gc,
    gr: Gc,
    gx: Gc,
    gy: Gc,
    b: i64,
    cx: i64,
)
    requires
        m.frames.len() >= 1,
        cur_frame(m).len() >= 1,
        cur_frame(m).last() == Node::App(g1, gr),
        (g1.0 as int) < m.heap.len(),
        m.heap[g1.0 as int] == Some(HeapVal::<T>::Full(Node::App(g0, ga))),
        (g0.0 as int) < m.heap.len(),
        m.heap[g0.0 as int] == Some(
            HeapVal::<T>::Full(Node::FnDef(crate::builtins::FnDef { op, arity: 2usize })),
        ),
        (ga.0 as int) < m.heap.len(),
        m.heap[ga.0 as int] == Some(HeapVal::<T>::Full(Node::App(gx, gy))),
        (gx.0 as int) < m.heap.len(),
        m.heap[gx.0 as int] == Some(HeapVal::<T>::Full(Node::Int(cx))),
        (gr.0 as int) < m.heap.len(),
        m.heap[gr.0 as int] == Some(HeapVal::<T>::Full(Node::Int(b))),
    ensures
        run_spec(m, seq![Task::Eval], 10) == RunOut::<T>::Fail(
            VmError::TypeMismatch(Side::Left, NodeKind::AppKind),
        ),
        10 <= max_steps(),
{
    let t0 = seq![Task::Eval];
    let fr = cur_frame(m);
    let li = m.frames.len() - 1;
    let fd = crate::builtins::FnDef { op, arity: 2usize };

    let m1 = MachineView {
        frames: m.frames.update(li, fr.drop_last()).push(seq![Node::App(g1, gr)]),
        ..m
    };
    assert(step_spec(m, Task::Eval) == StepRes::<T>::Next(
        m1,
        seq![Task::Exit, Task::Unwind(0usize)],
    )) by {
        assert(seq![fr.last()] =~= seq![Node::App(g1, gr)]);
        assert(m1 =~= (MachineView {
            frames: m.frames.update(li, fr.drop_last()).push(seq![fr.last()]),
            ..m
        }));
    };
    let t1 = t0.drop_last() + seq![Task::Exit, Task::Unwind(0usize)];
    assert(run_spec(m, t0, 10) == run_spec(m1, t1, 9));
    assert(t1 =~= seq![Task::Exit, Task::Unwind(0usize)]);

    let c1 = seq![Node::App(g1, gr)];
    assert(cur_frame(m1) == c1);
    let c2 = c1.push(Node::App(g0, ga));
    let m2 = with_cur(m1, c2);
    assert(step_spec(m1, Task::Unwind(0usize)) == StepRes::<T>::Next(
        m2,
        seq![Task::Unwind(1usize)],
    ));
    let t2 = t1.drop_last() + seq![Task::Unwind(1usize)];
    assert(run_spec(m1, t1, 9) == run_spec(m2, t2, 8));
    assert(t2 =~= seq![Task::Exit, Task::Unwind(1usize)]);

    assert(cur_frame(m2) == c2);
    let c3 = c2.push(Node::FnDef(fd));
    let m3 = with_cur(m2, c3);
    assert(step_spec(m2, Task::Unwind(1usize)) == StepRes::<T>::Next(
        m3,
        seq![Task::Unwind(2usize)],
    ));
    let t3 = t2.drop_last() + seq![Task::Unwind(2usize)];
    assert(run_spec(m2, t2, 8) == run_spec(m3, t3, 7));
    assert(t3 =~= seq![Task::Exit, Task::Unwind(2usize)]);

    assert(cur_frame(m3) == c3);
    let entries = c3.drop_last();
    assert(entries =~= c2);
    assert(entries.skip(0) =~= entries);
    assert(entries.drop_last() =~= c1);
    assert(c1.drop_last() =~= Seq::<Node>::empty());
    assert(spine_args(m3, Seq::<Node>::empty()) == Ok::<Seq<Node>, VmError>(
        Seq::<Node>::empty(),
    ));
    assert(spine_args(m3, c1) == Ok::<Seq<Node>, VmError>(seq![Node::Int(b)])) by {
        assert(Seq::<Node>::empty().push(Node::Int(b)) =~= seq![Node::Int(b)]);
    };
    let args = seq![Node::Int(b), Node::App(gx, gy)];
    assert(spine_args(m3, entries) == Ok::<Seq<Node>, VmError>(args)) by {
        assert(seq![Node::Int(b)].push(Node::App(gx, gy)) =~= args);
    };
    let c4 = entries.take(0) + args;
    assert(c4 =~= args);
    let m4 = with_cur(m3, c4);
    assert(step_spec(m3, Task::Unwind(2usize)) == StepRes::<T>::Next(
        m4,
        seq![Task::ArithLeft(op), Task::Eval],
    ));
    let t4 = t3.drop_last() + seq![Task::ArithLeft(op), Task::Eval];
    assert(run_spec(m3, t3, 7) == run_spec(m4, t4, 6));
    assert(t4 =~= seq![Task::Exit, Task::ArithLeft(op), Task::Eval]);

    assert(cur_frame(m4) == c4);
    assert(c4.last() == Node::App(gx, gy));
    let c5 = seq![Node::App(gx, gy)];
    let m5 = MachineView {
        frames: m4.frames.update(m4.frames.len() - 1, c4.drop_last()).push(c5),
        ..m4
    };
    assert(step_spec(m4, Task::Eval) == StepRes::<T>::Next(
        m5,
        seq![Task::Exit, Task::Unwind(0usize)],
    )) by {
        assert(seq![c4.last()] =~= c5);
        assert(m5 =~= (MachineView {
            frames: m4.frames.update(m4.frames.len() - 1, c4.drop_last()).push(
                seq![c4.last()],
            ),
            ..m4
        }));
    };
    let t5 = t4.drop_last() + seq![Task::Exit, Task::Unwind(0usize)];
    assert(run_spec(m4, t4, 6) == run_spec(m5, t5, 5));
    assert(t5 =~= seq![Task::Exit, Task::ArithLeft(op), Task::Exit, Task::Unwind(0usize)]);

    assert(cur_frame(m5) == c5);
    let c6 = c5.push(Node::Int(cx));
    let m6 = with_cur(m5, c6);
    assert(step_spec(m5, Task::Unwind(0usize)) == StepRes::<T>::Next(
        m6,
        seq![Task::Unwind(1usize)],
    ));
    let t6 = t5.drop_last() + seq![Task::Unwind(1usize)];
    assert(run_spec(m5, t5, 5) == run_spec(m6, t6, 4));
    assert(t6 =~= seq![Task::Exit, Task::ArithLeft(op), Task::Exit, Task::Unwind(1usize)]);

    assert(cur_frame(m6) == c6);
    assert(c6.last() == Node::Int(cx));
    assert(c6.len() == 2);
    let c7 = c6.take(1);
    assert(c7 =~= c5);
    let m7 = with_cur(m6, c7);
    assert(step_spec(m6, Task::Unwind(1usize)) == StepRes::<T>::Next(
        m7,
        Seq::<Task>::empty(),
    ));
    let t7 = t6.drop_last() + Seq::<Task>::empty();
    assert(run_spec(m6, t6, 4) == run_spec(m7, t7, 3));
    assert(t7 =~= seq![Task::Exit, Task::ArithLeft(op), Task::Exit]);

    assert(cur_frame(m7) == c5);
    assert(m7.frames.len() >= 2);
    let outer7 = m7.frames.drop_last();
    let m8 = MachineView {
        frames: outer7.update(outer7.len() - 1, outer7.last().push(Node::App(gx, gy))),
        ..m7
    };
    assert(step_spec(m7, Task::Exit) == StepRes::<T>::Next(m8, Seq::<Task>::empty()));
    let t8 = t7.drop_last() + Seq::<Task>::empty();
    assert(run_spec(m7, t7, 3) == run_spec(m8, t8, 2));
    assert(t8 =~= seq![Task::Exit, Task::ArithLeft(op)]);

    assert(outer7.last() == c4.drop_last());
    assert(cur_frame(m8) == c4.drop_last().push(Node::App(gx, gy)));
    assert(cur_frame(m8).last() == Node::App(gx, gy));
    assert(step_spec(m8, Task::ArithLeft(op)) == StepRes::<T>::Fail(
        VmError::TypeMismatch(Side::Left, NodeKind::AppKind),
    ));
    assert(run_spec(m8, t8, 2) == RunOut::<T>::Fail(
        VmError::TypeMismatch(Side::Left, NodeKind::AppKind),
    ));
}

/// Type mismatch, right side: if the combinator's right operand is an
/// application that cannot be reduced, evaluation fails with
/// `TypeMismatch` naming the right side and the application's kind.
#[verifier::rlimit(100)]
pub proof fn lemma_type_mismatch_right<T: ThunkEval>(
    m: MachineView<T>,
    op: Op,
    g1: Gc,
    g0: Gc,
    ga: Gc,
    gr: Gc,
    gx: Gc,
    gy: Gc,
    a: i64,
    cx: i64,
)
    requires
        m.frames.len() >= 1,
        cur_frame(m).len() >= 1,
        cur_frame(m).last() == Node::App(g1, gr),
        (g1.0 as int) < m.heap.len(),
        m.heap[g1.0 as int] == Some(HeapVal::<T>::Full(Node::App(g0, ga))),
        (g0.0 as int) < m.heap.len(),
        m.heap[g0.0 as int] == Some(
            HeapVal::<T>::Full(Node::FnDef(crate::builtins::FnDef { op, arity: 2usize })),
        ),
        (ga.0 as int) < m.heap.len(),
        m.heap[ga.0 as int] == Some(HeapVal::<T>::Full(Node::Int(a))),
        (gr.0 as int) < m.heap.len(),
        m.heap[gr.0 as int] == Some(HeapVal::<T>::Full(Node::App(gx, gy))),
        (gx.0 as int) < m.heap.len(),
        m.heap[gx.0 as int] == Some(HeapVal::<T>::Full(Node::Int(cx))),
    ensures
        run_spec(m, seq![Task::Eval], 12) == RunOut::<T>::Fail(
            VmError::TypeMismatch(Side::Right, NodeKind::AppKind),
        ),
        12 <= max_steps(),
{
    let t0 = seq![Task::Eval];
    let fr = cur_frame(m);
    let li = m.frames.len() - 1;
    let fd = crate::builtins::FnDef { op, arity: 2usize };

    let m1 = MachineView {
        frames: m.frames.update(li, fr.drop_last()).push(seq![Node::App(g1, gr)]),
        ..m
    };
    assert(step_spec(m, Task::Eval) == StepRes::<T>::Next(
        m1,
        seq![Task::Exit, Task::Unwind(0usize)],
    )) by {
        assert(seq![fr.last()] =~= seq![Node::App(g1, gr)]);
        assert(m1 =~= (MachineView {
            frames: m.frames.update(li, fr.drop_last()).push(seq![fr.last()]),
            ..m
        }));
    };
    let t1 = t0.drop_last() + seq![Task::Exit, Task::Unwind(0usize)];
    assert(run_spec(m, t0, 12) == run_spec(m1, t1, 11));
    assert(t1 =~= seq![Task::Exit, Task::Unwind(0usize)]);

    let c1 = seq![Node::App(g1, gr)];
    assert(cur_frame(m1) == c1);
    let c2 = c1.push(Node::App(g0, ga));
    let m2 = with_cur(m1, c2);
    assert(step_spec(m1, Task::Unwind(0usize)) == StepRes::<T>::Next(
        m2,
        seq![Task::Unwind(1usize)],
    ));
    let t2 = t1.drop_last() + seq![Task::Unwind(1usize)];
    assert(run_spec(m1, t1, 11) == run_spec(m2, t2, 10));
    assert(t2 =~= seq![Task::Exit, Task::Unwind(1usize)]);

    assert(cur_frame(m2) == c2);
    let c3 = c2.push(Node::FnDef(fd));
    let m3 = with_cur(m2, c3);
    assert(step_spec(m2, Task::Unwind(1usize)) == StepRes::<T>::Next(
        m3,
        seq![Task::Unwind(2usize)],
    ));
    let t3 = t2.drop_last() + seq![Task::Unwind(2usize)];
    assert(run_spec(m2, t2, 10) == run_spec(m3, t3, 9));
    assert(t3 =~= seq![Task::Exit, Task::Unwind(2usize)]);

    assert(cur_frame(m3) == c3);
    let entries = c3.drop_last();
    assert(entries =~= c2);
    assert(entries.skip(0) =~= entries);
    assert(entries.drop_last() =~= c1);
    assert(c1.drop_last() =~= Seq::<Node>::empty());
    assert(spine_args(m3, Seq::<Node>::empty()) == Ok::<Seq<Node>, VmError>(
        Seq::<Node>::empty(),
    ));
    assert(spine_args(m3, c1) == Ok::<Seq<Node>, VmError>(seq![Node::App(gx, gy)])) by {
        assert(Seq::<Node>::empty().push(Node::App(gx, gy)) =~= seq![Node::App(gx, gy)]);
    };
    let args = seq![Node::App(gx, gy), Node::Int(a)];
    assert(spine_args(m3, entries) == Ok::<Seq<Node>, VmError>(args)) by {
        assert(seq![Node::App(gx, gy)].push(Node::Int(a)) =~= args);
    };
    let c4 = entries.take(0) + args;
    assert(c4 =~= args);
    let m4 = with_cur(m3, c4);
    assert(step_spec(m3, Task::Unwind(2usize)) == StepRes::<T>::Next(
        m4,
        seq![Task::ArithLeft(op), Task::Eval],
    ));
    let t4 = t3.drop_last() + seq![Task::ArithLeft(op), Task::Eval];
    assert(run_spec(m3, t3, 9) == run_spec(m4, t4, 8));
    assert(t4 =~= seq![Task::Exit, Task::ArithLeft(op), Task::Eval]);

    assert(cur_frame(m4) == c4);
    assert(c4.last() == Node::Int(a));
    assert(step_spec(m4, Task::Eval) == StepRes::<T>::Next(m4, Seq::<Task>::empty()));
    let t5 = t4.drop_last() + Seq::<Task>::empty();
    assert(run_spec(m4, t4, 8) == run_spec(m4, t5, 7));
    assert(t5 =~= seq![Task::Exit, Task::ArithLeft(op)]);

    let c5 = c4.drop_last();
    assert(c5 =~= seq![Node::App(gx, gy)]);
    let m5 = with_cur(m4, c5);
    assert(step_spec(m4, Task::ArithLeft(op)) == StepRes::<T>::Next(
        m5,
        seq![Task::ArithRight(op, a), Task::Eval],
    ));
    let t6 = t5.drop_last() + seq![Task::ArithRight(op, a), Task::Eval];
    assert(run_spec(m4, t5, 7) == run_spec(m5, t6, 6));
    assert(t6 =~= seq![Task::Exit, Task::ArithRight(op, a), Task::Eval]);

    assert(cur_frame(m5) == c5);
    assert(c5.last() == Node::App(gx, gy));
    let c6 = seq![Node::App(gx, gy)];
    let m6 = MachineView {
        frames: m5.frames.update(m5.frames.len() - 1, c5.drop_last()).push(c6),
        ..m5
    };
    assert(step_spec(m5, Task::Eval) == StepRes::<T>::Next(
        m6,
        seq![Task::Exit, Task::Unwind(0usize)],
    )) by {
        assert(seq![c5.last()] =~= c6);
        assert(m6 =~= (MachineView {
            frames: m5.frames.update(m5.frames.len() - 1, c5.drop_last()).push(
                seq![c5.last()],
            ),
            ..m5
        }));
    };
    let t7 = t6.drop_last() + seq![Task::Exit, Task::Unwind(0usize)];
    assert(run_spec(m5, t6, 6) == run_spec(m6, t7, 5));
    assert(t7 =~= seq![
        Task::Exit,
        Task::ArithRight(op, a),
        Task::Exit,
        Task::Unwind(0usize),
    ]);

    assert(cur_frame(m6) == c6);
    let c7 = c6.push(Node::Int(cx));
    let m7 = with_cur(m6, c7);
    assert(step_spec(m6, Task::Unwind(0usize)) == StepRes::<T>::Next(
        m7,
        seq![Task::Unwind(1usize)],
    ));
    let t8 = t7.drop_last() + seq![Task::Unwind(1usize)];
    assert(run_spec(m6, t7, 5) == run_spec(m7, t8, 4));
    assert(t8 =~= seq![
        Task::Exit,
        Task::ArithRight(op, a),
        Task::Exit,
        Task::Unwind(1usize),
    ]);

    assert(cur_frame(m7) == c7);
    assert(c7.last() == Node::Int(cx));
    assert(c7.len() == 2);
    let c8 = c7.take(1);
    assert(c8 =~= c6);
    let m8 = with_cur(m7, c8);
    assert(step_spec(m7, Task::Unwind(1usize)) == StepRes::<T>::Next(
        m8,
        Seq::<Task>::empty(),
    ));
    let t9 = t8.drop_last() + Seq::<Task>::empty();
    assert(run_spec(m7, t8, 4) == run_spec(m8, t9, 3));
    assert(t9 =~= seq![Task::Exit, Task::ArithRight(op, a), Task::Exit]);

    assert(cur_frame(m8) == c6);
    assert(m8.frames.len() >= 2);
    let outer8 = m8.frames.drop_last();
    let m9 = MachineView {
        frames: outer8.update(outer8.len() - 1, outer8.last().push(Node::App(gx, gy))),
        ..m8
    };
    assert(step_spec(m8, Task::Exit) == StepRes::<T>::Next(m9, Seq::<Task>::empty()));
    let t10 = t9.drop_last() + Seq::<Task>::empty();
    assert(run_spec(m8, t9, 3) == run_spec(m9, t10, 2));
    assert(t10 =~= seq![Task::Exit, Task::ArithRight(op, a)]);

    assert(outer8.last() == c5.drop_last());
    assert(cur_frame(m9) == c5.drop_last().push(Node::App(gx, gy)));
    assert(cur_frame(m9).last() == Node::App(gx, gy));
    assert(step_spec(m9, Task::ArithRight(op, a)) == StepRes::<T>::Fail(
        VmError::TypeMismatch(Side::Right, NodeKind::AppKind),
    ));
    assert(run_spec(m9, t10, 2) == RunOut::<T>::Fail(
        VmError::TypeMismatch(Side::Right, NodeKind::AppKind),
    ));
}

/// Division by zero at the call boundary: any call of `State::eval` on
/// the divide application with right operand `Int(0)` must return
/// `Err(DivisionByZero)` — it can never return a value.
pub proof fn lemma_division_by_zero_for_eval<T: ThunkEval>(
    m: MachineView<T>,
    g1: Gc,
    g0: Gc,
    ga: Gc,
    gr: Gc,
    a: i64,
    r: Result<(), VmError>,
    m1: MachineView<T>,
)
    requires
        m.frames.len() >= 1,
        cur_frame(m).len() >= 1,
        cur_frame(m).last() == Node::App(g1, gr),
        (g1.0 as int) < m.heap.len(),
        m.heap[g1.0 as int] == Some(HeapVal::<T>::Full(Node::App(g0, ga))),
        (g0.0 as int) < m.heap.len(),
        m.heap[g0.0 as int] == Some(
            HeapVal::<T>::Full(
                Node::FnDef(crate::builtins::FnDef { op: Op::Div, arity: 2usize }),
            ),
        ),
        (ga.0 as int) < m.heap.len(),
        m.heap[ga.0 as int] == Some(HeapVal::<T>::Full(Node::Int(a))),
        (gr.0 as int) < m.heap.len(),
        m.heap[gr.0 as int] == Some(HeapVal::<T>::Full(Node::Int(0i64))),
        crate::semantics::realizes(m, seq![Task::Eval], r, m1),
    ensures
        r == Err::<(), VmError>(VmError::DivisionByZero),
{
    lemma_division_by_zero(m, g1, g0, ga, gr, a);
}

/// The first force of a suspended thunk whose computation yields an
/// integer literal: the computation runs (the machine's count goes up by
/// one), its result is memoized in the cell, and the result replaces the
/// frame's top.
pub proof fn lemma_thunk_first_force<T: ThunkEval>(m: MachineView<T>, g: Gc, t: T, v: i64)
    requires
        m.frames.len() >= 1,
        cur_frame(m).len() >= 1,
        cur_frame(m).last() == Node::ThunkRef(g),
        (g.0 as int) < m.heap.len(),
        m.heap[g.0 as int] == Some(HeapVal::Susp(Thunk::UThunk(t))),
        t.thunk_spec() == Node::Int(v),
        m.tevals < u64::MAX as nat,
    ensures
        run_spec(m, seq![Task::Eval], 3) == RunOut::<T>::Done(
            MachineView {
                heap: m.heap.update(
                    g.0 as int,
                    Some(HeapVal::Susp(Thunk::EThunk(Node::Int(v)))),
                ),
                tevals: m.tevals + 1,
                frames: with_cur(
                    m,
                    cur_frame(m).update(cur_frame(m).len() - 1, Node::Int(v)),
                ).frames,
                ..m
            },
        ),
        3 <= max_steps(),
{
    let t0 = seq![Task::Eval];
    let m1 = MachineView {
        heap: m.heap.update(g.0 as int, Some(HeapVal::Susp(Thunk::EThunk(Node::Int(v))))),
        tevals: m.tevals + 1,
        frames: with_cur(
            m,
            cur_frame(m).update(cur_frame(m).len() - 1, Node::Int(v)),
        ).frames,
        ..m
    };
    assert(step_spec(m, Task::Eval) == StepRes::<T>::Next(m1, seq![Task::Eval])) by {
        let (r, m2) = crate::semantics::force_cell_spec(m, g);
        assert(r == Ok::<Node, VmError>(Node::Int(v)));
        assert(m1 =~= with_cur(
            m2,
            cur_frame(m2).update(cur_frame(m2).len() - 1, Node::Int(v)),
        ));
    };
    let t1 = t0.drop_last() + seq![Task::Eval];
    assert(run_spec(m, t0, 3) == run_spec(m1, t1, 2));
    assert(t1 =~= seq![Task::Eval]);
    assert(cur_frame(m1).last() == Node::Int(v));
    assert(step_spec(m1, Task::Eval) == StepRes::<T>::Next(m1, Seq::<Task>::empty()));
    let t2 = t1.drop_last() + Seq::<Task>::empty();
    assert(run_spec(m1, t1, 2) == run_spec(m1, t2, 1));
    assert(t2 =~= Seq::<Task>::empty());
}

/// Any later force through any reference to the same cell: the memoized
/// result is returned unchanged, the computation does not run again (the
/// count stays put), and the heap is untouched. Together with
/// `lemma_thunk_first_force` this is the memoization law: a thunk's
/// deferred computation runs at most once, however many references force
/// it.
pub proof fn lemma_thunk_cached_force<T: ThunkEval>(m: MachineView<T>, g: Gc, v: i64)
    requires
        m.frames.len() >= 1,
        cur_frame(m).len() >= 1,
        cur_frame(m).last() == Node::ThunkRef(g),
        (g.0 as int) < m.heap.len(),
        m.heap[g.0 as int] == Some(HeapVal::<T>::Susp(Thunk::EThunk(Node::Int(v)))),
    ensures
        run_spec(m, seq![Task::Eval], 3) == RunOut::<T>::Done(
            with_cur(m, cur_frame(m).update(cur_frame(m).len() - 1, Node::Int(v))),
        ),
        3 <= max_steps(),
{
    let t0 = seq![Task::Eval];
    let m1 = with_cur(m, cur_frame(m).update(cur_frame(m).len() - 1, Node::Int(v)));
    assert(step_spec(m, Task::Eval) == StepRes::<T>::Next(m1, seq![Task::Eval]));
    let t1 = t0.drop_last() + seq![Task::Eval];
    assert(run_spec(m, t0, 3) == run_spec(m1, t1, 2));
    assert(t1 =~= seq![Task::Eval]);
    assert(cur_frame(m1).last() == Node::Int(v));
    assert(step_spec(m1, Task::Eval) == StepRes::<T>::Next(m1, Seq::<Task>::empty()));
    let t2 = t1.drop_last() + Seq::<Task>::empty();
    assert(run_spec(m1, t1, 2) == run_spec(m1, t2, 1));
    assert(t2 =~= Seq::<Task>::empty());
}

/// The first force of a suspended thunk, for any node its computation
/// resolves to: one `Eval` step runs the deferred computation exactly once
/// (the machine's count rises by one), memoizes the node in the cell — a
/// one-way, permanent transition — replaces the frame's top with it, and
/// evaluation continues on the resolved node.
pub proof fn lemma_thunk_first_force_step<T: ThunkEval>(m: MachineView<T>, g: Gc, t: T)
    requires
        m.frames.len() >= 1,
        cur_frame(m).len() >= 1,
        cur_frame(m).last() == Node::ThunkRef(g),
        (g.0 as int) < m.heap.len(),
        m.heap[g.0 as int] == Some(HeapVal::Susp(Thunk::UThunk(t))),
        crate::semantics::node_ok(m.heap, t.thunk_spec()),
        m.tevals < u64::MAX as nat,
    ensures
        step_spec(m, Task::Eval) == StepRes::<T>::Next(
            MachineView {
                heap: m.heap.update(
                    g.0 as int,
                    Some(HeapVal::Susp(Thunk::EThunk(t.thunk_spec()))),
                ),
                tevals: m.tevals + 1,
                frames: with_cur(
                    m,
                    cur_frame(m).update(cur_frame(m).len() - 1, t.thunk_spec()),
                ).frames,
                ..m
            },
            seq![Task::Eval],
        ),
{
    let n = t.thunk_spec();
    let m1 = MachineView {
        heap: m.heap.update(g.0 as int, Some(HeapVal::Susp(Thunk::EThunk(n)))),
        tevals: m.tevals + 1,
        frames: with_cur(m, cur_frame(m).update(cur_frame(m).len() - 1, n)).frames,
        ..m
    };
    let (r, m2) = crate::semantics::force_cell_spec(m, g);
    assert(r == Ok::<Node, VmError>(n));
    assert(m1 =~= with_cur(m2, cur_frame(m2).update(cur_frame(m2).len() - 1, n)));
}

/// Any later force through any reference to the same cell, for any
/// memoized node: the deferred computation is not re-run — the heap and
/// the count are untouched — and the frame's top is replaced by the same
/// cached node, on which evaluation continues.
pub proof fn lemma_thunk_cached_force_step<T: ThunkEval>(m: MachineView<T>, g: Gc, v: Node)
    requires
        m.frames.len() >= 1,
        cur_frame(m).len() >= 1,
        cur_frame(m).last() == Node::ThunkRef(g),
        (g.0 as int) < m.heap.len(),
        m.heap[g.0 as int] == Some(HeapVal::<T>::Susp(Thunk::EThunk(v))),
    ensures
        step_spec(m, Task::Eval) == StepRes::<T>::Next(
            with_cur(m, cur_frame(m).update(cur_frame(m).len() - 1, v)),
            seq![Task::Eval],
        ),
{
}

/// Thunk memoization: with two independent references to one suspended
/// thunk cell on the frame, forcing the first runs the deferred
/// computation exactly once (the count rises by one and the cell
/// memoizes the result), and forcing the second returns the same value
/// from the cache, with the count and the heap unchanged.
pub proof fn lemma_thunk_memoization<T: ThunkEval>(m: MachineView<T>, g: Gc, t: T, v: i64)
    requires
        m.frames.len() >= 1,
        cur_frame(m).len() >= 2,
        cur_frame(m).last() == Node::ThunkRef(g),
        cur_frame(m)[cur_frame(m).len() - 2] == Node::ThunkRef(g),
        (g.0 as int) < m.heap.len(),
        m.heap[g.0 as int] == Some(HeapVal::Susp(Thunk::UThunk(t))),
        t.thunk_spec() == Node::Int(v),
        m.tevals < u64::MAX as nat,
    ensures
        ({
            let m1 = MachineView {
                heap: m.heap.update(
                    g.0 as int,
                    Some(HeapVal::Susp(Thunk::EThunk(Node::Int(v)))),
                ),
                tevals: m.tevals + 1,
                frames: with_cur(
                    m,
                    cur_frame(m).update(cur_frame(m).len() - 1, Node::Int(v)),
                ).frames,
                ..m
            };
            let m2 = with_cur(m1, cur_frame(m1).drop_last());
            let m3 = with_cur(
                m2,
                cur_frame(m2).update(cur_frame(m2).len() - 1, Node::Int(v)),
            );
            &&& run_spec(m, seq![Task::Eval], 3) == RunOut::<T>::Done(m1)
            &&& cur_frame(m1).last() == Node::Int(v)
            &&& m1.tevals == m.tevals + 1
            &&& run_spec(m2, seq![Task::Eval], 3) == RunOut::<T>::Done(m3)
            &&& cur_frame(m3).last() == Node::Int(v)
            &&& m3.tevals == m.tevals + 1
            &&& m3.heap == m1.heap
            &&& 3 <= max_steps()
        }),
{
    lemma_thunk_first_force(m, g, t, v);
    let m1 = MachineView {
        heap: m.heap.update(g.0 as int, Some(HeapVal::Susp(Thunk::EThunk(Node::Int(v))))),
        tevals: m.tevals + 1,
        frames: with_cur(
            m,
            cur_frame(m).update(cur_frame(m).len() - 1, Node::Int(v)),
        ).frames,
        ..m
    };
    let m2 = with_cur(m1, cur_frame(m1).drop_last());
    assert(cur_frame(m2).last() == Node::ThunkRef(g)) by {
        assert(cur_frame(m1) == cur_frame(m).update(cur_frame(m).len() - 1, Node::Int(v)));
        assert(cur_frame(m2) == cur_frame(m1).drop_last());
        assert(cur_frame(m2).last() == cur_frame(m)[cur_frame(m).len() - 2]);
    };
    assert(m2.heap[g.0 as int] == Some(HeapVal::<T>::Susp(Thunk::EThunk(Node::Int(v)))));
    lemma_thunk_cached_force(m2, g, v);
}

/// On heap `h`, evaluating the graph node `n` on top of any frame of any
/// machine finishes within `fuel` steps, replacing the top with the node
/// `v` — its head-normal form — and changing nothing else.
pub open spec fn evals_to_node<T: ThunkEval>(
    h: Seq<Option<HeapVal<T>>>,
    n: Node,
    v: Node,
    fuel: nat,
) -> bool {
    forall|m: MachineView<T>|
        m.heap == h && m.frames.len() >= 1 && cur_frame(m).len() >= 1 && cur_frame(m).last() == n
            ==> #[trigger] run_spec(m, seq![Task::Eval], fuel) == RunOut::<T>::Done(
            with_cur(m, cur_frame(m).update(cur_frame(m).len() - 1, v)),
        )
}

/// `evals_to_node` for an integer result.
pub open spec fn evals_to<T: ThunkEval>(
    h: Seq<Option<HeapVal<T>>>,
    n: Node,
    v: i64,
    fuel: nat,
) -> bool {
    evals_to_node(h, n, Node::Int(v), fuel)
}

/// An integer literal evaluates to itself, in one step.
pub proof fn lemma_eval_int<T: ThunkEval>(h: Seq<Option<HeapVal<T>>>, v: i64, fuel: nat)
    requires
        fuel >= 1,
    ensures
        evals_to(h, Node::Int(v), v, fuel),
{
    assert forall|m: MachineView<T>|
        m.heap == h && m.frames.len() >= 1 && cur_frame(m).len() >= 1 && cur_frame(m).last()
            == Node::Int(v) implies #[trigger] run_spec(m, seq![Task::Eval], fuel)
        == RunOut::<T>::Done(
        with_cur(m, cur_frame(m).update(cur_frame(m).len() - 1, Node::Int(v))),
    ) by {
        let t0 = seq![Task::Eval];
        assert(step_spec(m, Task::Eval) == StepRes::<T>::Next(m, Seq::<Task>::empty()));
        let t1 = t0.drop_last() + Seq::<Task>::empty();
        assert(run_spec(m, t0, fuel) == run_spec(m, t1, (fuel - 1) as nat));
        assert(t1 =~= Seq::<Task>::empty());
        assert(run_spec(m, t1, (fuel - 1) as nat) == RunOut::<T>::Done(m));
        assert(run_spec(m, t0, fuel) == RunOut::<T>::Done(m));
        assert(cur_frame(m).update(cur_frame(m).len() - 1, Node::Int(v)) =~= cur_frame(m));
        assert(with_cur(m, cur_frame(m)) =~= m);
    };
}

/// A saturated application of a binary combinator whose two operand graphs
/// each evaluate to an integer evaluates to the combinator's result.
#[verifier::rlimit(100)]
pub proof fn lemma_eval_binop<T: ThunkEval>(
    h: Seq<Option<HeapVal<T>>>,
    op: Op,
    g1: Gc,
    g0: Gc,
    ga: Gc,
    gr: Gc,
    na: Node,
    nb: Node,
    a: i64,
    b: i64,
    fa: nat,
    fb: nat,
)
    requires
        (g1.0 as int) < h.len(),
        h[g1.0 as int] == Some(HeapVal::<T>::Full(Node::App(g0, ga))),
        (g0.0 as int) < h.len(),
        h[g0.0 as int] == Some(
            HeapVal::<T>::Full(Node::FnDef(FnDef { op, arity: 2usize })),
        ),
        (ga.0 as int) < h.len(),
        h[ga.0 as int] == Some(HeapVal::<T>::Full(na)),
        (gr.0 as int) < h.len(),
        h[gr.0 as int] == Some(HeapVal::<T>::Full(nb)),
        evals_to(h, na, a, fa),
        evals_to(h, nb, b, fb),
        !(op == Op::Div && b == 0i64),
    ensures
        evals_to(h, Node::App(g1, gr), arith_val(op, a, b), fa + fb + 7),
{
    let res = Node::Int(arith_val(op, a, b));
    assert forall|m: MachineView<T>|
        m.heap == h && m.frames.len() >= 1 && cur_frame(m).len() >= 1 && cur_frame(m).last()
            == Node::App(g1, gr) implies #[trigger] run_spec(m, seq![Task::Eval], fa + fb + 7)
        == RunOut::<T>::Done(
        with_cur(m, cur_frame(m).update(cur_frame(m).len() - 1, res)),
    ) by {
        let t0 = seq![Task::Eval];
        let fr = cur_frame(m);
        let li = m.frames.len() - 1;
        let fd = FnDef { op, arity: 2usize };

        let m1 = MachineView {
            frames: m.frames.update(li, fr.drop_last()).push(seq![Node::App(g1, gr)]),
            ..m
        };
        assert(step_spec(m, Task::Eval) == StepRes::<T>::Next(
            m1,
            seq![Task::Exit, Task::Unwind(0usize)],
        )) by {
            assert(seq![fr.last()] =~= seq![Node::App(g1, gr)]);
            assert(m1 =~= (MachineView {
                frames: m.frames.update(li, fr.drop_last()).push(seq![fr.last()]),
                ..m
            }));
        };
        let t1 = t0.drop_last() + seq![Task::Exit, Task::Unwind(0usize)];
        assert(run_spec(m, t0, fa + fb + 7) == run_spec(m1, t1, fa + fb + 6));
        assert(t1 =~= seq![Task::Exit, Task::Unwind(0usize)]);

        let c1 = seq![Node::App(g1, gr)];
        assert(cur_frame(m1) == c1);
        let c2 = c1.push(Node::App(g0, ga));
        let m2 = with_cur(m1, c2);
        assert(step_spec(m1, Task::Unwind(0usize)) == StepRes::<T>::Next(
            m2,
            seq![Task::Unwind(1usize)],
        ));
        let t2 = t1.drop_last() + seq![Task::Unwind(1usize)];
        assert(run_spec(m1, t1, fa + fb + 6) == run_spec(m2, t2, fa + fb + 5));
        assert(t2 =~= seq![Task::Exit, Task::Unwind(1usize)]);

        assert(cur_frame(m2) == c2);
        let c3 = c2.push(Node::FnDef(fd));
        let m3 = with_cur(m2, c3);
        assert(step_spec(m2, Task::Unwind(1usize)) == StepRes::<T>::Next(
            m3,
            seq![Task::Unwind(2usize)],
        ));
        let t3 = t2.drop_last() + seq![Task::Unwind(2usize)];
        assert(run_spec(m2, t2, fa + fb + 5) == run_spec(m3, t3, fa + fb + 4));
        assert(t3 =~= seq![Task::Exit, Task::Unwind(2usize)]);

        assert(cur_frame(m3) == c3);
        let entries = c3.drop_last();
        assert(entries =~= c2);
        assert(entries.skip(0) =~= entries);
        assert(entries.drop_last() =~= c1);
        assert(c1.drop_last() =~= Seq::<Node>::empty());
        assert(spine_args(m3, Seq::<Node>::empty()) == Ok::<Seq<Node>, VmError>(
            Seq::<Node>::empty(),
        ));
        assert(spine_args(m3, c1) == Ok::<Seq<Node>, VmError>(seq![nb])) by {
            assert(Seq::<Node>::empty().push(nb) =~= seq![nb]);
        };
        let args = seq![nb, na];
        assert(spine_args(m3, entries) == Ok::<Seq<Node>, VmError>(args)) by {
            assert(seq![nb].push(na) =~= args);
        };
        let c4 = entries.take(0) + args;
        assert(c4 =~= args);
        let m4 = with_cur(m3, c4);
        assert(step_spec(m3, Task::Unwind(2usize)) == StepRes::<T>::Next(
            m4,
            seq![Task::ArithLeft(op), Task::Eval],
        ));
        let t4 = t3.drop_last() + seq![Task::ArithLeft(op), Task::Eval];
        assert(run_spec(m3, t3, fa + fb + 4) == run_spec(m4, t4, fa + fb + 3));
        assert(t4 =~= seq![Task::Exit, Task::ArithLeft(op), Task::Eval]);

        // the left operand's own evaluation
        assert(cur_frame(m4) == c4 && c4.last() == na && c4.len() == 2);
        let m5 = with_cur(m4, seq![nb, Node::Int(a)]);
        assert(run_spec(m4, seq![Task::Eval], fa) == RunOut::<T>::Done(m5)) by {
            assert(c4.update(c4.len() - 1, Node::Int(a)) =~= seq![nb, Node::Int(a)]);
            assert(with_cur(m4, c4.update(c4.len() - 1, Node::Int(a))) =~= m5);
        };

        // the tail that runs after it
        assert(cur_frame(m5) =~= seq![nb, Node::Int(a)]);
        let c6 = seq![nb];
        let m6 = with_cur(m5, c6);
        assert(step_spec(m5, Task::ArithLeft(op)) == StepRes::<T>::Next(
            m6,
            seq![Task::ArithRight(op, a), Task::Eval],
        )) by {
            assert(cur_frame(m5).drop_last() =~= c6);
            assert(with_cur(m5, cur_frame(m5).drop_last()) =~= m6);
        };

        // the right operand's own evaluation
        assert(cur_frame(m6) == c6 && c6.last() == nb && c6.len() == 1);
        let m7 = with_cur(m6, seq![Node::Int(b)]);
        assert(run_spec(m6, seq![Task::Eval], fb) == RunOut::<T>::Done(m7)) by {
            assert(c6.update(c6.len() - 1, Node::Int(b)) =~= seq![Node::Int(b)]);
            assert(with_cur(m6, c6.update(c6.len() - 1, Node::Int(b))) =~= m7);
        };

        // combine, exit the frame, and hand the result back
        assert(cur_frame(m7) =~= seq![Node::Int(b)]);
        let m8 = with_cur(m7, seq![res]);
        assert(step_spec(m7, Task::ArithRight(op, a)) == StepRes::<T>::Next(
            m8,
            Seq::<Task>::empty(),
        )) by {
            assert(cur_frame(m7).drop_last().push(res) =~= seq![res]);
            assert(with_cur(m7, cur_frame(m7).drop_last().push(res)) =~= m8);
        };

        assert(m8.frames.len() == m.frames.len() + 1);
        assert(cur_frame(m8) =~= seq![res]);
        let outer = m8.frames.drop_last();
        let m9 = MachineView { frames: outer.update(outer.len() - 1, outer.last().push(res)), ..m8 };
        assert(step_spec(m8, Task::Exit) == StepRes::<T>::Next(m9, Seq::<Task>::empty()));

        assert(run_spec(m7, seq![Task::Exit, Task::ArithRight(op, a)], 2) == RunOut::<T>::Done(
            m9,
        )) by {
            let tx = seq![Task::Exit, Task::ArithRight(op, a)];
            assert(tx.drop_last() + Seq::<Task>::empty() =~= seq![Task::Exit]);
            assert(run_spec(m7, tx, 2) == run_spec(m8, seq![Task::Exit], 1));
            assert(seq![Task::Exit].drop_last() + Seq::<Task>::empty() =~= Seq::<Task>::empty());
            assert(run_spec(m8, seq![Task::Exit], 1) == run_spec(m9, Seq::<Task>::empty(), 0));
        };

        lemma_run_seq(
            m6,
            seq![Task::Eval],
            seq![Task::Exit, Task::ArithRight(op, a)],
            fb,
            2,
            m7,
        );
        assert(seq![Task::Exit, Task::ArithRight(op, a)] + seq![Task::Eval] =~= seq![
            Task::Exit,
            Task::ArithRight(op, a),
            Task::Eval,
        ]);
        assert(run_spec(m6, seq![Task::Exit, Task::ArithRight(op, a), Task::Eval], fb + 2)
            == RunOut::<T>::Done(m9));

        let t5 = seq![Task::Exit, Task::ArithLeft(op)];
        assert(t5.drop_last() + seq![Task::ArithRight(op, a), Task::Eval] =~= seq![
            Task::Exit,
            Task::ArithRight(op, a),
            Task::Eval,
        ]);
        assert(run_spec(m5, t5, fb + 3) == RunOut::<T>::Done(m9));

        lemma_run_seq(m4, seq![Task::Eval], t5, fa, fb + 3, m5);
        assert(t5 + seq![Task::Eval] =~= t4);
        assert(run_spec(m4, t4, fa + (fb + 3)) == RunOut::<T>::Done(m9));
        assert(fa + (fb + 3) == fa + fb + 3);

        let target = with_cur(m, fr.update(fr.len() - 1, res));
        assert(outer =~= m.frames.update(li, fr.drop_last()));
        assert(outer.last() == fr.drop_last());
        assert(fr.drop_last().push(res) =~= fr.update(fr.len() - 1, res));
        assert(m9.frames =~= target.frames);
        assert(m9 =~= target);
    };
}

/// An application whose spine head is an integer cannot be reduced:
/// evaluating it hands it back unchanged — it is stuck, already in
/// head-normal form.
pub proof fn lemma_eval_stuck_app<T: ThunkEval>(
    h: Seq<Option<HeapVal<T>>>,
    gx: Gc,
    gy: Gc,
    cx: i64,
)
    requires
        (gx.0 as int) < h.len(),
        h[gx.0 as int] == Some(HeapVal::<T>::Full(Node::Int(cx))),
    ensures
        evals_to_node(h, Node::App(gx, gy), Node::App(gx, gy), 4),
{
    let v = Node::App(gx, gy);
    assert forall|m: MachineView<T>|
        m.heap == h && m.frames.len() >= 1 && cur_frame(m).len() >= 1 && cur_frame(m).last()
            == v implies #[trigger] run_spec(m, seq![Task::Eval], 4) == RunOut::<T>::Done(
        with_cur(m, cur_frame(m).update(cur_frame(m).len() - 1, v)),
    ) by {
        let t0 = seq![Task::Eval];
        let fr = cur_frame(m);
        let li = m.frames.len() - 1;

        let m1 = MachineView {
            frames: m.frames.update(li, fr.drop_last()).push(seq![v]),
            ..m
        };
        assert(step_spec(m, Task::Eval) == StepRes::<T>::Next(
            m1,
            seq![Task::Exit, Task::Unwind(0usize)],
        )) by {
            assert(seq![fr.last()] =~= seq![v]);
            assert(m1 =~= (MachineView {
                frames: m.frames.update(li, fr.drop_last()).push(seq![fr.last()]),
                ..m
            }));
        };
        let t1 = t0.drop_last() + seq![Task::Exit, Task::Unwind(0usize)];
        assert(run_spec(m, t0, 4) == run_spec(m1, t1, 3));
        assert(t1 =~= seq![Task::Exit, Task::Unwind(0usize)]);

        let c1 = seq![v];
        assert(cur_frame(m1) == c1);
        let c2 = c1.push(Node::Int(cx));
        let m2 = with_cur(m1, c2);
        assert(step_spec(m1, Task::Unwind(0usize)) == StepRes::<T>::Next(
            m2,
            seq![Task::Unwind(1usize)],
        ));
        let t2 = t1.drop_last() + seq![Task::Unwind(1usize)];
        assert(run_spec(m1, t1, 3) == run_spec(m2, t2, 2));
        assert(t2 =~= seq![Task::Exit, Task::Unwind(1usize)]);

        assert(cur_frame(m2) == c2 && c2.last() == Node::Int(cx) && c2.len() == 2);
        let c3 = c2.take(1);
        assert(c3 =~= c1);
        let m3 = with_cur(m2, c3);
        assert(step_spec(m2, Task::Unwind(1usize)) == StepRes::<T>::Next(
            m3,
            Seq::<Task>::empty(),
        ));
        let t3 = t2.drop_last() + Seq::<Task>::empty();
        assert(run_spec(m2, t2, 2) == run_spec(m3, t3, 1));
        assert(t3 =~= seq![Task::Exit]);

        assert(cur_frame(m3) == c3 && m3.frames.len() >= 2);
        let outer = m3.frames.drop_last();
        let m4 = MachineView {
            frames: outer.update(outer.len() - 1, outer.last().push(v)),
            ..m3
        };
        assert(step_spec(m3, Task::Exit) == StepRes::<T>::Next(m4, Seq::<Task>::empty()));
        let t4 = t3.drop_last() + Seq::<Task>::empty();
        assert(run_spec(m3, t3, 1) == run_spec(m4, t4, 0));
        assert(t4 =~= Seq::<Task>::empty());

        let target = with_cur(m, fr.update(fr.len() - 1, v));
        assert(outer =~= m.frames.update(li, fr.drop_last()));
        assert(outer.last() == fr.drop_last());
        assert(fr.drop_last().push(v) =~= fr.update(fr.len() - 1, v));
        assert(m4.frames =~= target.frames);
        assert(m4 =~= target);
    };
}

/// Type mismatch at the combinator entry points, left side: when the
/// frame's top operand graph head-normalizes to anything but an integer,
/// any call realizing the entry points' tasks must fail with
/// `TypeMismatch` naming the left side and the operand's actual kind.
pub proof fn lemma_entry_type_mismatch_left_for_eval<T: ThunkEval>(
    m: MachineView<T>,
    op: Op,
    va: Node,
    fa: nat,
    r: Result<(), VmError>,
    m1: MachineView<T>,
)
    requires
        m.frames.len() >= 1,
        cur_frame(m).len() >= 1,
        evals_to_node(m.heap, cur_frame(m).last(), va, fa),
        !(va is Int),
        fa + 1 <= max_steps(),
        realizes(m, seq![Task::ArithLeft(op), Task::Eval], r, m1),
    ensures
        r == Err::<(), VmError>(VmError::TypeMismatch(Side::Left, spec_kind(va))),
{
    let t0 = seq![Task::ArithLeft(op), Task::Eval];
    let fr = cur_frame(m);
    let ca = fr.update(fr.len() - 1, va);
    let ma = with_cur(m, ca);
    assert(run_spec(m, seq![Task::Eval], fa) == RunOut::<T>::Done(ma));
    assert(cur_frame(ma) == ca && ca.last() == va);
    assert(step_spec(ma, Task::ArithLeft(op)) == StepRes::<T>::Fail(
        VmError::TypeMismatch(Side::Left, spec_kind(va)),
    ));
    assert(run_spec(ma, seq![Task::ArithLeft(op)], 1) == RunOut::<T>::Fail(
        VmError::TypeMismatch(Side::Left, spec_kind(va)),
    ));
    lemma_run_seq(m, seq![Task::Eval], seq![Task::ArithLeft(op)], fa, 1, ma);
    assert(seq![Task::ArithLeft(op)] + seq![Task::Eval] =~= t0);
    assert(run_spec(m, t0, fa + 1) == RunOut::<T>::Fail(
        VmError::TypeMismatch(Side::Left, spec_kind(va)),
    ));
}

/// Type mismatch at the combinator entry points, right side: the top
/// operand forces first, to an integer; when the second operand graph then
/// head-normalizes to anything but an integer, the call must fail with
/// `TypeMismatch` naming the right side and that operand's actual kind.
pub proof fn lemma_entry_type_mismatch_right_for_eval<T: ThunkEval>(
    m: MachineView<T>,
    op: Op,
    a: i64,
    vb: Node,
    fa: nat,
    fb: nat,
    r: Result<(), VmError>,
    m1: MachineView<T>,
)
    requires
        m.frames.len() >= 1,
        cur_frame(m).len() >= 2,
        evals_to(m.heap, cur_frame(m).last(), a, fa),
        evals_to_node(m.heap, cur_frame(m)[cur_frame(m).len() - 2], vb, fb),
        !(vb is Int),
        fa + fb + 2 <= max_steps(),
        realizes(m, seq![Task::ArithLeft(op), Task::Eval], r, m1),
    ensures
        r == Err::<(), VmError>(VmError::TypeMismatch(Side::Right, spec_kind(vb))),
{
    let t0 = seq![Task::ArithLeft(op), Task::Eval];
    let fr = cur_frame(m);
    let e = VmError::TypeMismatch(Side::Right, spec_kind(vb));

    let ca = fr.update(fr.len() - 1, Node::Int(a));
    let ma = with_cur(m, ca);
    assert(run_spec(m, seq![Task::Eval], fa) == RunOut::<T>::Done(ma));

    assert(cur_frame(ma) == ca && ca.last() == Node::Int(a));
    let cb = ca.drop_last();
    assert(cb =~= fr.drop_last());
    let mb = with_cur(ma, cb);
    assert(step_spec(ma, Task::ArithLeft(op)) == StepRes::<T>::Next(
        mb,
        seq![Task::ArithRight(op, a), Task::Eval],
    ));
    assert(cur_frame(mb) == cb && cb.last() == fr[fr.len() - 2] && cb.len() == fr.len() - 1);
    let cc = cb.update(cb.len() - 1, vb);
    let mc = with_cur(mb, cc);
    assert(run_spec(mb, seq![Task::Eval], fb) == RunOut::<T>::Done(mc));

    assert(cur_frame(mc) == cc && cc.last() == vb);
    assert(step_spec(mc, Task::ArithRight(op, a)) == StepRes::<T>::Fail(e));
    assert(run_spec(mc, seq![Task::ArithRight(op, a)], 1) == RunOut::<T>::Fail(e));
    lemma_run_seq(mb, seq![Task::Eval], seq![Task::ArithRight(op, a)], fb, 1, mc);
    assert(seq![Task::ArithRight(op, a)] + seq![Task::Eval] =~= seq![
        Task::ArithRight(op, a),
        Task::Eval,
    ]);
    let ta = seq![Task::ArithLeft(op)];
    assert(ta.drop_last() + seq![Task::ArithRight(op, a), Task::Eval] =~= seq![
        Task::ArithRight(op, a),
        Task::Eval,
    ]);
    assert(run_spec(ma, ta, fb + 2) == RunOut::<T>::Fail(e));
    lemma_run_seq(m, seq![Task::Eval], ta, fa, fb + 2, ma);
    assert(ta + seq![Task::Eval] =~= t0);
    assert(run_spec(m, t0, fa + (fb + 2)) == RunOut::<T>::Fail(e));
    assert(fa + (fb + 2) == fa + fb + 2);
}

/// The task machine of the arithmetic entry points, run on a frame whose
/// two topmost operand graphs evaluate to integers: the top operand is
/// forced first, then the second, and both are replaced by the result —
/// unless the operation is a division by zero, which fails.
#[verifier::rlimit(100)]
proof fn lemma_arith_entry_run<T: ThunkEval>(
    m: MachineView<T>,
    op: Op,
    a: i64,
    b: i64,
    fa: nat,
    fb: nat,
)
    requires
        m.frames.len() >= 1,
        cur_frame(m).len() >= 2,
        evals_to(m.heap, cur_frame(m).last(), a, fa),
        evals_to(m.heap, cur_frame(m)[cur_frame(m).len() - 2], b, fb),
    ensures
        !(op == Op::Div && b == 0i64) ==> run_spec(
            m,
            seq![Task::ArithLeft(op), Task::Eval],
            fa + fb + 2,
        ) == RunOut::<T>::Done(
            with_cur(
                m,
                cur_frame(m).drop_last().drop_last().push(Node::Int(arith_val(op, a, b))),
            ),
        ),
        (op == Op::Div && b == 0i64) ==> run_spec(
            m,
            seq![Task::ArithLeft(op), Task::Eval],
            fa + fb + 2,
        ) == RunOut::<T>::Fail(VmError::DivisionByZero),
{
    let t0 = seq![Task::ArithLeft(op), Task::Eval];
    let fr = cur_frame(m);
    let res = Node::Int(arith_val(op, a, b));

    // force the top operand
    let ca = fr.update(fr.len() - 1, Node::Int(a));
    let ma = with_cur(m, ca);
    assert(run_spec(m, seq![Task::Eval], fa) == RunOut::<T>::Done(ma));

    // pop it and force the second
    assert(cur_frame(ma) == ca && ca.last() == Node::Int(a));
    let cb = ca.drop_last();
    assert(cb =~= fr.drop_last());
    let mb = with_cur(ma, cb);
    assert(step_spec(ma, Task::ArithLeft(op)) == StepRes::<T>::Next(
        mb,
        seq![Task::ArithRight(op, a), Task::Eval],
    ));
    assert(cur_frame(mb) == cb && cb.last() == fr[fr.len() - 2] && cb.len() == fr.len() - 1);
    let cc = cb.update(cb.len() - 1, Node::Int(b));
    let mc = with_cur(mb, cc);
    assert(run_spec(mb, seq![Task::Eval], fb) == RunOut::<T>::Done(mc));

    // the combining step: succeeds, or fails on a zero divisor
    assert(cur_frame(mc) == cc && cc.last() == Node::Int(b));
    if !(op == Op::Div && b == 0i64) {
        let cd = cc.drop_last().push(res);
        let md = with_cur(mc, cd);
        assert(step_spec(mc, Task::ArithRight(op, a)) == StepRes::<T>::Next(
            md,
            Seq::<Task>::empty(),
        ));
        assert(run_spec(mc, seq![Task::ArithRight(op, a)], 1) == RunOut::<T>::Done(md)) by {
            let tx = seq![Task::ArithRight(op, a)];
            let ty = tx.drop_last() + Seq::<Task>::empty();
            assert(run_spec(mc, tx, 1) == run_spec(md, ty, 0));
            assert(ty =~= Seq::<Task>::empty());
        };
        lemma_run_seq(mb, seq![Task::Eval], seq![Task::ArithRight(op, a)], fb, 1, mc);
        assert(seq![Task::ArithRight(op, a)] + seq![Task::Eval] =~= seq![
            Task::ArithRight(op, a),
            Task::Eval,
        ]);
        assert(run_spec(mb, seq![Task::ArithRight(op, a), Task::Eval], fb + 1)
            == RunOut::<T>::Done(md));
        let ta = seq![Task::ArithLeft(op)];
        assert(ta.drop_last() + seq![Task::ArithRight(op, a), Task::Eval] =~= seq![
            Task::ArithRight(op, a),
            Task::Eval,
        ]);
        assert(run_spec(ma, ta, fb + 2) == RunOut::<T>::Done(md));
        lemma_run_seq(m, seq![Task::Eval], ta, fa, fb + 2, ma);
        assert(ta + seq![Task::Eval] =~= t0);
        assert(run_spec(m, t0, fa + (fb + 2)) == RunOut::<T>::Done(md));
        assert(fa + (fb + 2) == fa + fb + 2);
        assert(cd =~= fr.drop_last().drop_last().push(res));
        assert(md =~= with_cur(m, fr.drop_last().drop_last().push(res)));
    } else {
        assert(step_spec(mc, Task::ArithRight(op, a)) == StepRes::<T>::Fail(
            VmError::DivisionByZero,
        ));
        assert(run_spec(mc, seq![Task::ArithRight(op, a)], 1) == RunOut::<T>::Fail(
            VmError::DivisionByZero,
        ));
        lemma_run_seq(mb, seq![Task::Eval], seq![Task::ArithRight(op, a)], fb, 1, mc);
        assert(seq![Task::ArithRight(op, a)] + seq![Task::Eval] =~= seq![
            Task::ArithRight(op, a),
            Task::Eval,
        ]);
        let ta = seq![Task::ArithLeft(op)];
        assert(ta.drop_last() + seq![Task::ArithRight(op, a), Task::Eval] =~= seq![
            Task::ArithRight(op, a),
            Task::Eval,
        ]);
        assert(run_spec(ma, ta, fb + 2) == RunOut::<T>::Fail(VmError::DivisionByZero));
        lemma_run_seq(m, seq![Task::Eval], ta, fa, fb + 2, ma);
        assert(ta + seq![Task::Eval] =~= t0);
        assert(run_spec(m, t0, fa + (fb + 2)) == RunOut::<T>::Fail(VmError::DivisionByZero));
        assert(fa + (fb + 2) == fa + fb + 2);
    }
}

/// Arithmetic at the combinator entry points: when the current frame's two
/// topmost operand graphs evaluate to `Int(a)` (the top, forced first) and
/// `Int(b)`, any call realizing the entry points' tasks must pop both and
/// push `Int(arith_val(op, a, b))`, changing nothing else.
pub proof fn lemma_arith_entry_for_eval<T: ThunkEval>(
    m: MachineView<T>,
    op: Op,
    a: i64,
    b: i64,
    fa: nat,
    fb: nat,
    r: Result<(), VmError>,
    m1: MachineView<T>,
)
    requires
        m.frames.len() >= 1,
        cur_frame(m).len() >= 2,
        evals_to(m.heap, cur_frame(m).last(), a, fa),
        evals_to(m.heap, cur_frame(m)[cur_frame(m).len() - 2], b, fb),
        !(op == Op::Div && b == 0i64),
        fa + fb + 2 <= max_steps(),
        realizes(m, seq![Task::ArithLeft(op), Task::Eval], r, m1),
    ensures
        r is Ok,
        m1 == with_cur(
            m,
            cur_frame(m).drop_last().drop_last().push(Node::Int(arith_val(op, a, b))),
        ),
{
    lemma_arith_entry_run(m, op, a, b, fa, fb);
}

/// Division by zero at the divide entry point: when the frame's second
/// operand graph evaluates to `Int(0)`, any call realizing the entry
/// point's tasks must fail with `DivisionByZero` — and the top operand was
/// still forced first.
pub proof fn lemma_entry_division_by_zero_for_eval<T: ThunkEval>(
    m: MachineView<T>,
    a: i64,
    fa: nat,
    fb: nat,
    r: Result<(), VmError>,
    m1: MachineView<T>,
)
    requires
        m.frames.len() >= 1,
        cur_frame(m).len() >= 2,
        evals_to(m.heap, cur_frame(m).last(), a, fa),
        evals_to(m.heap, cur_frame(m)[cur_frame(m).len() - 2], 0i64, fb),
        fa + fb + 2 <= max_steps(),
        realizes(m, seq![Task::ArithLeft(Op::Div), Task::Eval], r, m1),
    ensures
        r == Err::<(), VmError>(VmError::DivisionByZero),
{
    lemma_arith_entry_run(m, Op::Div, a, 0i64, fa, fb);
}

/// A collection whose roots keep every live cell reachable leaves the heap
/// exactly as it was.
proof fn lemma_collect_noop<T: ThunkEval>(h: Seq<Option<HeapVal<T>>>, roots: Set<int>)
    requires
        forall|j: int| live(h, j) ==> reach(h, roots, j),
    ensures
        collect_spec(h, roots) == h,
{
    assert forall|j: int| 0 <= j < h.len() implies collect_spec(h, roots)[j] == h[j] by {
        if !reach(h, roots, j) {
            assert(!live(h, j));
            assert(h[j] is None);
        }
    };
    assert(collect_spec(h, roots) =~= h);
}

/// The flattened reference sequences of one-, two- and three-node frames.
proof fn lemma_flat_small(a: Node, b: Node, c: Node)
    ensures
        node_refs_flat(seq![a]) == node_refs(a),
        node_refs_flat(seq![a, b]) == node_refs(a) + node_refs(b),
        node_refs_flat(seq![a, b, c]) == node_refs(a) + node_refs(b) + node_refs(c),
{
    assert(seq![a].drop_last() =~= Seq::<Node>::empty());
    assert(node_refs_flat(Seq::<Node>::empty()) == Seq::<Gc>::empty());
    assert(node_refs_flat(seq![a]) =~= node_refs(a));
    assert(seq![a, b].drop_last() =~= seq![a]);
    assert(node_refs_flat(seq![a, b]) =~= node_refs(a) + node_refs(b));
    assert(seq![a, b, c].drop_last() =~= seq![a, b]);
    assert(node_refs_flat(seq![a, b, c]) =~= node_refs(a) + node_refs(b) + node_refs(c));
}

/// The reference sequence of a one-frame stack.
proof fn lemma_frames_refs_single(f: Seq<Node>)
    ensures
        frames_refs(seq![f]) == node_refs_flat(f),
{
    assert(seq![f].drop_last() =~= Seq::<Seq<Node>>::empty());
    assert(frames_refs(Seq::<Seq<Node>>::empty()) == Seq::<Gc>::empty());
    assert(frames_refs(seq![f]) =~= node_refs_flat(f));
}

/// Both targets of a reachable two-reference cell are reachable.
proof fn lemma_edge2<T: ThunkEval>(
    h: Seq<Option<HeapVal<T>>>,
    roots: Set<int>,
    i: int,
    gx: Gc,
    gy: Gc,
)
    requires
        reach(h, roots, i),
        live(h, i),
        val_refs(h[i]->Some_0) == seq![gx, gy],
    ensures
        reach(h, roots, gx.0 as int),
        reach(h, roots, gy.0 as int),
{
    assert(edge(h, i, gx.0 as int)) by {
        assert(val_refs(h[i]->Some_0)[0].0 == gx.0);
    };
    assert(edge(h, i, gy.0 as int)) by {
        assert(val_refs(h[i]->Some_0)[1].0 == gy.0);
    };
    lemma_reach_step(h, roots, i, gx.0 as int);
    lemma_reach_step(h, roots, i, gy.0 as int);
}

/// The heap the demonstration program's build phase leaves behind: the
/// sixteen cells of the `((42 * 9) / 2 + 23) - 13` application graph, in
/// allocation order.
spec fn prog_heap<T: ThunkEval>() -> Seq<Option<HeapVal<T>>> {
    seq![
        Some(HeapVal::Full(Node::FnDef(FnDef { op: Op::Mul, arity: 2usize }))),
        Some(HeapVal::Full(Node::Int(9i64))),
        Some(HeapVal::Full(Node::App(Gc(0), Gc(1)))),
        Some(HeapVal::Full(Node::Int(42i64))),
        Some(HeapVal::Full(Node::FnDef(FnDef { op: Op::Div, arity: 2usize }))),
        Some(HeapVal::Full(Node::App(Gc(2), Gc(3)))),
        Some(HeapVal::Full(Node::App(Gc(4), Gc(5)))),
        Some(HeapVal::Full(Node::Int(2i64))),
        Some(HeapVal::Full(Node::FnDef(FnDef { op: Op::Add, arity: 2usize }))),
        Some(HeapVal::Full(Node::Int(23i64))),
        Some(HeapVal::Full(Node::App(Gc(8), Gc(9)))),
        Some(HeapVal::Full(Node::App(Gc(6), Gc(7)))),
        Some(HeapVal::Full(Node::FnDef(FnDef { op: Op::Sub, arity: 2usize }))),
        Some(HeapVal::Full(Node::App(Gc(10), Gc(11)))),
        Some(HeapVal::Full(Node::App(Gc(12), Gc(13)))),
        Some(HeapVal::Full(Node::Int(13i64))),
    ]
}

/// On the program's heap, the `(42 * 9) / 2 + 23` subgraph evaluates to
/// `Int(212)`.
proof fn lemma_prog_evals<T: ThunkEval>()
    ensures
        evals_to(prog_heap::<T>(), Node::App(Gc(10), Gc(11)), 212i64, 25),
{
    let h = prog_heap::<T>();
    lemma_eval_int(h, 9i64, 1);
    lemma_eval_int(h, 42i64, 1);
    lemma_eval_int(h, 2i64, 1);
    lemma_eval_int(h, 23i64, 1);
    lemma_arith_val_exact(Op::Mul, 9i64, 42i64);
    assert(arith_val(Op::Mul, 9i64, 42i64) == 378i64);
    lemma_eval_binop(
        h,
        Op::Mul,
        Gc(2),
        Gc(0),
        Gc(1),
        Gc(3),
        Node::Int(9i64),
        Node::Int(42i64),
        9i64,
        42i64,
        1,
        1,
    );
    assert(evals_to(h, Node::App(Gc(2), Gc(3)), 378i64, 9));
    lemma_arith_val_exact(Op::Div, 378i64, 2i64);
    assert(vstd::math::abs(378) == 378 && vstd::math::abs(2) == 2);
    assert(378int / 2int == 189int) by (nonlinear_arith);
    assert(div_trunc(378, 2) == 189);
    assert(arith_val(Op::Div, 378i64, 2i64) == 189i64);
    lemma_eval_binop(
        h,
        Op::Div,
        Gc(6),
        Gc(4),
        Gc(5),
        Gc(7),
        Node::App(Gc(2), Gc(3)),
        Node::Int(2i64),
        378i64,
        2i64,
        9,
        1,
    );
    assert(evals_to(h, Node::App(Gc(6), Gc(7)), 189i64, 17));
    lemma_arith_val_exact(Op::Add, 23i64, 189i64);
    assert(arith_val(Op::Add, 23i64, 189i64) == 212i64);
    lemma_eval_binop(
        h,
        Op::Add,
        Gc(10),
        Gc(8),
        Gc(9),
        Gc(11),
        Node::Int(23i64),
        Node::App(Gc(6), Gc(7)),
        23i64,
        189i64,
        1,
        17,
    );
}

/// On any prefix of the program heap holding at least the divide graph,
/// reaching its root application (cells 6 and 7) reaches the whole lower
/// graph.
proof fn lemma_prog_reach_lower<T: ThunkEval>(
    h: Seq<Option<HeapVal<T>>>,
    roots: Set<int>,
    n: int,
)
    requires
        8 <= n <= 16,
        h == prog_heap::<T>().take(n),
        reach(h, roots, 6),
        reach(h, roots, 7),
    ensures
        forall|j: int| 0 <= j < 8 ==> reach(h, roots, j),
{
    assert(val_refs(h[6]->Some_0) =~= seq![Gc(4), Gc(5)]);
    lemma_edge2(h, roots, 6, Gc(4), Gc(5));
    assert(val_refs(h[5]->Some_0) =~= seq![Gc(2), Gc(3)]);
    lemma_edge2(h, roots, 5, Gc(2), Gc(3));
    assert(val_refs(h[2]->Some_0) =~= seq![Gc(0), Gc(1)]);
    lemma_edge2(h, roots, 2, Gc(0), Gc(1));
    assert forall|j: int| 0 <= j < 8 implies reach(h, roots, j) by {
        if j == 0 {
            assert(reach(h, roots, 0));
        } else if j == 1 {
            assert(reach(h, roots, 1));
        } else if j == 2 {
            assert(reach(h, roots, 2));
        } else if j == 3 {
            assert(reach(h, roots, 3));
        } else if j == 4 {
            assert(reach(h, roots, 4));
        } else if j == 5 {
            assert(reach(h, roots, 5));
        } else if j == 6 {
        } else {
            assert(j == 7);
        }
    };
}

/// The collection before cells 2 and 3 are stored keeps the whole heap:
/// both existing cells are roots.
proof fn lemma_prog_keep2<T: ThunkEval>(h: Seq<Option<HeapVal<T>>>, roots: Set<int>)
    requires
        h == prog_heap::<T>().take(2),
        roots.contains(0),
        roots.contains(1),
    ensures
        collect_spec(h, roots) == h,
{
    assert(reach_n(h, roots, 0, 0nat));
    assert(reach(h, roots, 0));
    assert(reach_n(h, roots, 1, 0nat));
    assert(reach(h, roots, 1));
    assert forall|j: int| live(h, j) implies reach(h, roots, j) by {
        if j == 0 {
        } else {
            assert(j == 1);
        }
    };
    lemma_collect_noop(h, roots);
}

/// The collection before cells 4 and 5 are stored keeps the whole heap:
/// its roots are the multiply application's cells.
proof fn lemma_prog_keep4<T: ThunkEval>(h: Seq<Option<HeapVal<T>>>, roots: Set<int>)
    requires
        h == prog_heap::<T>().take(4),
        roots.contains(2),
        roots.contains(3),
    ensures
        collect_spec(h, roots) == h,
{
    assert(reach_n(h, roots, 2, 0nat));
    assert(reach(h, roots, 2));
    assert(reach_n(h, roots, 3, 0nat));
    assert(reach(h, roots, 3));
    assert(val_refs(h[2]->Some_0) =~= seq![Gc(0), Gc(1)]);
    lemma_edge2(h, roots, 2, Gc(0), Gc(1));
    assert forall|j: int| live(h, j) implies reach(h, roots, j) by {
        if j == 0 {
            assert(reach(h, roots, 0));
        } else if j == 1 {
            assert(reach(h, roots, 1));
        } else if j == 2 {
        } else {
            assert(j == 3);
        }
    };
    lemma_collect_noop(h, roots);
}

/// The collection before cells 6 and 7 are stored keeps the whole heap.
proof fn lemma_prog_keep6<T: ThunkEval>(h: Seq<Option<HeapVal<T>>>, roots: Set<int>)
    requires
        h == prog_heap::<T>().take(6),
        roots.contains(4),
        roots.contains(5),
    ensures
        collect_spec(h, roots) == h,
{
    assert(reach_n(h, roots, 4, 0nat));
    assert(reach(h, roots, 4));
    assert(reach_n(h, roots, 5, 0nat));
    assert(reach(h, roots, 5));
    assert(val_refs(h[5]->Some_0) =~= seq![Gc(2), Gc(3)]);
    lemma_edge2(h, roots, 5, Gc(2), Gc(3));
    assert(val_refs(h[2]->Some_0) =~= seq![Gc(0), Gc(1)]);
    lemma_edge2(h, roots, 2, Gc(0), Gc(1));
    assert forall|j: int| live(h, j) implies reach(h, roots, j) by {
        if j == 0 {
            assert(reach(h, roots, 0));
        } else if j == 1 {
            assert(reach(h, roots, 1));
        } else if j == 2 {
            assert(reach(h, roots, 2));
        } else if j == 3 {
            assert(reach(h, roots, 3));
        } else if j == 4 {
        } else {
            assert(j == 5);
        }
    };
    lemma_collect_noop(h, roots);
}

/// The collection before cells 8 and 9 are stored keeps the whole heap.
proof fn lemma_prog_keep8<T: ThunkEval>(h: Seq<Option<HeapVal<T>>>, roots: Set<int>)
    requires
        h == prog_heap::<T>().take(8),
        roots.contains(6),
        roots.contains(7),
    ensures
        collect_spec(h, roots) == h,
{
    assert(reach_n(h, roots, 6, 0nat));
    assert(reach(h, roots, 6));
    assert(reach_n(h, roots, 7, 0nat));
    assert(reach(h, roots, 7));
    lemma_prog_reach_lower(h, roots, 8);
    assert forall|j: int| live(h, j) implies reach(h, roots, j) by {
        assert(0 <= j < 8);
    };
    lemma_collect_noop(h, roots);
}

/// The collection before cells 10 and 11 are stored keeps the whole heap:
/// the add combinator's operands and the frame's divide graph are roots.
proof fn lemma_prog_keep10<T: ThunkEval>(h: Seq<Option<HeapVal<T>>>, roots: Set<int>)
    requires
        h == prog_heap::<T>().take(10),
        roots.contains(8),
        roots.contains(9),
        roots.contains(6),
        roots.contains(7),
    ensures
        collect_spec(h, roots) == h,
{
    assert(reach_n(h, roots, 8, 0nat));
    assert(reach(h, roots, 8));
    assert(reach_n(h, roots, 9, 0nat));
    assert(reach(h, roots, 9));
    assert(reach_n(h, roots, 6, 0nat));
    assert(reach(h, roots, 6));
    assert(reach_n(h, roots, 7, 0nat));
    assert(reach(h, roots, 7));
    lemma_prog_reach_lower(h, roots, 10);
    assert forall|j: int| live(h, j) implies reach(h, roots, j) by {
        if j < 8 {
            assert(reach(h, roots, j));
        } else if j == 8 {
        } else {
            assert(j == 9);
        }
    };
    lemma_collect_noop(h, roots);
}

/// The collection before cells 12 and 13 are stored keeps the whole heap.
proof fn lemma_prog_keep12<T: ThunkEval>(h: Seq<Option<HeapVal<T>>>, roots: Set<int>)
    requires
        h == prog_heap::<T>().take(12),
        roots.contains(10),
        roots.contains(11),
    ensures
        collect_spec(h, roots) == h,
{
    assert(reach_n(h, roots, 10, 0nat));
    assert(reach(h, roots, 10));
    assert(reach_n(h, roots, 11, 0nat));
    assert(reach(h, roots, 11));
    assert(val_refs(h[10]->Some_0) =~= seq![Gc(8), Gc(9)]);
    lemma_edge2(h, roots, 10, Gc(8), Gc(9));
    assert(val_refs(h[11]->Some_0) =~= seq![Gc(6), Gc(7)]);
    lemma_edge2(h, roots, 11, Gc(6), Gc(7));
    lemma_prog_reach_lower(h, roots, 12);
    assert forall|j: int| live(h, j) implies reach(h, roots, j) by {
        if j < 8 {
            assert(reach(h, roots, j));
        } else if j == 8 {
            assert(reach(h, roots, 8));
        } else if j == 9 {
            assert(reach(h, roots, 9));
        } else if j == 10 {
        } else {
            assert(j == 11);
        }
    };
    lemma_collect_noop(h, roots);
}

/// The collection before cells 14 and 15 are stored keeps the whole heap.
proof fn lemma_prog_keep14<T: ThunkEval>(h: Seq<Option<HeapVal<T>>>, roots: Set<int>)
    requires
        h == prog_heap::<T>().take(14),
        roots.contains(12),
        roots.contains(13),
    ensures
        collect_spec(h, roots) == h,
{
    assert(reach_n(h, roots, 12, 0nat));
    assert(reach(h, roots, 12));
    assert(reach_n(h, roots, 13, 0nat));
    assert(reach(h, roots, 13));
    assert(val_refs(h[13]->Some_0) =~= seq![Gc(10), Gc(11)]);
    lemma_edge2(h, roots, 13, Gc(10), Gc(11));
    assert(val_refs(h[10]->Some_0) =~= seq![Gc(8), Gc(9)]);
    lemma_edge2(h, roots, 10, Gc(8), Gc(9));
    assert(val_refs(h[11]->Some_0) =~= seq![Gc(6), Gc(7)]);
    lemma_edge2(h, roots, 11, Gc(6), Gc(7));
    lemma_prog_reach_lower(h, roots, 14);
    assert forall|j: int| live(h, j) implies reach(h, roots, j) by {
        if j < 8 {
            assert(reach(h, roots, j));
        } else if j == 8 {
            assert(reach(h, roots, 8));
        } else if j == 9 {
            assert(reach(h, roots, 9));
        } else if j == 10 {
            assert(reach(h, roots, 10));
        } else if j == 11 {
            assert(reach(h, roots, 11));
        } else if j == 12 {
        } else {
            assert(j == 13);
        }
    };
    lemma_collect_noop(h, roots);
}

/// Unwinding the built program graph finishes in 31 steps with `Int(199)`
/// as the single entry of the current frame.
#[verifier::rlimit(100)]
proof fn lemma_prog_run<T: ThunkEval>(mg: MachineView<T>)
    requires
        mg.heap == prog_heap::<T>(),
        mg.frames == seq![seq![Node::App(Gc(14), Gc(15))]],
    ensures
        run_spec(mg, seq![Task::Unwind(0usize)], 31) == RunOut::<T>::Done(
            with_cur(mg, seq![Node::Int(199i64)]),
        ),
{
    let h = prog_heap::<T>();
    lemma_prog_evals::<T>();
    let t0 = seq![Task::Unwind(0usize)];
    let c0 = seq![Node::App(Gc(14), Gc(15))];
    assert(cur_frame(mg) == c0);

    assert(node_at(mg, Gc(14)) == Some(Node::App(Gc(12), Gc(13))));
    let c1 = c0.push(Node::App(Gc(12), Gc(13)));
    let m1 = with_cur(mg, c1);
    assert(step_spec(mg, Task::Unwind(0usize)) == StepRes::<T>::Next(
        m1,
        seq![Task::Unwind(1usize)],
    ));
    let t1 = t0.drop_last() + seq![Task::Unwind(1usize)];
    assert(run_spec(mg, t0, 31) == run_spec(m1, t1, 30));
    assert(t1 =~= seq![Task::Unwind(1usize)]);

    assert(cur_frame(m1) == c1);
    assert(node_at(m1, Gc(12)) == Some(Node::FnDef(FnDef { op: Op::Sub, arity: 2usize })));
    let c2 = c1.push(Node::FnDef(FnDef { op: Op::Sub, arity: 2usize }));
    let m2 = with_cur(m1, c2);
    assert(step_spec(m1, Task::Unwind(1usize)) == StepRes::<T>::Next(
        m2,
        seq![Task::Unwind(2usize)],
    ));
    let t2 = t1.drop_last() + seq![Task::Unwind(2usize)];
    assert(run_spec(m1, t1, 30) == run_spec(m2, t2, 29));
    assert(t2 =~= seq![Task::Unwind(2usize)]);

    assert(cur_frame(m2) == c2);
    let entries = c2.drop_last();
    assert(entries =~= c1);
    assert(entries.skip(0) =~= entries);
    assert(entries.drop_last() =~= c0);
    assert(c0.drop_last() =~= Seq::<Node>::empty());
    assert(spine_args(m2, Seq::<Node>::empty()) == Ok::<Seq<Node>, VmError>(
        Seq::<Node>::empty(),
    ));
    assert(node_at(m2, Gc(15)) == Some(Node::Int(13i64)));
    assert(node_at(m2, Gc(13)) == Some(Node::App(Gc(10), Gc(11))));
    assert(spine_args(m2, c0) == Ok::<Seq<Node>, VmError>(seq![Node::Int(13i64)])) by {
        assert(Seq::<Node>::empty().push(Node::Int(13i64)) =~= seq![Node::Int(13i64)]);
    };
    let args = seq![Node::Int(13i64), Node::App(Gc(10), Gc(11))];
    assert(spine_args(m2, entries) == Ok::<Seq<Node>, VmError>(args)) by {
        assert(seq![Node::Int(13i64)].push(Node::App(Gc(10), Gc(11))) =~= args);
    };
    let c3 = entries.take(0) + args;
    assert(c3 =~= args);
    let m3 = with_cur(m2, c3);
    assert(step_spec(m2, Task::Unwind(2usize)) == StepRes::<T>::Next(
        m3,
        seq![Task::ArithLeft(Op::Sub), Task::Eval],
    ));
    let t3 = t2.drop_last() + seq![Task::ArithLeft(Op::Sub), Task::Eval];
    assert(run_spec(m2, t2, 29) == run_spec(m3, t3, 28));
    assert(t3 =~= seq![Task::ArithLeft(Op::Sub), Task::Eval]);

    // the `(42 * 9) / 2 + 23` subgraph on top of the frame
    assert(cur_frame(m3) == c3 && c3.last() == Node::App(Gc(10), Gc(11)) && c3.len() == 2);
    let m4 = with_cur(m3, seq![Node::Int(13i64), Node::Int(212i64)]);
    assert(run_spec(m3, seq![Task::Eval], 25) == RunOut::<T>::Done(m4)) by {
        assert(c3.update(c3.len() - 1, Node::Int(212i64)) =~= seq![
            Node::Int(13i64),
            Node::Int(212i64),
        ]);
        assert(with_cur(m3, c3.update(c3.len() - 1, Node::Int(212i64))) =~= m4);
    };

    // the tail: pop the minuend, force the subtrahend, subtract
    assert(cur_frame(m4) =~= seq![Node::Int(13i64), Node::Int(212i64)]);
    let c5 = seq![Node::Int(13i64)];
    let m5 = with_cur(m4, c5);
    assert(step_spec(m4, Task::ArithLeft(Op::Sub)) == StepRes::<T>::Next(
        m5,
        seq![Task::ArithRight(Op::Sub, 212i64), Task::Eval],
    )) by {
        assert(cur_frame(m4).drop_last() =~= c5);
        assert(with_cur(m4, cur_frame(m4).drop_last()) =~= m5);
    };
    assert(cur_frame(m5) == c5);
    assert(step_spec(m5, Task::Eval) == StepRes::<T>::Next(m5, Seq::<Task>::empty()));
    lemma_arith_val_exact(Op::Sub, 212i64, 13i64);
    assert(arith_val(Op::Sub, 212i64, 13i64) == 199i64);
    let m6 = with_cur(m5, seq![Node::Int(199i64)]);
    assert(step_spec(m5, Task::ArithRight(Op::Sub, 212i64)) == StepRes::<T>::Next(
        m6,
        Seq::<Task>::empty(),
    )) by {
        assert(c5.drop_last().push(Node::Int(arith_val(Op::Sub, 212i64, 13i64))) =~= seq![
            Node::Int(199i64),
        ]);
        assert(with_cur(m5, c5.drop_last().push(Node::Int(arith_val(Op::Sub, 212i64, 13i64))))
            =~= m6);
    };
    assert(run_spec(m4, seq![Task::ArithLeft(Op::Sub)], 3) == RunOut::<T>::Done(m6)) by {
        let ta = seq![Task::ArithLeft(Op::Sub)];
        let tb = ta.drop_last() + seq![Task::ArithRight(Op::Sub, 212i64), Task::Eval];
        assert(tb =~= seq![Task::ArithRight(Op::Sub, 212i64), Task::Eval]);
        assert(run_spec(m4, ta, 3) == run_spec(m5, tb, 2));
        let tc = tb.drop_last() + Seq::<Task>::empty();
        assert(tc =~= seq![Task::ArithRight(Op::Sub, 212i64)]);
        assert(run_spec(m5, tb, 2) == run_spec(m5, tc, 1));
        let td = tc.drop_last() + Seq::<Task>::empty();
        assert(td =~= Seq::<Task>::empty());
        assert(run_spec(m5, tc, 1) == run_spec(m6, td, 0));
    };

    lemma_run_seq(m3, seq![Task::Eval], seq![Task::ArithLeft(Op::Sub)], 25, 3, m4);
    assert(seq![Task::ArithLeft(Op::Sub)] + seq![Task::Eval] =~= t3);
    assert(run_spec(m3, t3, 28) == RunOut::<T>::Done(m6));
    assert(m6 =~= with_cur(mg, seq![Node::Int(199i64)]));
}

/// The program's build phase, run on a fresh machine, leaves exactly the
/// sixteen-cell program graph and one frame holding its root application:
/// every collection along the way keeps every cell, because the graph
/// under construction is fully reachable from the frame and from the
/// nodes about to be stored.
#[verifier::rlimit(100)]
proof fn lemma_prog_build<T: ThunkEval>(m: MachineView<T>)
    requires
        m.heap.len() == 0,
        m.frames == seq![Seq::<Node>::empty()],
    ensures
        prog_graph(m).heap == prog_heap::<T>(),
        prog_graph(m).frames == seq![seq![Node::App(Gc(14), Gc(15))]],
        prog_graph(m).tevals == m.tevals,
{
    let ph = prog_heap::<T>();
    let n13 = Node::Int(13i64);
    let n2 = Node::Int(2i64);
    let n42 = Node::Int(42i64);
    let n9 = Node::Int(9i64);
    let n23 = Node::Int(23i64);
    let fm = Node::FnDef(FnDef { op: Op::Mul, arity: 2usize });
    let fd = Node::FnDef(FnDef { op: Op::Div, arity: 2usize });
    let fa = Node::FnDef(FnDef { op: Op::Add, arity: 2usize });
    let fs = Node::FnDef(FnDef { op: Op::Sub, arity: 2usize });
    let a01 = Node::App(Gc(0), Gc(1));
    let a23 = Node::App(Gc(2), Gc(3));
    let a45 = Node::App(Gc(4), Gc(5));
    let a67 = Node::App(Gc(6), Gc(7));
    let a89 = Node::App(Gc(8), Gc(9));
    let a1011 = Node::App(Gc(10), Gc(11));
    let a1213 = Node::App(Gc(12), Gc(13));
    let a1415 = Node::App(Gc(14), Gc(15));

    assert(cur_frame(m) == Seq::<Node>::empty());

    // the five leading pushes
    let s1 = with_cur(m, cur_frame(m).push(n13));
    let s2 = with_cur(s1, cur_frame(s1).push(n2));
    let s3 = with_cur(s2, cur_frame(s2).push(n42));
    let s4 = with_cur(s3, cur_frame(s3).push(n9));
    let s5 = with_cur(s4, cur_frame(s4).push(fm));
    let fr5 = seq![n13, n2, n42, n9, fm];
    assert(cur_frame(s1) == cur_frame(m).push(n13));
    assert(cur_frame(s2) == cur_frame(s1).push(n2));
    assert(cur_frame(s3) == cur_frame(s2).push(n42));
    assert(cur_frame(s4) == cur_frame(s3).push(n9));
    assert(cur_frame(s5) =~= fr5);

    // cells 0 and 1, on the still-empty heap
    let s6 = mk_ap_spec(s5);
    let fr6 = seq![n13, n2, n42, a01];
    assert(fr5.last() == fm && fr5.drop_last().last() == n9);
    assert(s6.heap =~= ph.take(2));
    assert(cur_frame(s6) =~= fr6);

    // cells 2 and 3; the roots are the children of the node being stored
    let s7 = mk_ap_spec(s6);
    let rem6 = seq![n13, n2];
    assert(fr6.last() == a01 && fr6.drop_last().last() == n42);
    assert(fr6.drop_last().drop_last() =~= rem6);
    let m1_6 = with_cur(s6, fr6.drop_last().drop_last());
    assert(m1_6.frames =~= seq![rem6]);
    lemma_frames_refs_single(rem6);
    lemma_flat_small(n13, n2, n2);
    let rs6 = node_refs(a01) + node_refs(n42) + frames_refs(m1_6.frames);
    assert(rs6 =~= seq![Gc(0), Gc(1)]);
    let roots6 = idx_set(rs6);
    assert(roots6.contains(0)) by {
        assert(rs6[0].0 == 0);
    };
    assert(roots6.contains(1)) by {
        assert(rs6[1].0 == 1);
    };
    lemma_prog_keep2(ph.take(2), roots6);
    let fr7 = seq![n13, n2, a23];
    assert(s7.heap =~= ph.take(4));
    assert(cur_frame(s7) =~= fr7);

    // the divide combinator joins the frame
    let s8 = with_cur(s7, cur_frame(s7).push(fd));
    let fr8 = seq![n13, n2, a23, fd];
    assert(cur_frame(s8) =~= fr8);

    // cells 4 and 5
    let s9 = mk_ap_spec(s8);
    assert(fr8.last() == fd && fr8.drop_last().last() == a23);
    assert(fr8.drop_last().drop_last() =~= rem6);
    let m1_8 = with_cur(s8, fr8.drop_last().drop_last());
    assert(m1_8.frames =~= seq![rem6]);
    let rs8 = node_refs(fd) + node_refs(a23) + frames_refs(m1_8.frames);
    assert(rs8 =~= seq![Gc(2), Gc(3)]);
    let roots8 = idx_set(rs8);
    assert(roots8.contains(2)) by {
        assert(rs8[0].0 == 2);
    };
    assert(roots8.contains(3)) by {
        assert(rs8[1].0 == 3);
    };
    lemma_prog_keep4(ph.take(4), roots8);
    let fr9 = seq![n13, n2, a45];
    assert(s9.heap =~= ph.take(6));
    assert(cur_frame(s9) =~= fr9);

    // cells 6 and 7
    let s10 = mk_ap_spec(s9);
    let rem9 = seq![n13];
    assert(fr9.last() == a45 && fr9.drop_last().last() == n2);
    assert(fr9.drop_last().drop_last() =~= rem9);
    let m1_9 = with_cur(s9, fr9.drop_last().drop_last());
    assert(m1_9.frames =~= seq![rem9]);
    lemma_frames_refs_single(rem9);
    lemma_flat_small(n13, n13, n13);
    let rs9 = node_refs(a45) + node_refs(n2) + frames_refs(m1_9.frames);
    assert(rs9 =~= seq![Gc(4), Gc(5)]);
    let roots9 = idx_set(rs9);
    assert(roots9.contains(4)) by {
        assert(rs9[0].0 == 4);
    };
    assert(roots9.contains(5)) by {
        assert(rs9[1].0 == 5);
    };
    lemma_prog_keep6(ph.take(6), roots9);
    let fr10 = seq![n13, a67];
    assert(s10.heap =~= ph.take(8));
    assert(cur_frame(s10) =~= fr10);

    // the addend and the add combinator join the frame
    let s11 = with_cur(s10, cur_frame(s10).push(n23));
    let s12 = with_cur(s11, cur_frame(s11).push(fa));
    let fr12 = seq![n13, a67, n23, fa];
    assert(cur_frame(s11) == cur_frame(s10).push(n23));
    assert(cur_frame(s12) =~= fr12);

    // cells 8 and 9; the remaining frame keeps the divide graph alive
    let s13 = mk_ap_spec(s12);
    let rem12 = seq![n13, a67];
    assert(fr12.last() == fa && fr12.drop_last().last() == n23);
    assert(fr12.drop_last().drop_last() =~= rem12);
    let m1_12 = with_cur(s12, fr12.drop_last().drop_last());
    assert(m1_12.frames =~= seq![rem12]);
    lemma_frames_refs_single(rem12);
    lemma_flat_small(n13, a67, n13);
    let rs12 = node_refs(fa) + node_refs(n23) + frames_refs(m1_12.frames);
    assert(rs12 =~= seq![Gc(6), Gc(7)]);
    let roots12 = idx_set(rs12);
    assert(roots12.contains(6)) by {
        assert(rs12[0].0 == 6);
    };
    assert(roots12.contains(7)) by {
        assert(rs12[1].0 == 7);
    };
    lemma_prog_keep8(ph.take(8), roots12);
    let fr13 = seq![n13, a67, a89];
    assert(s13.heap =~= ph.take(10));
    assert(cur_frame(s13) =~= fr13);

    // cells 10 and 11; both stored nodes carry references
    let s14 = mk_ap_spec(s13);
    assert(fr13.last() == a89 && fr13.drop_last().last() == a67);
    assert(fr13.drop_last().drop_last() =~= rem9);
    let m1_13 = with_cur(s13, fr13.drop_last().drop_last());
    assert(m1_13.frames =~= seq![rem9]);
    let rs13 = node_refs(a89) + node_refs(a67) + frames_refs(m1_13.frames);
    assert(rs13 =~= seq![Gc(8), Gc(9), Gc(6), Gc(7)]);
    let roots13 = idx_set(rs13);
    assert(roots13.contains(8)) by {
        assert(rs13[0].0 == 8);
    };
    assert(roots13.contains(9)) by {
        assert(rs13[1].0 == 9);
    };
    assert(roots13.contains(6)) by {
        assert(rs13[2].0 == 6);
    };
    assert(roots13.contains(7)) by {
        assert(rs13[3].0 == 7);
    };
    lemma_prog_keep10(ph.take(10), roots13);
    let fr14 = seq![n13, a1011];
    assert(s14.heap =~= ph.take(12));
    assert(cur_frame(s14) =~= fr14);

    // the subtract combinator joins the frame
    let s15 = with_cur(s14, cur_frame(s14).push(fs));
    let fr15 = seq![n13, a1011, fs];
    assert(cur_frame(s15) =~= fr15);

    // cells 12 and 13
    let s16 = mk_ap_spec(s15);
    assert(fr15.last() == fs && fr15.drop_last().last() == a1011);
    assert(fr15.drop_last().drop_last() =~= rem9);
    let m1_15 = with_cur(s15, fr15.drop_last().drop_last());
    assert(m1_15.frames =~= seq![rem9]);
    let rs15 = node_refs(fs) + node_refs(a1011) + frames_refs(m1_15.frames);
    assert(rs15 =~= seq![Gc(10), Gc(11)]);
    let roots15 = idx_set(rs15);
    assert(roots15.contains(10)) by {
        assert(rs15[0].0 == 10);
    };
    assert(roots15.contains(11)) by {
        assert(rs15[1].0 == 11);
    };
    lemma_prog_keep12(ph.take(12), roots15);
    let fr16 = seq![n13, a1213];
    assert(s16.heap =~= ph.take(14));
    assert(cur_frame(s16) =~= fr16);

    // cells 14 and 15: the root application
    let s17 = mk_ap_spec(s16);
    let rem16 = Seq::<Node>::empty();
    assert(fr16.last() == a1213 && fr16.drop_last().last() == n13);
    assert(fr16.drop_last().drop_last() =~= rem16);
    let m1_16 = with_cur(s16, fr16.drop_last().drop_last());
    assert(m1_16.frames =~= seq![rem16]);
    lemma_frames_refs_single(rem16);
    let rs16 = node_refs(a1213) + node_refs(n13) + frames_refs(m1_16.frames);
    assert(rs16 =~= seq![Gc(12), Gc(13)]);
    let roots16 = idx_set(rs16);
    assert(roots16.contains(12)) by {
        assert(rs16[0].0 == 12);
    };
    assert(roots16.contains(13)) by {
        assert(rs16[1].0 == 13);
    };
    lemma_prog_keep14(ph.take(14), roots16);
    assert(s17.heap =~= ph.take(16));
    assert(ph.take(16) =~= ph);
    assert(cur_frame(s17) =~= seq![a1415]);
    assert(s17.frames =~= seq![seq![a1415]]);

    assert(prog_graph(m) == s17);
    assert(s17.tevals == m.tevals);
}


/// The end-to-end program: on a fresh machine (one empty frame, empty
/// heap), building the `((42 * 9) / 2 + 23) - 13` graph and unwinding it
/// must succeed and leave `Int(199)` as the single entry of the single
/// remaining frame.
pub proof fn lemma_prog_result<T: ThunkEval>(
    m: MachineView<T>,
    r: Result<(), VmError>,
    m1: MachineView<T>,
)
    requires
        m.heap.len() == 0,
        m.frames == seq![Seq::<Node>::empty()],
        realizes(prog_graph(m), seq![Task::Unwind(0usize)], r, m1),
    ensures
        r is Ok,
        m1.frames == seq![seq![Node::Int(199i64)]],
{
    lemma_prog_build(m);
    let mg = prog_graph(m);
    assert(mg.frames =~= seq![seq![Node::App(Gc(14), Gc(15))]]);
    lemma_prog_run(mg);
    let mf = with_cur(mg, seq![Node::Int(199i64)]);
    assert(run_spec(mg, seq![Task::Unwind(0usize)], 31) == RunOut::<T>::Done(mf));
    assert(31nat <= max_steps());
    assert(r is Ok && m1 == mf);
    assert(m1.frames =~= seq![seq![Node::Int(199i64)]]);
}

/// Collector soundness, read off the collector's contract: after a
/// collection with root set `roots`, every reachable cell still holds
/// exactly its old value, and every unreachable cell is gone.
pub proof fn lemma_collector_sound<T: ThunkEval>(
    h: Seq<Option<HeapVal<T>>>,
    roots: Set<int>,
    j: int,
)
    requires
        0 <= j < h.len(),
    ensures
        reach(h, roots, j) ==> collect_spec(h, roots)[j] == h[j],
        !reach(h, roots, j) ==> collect_spec(h, roots)[j] is None,
{
}

proof fn lemma_reach_collect_iff<T: ThunkEval>(
    h: Seq<Option<HeapVal<T>>>,
    roots: Set<int>,
    j: int,
    n: nat,
)
    ensures
        reach_n(h, roots, j, n) ==> reach_n(collect_spec(h, roots), roots, j, n),
        reach_n(collect_spec(h, roots), roots, j, n) ==> reach_n(h, roots, j, n),
    decreases n,
{
    let h2 = collect_spec(h, roots);
    if n > 0 {
        lemma_reach_collect_iff(h, roots, j, (n - 1) as nat);
        if reach_n(h, roots, j, n) && !reach_n(h, roots, j, (n - 1) as nat) {
            let i = choose|i: int| reach_n(h, roots, i, (n - 1) as nat) && edge(h, i, j);
            lemma_reach_collect_iff(h, roots, i, (n - 1) as nat);
            assert(reach_n(h, roots, i, (n - 1) as nat));
            assert(reach(h, roots, i));
            assert(h2[i] == h[i]);
            assert(edge(h2, i, j));
            assert(reach_n(h2, roots, j, n));
        }
        if reach_n(h2, roots, j, n) && !reach_n(h2, roots, j, (n - 1) as nat) {
            let i = choose|i: int| reach_n(h2, roots, i, (n - 1) as nat) && edge(h2, i, j);
            lemma_reach_collect_iff(h, roots, i, (n - 1) as nat);
            assert(live(h2, i));
            assert(h2[i] == h[i]);
            assert(edge(h, i, j));
            assert(reach_n(h, roots, j, n));
        }
    }
}

/// Idempotent mark state: collecting twice from the same roots, with no
/// mutation in between, leaves exactly the live set the first collection
/// left (and the collector's contract already says every mark bit is
/// clear after each pass).
pub proof fn lemma_collect_idempotent<T: ThunkEval>(h: Seq<Option<HeapVal<T>>>, roots: Set<int>)
    ensures
        collect_spec(collect_spec(h, roots), roots) == collect_spec(h, roots),
{
    let h2 = collect_spec(h, roots);
    assert forall|j: int| 0 <= j < h2.len() implies collect_spec(h2, roots)[j] == h2[j] by {
        if reach(h2, roots, j) {
            let n = choose|n: nat| reach_n(h2, roots, j, n);
            lemma_reach_collect_iff(h, roots, j, n);
            assert(reach(h, roots, j));
        } else {
            if reach(h, roots, j) {
                let n = choose|n: nat| reach_n(h, roots, j, n);
                lemma_reach_collect_iff(h, roots, j, n);
                assert(reach(h2, roots, j));
                assert(false);
            }
            assert(h2[j] is None);
        }
    };
    assert(collect_spec(h2, roots) =~= h2);
}

} // verus!
