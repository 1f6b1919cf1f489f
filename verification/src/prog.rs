//! The arithmetic demonstration program: builds the application graph for
//! `((42 * 9) / 2 + 23) - 13` on the machine's stack and unwinds it.

use vstd::prelude::*;

use crate::builtins::{fn_add, fn_div, fn_mul, fn_sub, FnDef, Node, Op, State, ThunkEval, VmError};
use crate::semantics::{cur_frame, mk_ap_spec, realizes, with_cur, MachineView, Task};

verus! {

/// The machine state the program's build phase leaves behind: the state
/// transformations of the pushes and applications, in program order.
pub open spec fn prog_graph<T: ThunkEval>(m: MachineView<T>) -> MachineView<T> {
    let s1 = with_cur(m, cur_frame(m).push(Node::Int(13i64)));
    let s2 = with_cur(s1, cur_frame(s1).push(Node::Int(2i64)));
    let s3 = with_cur(s2, cur_frame(s2).push(Node::Int(42i64)));
    let s4 = with_cur(s3, cur_frame(s3).push(Node::Int(9i64)));
    let s5 = with_cur(s4, cur_frame(s4).push(Node::FnDef(FnDef { op: Op::Mul, arity: 2usize })));
    let s6 = mk_ap_spec(s5);
    let s7 = mk_ap_spec(s6);
    let s8 = with_cur(s7, cur_frame(s7).push(Node::FnDef(FnDef { op: Op::Div, arity: 2usize })));
    let s9 = mk_ap_spec(s8);
    let s10 = mk_ap_spec(s9);
    let s11 = with_cur(s10, cur_frame(s10).push(Node::Int(23i64)));
    let s12 = with_cur(s11, cur_frame(s11).push(Node::FnDef(FnDef { op: Op::Add, arity: 2usize })));
    let s13 = mk_ap_spec(s12);
    let s14 = mk_ap_spec(s13);
    let s15 = with_cur(s14, cur_frame(s14).push(Node::FnDef(FnDef { op: Op::Sub, arity: 2usize })));
    let s16 = mk_ap_spec(s15);
    mk_ap_spec(s16)
}

/// Pushes the program's literals and combinators, building the spine with
/// `mk_ap`, then unwinds it. The build phase always succeeds, so the call
/// realizes the task machine started on the built graph with one `Unwind`
/// task; on a fresh machine the program must evaluate to `Int(199)`.
pub fn eval_prog<T: ThunkEval>(state: &mut State<T>) -> (r: Result<(), VmError>)
    requires
        old(state).wf(),
    ensures
        final(state).wf(),
        realizes(
            prog_graph(old(state)@),
            seq![Task::Unwind(0usize)],
            r,
            final(state)@,
        ),
        (old(state)@.heap.len() == 0 && old(state)@.frames == seq![Seq::<Node>::empty()]) ==> (
        r is Ok && final(state)@.frames == seq![seq![Node::Int(199i64)]]),
{
    state.push_int(13);
    state.push_int(2);
    state.push_int(42);
    state.push_int(9);
    state.push_fn(fn_mul());
    state.mk_ap()?;
    state.mk_ap()?;
    state.push_fn(fn_div());
    state.mk_ap()?;
    state.mk_ap()?;
    state.push_int(23);
    state.push_fn(fn_add());
    state.mk_ap()?;
    state.mk_ap()?;
    state.push_fn(fn_sub());
    state.mk_ap()?;
    state.mk_ap()?;
    proof {
        assert(state@ == prog_graph(old(state)@));
    }
    let r = state.unwind();
    proof {
        if old(state)@.heap.len() == 0 && old(state)@.frames == seq![Seq::<Node>::empty()] {
            crate::laws::lemma_prog_result(old(state)@, r, state@);
        }
    }
    r
}

} // verus!

