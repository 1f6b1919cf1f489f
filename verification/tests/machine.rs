use gmachine::builtins::{
    eval_add, eval_div, eval_mul, eval_sub, fn_add, fn_div, fn_mul, fn_sub, kind_of, FnDef, Node,
    NodeKind, Op, Side, State, Thunk, ThunkEval, TracedThunk, VmError,
};
use gmachine::gc::{store_boxed, Gc, GcState, HeapVal, Mark};
use gmachine::prog::eval_prog;

fn fresh() -> State<TracedThunk> {
    State::new()
}

/// Builds `App(App(FnDef(op), Int(a)), Int(b))` on the current frame.
fn push_binary(state: &mut State<TracedThunk>, op: FnDef, a: i64, b: i64) {
    state.push_int(b);
    state.push_int(a);
    state.push_fn(op);
    state.mk_ap().unwrap();
    state.mk_ap().unwrap();
}

fn eval_binary(op: FnDef, a: i64, b: i64) -> Result<i64, VmError> {
    let mut state = fresh();
    push_binary(&mut state, op, a, b);
    state.eval()?;
    state.render_int()
}

#[test]
fn add_yields_sum() {
    assert_eq!(eval_binary(fn_add(), 2, 3), Ok(5));
    assert_eq!(eval_binary(fn_add(), -10, 3), Ok(-7));
    assert_eq!(eval_binary(fn_add(), 0, 0), Ok(0));
}

#[test]
fn sub_yields_difference() {
    assert_eq!(eval_binary(fn_sub(), 2, 3), Ok(-1));
    assert_eq!(eval_binary(fn_sub(), 212, 13), Ok(199));
}

#[test]
fn mul_yields_product() {
    assert_eq!(eval_binary(fn_mul(), 42, 9), Ok(378));
    assert_eq!(eval_binary(fn_mul(), -4, 5), Ok(-20));
}

#[test]
fn div_truncates_toward_zero() {
    assert_eq!(eval_binary(fn_div(), 378, 2), Ok(189));
    assert_eq!(eval_binary(fn_div(), 7, 2), Ok(3));
    assert_eq!(eval_binary(fn_div(), -7, 2), Ok(-3));
    assert_eq!(eval_binary(fn_div(), 7, -2), Ok(-3));
    assert_eq!(eval_binary(fn_div(), -7, -2), Ok(3));
}

#[test]
fn arithmetic_wraps_at_64_bits() {
    assert_eq!(eval_binary(fn_add(), i64::MAX, 1), Ok(i64::MIN));
    assert_eq!(eval_binary(fn_sub(), i64::MIN, 1), Ok(i64::MAX));
    assert_eq!(eval_binary(fn_mul(), i64::MAX, 2), Ok(-2));
    assert_eq!(eval_binary(fn_div(), i64::MIN, -1), Ok(i64::MIN));
}

#[test]
fn division_by_zero_fails() {
    assert_eq!(eval_binary(fn_div(), 1, 0), Err(VmError::DivisionByZero));
    assert_eq!(eval_binary(fn_div(), 0, 0), Err(VmError::DivisionByZero));
    assert_eq!(eval_binary(fn_div(), i64::MIN, 0), Err(VmError::DivisionByZero));
}

#[test]
fn type_mismatch_names_left_side() {
    let mut state = fresh();
    // right operand 5; left operand is the unreducible application (1 2)
    state.push_int(5);
    state.push_int(2);
    state.push_int(1);
    state.mk_ap().unwrap();
    state.push_fn(fn_add());
    state.mk_ap().unwrap();
    state.mk_ap().unwrap();
    assert_eq!(
        state.eval(),
        Err(VmError::TypeMismatch(Side::Left, NodeKind::AppKind))
    );
}

#[test]
fn type_mismatch_names_right_side() {
    let mut state = fresh();
    // right operand is the unreducible application (1 2); left operand 5
    state.push_int(2);
    state.push_int(1);
    state.mk_ap().unwrap();
    state.push_int(5);
    state.push_fn(fn_mul());
    state.mk_ap().unwrap();
    state.mk_ap().unwrap();
    assert_eq!(
        state.eval(),
        Err(VmError::TypeMismatch(Side::Right, NodeKind::AppKind))
    );
}

#[test]
fn partial_application_is_an_arity_underflow() {
    let mut state = fresh();
    state.push_int(1);
    state.push_fn(fn_add());
    state.mk_ap().unwrap();
    assert_eq!(state.eval(), Err(VmError::ArityUnderflow));
}

#[test]
fn end_to_end_program_yields_199() {
    let mut state = fresh();
    eval_prog(&mut state).unwrap();
    state.eval().unwrap();
    assert_eq!(state.render_int(), Ok(199));
    assert_eq!(state.stack_pop(), Ok(Node::Int(199)));
}

#[test]
fn thunk_runs_exactly_once_across_two_references() {
    let mut state = fresh();
    let g = state.alloc_thunk(TracedThunk {
        name: String::from("seven"),
        value: Node::Int(7),
    });
    assert_eq!(state.thunk_evals(), 0);
    state.stack_push(Node::ThunkRef(g)).unwrap();
    state.eval().unwrap();
    assert_eq!(state.stack_pop(), Ok(Node::Int(7)));
    assert_eq!(state.thunk_evals(), 1);
    // a second, independent reference to the same cell
    state.stack_push(Node::ThunkRef(g)).unwrap();
    state.eval().unwrap();
    assert_eq!(state.stack_pop(), Ok(Node::Int(7)));
    assert_eq!(state.thunk_evals(), 1);
}

#[test]
fn collector_frees_exactly_the_unreachable() {
    let mut state = fresh();
    // live graph: add 2 3 (four cells)
    push_binary(&mut state, fn_add(), 2, 3);
    assert_eq!(state.gc_dump(), 4);
    // garbage: the application (8 9), two more cells
    state.push_int(9);
    state.push_int(8);
    state.mk_ap().unwrap();
    assert_eq!(state.gc_dump(), 6);
    let dropped = state.stack_pop().unwrap();
    assert_eq!(kind_of(&dropped), NodeKind::AppKind);
    state.collect(Vec::new());
    assert_eq!(state.gc_dump(), 4);
    // the reachable graph is unchanged: it still evaluates correctly
    state.eval().unwrap();
    assert_eq!(state.render_int(), Ok(5));
}

#[test]
fn collection_twice_keeps_the_same_live_set() {
    let mut state = fresh();
    push_binary(&mut state, fn_mul(), 6, 7);
    state.push_int(1);
    state.push_int(0);
    state.mk_ap().unwrap();
    let _ = state.stack_pop().unwrap();
    state.collect(Vec::new());
    let first = state.gc_dump();
    state.collect(Vec::new());
    assert_eq!(state.gc_dump(), first);
    state.eval().unwrap();
    assert_eq!(state.render_int(), Ok(42));
}

#[test]
fn stale_reference_is_detected_after_collection() {
    let mut state = fresh();
    state.push_int(2);
    state.push_int(1);
    state.mk_ap().unwrap();
    let stale = state.stack_pop().unwrap();
    state.collect(Vec::new());
    assert_eq!(state.gc_dump(), 0);
    assert_eq!(state.stack_push(stale), Err(VmError::InvalidReference));
}

#[test]
fn stack_operations_round_trip() {
    let mut state = fresh();
    assert_eq!(state.stack_size(), 0);
    state.push_int(11);
    state.push_fn(fn_sub());
    assert_eq!(state.stack_size(), 2);
    assert_eq!(state.stack_peek(), Ok(Node::FnDef(fn_sub())));
    assert_eq!(state.stack_pop(), Ok(Node::FnDef(fn_sub())));
    assert_eq!(state.stack_pop(), Ok(Node::Int(11)));
    assert_eq!(state.stack_pop(), Err(VmError::StackUnderflow));
    assert_eq!(state.stack_peek(), Err(VmError::StackUnderflow));
}

#[test]
fn frames_enter_and_exit() {
    let mut state = fresh();
    state.push_int(1);
    state.stack_enter_new();
    assert_eq!(state.stack_size(), 0);
    state.push_int(2);
    assert_eq!(state.stack_pop(), Ok(Node::Int(2)));
    state.stack_exit().unwrap();
    assert_eq!(state.stack_pop(), Ok(Node::Int(1)));
    // the bottom frame cannot be dropped
    assert_eq!(state.stack_exit(), Err(VmError::StackUnderflow));
}

#[test]
fn mk_ap_needs_two_nodes() {
    let mut state = fresh();
    state.push_int(1);
    assert_eq!(state.mk_ap(), Err(VmError::StackUnderflow));
}

#[test]
fn pushing_a_dangling_node_is_rejected() {
    let mut state = fresh();
    assert_eq!(
        state.stack_push(Node::App(Gc(3), Gc(4))),
        Err(VmError::InvalidReference)
    );
    assert_eq!(
        state.stack_push(Node::NodeRef(Gc(0))),
        Err(VmError::InvalidReference)
    );
}

#[test]
fn eval_on_an_empty_frame_underflows() {
    let mut state = fresh();
    assert_eq!(state.eval(), Err(VmError::StackUnderflow));
    assert_eq!(state.unwind(), Err(VmError::StackUnderflow));
}

#[test]
fn renderer_rejects_non_values() {
    let mut state = fresh();
    state.push_fn(fn_add());
    assert_eq!(state.render_int(), Err(VmError::RenderOfNonValue));
    let _ = state.stack_pop();
    assert_eq!(state.render_int(), Err(VmError::StackUnderflow));
    // a thunk is not a printable value, even once memoized
    let g = state.alloc_thunk(TracedThunk {
        name: String::from("t"),
        value: Node::Int(5),
    });
    state.stack_push(Node::ThunkRef(g)).unwrap();
    assert_eq!(state.render_int(), Err(VmError::RenderOfNonValue));
}

#[test]
fn renderer_follows_indirection_chains() {
    let mut state = fresh();
    // mk_ap stores Int(1) in cell 0 and Int(2) in cell 1
    state.push_int(2);
    state.push_int(1);
    state.mk_ap().unwrap();
    let _ = state.stack_pop().unwrap();
    // a direct indirection to Int(1) renders without an eval
    state.stack_push(Node::NodeRef(Gc(0))).unwrap();
    assert_eq!(state.render_int(), Ok(1));
    let _ = state.stack_pop().unwrap();
    // a two-hop chain: cell 2 holds NodeRef(0), whose target is Int(1)
    state.push_int(5);
    state.stack_push(Node::NodeRef(Gc(0))).unwrap();
    state.mk_ap().unwrap();
    let app = state.stack_pop().unwrap();
    state.stack_push(Node::NodeRef(Gc(2))).unwrap();
    assert_eq!(state.render_int(), Ok(1));
    // an indirection whose target is an application is still fatal
    let _ = state.stack_pop().unwrap();
    state.push_int(7);
    state.stack_push(app).unwrap();
    state.mk_ap().unwrap();
    let _ = state.stack_pop().unwrap();
    state.stack_push(Node::NodeRef(Gc(4))).unwrap();
    assert_eq!(state.render_int(), Err(VmError::RenderOfNonValue));
}

#[test]
fn eval_of_an_integer_is_a_no_op() {
    let mut state = fresh();
    state.push_int(13);
    state.eval().unwrap();
    assert_eq!(state.render_int(), Ok(13));
}

#[test]
fn arith_entry_points_run_against_the_frame() {
    let mut state = fresh();
    state.push_int(4);
    state.push_int(10);
    eval_sub(&mut state).unwrap();
    assert_eq!(state.render_int(), Ok(6));

    let mut state2 = fresh();
    state2.push_int(5);
    state2.push_int(3);
    eval_add(&mut state2).unwrap();
    assert_eq!(state2.render_int(), Ok(8));

    let mut state3 = fresh();
    state3.push_int(5);
    state3.push_int(3);
    eval_mul(&mut state3).unwrap();
    assert_eq!(state3.render_int(), Ok(15));

    let mut state4 = fresh();
    state4.push_int(5);
    state4.push_int(15);
    eval_div(&mut state4).unwrap();
    assert_eq!(state4.render_int(), Ok(3));
}

#[test]
fn arith_entry_points_report_mismatch_and_division() {
    // the top (left) operand is a stuck application
    let mut state = fresh();
    state.push_int(5);
    state.push_int(2);
    state.push_int(1);
    state.mk_ap().unwrap();
    assert_eq!(
        eval_add(&mut state),
        Err(VmError::TypeMismatch(Side::Left, NodeKind::AppKind))
    );

    // the second (right) operand is a stuck application
    let mut state2 = fresh();
    state2.push_int(2);
    state2.push_int(1);
    state2.mk_ap().unwrap();
    state2.push_int(5);
    assert_eq!(
        eval_mul(&mut state2),
        Err(VmError::TypeMismatch(Side::Right, NodeKind::AppKind))
    );

    // a zero divisor at the entry point
    let mut state3 = fresh();
    state3.push_int(0);
    state3.push_int(7);
    assert_eq!(eval_div(&mut state3), Err(VmError::DivisionByZero));
}

#[test]
fn arith_left_operand_forced_before_right() {
    // both operands are thunks; after one evaluation both have run
    let mut state = fresh();
    let gb = state.alloc_thunk(TracedThunk {
        name: String::from("b"),
        value: Node::Int(2),
    });
    let ga = state.alloc_thunk(TracedThunk {
        name: String::from("a"),
        value: Node::Int(40),
    });
    state.stack_push(Node::ThunkRef(gb)).unwrap();
    state.stack_push(Node::ThunkRef(ga)).unwrap();
    eval_add(&mut state).unwrap();
    assert_eq!(state.render_int(), Ok(42));
    assert_eq!(state.thunk_evals(), 2);
}

#[test]
fn mark_trait_reports_references() {
    let node = Node::App(Gc(1), Gc(2));
    let mut wl: Vec<Gc> = Vec::new();
    node.mark_refs(&mut wl);
    assert_eq!(wl, vec![Gc(1), Gc(2)]);
    let val: HeapVal<TracedThunk> = HeapVal::Susp(Thunk::EThunk(Node::NodeRef(Gc(7))));
    val.mark_refs(&mut wl);
    assert_eq!(wl, vec![Gc(1), Gc(2), Gc(7)]);
}

#[test]
fn gc_state_allocates_fresh_cells() {
    let mut heap: GcState<TracedThunk> = GcState::new();
    assert_eq!(heap.live_count(), 0);
    let g1 = heap.alloc_node(Node::Int(1));
    let g2 = heap.alloc_node(Node::Int(2));
    assert_eq!((g1, g2), (Gc(0), Gc(1)));
    assert_eq!(heap.live_count(), 2);
    heap.collect(vec![g2]);
    assert_eq!(heap.live_count(), 1);
    heap.collect(Vec::new());
    assert_eq!(heap.live_count(), 0);
}

#[test]
fn store_boxed_keeps_the_value() {
    let b = store_boxed(41i64);
    assert_eq!(*b, 41);
}

#[test]
fn thunk_eval_returns_the_named_node() {
    let t = TracedThunk { name: String::from("t"), value: Node::Int(-3) };
    assert_eq!(t.eval_thunk(), Node::Int(-3));
}

#[test]
fn node_kinds_are_reported() {
    assert_eq!(kind_of(&Node::Int(0)), NodeKind::IntKind);
    assert_eq!(kind_of(&Node::FnDef(fn_add())), NodeKind::FnDefKind);
    assert_eq!(kind_of(&Node::ThunkRef(Gc(0))), NodeKind::ThunkRefKind);
    assert_eq!(kind_of(&Node::NodeRef(Gc(0))), NodeKind::NodeRefKind);
}

#[test]
fn indirection_resolves_to_its_target() {
    let mut state = fresh();
    // mk_ap stores Int(1) in cell 0 and Int(2) in cell 1
    state.push_int(2);
    state.push_int(1);
    state.mk_ap().unwrap();
    let _ = state.stack_pop().unwrap();
    state.stack_push(Node::NodeRef(Gc(0))).unwrap();
    state.eval().unwrap();
    assert_eq!(state.render_int(), Ok(1));
}

#[test]
fn nested_application_reduces_inner_spine() {
    // add (mul 2 3) 4 == 10
    let mut state = fresh();
    state.push_int(4);
    state.push_int(3);
    state.push_int(2);
    state.push_fn(fn_mul());
    state.mk_ap().unwrap();
    state.mk_ap().unwrap();
    state.push_fn(fn_add());
    state.mk_ap().unwrap();
    state.mk_ap().unwrap();
    state.eval().unwrap();
    assert_eq!(state.render_int(), Ok(10));
}

#[test]
fn thunk_yielding_a_graph_node_is_reduced() {
    let mut state = fresh();
    // build mul 2 3 and suspend it behind a thunk
    state.push_int(3);
    state.push_int(2);
    state.push_fn(fn_mul());
    state.mk_ap().unwrap();
    state.mk_ap().unwrap();
    let graph = state.stack_pop().unwrap();
    let g = state.alloc_thunk(TracedThunk { name: String::from("mul"), value: graph });
    state.stack_push(Node::ThunkRef(g)).unwrap();
    state.eval().unwrap();
    assert_eq!(state.render_int(), Ok(6));
    assert_eq!(state.thunk_evals(), 1);
}

#[test]
fn builtin_definitions_have_arity_two() {
    for fd in [fn_add(), fn_sub(), fn_mul(), fn_div()] {
        assert_eq!(fd.arity, 2);
    }
    assert_eq!(fn_add().op, Op::Add);
    assert_eq!(fn_sub().op, Op::Sub);
    assert_eq!(fn_mul().op, Op::Mul);
    assert_eq!(fn_div().op, Op::Div);
}
