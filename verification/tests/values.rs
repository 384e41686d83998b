use clprobe::bodies::{
    body_arehookinputsequal, body_closurevar_fn5, body_scheduler_schedule, body_typedarray_fn1,
    body_updateworkinprogresshook,
};
use clprobe::bytecode::{
    count_ops, jsint, Operation, JS_FALSE, JS_NULL, JS_TRUE, JS_UNDEFINED, NOT_CELL_MASK,
    NOT_UNDEFINED_BIT, NUMBER_TAG,
};
use clprobe::clif::{CallConv, Ty};
use clprobe::slow::{all_slows, slow_abi, slow_index, slow_sig, Slow};

#[test]
fn constants_have_their_bits() {
    assert_eq!(NUMBER_TAG as u64, 0xfffe_0000_0000_0000);
    assert_eq!(NOT_CELL_MASK as u64, 0xfffe_0000_0000_0002);
    assert_eq!(NOT_CELL_MASK, NUMBER_TAG | 2);
    assert_eq!(NOT_UNDEFINED_BIT, !8i64);
    assert_eq!((JS_UNDEFINED, JS_NULL, JS_TRUE, JS_FALSE), (0x0a, 0x02, 0x07, 0x06));
}

#[test]
fn int32_are_encoded_with_the_tag() {
    assert_eq!(jsint(0), NUMBER_TAG);
    assert_eq!(jsint(1) as u64, 0xfffe_0000_0000_0001);
    assert_eq!(jsint(-1) as u64, 0xfffe_0000_ffff_ffff);
    assert_eq!(jsint(i32::MIN) as u64, 0xfffe_0000_8000_0000);
}

#[test]
fn int32_are_read_back() {
    for k in [0, 1, -1, 511, i32::MAX, i32::MIN] {
        assert_eq!(jsint(k) as i32, k);
        assert_eq!(jsint(k) & NUMBER_TAG, NUMBER_TAG);
    }
}

#[test]
fn a_negative_sum_is_boxed_otherwise_than_a_constant() {
    let boxed = |k: i32| (k as i64) | NUMBER_TAG;
    assert_eq!(boxed(5), jsint(5));
    assert_ne!(boxed(-1), jsint(-1));
}

#[test]
fn bodies_have_their_figures() {
    let bodies = [
        (body_arehookinputsequal(), "areHookInputsEqual", 2, 4, 24, 19),
        (body_updateworkinprogresshook(), "updateWorkInProgressHook", 0, 8, 53, 46),
        (body_scheduler_schedule(), "scheduler_schedule", 0, 4, 35, 30),
        (body_closurevar_fn5(), "closurevar_fn5", 1, 14, 25, 22),
        (body_typedarray_fn1(), "typedarray_fn1", 3, 12, 38, 35),
    ];
    for (body, name, n_args, n_locals, len, n_ops) in bodies {
        assert_eq!(body.name, name);
        assert_eq!((body.n_args, body.n_locals), (n_args, n_locals));
        assert_eq!(body.ops.len(), len);
        assert_eq!(count_ops(&body.ops), n_ops);
    }
}

#[test]
fn labels_and_loop_hints_are_not_counted() {
    let ops = vec![
        Operation::Enter,
        Operation::Label(1),
        Operation::LoopHint,
        Operation::Jmp(1),
    ];
    assert_eq!(count_ops(&ops), 2);
    assert_eq!(count_ops(&Vec::new()), 0);
}

#[test]
fn slow_paths_have_their_signatures() {
    let (w, n) = (Ty::I64, Ty::I32);
    let expected = [
        (Slow::GetById, vec![w, w, w, n, n], true, "aotSlowGetById"),
        (Slow::PutById, vec![w, w, w, w, n, n], false, "aotSlowPutById"),
        (Slow::GetByVal, vec![w, w, w, w, n], true, "aotSlowGetByVal"),
        (Slow::PutByVal, vec![w, w, w, w, w, n], true, "aotSlowPutByVal"),
        (Slow::GetLength, vec![w, w, w, n], true, "aotSlowGetLength"),
        (Slow::Add, vec![w, w, w], true, "aotSlowAdd"),
        (Slow::Less, vec![w, w, w], true, "aotSlowLess"),
        (Slow::Inc, vec![w, w], true, "aotSlowInc"),
        (Slow::BitOp, vec![w, w, w], true, "aotSlowBitOp"),
        (Slow::ToThis, vec![w, w, w], true, "aotSlowToThis"),
        (Slow::ResolveScope, vec![w, w, n], true, "aotSlowResolveScope"),
        (Slow::GetFromScope, vec![w, w, w, n], true, "aotSlowGetFromScope"),
        (Slow::PutToScope, vec![w, w, w, w, n], true, "aotSlowPutToScope"),
        (Slow::DispatchCall, vec![w, w, w, w, w, w, n], true, "aotDispatchCall"),
        (Slow::HandleTraps, vec![w], true, "aotHandleTraps"),
        (Slow::StrictEq, vec![w, w, w], true, "aotSlowStrictEq"),
        (Slow::ToBoolean, vec![w, w], true, "aotSlowToBoolean"),
    ];
    let all = all_slows();
    assert_eq!(all.len(), expected.len());
    for (i, (s, params, has_result, name)) in expected.into_iter().enumerate() {
        assert_eq!(all[i], s);
        assert_eq!(slow_index(s), i);
        assert_eq!(slow_sig(s), (params, has_result, name));
    }
}

#[test]
fn results_come_through_a_pointer_where_registers_are_preserved() {
    let pa = slow_abi(Slow::Inc, true);
    assert_eq!(pa.conv, CallConv::PreserveAll);
    assert_eq!((pa.params, pa.returns), (vec![Ty::I64, Ty::I64, Ty::I64], vec![]));
    let sv = slow_abi(Slow::Inc, false);
    assert_eq!(sv.conv, CallConv::SystemV);
    assert_eq!((sv.params, sv.returns), (vec![Ty::I64, Ty::I64], vec![Ty::I64]));
    for s in [Slow::PutByVal, Slow::PutToScope] {
        let mut with_pointer = slow_sig(s).0;
        with_pointer.push(Ty::I64);
        assert_eq!(slow_abi(s, true).params, with_pointer);
        assert_eq!(slow_abi(s, false).returns, vec![Ty::I64]);
    }
}

#[test]
fn a_slow_path_without_a_result_gets_no_pointer() {
    let pa = slow_abi(Slow::PutById, true);
    assert_eq!(pa.params, slow_sig(Slow::PutById).0);
    assert_eq!(pa.returns, vec![]);
    let sv = slow_abi(Slow::PutById, false);
    assert_eq!(sv.params, slow_sig(Slow::PutById).0);
    assert_eq!(sv.returns, vec![]);
}

#[test]
fn dispatch_is_an_ordinary_call_in_both_modes() {
    for preserve_all in [true, false] {
        let abi = slow_abi(Slow::DispatchCall, preserve_all);
        assert_eq!(abi.conv, CallConv::SystemV);
        assert_eq!(abi.params, slow_sig(Slow::DispatchCall).0);
        assert_eq!(abi.returns, vec![Ty::I64]);
    }
}

#[test]
fn symbols_differ() {
    let all = all_slows();
    for (i, s) in all.iter().enumerate() {
        for t in &all[i + 1..] {
            assert_ne!(slow_sig(*s).2, slow_sig(*t).2);
        }
    }
}
