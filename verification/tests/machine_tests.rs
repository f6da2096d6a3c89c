use stackvm::{
    parse_program, run, Location, Operation, Output, RunResult, Stack, StackError, StackErrorType,
};

fn loc() -> Location {
    Location { path: None, line: 1, column: 1 }
}

fn empty_stack() -> Stack {
    Stack { data: vec![], ret: vec![] }
}

#[test]
fn add_wraps_modulo_256() {
    let mut stack = Stack { data: vec![200, 100], ret: vec![] };
    let mut out = Vec::new();
    let r = Operation::AddU8.op(&mut stack, 0, &loc(), &mut out);
    assert_eq!(r.unwrap(), 1);
    assert_eq!(stack.data, vec![44]);
    assert!(out.is_empty());
}

#[test]
fn sub_wraps_and_takes_deeper_minus_top() {
    let mut stack = Stack { data: vec![5, 10], ret: vec![] };
    let mut out = Vec::new();
    let r = Operation::SubU8.op(&mut stack, 0, &loc(), &mut out);
    assert_eq!(r.unwrap(), 1);
    assert_eq!(stack.data, vec![251]);
}

#[test]
fn mul_wraps() {
    let mut stack = Stack { data: vec![16, 32], ret: vec![] };
    let mut out = Vec::new();
    Operation::MulU8.op(&mut stack, 0, &loc(), &mut out).unwrap();
    assert_eq!(stack.data, vec![0]);
}

#[test]
fn div_divides() {
    let mut stack = Stack { data: vec![7, 2], ret: vec![] };
    let mut out = Vec::new();
    Operation::DivU8.op(&mut stack, 0, &loc(), &mut out).unwrap();
    assert_eq!(stack.data, vec![3]);
}

#[test]
fn div_by_zero_fails() {
    let mut stack = Stack { data: vec![5, 0], ret: vec![] };
    let mut out = Vec::new();
    let e = Operation::DivU8.op(&mut stack, 0, &loc(), &mut out).unwrap_err();
    assert_eq!(e.typ, StackErrorType::DivisionByZero);
    assert_eq!(stack.data, vec![5, 0]);
}

#[test]
fn binop_underflow() {
    let mut stack = Stack { data: vec![9], ret: vec![] };
    let mut out = Vec::new();
    let e = Operation::AddU8.op(&mut stack, 0, &loc(), &mut out).unwrap_err();
    assert_eq!(e.typ, StackErrorType::InsufficientElements { expected: 2, found: 1 });
    assert_eq!(stack.data, vec![9]);
}

#[test]
fn print_u32_underflow_leaves_stack_unmodified() {
    let mut stack = Stack { data: vec![1, 2], ret: vec![] };
    let mut out = Vec::new();
    let e = Operation::PrintU32.op(&mut stack, 0, &loc(), &mut out).unwrap_err();
    assert_eq!(e.typ, StackErrorType::InsufficientElements { expected: 4, found: 2 });
    assert_eq!(stack.data, vec![1, 2]);
    assert!(out.is_empty());
}

#[test]
fn print_u8_pops_top_byte() {
    let mut stack = Stack { data: vec![1, 2, 3], ret: vec![] };
    let mut out = Vec::new();
    let r = Operation::PrintU8.op(&mut stack, 4, &loc(), &mut out);
    assert_eq!(r.unwrap(), 5);
    assert_eq!(stack.data, vec![1, 2]);
    assert_eq!(out, vec![Output::Num(3)]);
}

#[test]
fn print_u16_decodes_big_endian() {
    let mut stack = Stack { data: vec![1, 0], ret: vec![] };
    let mut out = Vec::new();
    Operation::PrintU16.op(&mut stack, 0, &loc(), &mut out).unwrap();
    assert!(stack.data.is_empty());
    assert_eq!(out, vec![Output::Num(256)]);
}

#[test]
fn print_u64_decodes_eight_bytes() {
    let mut stack = Stack { data: vec![0, 0, 0, 0, 0, 0, 1, 2], ret: vec![] };
    let mut out = Vec::new();
    Operation::PrintU64.op(&mut stack, 0, &loc(), &mut out).unwrap();
    assert_eq!(out, vec![Output::Num(258)]);
}

#[test]
fn print_ascii_pops_one_byte() {
    let mut stack = Stack { data: vec![72], ret: vec![] };
    let mut out = Vec::new();
    Operation::PrintAscii.op(&mut stack, 0, &loc(), &mut out).unwrap();
    assert!(stack.data.is_empty());
    assert_eq!(out, vec![Output::Char(72)]);
}

#[test]
fn print_ascii_on_empty_stack_fails() {
    let mut stack = empty_stack();
    let mut out = Vec::new();
    let e = Operation::PrintAscii.op(&mut stack, 0, &loc(), &mut out).unwrap_err();
    assert_eq!(e.typ, StackErrorType::InsufficientElements { expected: 1, found: 0 });
}

#[test]
fn push_long_then_call_transfers_control() {
    let mut stack = empty_stack();
    let mut out = Vec::new();
    Operation::PushLong(3).op(&mut stack, 0, &loc(), &mut out).unwrap();
    assert_eq!(stack.data.len(), 8);
    let r = Operation::Call.op(&mut stack, 7, &loc(), &mut out);
    assert_eq!(r.unwrap(), 3);
    assert!(stack.data.is_empty());
    assert_eq!(stack.ret, vec![8]);
}

#[test]
fn call_with_fewer_than_eight_bytes_fails() {
    let mut stack = Stack { data: vec![1, 2, 3], ret: vec![] };
    let mut out = Vec::new();
    let e = Operation::Call.op(&mut stack, 0, &loc(), &mut out).unwrap_err();
    assert_eq!(e.typ, StackErrorType::InsufficientElements { expected: 8, found: 3 });
    assert_eq!(stack.data, vec![1, 2, 3]);
}

#[test]
fn return_jumps_to_saved_index() {
    let mut stack = Stack { data: vec![], ret: vec![9] };
    let mut out = Vec::new();
    let r = Operation::Return.op(&mut stack, 0, &loc(), &mut out);
    assert_eq!(r.unwrap(), 9);
    assert!(stack.ret.is_empty());
}

#[test]
fn return_with_empty_return_stack_fails() {
    let mut stack = empty_stack();
    let mut out = Vec::new();
    let e = Operation::Return.op(&mut stack, 0, &loc(), &mut out).unwrap_err();
    assert_eq!(e.typ, StackErrorType::NowhereToReturn);
}

#[test]
fn exit_on_empty_stack_terminates() {
    let mut stack = empty_stack();
    let mut out = Vec::new();
    let r = Operation::Exit.op(&mut stack, 0, &loc(), &mut out);
    assert_eq!(r.unwrap(), u64::MAX);
}

#[test]
fn exit_on_zero_terminates() {
    let mut stack = Stack { data: vec![0], ret: vec![] };
    let mut out = Vec::new();
    let r = Operation::Exit.op(&mut stack, 0, &loc(), &mut out);
    assert_eq!(r.unwrap(), u64::MAX);
    assert!(stack.data.is_empty());
}

#[test]
fn exit_pops_only_the_top_byte() {
    let mut stack = Stack { data: vec![1, 0], ret: vec![] };
    let mut out = Vec::new();
    let r = Operation::Exit.op(&mut stack, 0, &loc(), &mut out);
    assert_eq!(r.unwrap(), u64::MAX);
    assert_eq!(stack.data, vec![1]);
}

#[test]
fn call_past_the_end_terminates_the_run() {
    let ops = vec![(Operation::PushLong(100), loc()), (Operation::Call, loc())];
    let (out, res) = run(&ops, 100);
    assert!(matches!(res, RunResult::Success));
    assert!(out.is_empty());
}

#[test]
fn exit_on_nonzero_fails_with_code() {
    let mut stack = Stack { data: vec![7], ret: vec![] };
    let mut out = Vec::new();
    let e = Operation::Exit.op(&mut stack, 0, &loc(), &mut out).unwrap_err();
    assert_eq!(e.typ, StackErrorType::NonZeroExit { code: 7 });
}

#[test]
fn debug_dumps_both_stacks() {
    let mut stack = Stack { data: vec![1, 2], ret: vec![9] };
    let mut out = Vec::new();
    let r = Operation::Debug.op(&mut stack, 2, &loc(), &mut out);
    assert_eq!(r.unwrap(), 3);
    assert_eq!(stack.data, vec![1, 2]);
    assert_eq!(stack.ret, vec![9]);
    assert_eq!(out, vec![Output::Dump { data: vec![1, 2], ret: vec![9] }]);
}

#[test]
fn noop_only_advances() {
    let mut stack = Stack { data: vec![1], ret: vec![] };
    let mut out = Vec::new();
    let r = Operation::Noop.op(&mut stack, 5, &loc(), &mut out);
    assert_eq!(r.unwrap(), 6);
    assert_eq!(stack.data, vec![1]);
}

#[test]
fn push_byte_pushes() {
    let mut stack = empty_stack();
    let mut out = Vec::new();
    let r = Operation::PushByte(42).op(&mut stack, 0, &loc(), &mut out);
    assert_eq!(r.unwrap(), 1);
    assert_eq!(stack.data, vec![42]);
}

#[test]
fn end_to_end_put_char_prints_h() {
    let ops = parse_program("72 put-char", None).unwrap();
    let (out, res) = run(&ops, 1000);
    assert!(matches!(res, RunResult::Success));
    assert_eq!(out, vec![Output::Char(72)]);
}

#[test]
fn end_to_end_add_prints_seven() {
    let ops = parse_program("3 4 ass-u8 print-u8", None).unwrap();
    let (out, res) = run(&ops, 1000);
    assert!(matches!(res, RunResult::Success));
    assert_eq!(out, vec![Output::Num(7)]);
}

#[test]
fn end_to_end_call_and_return() {
    let ops = parse_program(";greet call 0 exit greet: 72 put-char 105 put-char return", None)
        .unwrap();
    let (out, res) = run(&ops, 1000);
    assert!(matches!(res, RunResult::Success));
    assert_eq!(out, vec![Output::Char(72), Output::Char(105)]);
}

#[test]
fn end_to_end_runtime_error_carries_location() {
    let ops = parse_program("1\nprint-u16", Some("f.vm")).unwrap();
    let (out, res) = run(&ops, 1000);
    assert!(out.is_empty());
    match res {
        RunResult::Failed(e) => {
            assert_eq!(e.typ, StackErrorType::InsufficientElements { expected: 2, found: 1 });
            assert_eq!(e.location.path.as_deref(), Some("f.vm"));
            assert_eq!(e.location.line, 2);
            assert_eq!(e.location.column, 1);
        }
        other => panic!("expected a runtime failure, got {:?}", other),
    }
}

#[test]
fn end_to_end_nonzero_exit_fails() {
    let ops = parse_program("7 exit", None).unwrap();
    let (_, res) = run(&ops, 1000);
    match res {
        RunResult::Failed(e) => assert_eq!(e.typ, StackErrorType::NonZeroExit { code: 7 }),
        other => panic!("expected a runtime failure, got {:?}", other),
    }
}

#[test]
fn infinite_loop_runs_out_of_fuel() {
    let ops = parse_program("loop: ;loop call", None).unwrap();
    let (_, res) = run(&ops, 10_000);
    assert!(matches!(res, RunResult::OutOfFuel));
}

#[test]
fn empty_program_succeeds() {
    let ops = parse_program("", None).unwrap();
    let (out, res) = run(&ops, 10);
    assert!(matches!(res, RunResult::Success));
    assert!(out.is_empty());
}

#[test]
fn falling_off_the_end_succeeds() {
    let ops = parse_program("1 2", None).unwrap();
    let (out, res) = run(&ops, 10);
    assert!(matches!(res, RunResult::Success));
    assert!(out.is_empty());
}

#[test]
fn error_messages() {
    assert_eq!(
        StackErrorType::InsufficientElements { expected: 4, found: 2 }.message(),
        "Insufficient elements on the stack, expected 4, but found 2"
    );
    assert_eq!(StackErrorType::NowhereToReturn.message(), "Nowhere to return");
    assert_eq!(
        StackErrorType::NonZeroExit { code: 7 }.message(),
        "Exited with nonzero exit code 7"
    );
    assert_eq!(StackErrorType::DivisionByZero.message(), "Division by zero");
}

#[test]
fn stack_error_message_has_location_prefix() {
    let e = StackError {
        typ: StackErrorType::NonZeroExit { code: 3 },
        location: Location { path: Some(String::from("m.vm")), line: 4, column: 2 },
    };
    assert_eq!(e.message(), "m.vm:4:2: Error: Exited with nonzero exit code 3");
}

#[test]
fn default_stack_is_empty() {
    let s = Stack::default();
    assert!(s.data.is_empty());
    assert!(s.ret.is_empty());
}
