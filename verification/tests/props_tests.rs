use bfi::error::BFIError;
use bfi::interp::BFI;

#[test]
fn test_weak_check_passes_any_order() {
    let bfi = BFI::new("][".to_string());
    assert!(bfi.check_syntax().is_ok());

    let bfi = BFI::new("]][[".to_string());
    assert!(bfi.check_syntax().is_ok());

    let bfi = BFI::new("".to_string());
    assert!(bfi.check_syntax().is_ok());
}

#[test]
fn test_interpret_rejects_imbalance_before_running() {
    let mut bfi = BFI::new("+++[".to_string());
    let input: Vec<u8> = Vec::new();
    let mut output: Vec<u8> = Vec::new();
    assert!(if let BFIError::MissingClosingBrackets =
        bfi.interpret(&input, &mut output).unwrap_err()
    {
        true
    } else {
        false
    });
    assert_eq!(bfi.x[0], 0);
    assert!(output.is_empty());

    let mut bfi = BFI::new("]+++".to_string());
    assert!(if let BFIError::MissingOpeningBrackets =
        bfi.interpret(&input, &mut output).unwrap_err()
    {
        true
    } else {
        false
    });
    assert_eq!(bfi.x[0], 0);
    assert!(output.is_empty());
}

#[test]
fn test_pointer_never_leaves_tape() {
    let code = ">".repeat(32768);
    let mut bfi = BFI::new(code);
    let input: Vec<u8> = Vec::new();
    let mut output: Vec<u8> = Vec::new();
    assert!(if let BFIError::OutOfMemory = bfi.interpret(&input, &mut output).unwrap_err() {
        true
    } else {
        false
    });
    assert_eq!(bfi.p, 32767);
    assert_eq!(bfi.pc, 32767);

    let mut bfi = BFI::new("<".to_string());
    assert!(if let BFIError::OutOfMemory = bfi.interpret(&input, &mut output).unwrap_err() {
        true
    } else {
        false
    });
    assert_eq!(bfi.p, 0);
    assert_eq!(bfi.pc, 0);
}

#[test]
fn test_cell_saturates_by_failing() {
    let mut bfi = BFI::new(".".to_string());
    for i in 0..127 {
        assert_eq!(bfi.x[0], i as i8);
        bfi.increment_byte_at_pointer().unwrap();
    }
    assert_eq!(bfi.x[0], 127);
    assert!(if let BFIError::ArithmeticOverflow = bfi.increment_byte_at_pointer().unwrap_err() {
        true
    } else {
        false
    });
    assert_eq!(bfi.x[0], 127);

    let mut bfi = BFI::new(".".to_string());
    for _i in 0..128 {
        bfi.decrement_byte_at_pointer().unwrap();
    }
    assert_eq!(bfi.x[0], -128);
    assert!(if let BFIError::ArithmeticOverflow = bfi.decrement_byte_at_pointer().unwrap_err() {
        true
    } else {
        false
    });
    assert_eq!(bfi.x[0], -128);
}

#[test]
fn test_round_trip_byte() {
    let mut bfi = BFI::new(",.".to_string());
    let input: Vec<u8> = vec![65];
    let mut output: Vec<u8> = Vec::new();
    bfi.interpret(&input, &mut output).unwrap();
    assert_eq!(output, vec![65]);
}

#[test]
fn test_forward_jump_leaves_pointer_once_past() {
    let mut bfi = BFI::new("[>]".to_string());
    bfi.x[0] = 1;
    let input: Vec<u8> = Vec::new();
    let mut output: Vec<u8> = Vec::new();
    bfi.interpret(&input, &mut output).unwrap();
    assert_eq!(bfi.p, 1);
    assert!(output.is_empty());
}

#[test]
fn test_nested_jump_lands_on_final_close() {
    let mut bfi = BFI::new("[_[[_][_]_]]".to_string());
    let input: Vec<u8> = Vec::new();
    let mut output: Vec<u8> = Vec::new();
    bfi.interpret(&input, &mut output).unwrap();
    assert_eq!(bfi.pc, 12);
    assert_eq!(bfi.p, 0);
    assert!(output.is_empty());
}

#[test]
fn test_exhausted_input_reads_zero() {
    let mut bfi = BFI::new("+,".to_string());
    let input: Vec<u8> = Vec::new();
    let mut output: Vec<u8> = Vec::new();
    bfi.interpret(&input, &mut output).unwrap();
    assert_eq!(bfi.x[0], 0);

    let mut bfi = BFI::new(".".to_string());
    bfi.x[0] = 7;
    let mut pos: usize = 0;
    bfi.input(&input, &mut pos);
    assert_eq!(bfi.x[0], 0);
    assert_eq!(pos, 0);
}

#[test]
fn test_output_reinterprets_as_unsigned() {
    let mut bfi = BFI::new(".".to_string());
    bfi.x[0] = -1;
    let mut out: Vec<u8> = Vec::new();
    bfi.output(&mut out);
    assert_eq!(out, vec![255]);
}

#[test]
fn test_input_reinterprets_as_signed() {
    let mut bfi = BFI::new(",".to_string());
    let input: Vec<u8> = vec![200];
    let mut output: Vec<u8> = Vec::new();
    bfi.interpret(&input, &mut output).unwrap();
    assert_eq!(bfi.x[0], -56);
}

#[test]
fn test_error_messages() {
    assert_eq!(BFIError::Io.message(), "I/O error");
    assert_eq!(BFIError::MissingClosingBrackets.message(), "Missing closing bracket(s)");
    assert_eq!(BFIError::MissingOpeningBrackets.message(), "Missing opening bracket(s)");
    assert_eq!(BFIError::OutOfMemory.message(), "Pointer moved to out of range of memory");
    assert_eq!(BFIError::ArithmeticOverflow.message(), "Byte overflow");
}

#[test]
fn test_empty_bracket_pair_matches_immediately() {
    let mut bfi = BFI::new("[]".to_string());
    bfi.x[0] = 0;
    bfi.start_jump();
    assert_eq!(bfi.pc, 1);

    let mut bfi = BFI::new("[][]".to_string());
    bfi.x[0] = 0;
    bfi.start_jump();
    assert_eq!(bfi.pc, 1);
    bfi.pc = 2;
    bfi.start_jump();
    assert_eq!(bfi.pc, 3);
}

#[test]
fn test_new_starts_zeroed() {
    let bfi = BFI::new("+".to_string());
    assert_eq!(bfi.x.len(), 32768);
    assert_eq!(bfi.p, 0);
    assert_eq!(bfi.pc, 0);
    assert!(bfi.x.iter().all(|&v| v == 0));
    assert_eq!(bfi.current_c(), Some('+'));
}
