use brainfuckr::bf::Interpreter;
use brainfuckr::bf::StopReason;
use brainfuckr::cmds::get_instruction_chars;
use brainfuckr::cmds::get_instructions;

const BUDGET: u64 = 10_000_000;

fn run_program(src: &str, tape_len: usize, input: &[u8]) -> (Interpreter, StopReason, Vec<u8>) {
    let chars = get_instruction_chars(src);
    let inst = get_instructions(&chars).unwrap();
    let mut interpreter = Interpreter {
        data: vec![0u8; tape_len],
        data_pointer: 0,
        inst,
        inst_pointer: 0,
    };
    let result = interpreter.execute(input, BUDGET);
    (interpreter, result.status, result.output)
}

#[test]
fn test_sixty_four() {
    let (_, status, output) = run_program("++++++++[>++++++++<-]>.", 2, &[]);
    assert_eq!(status, StopReason::Halted);
    assert_eq!(output, vec![64u8]);
}

#[test]
fn test_hello_world() {
    let src = "+++++ +++++[>+++++++>++++++++++>+++>+<<<<-]>++.>+.+++++++..+++.>++.<<+++++++++++++++.>.+++.------.--------.>+.>.";
    let (_, status, output) = run_program(src, 30000, &[]);
    assert_eq!(status, StopReason::Halted);
    assert_eq!(output, b"Hello World!\n".to_vec());
}

#[test]
fn test_input_is_stored() {
    let (interpreter, status, output) = run_program(",", 1, &[0x41]);
    assert_eq!(status, StopReason::Halted);
    assert_eq!(interpreter.data[0], 65);
    assert_eq!(output, Vec::<u8>::new());
}

#[test]
fn test_move_right_out_of_bounds() {
    let (_, status, _) = run_program(">", 1, &[]);
    assert_eq!(status, StopReason::OutOfBounds);
}

#[test]
fn test_move_left_out_of_bounds() {
    let (_, status, _) = run_program("<", 3, &[]);
    assert_eq!(status, StopReason::OutOfBounds);
}

#[test]
fn test_increment_wraps_around() {
    let chars = get_instruction_chars("+");
    let inst = get_instructions(&chars).unwrap();
    let mut interpreter = Interpreter {
        data: vec![255u8],
        data_pointer: 0,
        inst,
        inst_pointer: 0,
    };
    let result = interpreter.execute(&[], BUDGET);
    assert_eq!(result.status, StopReason::Halted);
    assert_eq!(interpreter.data[0], 0);
}

#[test]
fn test_decrement_wraps_around() {
    let (interpreter, status, _) = run_program("-", 1, &[]);
    assert_eq!(status, StopReason::Halted);
    assert_eq!(interpreter.data[0], 255);
}

#[test]
fn test_read_on_exhausted_input_keeps_cell() {
    // two reads, one input byte: the second read must leave the cell as is
    let (interpreter, status, _) = run_program(",,", 1, &[7]);
    assert_eq!(status, StopReason::Halted);
    assert_eq!(interpreter.data[0], 7);
}

#[test]
fn test_read_on_empty_input_keeps_cell() {
    let (interpreter, status, _) = run_program("+++,.", 1, &[]);
    assert_eq!(status, StopReason::Halted);
    assert_eq!(interpreter.data[0], 3);
}

#[test]
fn test_output_kept_on_failure() {
    // emit one byte, then walk off the right end of the tape
    let (_, status, output) = run_program("+.>", 1, &[]);
    assert_eq!(status, StopReason::OutOfBounds);
    assert_eq!(output, vec![1u8]);
}

#[test]
fn test_step_limit_on_endless_loop() {
    let chars = get_instruction_chars("+[]");
    let inst = get_instructions(&chars).unwrap();
    let mut interpreter = Interpreter {
        data: vec![0u8; 4],
        data_pointer: 0,
        inst,
        inst_pointer: 0,
    };
    let result = interpreter.execute(&[], 1000);
    assert_eq!(result.status, StopReason::StepLimit);
}

#[test]
fn test_loop_skipped_when_cell_is_zero() {
    let (_, status, output) = run_program("[.]", 1, &[]);
    assert_eq!(status, StopReason::Halted);
    assert_eq!(output, Vec::<u8>::new());
}

#[test]
fn test_consumed_reports_input_use() {
    let chars = get_instruction_chars(",>,");
    let inst = get_instructions(&chars).unwrap();
    let mut interpreter = Interpreter {
        data: vec![0u8; 2],
        data_pointer: 0,
        inst,
        inst_pointer: 0,
    };
    let result = interpreter.execute(&[10, 20, 30], BUDGET);
    assert_eq!(result.status, StopReason::Halted);
    assert_eq!(result.consumed, 2);
    assert_eq!(interpreter.data, vec![10u8, 20u8]);
}
