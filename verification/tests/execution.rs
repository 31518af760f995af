use fungoid::execution::{ExecutionError, ExecutionState, InstructionPointer, PointerDirection, Stack};
use fungoid::program::{Position, Program};

const HELLO_WORLD: &str = r#"64+"!dlroW ,olleH">:#,_@"#;

const ERATOSTHENES: &str = r#"2>:3g" "-!v\  g30          <
 |!`"O":+1_:.:03p>03g+:"O"`|
 @               ^  p3\" ":<
2 234567890123456789012345678901234567890123456789012345678901234567890123456789
"#;

const QUINE: &str = r#"01->1# +# :# 0# g# ,# :# 5# 8# *# 4# +# -# _@"#;

const FACTORIAL: &str = "&>:1-:v v *_$.@\n ^    _$>\\:^";

fn run_program(text: &str, input: &[u8]) -> Result<ExecutionState, ExecutionError> {
    let program = Program::from_text(text);
    let mut execution = ExecutionState::new(program, input.to_vec());
    execution.run()?;
    Ok(execution)
}

fn output_of(text: &str, input: &[u8]) -> String {
    let execution = run_program(text, input).expect("program failed");
    String::from_utf8(execution.output.clone()).unwrap()
}

#[test]
fn hello_world() {
    assert_eq!("Hello, World!\n", output_of(HELLO_WORLD, &[]));
}

#[test]
fn sieve_of_eratosthenes() {
    assert_eq!(
        "2357111317192329313741434753596167717379",
        output_of(ERATOSTHENES, &[])
    );
}

#[test]
fn quine() {
    assert_eq!(QUINE.trim_end(), output_of(QUINE, &[]));
}

#[test]
fn factorial() {
    assert_eq!("120", output_of(FACTORIAL, b"5"));
}

#[test]
fn unknown_instruction() {
    let result = run_program("z", &[]);
    assert!(
        if let Err(ExecutionError::UnrecognizedInstruction {
            position,
            instruction,
        }) = result
        {
            position == Position { x: 0, y: 0 } && instruction == 'z'
        } else {
            false
        }
    );
}

#[test]
fn unknown_instruction_counts_one_step_and_does_not_move() {
    let program = Program::from_text("z");
    let mut execution = ExecutionState::new(program, Vec::new());
    let result = execution.step();
    assert!(matches!(
        result,
        Err(ExecutionError::UnrecognizedInstruction { .. })
    ));
    assert_eq!(execution.instruction_count, 1);
    assert_eq!(execution.pointer.position, Position { x: 0, y: 0 });
    assert!(!execution.terminated);
}

#[test]
fn addition_pops_and_pushes_in_table_order() {
    assert_eq!("11", output_of("65+.@", &[]));
}

#[test]
fn subtraction_left_operand_is_second_popped() {
    // '-' pops a = 5, then b = 6, and pushes b - a
    assert_eq!("1", output_of("65-.@", &[]));
}

#[test]
fn multiplication() {
    assert_eq!("42", output_of("67*.@", &[]));
}

#[test]
fn division_truncates() {
    assert_eq!("4", output_of("92/.@", &[]));
}

#[test]
fn division_truncates_toward_zero_for_negatives() {
    // (0 - 5) / 2 is -2 under truncating division, not -3
    assert_eq!("-2", output_of("05-2/.@", &[]));
}

#[test]
fn modulo_carries_dividend_sign() {
    assert_eq!("1", output_of("92%.@", &[]));
    assert_eq!("-1", output_of("05-2%.@", &[]));
}

#[test]
fn division_by_zero_is_reported() {
    let result = run_program("50/.@", &[]);
    assert!(matches!(result, Err(ExecutionError::ArithmeticByZero)));
}

#[test]
fn modulo_by_zero_is_reported() {
    let result = run_program("50%.@", &[]);
    assert!(matches!(result, Err(ExecutionError::ArithmeticByZero)));
}

#[test]
fn popping_an_empty_stack_yields_zero() {
    // both operands of '+' come from an empty stack; '$' discards nothing
    assert_eq!("0", output_of("+.@", &[]));
    assert_eq!("0", output_of("$.@", &[]));
}

#[test]
fn logical_not() {
    assert_eq!("1", output_of("0!.@", &[]));
    assert_eq!("0", output_of("7!.@", &[]));
}

#[test]
fn greater_than_compares_second_popped_to_first() {
    // '`' pushes 1 exactly when b > a, with a popped first
    assert_eq!("0", output_of("34`.@", &[]));
    assert_eq!("1", output_of("43`.@", &[]));
}

#[test]
fn swap_exchanges_top_two() {
    assert_eq!("12", output_of("12\\..@", &[]));
}

#[test]
fn duplicate_doubles_the_top() {
    assert_eq!("10", output_of("5:+.@", &[]));
}

#[test]
fn string_mode_pushes_character_codes() {
    assert_eq!("BA", output_of("\"AB\",,@", &[]));
}

#[test]
fn bridge_skips_one_cell() {
    assert_eq!("5", output_of("#15.@", &[]));
}

#[test]
fn put_then_get_round_trips() {
    // writes 'A' (65) at (2, 1), reads it back, and emits it as a byte
    assert_eq!("A", output_of("88*1+21p21g,@", &[]));
}

#[test]
fn put_wraps_value_to_one_byte() {
    // writes 256 + 65 at (2, 1); reading back yields 65
    assert_eq!("65", output_of("88*2*2*88*1++21p21g.@", &[]));
}

#[test]
fn get_of_blank_cell_pushes_space_code() {
    assert_eq!("32", output_of("99g.@", &[]));
}

#[test]
fn decimal_output_of_negative_values() {
    assert_eq!("-1", output_of("01-.@", &[]));
}

#[test]
fn integer_input_skips_whitespace() {
    assert_eq!("42", output_of("&.@", b"  42  "));
}

#[test]
fn integer_input_accepts_signs() {
    assert_eq!("-7", output_of("&.@", b"-7"));
    assert_eq!("8", output_of("&.@", b"+8"));
}

#[test]
fn integer_input_reads_one_token_at_a_time() {
    assert_eq!("43", output_of("&&..@", b"3 4"));
}

#[test]
fn integer_input_at_end_of_input_fails() {
    let result = run_program("&.@", b"   ");
    assert!(matches!(result, Err(ExecutionError::InputFailed)));
}

#[test]
fn integer_input_rejects_non_numeric_tokens() {
    let result = run_program("&.@", b"abc");
    assert!(matches!(result, Err(ExecutionError::MalformedInputToken)));
}

#[test]
fn integer_input_rejects_overflowing_tokens() {
    let result = run_program("&.@", b"99999999999999999999");
    assert!(matches!(result, Err(ExecutionError::MalformedInputToken)));
}

#[test]
fn integer_input_accepts_the_extreme_values() {
    assert_eq!(
        "9223372036854775807",
        output_of("&.@", b"9223372036854775807")
    );
    assert_eq!(
        "-9223372036854775808",
        output_of("&.@", b"-9223372036854775808")
    );
}

#[test]
fn addition_wraps_at_the_top_of_the_range() {
    assert_eq!(
        "-9223372036854775808",
        output_of("&1+.@", b"9223372036854775807")
    );
}

#[test]
fn character_input_reads_one_byte() {
    assert_eq!("Z", output_of("~,@", b"Z"));
    assert_eq!("65", output_of("~.@", b"A"));
}

#[test]
fn character_input_at_end_of_input_fails() {
    let result = run_program("~.@", &[]);
    assert!(matches!(result, Err(ExecutionError::InputFailed)));
}

#[test]
fn random_direction_reaches_a_terminator() {
    // the pointer is steered onto '?'; three of its four exits terminate,
    // the fourth bounces back onto '?'
    let text = "v@ \n>?@\n @ ";
    let execution = run_program(text, &[]).expect("program failed");
    assert!(execution.terminated);
    assert!(execution.output.is_empty());
}

#[test]
fn terminal_instruction_does_not_move_the_pointer() {
    let execution = run_program("@", &[]).expect("program failed");
    assert!(execution.terminated);
    assert_eq!(execution.instruction_count, 1);
    assert_eq!(execution.pointer.position, Position { x: 0, y: 0 });
}

#[test]
fn stepping_after_termination_is_a_no_op() {
    let program = Program::from_text("@");
    let mut execution = ExecutionState::new(program, Vec::new());
    execution.run().expect("program failed");
    assert!(execution.terminated);
    assert!(execution.step().is_ok());
    assert_eq!(execution.instruction_count, 1);
}

#[test]
fn reset_restores_initial_run_state() {
    let program = Program::from_text(HELLO_WORLD);
    let mut execution = ExecutionState::new(program, Vec::new());
    execution.run().expect("program failed");
    assert!(execution.terminated);

    execution.reset();
    assert!(!execution.terminated);
    assert_eq!(execution.instruction_count, 0);
    assert!(execution.stack.items().is_empty());
    assert_eq!(execution.pointer.position, Position { x: 0, y: 0 });

    // the output is not cleared by reset; a second run appends
    execution.run().expect("program failed");
    assert_eq!(
        "Hello, World!\nHello, World!\n",
        String::from_utf8(execution.output.clone()).unwrap()
    );
}

#[test]
fn stack_pops_zero_when_empty_and_reports_items_in_order() {
    let mut stack = Stack::new();
    assert_eq!(stack.pop(), 0);
    stack.push(1);
    stack.push(2);
    assert_eq!(stack.items(), vec![1, 2]);
    assert_eq!(stack.pop(), 2);
    assert_eq!(stack.pop(), 1);
    assert_eq!(stack.pop(), 0);
}

#[test]
fn pointer_starts_at_origin_moving_right() {
    let pointer = InstructionPointer::new();
    assert_eq!(pointer.position, Position { x: 0, y: 0 });
    assert_eq!(pointer.direction, PointerDirection::Right);
}

#[test]
fn direction_instructions_steer_the_pointer() {
    // a loop of direction changes that ends on the terminator
    let text = "v@\n>^";
    let execution = run_program(text, &[]).expect("program failed");
    assert!(execution.terminated);
    assert_eq!(execution.pointer.position, Position { x: 1, y: 0 });
}
