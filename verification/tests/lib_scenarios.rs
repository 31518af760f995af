use fungoid::execution::ExecutionState;
use fungoid::program::Program;
use fungoid::run_to_termination;

const HELLO_WORLD: &str = r#"64+"!dlroW ,olleH">:#,_@"#;

const SIEVE_OF_ERATOSTHENES: &str = r#"2>:3g" "-!v\  g30          <
 |!`"O":+1_:.:03p>03g+:"O"`|
 @               ^  p3\" ":<
2 234567890123456789012345678901234567890123456789012345678901234567890123456789
"#;

const QUINE: &str = r#"01->1# +# :# 0# g# ,# :# 5# 8# *# 4# +# -# _@"#;

#[test]
fn lib_hello_world() {
    let program = Program::from_text(HELLO_WORLD);
    let mut execution = ExecutionState::new(program, Vec::new());
    execution.run().unwrap();
    let output = execution.output.clone();
    println!("{:?}", output);
    assert_eq!("Hello, World!\n", String::from_utf8(output).unwrap());
}

#[test]
fn lib_sieve_of_eratosthenes() {
    let program = Program::from_text(SIEVE_OF_ERATOSTHENES);
    let mut execution = ExecutionState::new(program, Vec::new());
    execution.run().unwrap();
    let output = execution.output.clone();
    println!("{:?}", output);
    assert_eq!(
        "2357111317192329313741434753596167717379",
        String::from_utf8(output).unwrap()
    );
}

#[test]
fn lib_quine() {
    let program = Program::from_text(QUINE);
    let mut execution = ExecutionState::new(program, Vec::new());
    execution.run().unwrap();
    let output = execution.output.clone();
    println!("{:?}", output);
    assert_eq!(
        "01->1# +# :# 0# g# ,# :# 5# 8# *# 4# +# -# _@",
        String::from_utf8(output).unwrap()
    );
}

#[test]
fn run_to_termination_counts_instructions() {
    let program = Program::from_text("@");
    let execution = ExecutionState::new(program, Vec::new());
    assert_eq!(run_to_termination(execution), 1);
}
