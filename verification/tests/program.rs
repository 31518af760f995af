use fungoid::program::{Position, Program};

#[test]
fn test_from_str() {
    let program = Program::from_text("12\n34");

    assert_eq!(program.get(&Position { x: 0, y: 0 }), '1');
    assert_eq!(program.get(&Position { x: 1, y: 0 }), '2');
    assert_eq!(program.get(&Position { x: 0, y: 1 }), '3');
    assert_eq!(program.get(&Position { x: 1, y: 1 }), '4');
}

#[test]
fn test_can_set_and_get_a_cell() {
    let mut program = Program::new();

    let pos = Position { x: 0, y: 0 };
    assert_eq!(program.get(&pos), ' '); // get on an empty cell is blank

    program.set(&pos, '.');
    assert_eq!(program.get(&pos), '.');
}

#[test]
fn test_extent_with_empty_program_is_none() {
    let program = Program::new();

    assert!(program.extent().is_none());
}

#[test]
fn test_extent_with_one_cell_program_is_that_cell_twice() {
    let mut program = Program::new();
    program.set(&Position { x: 0, y: 0 }, '.');

    assert_eq!(
        program.extent().unwrap(),
        (Position { x: 0, y: 0 }, Position { x: 0, y: 0 })
    );
}

#[test]
fn test_extent_with_multi_cell_program() {
    let mut program = Program::new();
    program.set(&Position { x: 0, y: 0 }, '.');
    program.set(&Position { x: 1, y: 2 }, '.');

    assert_eq!(
        program.extent().unwrap(),
        (Position { x: 0, y: 0 }, Position { x: 1, y: 2 })
    );
}

#[test]
fn test_view() {
    let mut program = Program::new();
    for x in 0..=2 {
        for y in 0..=2 {
            program.set(&Position { x, y }, '.');
        }
    }

    assert_eq!(
        program.view(&Position { x: 0, y: 0 }, &Position { x: 0, y: 0 }),
        vec![(Position { x: 0, y: 0 }, '.')]
    );

    assert_eq!(
        program.view(&Position { x: 0, y: 0 }, &Position { x: 1, y: 0 }),
        vec![
            (Position { x: 0, y: 0 }, '.'),
            (Position { x: 1, y: 0 }, '.'),
        ]
    );

    assert_eq!(
        program.view(&Position { x: 0, y: 0 }, &Position { x: 0, y: 1 }),
        vec![
            (Position { x: 0, y: 0 }, '.'),
            (Position { x: 0, y: 1 }, '.'),
        ]
    );

    assert_eq!(
        program.view(&Position { x: 0, y: 0 }, &Position { x: 1, y: 1 }),
        vec![
            (Position { x: 0, y: 0 }, '.'),
            (Position { x: 1, y: 0 }, '.'),
            (Position { x: 0, y: 1 }, '.'),
            (Position { x: 1, y: 1 }, '.'),
        ]
    );

    assert_eq!(
        program.view(&Position { x: 1, y: 0 }, &Position { x: 2, y: 2 }),
        vec![
            (Position { x: 1, y: 0 }, '.'),
            (Position { x: 2, y: 0 }, '.'),
            (Position { x: 1, y: 1 }, '.'),
            (Position { x: 2, y: 1 }, '.'),
            (Position { x: 1, y: 2 }, '.'),
            (Position { x: 2, y: 2 }, '.'),
        ]
    );

    assert_eq!(
        program.view(&Position { x: 0, y: 1 }, &Position { x: 2, y: 2 }),
        vec![
            (Position { x: 0, y: 1 }, '.'),
            (Position { x: 1, y: 1 }, '.'),
            (Position { x: 2, y: 1 }, '.'),
            (Position { x: 0, y: 2 }, '.'),
            (Position { x: 1, y: 2 }, '.'),
            (Position { x: 2, y: 2 }, '.'),
        ]
    );
}

#[test]
fn view_yields_spaces_for_unwritten_cells() {
    let mut program = Program::new();
    program.set(&Position { x: 1, y: 1 }, 'X');

    assert_eq!(
        program.view(&Position { x: 0, y: 1 }, &Position { x: 1, y: 1 }),
        vec![
            (Position { x: 0, y: 1 }, ' '),
            (Position { x: 1, y: 1 }, 'X'),
        ]
    );
}

#[test]
fn from_text_handles_ragged_lines() {
    let program = Program::from_text("ab\nc\n\nxyz");

    assert_eq!(program.get(&Position { x: 0, y: 0 }), 'a');
    assert_eq!(program.get(&Position { x: 1, y: 0 }), 'b');
    assert_eq!(program.get(&Position { x: 0, y: 1 }), 'c');
    // beyond the end of a short line, and on an empty line, cells are blank
    assert_eq!(program.get(&Position { x: 1, y: 1 }), ' ');
    assert_eq!(program.get(&Position { x: 0, y: 2 }), ' ');
    assert_eq!(program.get(&Position { x: 0, y: 3 }), 'x');
    assert_eq!(program.get(&Position { x: 2, y: 3 }), 'z');
    // negative coordinates are never occupied
    assert_eq!(program.get(&Position { x: -1, y: 0 }), ' ');
    assert_eq!(program.get(&Position { x: 0, y: -1 }), ' ');
}

#[test]
fn set_overwrites_and_keeps_other_cells() {
    let mut program = Program::from_text("ab");
    program.set(&Position { x: 0, y: 0 }, 'z');

    assert_eq!(program.get(&Position { x: 0, y: 0 }), 'z');
    assert_eq!(program.get(&Position { x: 1, y: 0 }), 'b');
}

#[test]
fn extent_counts_stored_spaces() {
    let mut program = Program::new();
    program.set(&Position { x: 3, y: 4 }, ' ');

    assert_eq!(
        program.extent().unwrap(),
        (Position { x: 3, y: 4 }, Position { x: 3, y: 4 })
    );
}

#[test]
fn duplicate_is_independent() {
    let mut program = Program::new();
    program.set(&Position { x: 0, y: 0 }, 'a');
    let copy = program.duplicate();
    program.set(&Position { x: 0, y: 0 }, 'b');

    assert_eq!(copy.get(&Position { x: 0, y: 0 }), 'a');
    assert_eq!(program.get(&Position { x: 0, y: 0 }), 'b');
}

#[test]
fn from_text_treats_crlf_as_one_line_break() {
    let program = Program::from_text("12\r\n34");

    assert_eq!(program.get(&Position { x: 0, y: 0 }), '1');
    assert_eq!(program.get(&Position { x: 1, y: 0 }), '2');
    // the carriage return of the pair stores no cell
    assert_eq!(program.get(&Position { x: 2, y: 0 }), ' ');
    assert_eq!(program.get(&Position { x: 0, y: 1 }), '3');
    assert_eq!(program.get(&Position { x: 1, y: 1 }), '4');
}

#[test]
fn from_text_keeps_carriage_returns_outside_line_breaks() {
    // a carriage return not followed by a line feed is an ordinary cell
    let program = Program::from_text("a\rb");
    assert_eq!(program.get(&Position { x: 0, y: 0 }), 'a');
    assert_eq!(program.get(&Position { x: 1, y: 0 }), '\r');
    assert_eq!(program.get(&Position { x: 2, y: 0 }), 'b');

    // so is one that ends the text
    let program = Program::from_text("a\r");
    assert_eq!(program.get(&Position { x: 1, y: 0 }), '\r');
}
