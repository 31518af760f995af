//! The execution engine: one program grid, one instruction pointer, one
//! integer stack, and the per-instruction transition that drives the
//! interpreter.
//!
//! The whole transition is captured by the specification function
//! [`step_model`]; the executable [`ExecutionState::step`] is proved to
//! perform exactly that transition. Input and output are byte buffers held
//! by the engine: a driver supplies the input bytes up front and collects
//! the output bytes afterwards (or between steps).

use vstd::prelude::*;

use crate::decimal::{
    dec_bytes, lemma_token_end_bounds, push_decimal, read_int_token, token_parse, TokenRead,
};
use crate::program::{read_cell, Position, Program};

use vstd::arithmetic::div_mod::{
    lemma_div_is_ordered, lemma_div_is_ordered_by_denominator, lemma_div_nonincreasing,
    lemma_div_pos_is_pos,
};

verus! {

/// The four directions the instruction pointer can travel.
#[derive(Debug, Copy, Clone, PartialEq, Eq, Structural)]
pub enum PointerDirection {
    Up,
    Down,
    Left,
    Right,
}

/// The coordinate change of one move: `x` grows rightward, `y` downward.
pub open spec fn direction_delta(d: PointerDirection) -> (int, int) {
    match d {
        PointerDirection::Up => (0, -1),
        PointerDirection::Down => (0, 1),
        PointerDirection::Left => (-1, 0),
        PointerDirection::Right => (1, 0),
    }
}

/// A coordinate moved by `d`, wrapping around at the ends of the 64-bit
/// range.
pub open spec fn coord_step(x: int, d: int) -> int {
    if x + d > i64::MAX {
        i64::MIN as int
    } else if x + d < i64::MIN {
        i64::MAX as int
    } else {
        x + d
    }
}

/// The instruction pointer: the cell whose character executes next, and the
/// direction of travel afterwards. There is exactly one per engine.
#[derive(Debug, Copy, Clone, PartialEq, Eq, Structural)]
pub struct InstructionPointer {
    pub position: Position,
    pub direction: PointerDirection,
}

impl InstructionPointer {
    /// The initial pointer: the origin, moving right.
    pub fn new() -> (p: InstructionPointer)
        ensures
            p.position@ == (0int, 0int),
            p.direction == PointerDirection::Right,
    {
        InstructionPointer {
            position: Position { x: 0, y: 0 },
            direction: PointerDirection::Right,
        }
    }
}

fn coord_forward(x: i64) -> (r: i64)
    ensures
        r as int == coord_step(x as int, 1),
{
    if x == i64::MAX {
        i64::MIN
    } else {
        x + 1
    }
}

fn coord_backward(x: i64) -> (r: i64)
    ensures
        r as int == coord_step(x as int, -1),
{
    if x == i64::MIN {
        i64::MAX
    } else {
        x - 1
    }
}

/// Advances a pointer one cell along its direction, wrapping at the ends of
/// the coordinate range.
pub fn move_pointer(pointer: &mut InstructionPointer)
    ensures
        final(pointer).direction == old(pointer).direction,
        final(pointer).position@ == (
            coord_step(old(pointer).position@.0, direction_delta(old(pointer).direction).0),
            coord_step(old(pointer).position@.1, direction_delta(old(pointer).direction).1),
        ),
{
    match pointer.direction {
        PointerDirection::Up => {
            pointer.position.y = coord_backward(pointer.position.y);
        },
        PointerDirection::Down => {
            pointer.position.y = coord_forward(pointer.position.y);
        },
        PointerDirection::Right => {
            pointer.position.x = coord_forward(pointer.position.x);
        },
        PointerDirection::Left => {
            pointer.position.x = coord_backward(pointer.position.x);
        },
    }
}

/// What popping yields and leaves: 0 and the same stack when the stack is
/// empty, otherwise the last-pushed value and the rest.
pub open spec fn spec_pop(s: Seq<i64>) -> (i64, Seq<i64>) {
    if s.len() == 0 {
        (0i64, s)
    } else {
        (s.last(), s.drop_last())
    }
}

/// A last-in-first-out stack of 64-bit signed integers. Popping an empty
/// stack is a defined operation yielding 0, not a failure.
#[derive(Debug)]
pub struct Stack(Vec<i64>);

impl View for Stack {
    type V = Seq<i64>;

    closed spec fn view(&self) -> Seq<i64> {
        self.0@
    }
}

impl Stack {
    /// An empty stack.
    pub fn new() -> (s: Stack)
        ensures
            s@ == Seq::<i64>::empty(),
    {
        Stack(Vec::new())
    }

    /// Pushes `val` on top.
    pub fn push(&mut self, val: i64)
        ensures
            final(self)@ == old(self)@.push(val),
    {
        self.0.push(val);
    }

    /// Pops the top value. Popping an empty stack always yields 0 and never
    /// fails, whatever sequence of operations came before.
    pub fn pop(&mut self) -> (r: i64)
        ensures
            (r, final(self)@) == spec_pop(old(self)@),
    {
        match self.0.pop() {
            Some(v) => v,
            None => 0,
        }
    }

    /// The stack's contents, bottom of the stack first.
    pub fn items(&self) -> (r: Vec<i64>)
        ensures
            r@ == self@,
    {
        let n = self.0.len();
        let mut out: Vec<i64> = Vec::new();
        let mut i: usize = 0;
        while i < n
            invariant
                n == self.0@.len(),
                i <= n,
                out@ == self.0@.subrange(0, i as int),
            decreases n - i,
        {
            out.push(self.0[i]);
            proof {
                assert(out@ =~= self.0@.subrange(0, i + 1));
            }
            i += 1;
        }
        proof {
            assert(out@ =~= self.0@);
        }
        out
    }
}

/// Why a step failed. A failure is reported to the caller, never swallowed;
/// the run loop stops at the first one and hands it on unchanged.
#[derive(Debug, Copy, Clone, PartialEq, Eq, Structural)]
pub enum ExecutionError {
    /// Writing to the output sink failed. The engine's own byte-buffer
    /// output never fails; the variant reports sinks of drivers that can.
    OutputFailed,
    /// The input was exhausted while an input instruction needed a byte or a
    /// token.
    InputFailed,
    /// The cell under the pointer holds a character that is no instruction.
    UnrecognizedInstruction { position: Position, instruction: char },
    /// Division or modulo by zero.
    ArithmeticByZero,
    /// The next input token is not a decimal integer that fits a stack cell.
    MalformedInputToken,
}

/// The mathematical value of an engine: everything a step reads or writes.
#[verifier::ext_equal]
pub struct StateModel {
    /// The program grid.
    pub grid: Map<(int, int), char>,
    /// Where the instruction pointer stands.
    pub position: (int, int),
    /// Where the pointer moves after a step.
    pub direction: PointerDirection,
    /// The integer stack, last-pushed value last.
    pub stack: Seq<i64>,
    /// Whether string mode is active.
    pub string_mode: bool,
    /// Whether the terminal instruction has executed. A one-way latch:
    /// stepping a terminated engine is a no-op.
    pub terminated: bool,
    /// How many instructions have executed. It saturates at the top of its
    /// range, where the run loop gives up.
    pub instruction_count: u64,
    /// All input bytes handed to the engine.
    pub input: Seq<u8>,
    /// How many input bytes have been consumed.
    pub input_pos: int,
    /// All output bytes written so far.
    pub output: Seq<u8>,
}

/// The numeric code of a grid character, as the get instruction and string
/// mode push it: the low byte of its scalar value.
pub open spec fn char_code(c: char) -> i64 {
    ((c as u32) % 256) as i64
}

/// The low byte of a stack value, as the byte-output and put instructions
/// use it.
pub open spec fn byte_of(v: i64) -> u8 {
    ((v as int) % 256) as u8
}

/// The character a stack value denotes when written into the grid.
pub open spec fn byte_char(v: i64) -> char {
    byte_of(v) as char
}

/// The instruction counter after one more instruction: it saturates rather
/// than overflow.
pub open spec fn count_step(c: u64) -> u64 {
    if c == u64::MAX {
        c
    } else {
        (c + 1) as u64
    }
}

/// The digit characters, which push their own value.
pub open spec fn is_digit_char(c: char) -> bool {
    48 <= c as u32 <= 57
}

/// The value a digit character pushes.
pub open spec fn digit_value(c: char) -> i64 {
    (c as u32 - 48) as i64
}

/// Truncating integer division, as the machine divides: the quotient is
/// rounded toward zero.
pub open spec fn trunc_div(b: int, a: int) -> int {
    if b == 0 {
        0
    } else if b > 0 && a > 0 {
        b / a
    } else if b < 0 && a < 0 {
        (b * -1) / (a * -1)
    } else if b < 0 {
        ((b * -1) / a) * -1
    } else {
        (b / (a * -1)) * -1
    }
}

/// The remainder matching `trunc_div`: it carries the sign of the dividend.
pub open spec fn trunc_rem(b: int, a: int) -> int {
    if b == 0 {
        0
    } else if b > 0 && a > 0 {
        b % a
    } else if b < 0 && a < 0 {
        ((b * -1) % (a * -1)) * -1
    } else if b < 0 {
        ((b * -1) % a) * -1
    } else {
        b % (a * -1)
    }
}

/// What the division instruction pushes for divisor `a != 0`: the truncating
/// quotient, with the one overflowing case (the smallest cell value divided
/// by -1) wrapping back to the smallest cell value.
pub open spec fn div_cell(b: i64, a: i64) -> i64 {
    if b == i64::MIN && a == -1 {
        i64::MIN
    } else {
        trunc_div(b as int, a as int) as i64
    }
}

/// What the modulo instruction pushes for divisor `a != 0`: the truncating
/// remainder; the smallest cell value modulo -1 is 0.
pub open spec fn rem_cell(b: i64, a: i64) -> i64 {
    if b == i64::MIN && a == -1 {
        0
    } else {
        trunc_rem(b as int, a as int) as i64
    }
}

proof fn lemma_trunc_div_in_range(b: i64, a: i64)
    requires
        a != 0,
        !(b == i64::MIN && a == -1),
    ensures
        i64::MIN <= trunc_div(b as int, a as int) <= i64::MAX,
{
    let bi = b as int;
    let ai = a as int;
    if bi == 0 {
    } else if bi > 0 && ai > 0 {
        lemma_div_pos_is_pos(bi, ai);
        lemma_div_nonincreasing(bi, ai);
    } else if bi < 0 && ai < 0 {
        let m = bi * -1;
        let n = ai * -1;
        lemma_div_pos_is_pos(m, n);
        lemma_div_nonincreasing(m, n);
        if n == 1 {
            assert(b != i64::MIN);
            assert(m / 1 == m) by (nonlinear_arith);
        } else {
            lemma_div_is_ordered_by_denominator(m, 2, n);
            assert(m / n <= m / 2);
            assert(m <= 0x8000_0000_0000_0000);
            lemma_div_is_ordered(m, 0x8000_0000_0000_0000, 2);
            assert(0x8000_0000_0000_0000int / 2 == 0x4000_0000_0000_0000int);
        }
    } else if bi < 0 {
        let m = bi * -1;
        lemma_div_pos_is_pos(m, ai);
        lemma_div_nonincreasing(m, ai);
    } else {
        let n = ai * -1;
        lemma_div_pos_is_pos(bi, n);
        lemma_div_nonincreasing(bi, n);
    }
}

fn div_cell_exec(b: i64, a: i64) -> (r: i64)
    requires
        a != 0,
    ensures
        r == div_cell(b, a),
{
    if b == i64::MIN && a == -1 {
        i64::MIN
    } else {
        match b.checked_div(a) {
            Some(q) => q,
            None => {
                proof {
                    lemma_trunc_div_in_range(b, a);
                }
                0
            },
        }
    }
}

fn rem_cell_exec(b: i64, a: i64) -> (r: i64)
    requires
        a != 0,
    ensures
        r == rem_cell(b, a),
{
    if b == i64::MIN && a == -1 {
        0
    } else {
        match b.checked_rem(a) {
            Some(r) => r,
            None => 0,
        }
    }
}

fn char_code_exec(c: char) -> (r: i64)
    ensures
        r == char_code(c),
{
    ((c as u32) % 256) as i64
}

fn byte_of_exec(v: i64) -> (r: u8)
    ensures
        r == byte_of(v),
{
    match v.checked_rem_euclid(256) {
        Some(r) => r as u8,
        None => 0,
    }
}

/// The model after one pointer move along its direction.
pub open spec fn moved(s: StateModel) -> StateModel {
    StateModel {
        position: (
            coord_step(s.position.0, direction_delta(s.direction).0),
            coord_step(s.position.1, direction_delta(s.direction).1),
        ),
        ..s
    }
}

/// The model after pushing `v` on the stack.
pub open spec fn pushed(s: StateModel, v: i64) -> StateModel {
    StateModel { stack: s.stack.push(v), ..s }
}

/// The popped value and the model after popping.
pub open spec fn popped(s: StateModel) -> (i64, StateModel) {
    let (v, rest) = spec_pop(s.stack);
    (v, StateModel { stack: rest, ..s })
}

/// The model with the pointer turned toward `d`.
pub open spec fn with_direction(s: StateModel, d: PointerDirection) -> StateModel {
    StateModel { direction: d, ..s }
}

/// One instruction step on the mathematical state: the complete transition
/// the engine makes, successful or failed, including every mutation a
/// failing step leaves behind. `rand_dir` stands for the direction the
/// random-direction instruction draws; every other instruction ignores it.
///
/// Stepping a terminated engine changes nothing. Otherwise the instruction
/// counter advances, the character under the pointer executes, and — unless
/// the step fails or executes the terminal instruction — the pointer moves
/// one cell along its direction.
pub open spec fn step_model(s: StateModel, rand_dir: PointerDirection) -> (
    StateModel,
    Option<ExecutionError>,
) {
    if s.terminated {
        (s, None)
    } else {
        let s1 = StateModel { instruction_count: count_step(s.instruction_count), ..s };
        let c = read_cell(s.grid, s.position);
        if s.string_mode && c != '"' {
            (moved(pushed(s1, char_code(c))), None)
        } else if c == '"' {
            (moved(StateModel { string_mode: !s1.string_mode, ..s1 }), None)
        } else if c == '^' {
            (moved(with_direction(s1, PointerDirection::Up)), None)
        } else if c == 'v' {
            (moved(with_direction(s1, PointerDirection::Down)), None)
        } else if c == '>' {
            (moved(with_direction(s1, PointerDirection::Right)), None)
        } else if c == '<' {
            (moved(with_direction(s1, PointerDirection::Left)), None)
        } else if c == '?' {
            (moved(with_direction(s1, rand_dir)), None)
        } else if c == '_' {
            let (a, s2) = popped(s1);
            let d = if a == 0 {
                PointerDirection::Right
            } else {
                PointerDirection::Left
            };
            (moved(with_direction(s2, d)), None)
        } else if c == '|' {
            let (a, s2) = popped(s1);
            let d = if a == 0 {
                PointerDirection::Down
            } else {
                PointerDirection::Up
            };
            (moved(with_direction(s2, d)), None)
        } else if c == '+' {
            let (a, s2) = popped(s1);
            let (b, s3) = popped(s2);
            (moved(pushed(s3, b.wrapping_add(a))), None)
        } else if c == '-' {
            let (a, s2) = popped(s1);
            let (b, s3) = popped(s2);
            (moved(pushed(s3, b.wrapping_sub(a))), None)
        } else if c == '*' {
            let (a, s2) = popped(s1);
            let (b, s3) = popped(s2);
            (moved(pushed(s3, b.wrapping_mul(a))), None)
        } else if c == '/' {
            let (a, s2) = popped(s1);
            let (b, s3) = popped(s2);
            if a == 0 {
                (s3, Some(ExecutionError::ArithmeticByZero))
            } else {
                (moved(pushed(s3, div_cell(b, a))), None)
            }
        } else if c == '%' {
            let (a, s2) = popped(s1);
            let (b, s3) = popped(s2);
            if a == 0 {
                (s3, Some(ExecutionError::ArithmeticByZero))
            } else {
                (moved(pushed(s3, rem_cell(b, a))), None)
            }
        } else if c == '!' {
            let (b, s2) = popped(s1);
            let v = if b == 0 {
                1i64
            } else {
                0i64
            };
            (moved(pushed(s2, v)), None)
        } else if c == '`' {
            let (a, s2) = popped(s1);
            let (b, s3) = popped(s2);
            let v = if b > a {
                1i64
            } else {
                0i64
            };
            (moved(pushed(s3, v)), None)
        } else if c == ':' {
            let (a, s2) = popped(s1);
            (moved(pushed(pushed(s2, a), a)), None)
        } else if c == '\\' {
            let (a, s2) = popped(s1);
            let (b, s3) = popped(s2);
            (moved(pushed(pushed(s3, a), b)), None)
        } else if c == '$' {
            let (a, s2) = popped(s1);
            (moved(s2), None)
        } else if c == '.' {
            let (v, s2) = popped(s1);
            (moved(StateModel { output: s2.output + dec_bytes(v as int), ..s2 }), None)
        } else if c == ',' {
            let (v, s2) = popped(s1);
            (moved(StateModel { output: s2.output.push(byte_of(v)), ..s2 }), None)
        } else if c == '#' {
            (moved(moved(s1)), None)
        } else if c == 'g' {
            let (py, s2) = popped(s1);
            let (px, s3) = popped(s2);
            (moved(pushed(s3, char_code(read_cell(s3.grid, (px as int, py as int))))), None)
        } else if c == 'p' {
            let (py, s2) = popped(s1);
            let (px, s3) = popped(s2);
            let (v, s4) = popped(s3);
            (
                moved(
                    StateModel {
                        grid: s4.grid.insert((px as int, py as int), byte_char(v)),
                        ..s4
                    },
                ),
                None,
            )
        } else if c == '&' {
            match token_parse(s1.input, s1.input_pos) {
                TokenRead::EndOfInput => (s1, Some(ExecutionError::InputFailed)),
                TokenRead::Malformed => (s1, Some(ExecutionError::MalformedInputToken)),
                TokenRead::Token(v, e) => (
                    moved(pushed(StateModel { input_pos: e as int, ..s1 }, v)),
                    None,
                ),
            }
        } else if c == '~' {
            if 0 <= s1.input_pos < s1.input.len() {
                let b = s1.input[s1.input_pos];
                (
                    moved(pushed(StateModel { input_pos: s1.input_pos + 1, ..s1 }, b as i64)),
                    None,
                )
            } else {
                (s1, Some(ExecutionError::InputFailed))
            }
        } else if c == '@' {
            (StateModel { terminated: true, ..s1 }, None)
        } else if is_digit_char(c) {
            (moved(pushed(s1, digit_value(c))), None)
        } else if c == ' ' {
            (moved(s1), None)
        } else {
            (
                s1,
                Some(
                    ExecutionError::UnrecognizedInstruction {
                        position: Position { x: s.position.0 as i64, y: s.position.1 as i64 },
                        instruction: c,
                    },
                ),
            )
        }
    }
}

/// The state a fresh engine starts in: pointer at the origin moving right,
/// empty stack, string mode off, not terminated, counter at zero, the given
/// input unread, no output yet.
pub open spec fn initial_state(grid: Map<(int, int), char>, input: Seq<u8>) -> StateModel {
    StateModel {
        grid,
        position: (0, 0),
        direction: PointerDirection::Right,
        stack: Seq::empty(),
        string_mode: false,
        terminated: false,
        instruction_count: 0,
        input,
        input_pos: 0,
        output: Seq::empty(),
    }
}

/// Relies on rand::random_range on the range 0..4: the result is one of 0,
/// 1, 2, 3, drawn from the thread-local random number generator.
#[verifier::external_body]
fn random_quarter() -> (r: u8)
    ensures
        r < 4,
{
    rand::random_range(0..4u8)
}

/// The fixed table from a drawn index to a direction. It is a bijection on
/// the four indices, so a uniformly drawn index yields a uniformly chosen
/// direction.
pub open spec fn direction_of_index(i: u8) -> PointerDirection {
    if i == 0 {
        PointerDirection::Up
    } else if i == 1 {
        PointerDirection::Down
    } else if i == 2 {
        PointerDirection::Left
    } else {
        PointerDirection::Right
    }
}

fn direction_from_index(i: u8) -> (d: PointerDirection)
    requires
        i < 4,
    ensures
        d == direction_of_index(i),
{
    if i == 0 {
        PointerDirection::Up
    } else if i == 1 {
        PointerDirection::Down
    } else if i == 2 {
        PointerDirection::Left
    } else {
        PointerDirection::Right
    }
}

/// The execution engine. It exclusively owns its program, pointer, stack and
/// buffers for the run's duration; a single caller drives it one step at a
/// time or through the run loop.
pub struct ExecutionState {
    /// The program grid, which the running program may rewrite.
    pub program: Program,
    /// The instruction pointer.
    pub pointer: InstructionPointer,
    /// The integer stack.
    pub stack: Stack,
    /// The one-way termination latch.
    pub terminated: bool,
    string_mode: bool,
    /// How many instructions have executed.
    pub instruction_count: u64,
    input: Vec<u8>,
    input_pos: usize,
    /// The bytes the program has written so far.
    pub output: Vec<u8>,
}

impl View for ExecutionState {
    type V = StateModel;

    closed spec fn view(&self) -> StateModel {
        StateModel {
            grid: self.program.grid(),
            position: self.pointer.position@,
            direction: self.pointer.direction,
            stack: self.stack@,
            string_mode: self.string_mode,
            terminated: self.terminated,
            instruction_count: self.instruction_count,
            input: self.input@,
            input_pos: self.input_pos as int,
            output: self.output@,
        }
    }
}

impl ExecutionState {
    /// Internal well-formedness: the program store is well-formed and the
    /// input cursor has not run past the input. Constructors establish it
    /// and every method preserves it.
    pub closed spec fn wf(&self) -> bool {
        &&& self.program.wf()
        &&& self.input_pos <= self.input@.len()
    }

    /// A fresh engine over `program`, with `input` as the bytes its input
    /// instructions will consume.
    pub fn new(program: Program, input: Vec<u8>) -> (s: ExecutionState)
        requires
            program.wf(),
        ensures
            s.wf(),
            s@ == initial_state(program.grid(), input@),
    {
        let s = ExecutionState {
            program,
            pointer: InstructionPointer::new(),
            stack: Stack::new(),
            terminated: false,
            string_mode: false,
            instruction_count: 0,
            input,
            input_pos: 0,
            output: Vec::new(),
        };
        proof {
            assert(s@ =~= initial_state(s.program.grid(), s.input@));
        }
        s
    }

    /// Restores pointer, stack, string mode, termination latch and
    /// instruction counter to their initial values. The program is not
    /// restored: a caller that wants a clean restart after self-modifying
    /// code supplies a fresh or duplicated program alongside. Consumed input
    /// stays consumed, and output already written stays written.
    pub fn reset(&mut self)
        requires
            old(self).wf(),
        ensures
            final(self).wf(),
            final(self)@ == (StateModel {
                position: (0, 0),
                direction: PointerDirection::Right,
                stack: Seq::empty(),
                string_mode: false,
                terminated: false,
                instruction_count: 0,
                ..old(self)@
            }),
    {
        self.pointer = InstructionPointer::new();
        self.stack = Stack::new();
        self.terminated = false;
        self.string_mode = false;
        self.instruction_count = 0;
        proof {
            assert(self@ =~= (StateModel {
                position: (0, 0),
                direction: PointerDirection::Right,
                stack: Seq::empty(),
                string_mode: false,
                terminated: false,
                instruction_count: 0,
                ..old(self)@
            }));
        }
    }


    fn bump_count(&mut self)
        requires
            old(self).wf(),
        ensures
            final(self).wf(),
            final(self)@ == (StateModel {
                instruction_count: count_step(old(self)@.instruction_count),
                ..old(self)@
            }),
    {
        if self.instruction_count < u64::MAX {
            self.instruction_count = self.instruction_count + 1;
        }
        proof {
            assert(self@ =~= (StateModel {
                instruction_count: count_step(old(self)@.instruction_count),
                ..old(self)@
            }));
        }
    }

    fn advance(&mut self)
        requires
            old(self).wf(),
        ensures
            final(self).wf(),
            final(self)@ == moved(old(self)@),
    {
        move_pointer(&mut self.pointer);
        proof {
            assert(self@ =~= moved(old(self)@));
        }
    }

    fn push_and_move(&mut self, v: i64)
        requires
            old(self).wf(),
        ensures
            final(self).wf(),
            final(self)@ == moved(pushed(old(self)@, v)),
    {
        self.stack.push(v);
        move_pointer(&mut self.pointer);
        proof {
            assert(self@ =~= moved(pushed(old(self)@, v)));
        }
    }

    fn toggle_string_mode(&mut self)
        requires
            old(self).wf(),
        ensures
            final(self).wf(),
            final(self)@ == moved(
                StateModel { string_mode: !old(self)@.string_mode, ..old(self)@ },
            ),
    {
        self.string_mode = !self.string_mode;
        move_pointer(&mut self.pointer);
        proof {
            assert(self@ =~= moved(
                StateModel { string_mode: !old(self)@.string_mode, ..old(self)@ },
            ));
        }
    }

    fn turn_and_move(&mut self, d: PointerDirection)
        requires
            old(self).wf(),
        ensures
            final(self).wf(),
            final(self)@ == moved(with_direction(old(self)@, d)),
    {
        self.pointer.direction = d;
        move_pointer(&mut self.pointer);
        proof {
            assert(self@ =~= moved(with_direction(old(self)@, d)));
        }
    }

    fn pop_branch(&mut self, zero_dir: PointerDirection, other_dir: PointerDirection)
        requires
            old(self).wf(),
        ensures
            final(self).wf(),
            final(self)@ == ({
                let (a, s2) = popped(old(self)@);
                let d = if a == 0 {
                    zero_dir
                } else {
                    other_dir
                };
                moved(with_direction(s2, d))
            }),
    {
        let a = self.stack.pop();
        if a == 0 {
            self.pointer.direction = zero_dir;
        } else {
            self.pointer.direction = other_dir;
        }
        move_pointer(&mut self.pointer);
        proof {
            let (av, s2) = popped(old(self)@);
            let d = if av == 0 {
                zero_dir
            } else {
                other_dir
            };
            assert(self@ =~= moved(with_direction(s2, d)));
        }
    }

    fn op_add(&mut self)
        requires
            old(self).wf(),
        ensures
            final(self).wf(),
            final(self)@ == ({
                let (a, s2) = popped(old(self)@);
                let (b, s3) = popped(s2);
                moved(pushed(s3, b.wrapping_add(a)))
            }),
    {
        let a = self.stack.pop();
        let b = self.stack.pop();
        self.stack.push(b.wrapping_add(a));
        move_pointer(&mut self.pointer);
        proof {
            let (av, s2) = popped(old(self)@);
            let (bv, s3) = popped(s2);
            assert(self@ =~= moved(pushed(s3, bv.wrapping_add(av))));
        }
    }

    fn op_sub(&mut self)
        requires
            old(self).wf(),
        ensures
            final(self).wf(),
            final(self)@ == ({
                let (a, s2) = popped(old(self)@);
                let (b, s3) = popped(s2);
                moved(pushed(s3, b.wrapping_sub(a)))
            }),
    {
        let a = self.stack.pop();
        let b = self.stack.pop();
        self.stack.push(b.wrapping_sub(a));
        move_pointer(&mut self.pointer);
        proof {
            let (av, s2) = popped(old(self)@);
            let (bv, s3) = popped(s2);
            assert(self@ =~= moved(pushed(s3, bv.wrapping_sub(av))));
        }
    }

    fn op_mul(&mut self)
        requires
            old(self).wf(),
        ensures
            final(self).wf(),
            final(self)@ == ({
                let (a, s2) = popped(old(self)@);
                let (b, s3) = popped(s2);
                moved(pushed(s3, b.wrapping_mul(a)))
            }),
    {
        let a = self.stack.pop();
        let b = self.stack.pop();
        self.stack.push(b.wrapping_mul(a));
        move_pointer(&mut self.pointer);
        proof {
            let (av, s2) = popped(old(self)@);
            let (bv, s3) = popped(s2);
            assert(self@ =~= moved(pushed(s3, bv.wrapping_mul(av))));
        }
    }

    fn op_div(&mut self) -> (r: Option<ExecutionError>)
        requires
            old(self).wf(),
        ensures
            final(self).wf(),
            ({
                let (a, s2) = popped(old(self)@);
                let (b, s3) = popped(s2);
                if a == 0 {
                    final(self)@ == s3 && r == Some(ExecutionError::ArithmeticByZero)
                } else {
                    final(self)@ == moved(pushed(s3, div_cell(b, a))) && r is None
                }
            }),
    {
        let a = self.stack.pop();
        let b = self.stack.pop();
        if a == 0 {
            proof {
                let (av, s2) = popped(old(self)@);
                let (bv, s3) = popped(s2);
                assert(self@ =~= s3);
            }
            Some(ExecutionError::ArithmeticByZero)
        } else {
            self.stack.push(div_cell_exec(b, a));
            move_pointer(&mut self.pointer);
            proof {
                let (av, s2) = popped(old(self)@);
                let (bv, s3) = popped(s2);
                assert(self@ =~= moved(pushed(s3, div_cell(bv, av))));
            }
            None
        }
    }

    fn op_rem(&mut self) -> (r: Option<ExecutionError>)
        requires
            old(self).wf(),
        ensures
            final(self).wf(),
            ({
                let (a, s2) = popped(old(self)@);
                let (b, s3) = popped(s2);
                if a == 0 {
                    final(self)@ == s3 && r == Some(ExecutionError::ArithmeticByZero)
                } else {
                    final(self)@ == moved(pushed(s3, rem_cell(b, a))) && r is None
                }
            }),
    {
        let a = self.stack.pop();
        let b = self.stack.pop();
        if a == 0 {
            proof {
                let (av, s2) = popped(old(self)@);
                let (bv, s3) = popped(s2);
                assert(self@ =~= s3);
            }
            Some(ExecutionError::ArithmeticByZero)
        } else {
            self.stack.push(rem_cell_exec(b, a));
            move_pointer(&mut self.pointer);
            proof {
                let (av, s2) = popped(old(self)@);
                let (bv, s3) = popped(s2);
                assert(self@ =~= moved(pushed(s3, rem_cell(bv, av))));
            }
            None
        }
    }

    fn op_not(&mut self)
        requires
            old(self).wf(),
        ensures
            final(self).wf(),
            final(self)@ == ({
                let (b, s2) = popped(old(self)@);
                let v = if b == 0 {
                    1i64
                } else {
                    0i64
                };
                moved(pushed(s2, v))
            }),
    {
        let b = self.stack.pop();
        if b == 0 {
            self.stack.push(1);
        } else {
            self.stack.push(0);
        }
        move_pointer(&mut self.pointer);
        proof {
            let (bv, s2) = popped(old(self)@);
            let v = if bv == 0 {
                1i64
            } else {
                0i64
            };
            assert(self@ =~= moved(pushed(s2, v)));
        }
    }

    fn op_greater(&mut self)
        requires
            old(self).wf(),
        ensures
            final(self).wf(),
            final(self)@ == ({
                let (a, s2) = popped(old(self)@);
                let (b, s3) = popped(s2);
                let v = if b > a {
                    1i64
                } else {
                    0i64
                };
                moved(pushed(s3, v))
            }),
    {
        let a = self.stack.pop();
        let b = self.stack.pop();
        if b > a {
            self.stack.push(1);
        } else {
            self.stack.push(0);
        }
        move_pointer(&mut self.pointer);
        proof {
            let (av, s2) = popped(old(self)@);
            let (bv, s3) = popped(s2);
            let v = if bv > av {
                1i64
            } else {
                0i64
            };
            assert(self@ =~= moved(pushed(s3, v)));
        }
    }

    fn op_dup(&mut self)
        requires
            old(self).wf(),
        ensures
            final(self).wf(),
            final(self)@ == ({
                let (a, s2) = popped(old(self)@);
                moved(pushed(pushed(s2, a), a))
            }),
    {
        let a = self.stack.pop();
        self.stack.push(a);
        self.stack.push(a);
        move_pointer(&mut self.pointer);
        proof {
            let (av, s2) = popped(old(self)@);
            assert(self@ =~= moved(pushed(pushed(s2, av), av)));
        }
    }

    fn op_swap(&mut self)
        requires
            old(self).wf(),
        ensures
            final(self).wf(),
            final(self)@ == ({
                let (a, s2) = popped(old(self)@);
                let (b, s3) = popped(s2);
                moved(pushed(pushed(s3, a), b))
            }),
    {
        let a = self.stack.pop();
        let b = self.stack.pop();
        self.stack.push(a);
        self.stack.push(b);
        move_pointer(&mut self.pointer);
        proof {
            let (av, s2) = popped(old(self)@);
            let (bv, s3) = popped(s2);
            assert(self@ =~= moved(pushed(pushed(s3, av), bv)));
        }
    }

    fn op_discard(&mut self)
        requires
            old(self).wf(),
        ensures
            final(self).wf(),
            final(self)@ == ({
                let (a, s2) = popped(old(self)@);
                moved(s2)
            }),
    {
        let _ = self.stack.pop();
        move_pointer(&mut self.pointer);
        proof {
            let (av, s2) = popped(old(self)@);
            assert(self@ =~= moved(s2));
        }
    }

    fn out_decimal(&mut self)
        requires
            old(self).wf(),
        ensures
            final(self).wf(),
            final(self)@ == ({
                let (v, s2) = popped(old(self)@);
                moved(StateModel { output: s2.output + dec_bytes(v as int), ..s2 })
            }),
    {
        let v = self.stack.pop();
        push_decimal(&mut self.output, v);
        move_pointer(&mut self.pointer);
        proof {
            let (vv, s2) = popped(old(self)@);
            assert(self@ =~= moved(StateModel { output: s2.output + dec_bytes(vv as int), ..s2 }));
        }
    }

    fn out_byte(&mut self)
        requires
            old(self).wf(),
        ensures
            final(self).wf(),
            final(self)@ == ({
                let (v, s2) = popped(old(self)@);
                moved(StateModel { output: s2.output.push(byte_of(v)), ..s2 })
            }),
    {
        let v = self.stack.pop();
        self.output.push(byte_of_exec(v));
        move_pointer(&mut self.pointer);
        proof {
            let (vv, s2) = popped(old(self)@);
            assert(self@ =~= moved(StateModel { output: s2.output.push(byte_of(vv)), ..s2 }));
        }
    }

    fn op_get(&mut self)
        requires
            old(self).wf(),
        ensures
            final(self).wf(),
            final(self)@ == ({
                let (py, s2) = popped(old(self)@);
                let (px, s3) = popped(s2);
                moved(pushed(s3, char_code(read_cell(s3.grid, (px as int, py as int)))))
            }),
    {
        let py = self.stack.pop();
        let px = self.stack.pop();
        let ch = self.program.get(&Position { x: px, y: py });
        self.stack.push(char_code_exec(ch));
        move_pointer(&mut self.pointer);
        proof {
            let (pyv, s2) = popped(old(self)@);
            let (pxv, s3) = popped(s2);
            assert(self@ =~= moved(
                pushed(s3, char_code(read_cell(s3.grid, (pxv as int, pyv as int)))),
            ));
        }
    }

    fn op_put(&mut self)
        requires
            old(self).wf(),
        ensures
            final(self).wf(),
            final(self)@ == ({
                let (py, s2) = popped(old(self)@);
                let (px, s3) = popped(s2);
                let (v, s4) = popped(s3);
                moved(
                    StateModel {
                        grid: s4.grid.insert((px as int, py as int), byte_char(v)),
                        ..s4
                    },
                )
            }),
    {
        let py = self.stack.pop();
        let px = self.stack.pop();
        let v = self.stack.pop();
        self.program.set(&Position { x: px, y: py }, byte_of_exec(v) as char);
        move_pointer(&mut self.pointer);
        proof {
            let (pyv, s2) = popped(old(self)@);
            let (pxv, s3) = popped(s2);
            let (vv, s4) = popped(s3);
            assert(self@ =~= moved(
                StateModel {
                    grid: s4.grid.insert((pxv as int, pyv as int), byte_char(vv)),
                    ..s4
                },
            ));
        }
    }

    fn in_int(&mut self) -> (r: Option<ExecutionError>)
        requires
            old(self).wf(),
        ensures
            final(self).wf(),
            ({
                match token_parse(old(self)@.input, old(self)@.input_pos) {
                    TokenRead::EndOfInput => final(self)@ == old(self)@ && r == Some(
                        ExecutionError::InputFailed,
                    ),
                    TokenRead::Malformed => final(self)@ == old(self)@ && r == Some(
                        ExecutionError::MalformedInputToken,
                    ),
                    TokenRead::Token(v, e) => final(self)@ == moved(
                        pushed(StateModel { input_pos: e as int, ..old(self)@ }, v),
                    ) && r is None,
                }
            }),
    {
        let n = self.input.len();
        proof {
            assert(self.input@.len() == n);
        }
        let t = read_int_token(&self.input, self.input_pos);
        proof {
            lemma_token_end_bounds(self.input@, self.input_pos as int);
        }
        match t {
            TokenRead::EndOfInput => Some(ExecutionError::InputFailed),
            TokenRead::Malformed => Some(ExecutionError::MalformedInputToken),
            TokenRead::Token(v, e) => {
                self.input_pos = e;
                self.stack.push(v);
                move_pointer(&mut self.pointer);
                proof {
                    assert(self@ =~= moved(
                        pushed(StateModel { input_pos: e as int, ..old(self)@ }, v),
                    ));
                }
                None
            },
        }
    }

    fn in_byte(&mut self) -> (r: Option<ExecutionError>)
        requires
            old(self).wf(),
        ensures
            final(self).wf(),
            ({
                let m = old(self)@;
                if 0 <= m.input_pos < m.input.len() {
                    final(self)@ == moved(
                        pushed(StateModel { input_pos: m.input_pos + 1, ..m }, m.input[m.input_pos] as i64),
                    ) && r is None
                } else {
                    final(self)@ == m && r == Some(ExecutionError::InputFailed)
                }
            }),
    {
        if self.input_pos < self.input.len() {
            let b = self.input[self.input_pos];
            self.input_pos = self.input_pos + 1;
            self.stack.push(b as i64);
            move_pointer(&mut self.pointer);
            proof {
                assert(self@ =~= moved(
                    pushed(
                        StateModel { input_pos: old(self)@.input_pos + 1, ..old(self)@ },
                        b as i64,
                    ),
                ));
            }
            None
        } else {
            Some(ExecutionError::InputFailed)
        }
    }

    fn halt(&mut self)
        requires
            old(self).wf(),
        ensures
            final(self).wf(),
            final(self)@ == (StateModel { terminated: true, ..old(self)@ }),
    {
        self.terminated = true;
        proof {
            assert(self@ =~= (StateModel { terminated: true, ..old(self)@ }));
        }
    }

    /// Advances the interpreter by exactly one instruction, as `step_model`
    /// describes: reads the character under the pointer, dispatches on it,
    /// and moves the pointer along unless the instruction terminated the
    /// run, failed, or was stepped after termination. For every instruction
    /// but the random-direction one the step is deterministic.
    #[verifier::rlimit(100)]
    #[verifier::spinoff_prover]
    pub fn step(&mut self) -> (r: Result<(), ExecutionError>)
        requires
            old(self).wf(),
        ensures
            final(self).wf(),
            ({
                let em = match r {
                    Ok(_) => None::<ExecutionError>,
                    Err(e) => Some(e),
                };
                &&& exists|d: PointerDirection| #![auto]
                    (final(self)@, em) == step_model(old(self)@, d)
                &&& (read_cell(old(self)@.grid, old(self)@.position) != '?' ==> (
                final(self)@,
                em,
                ) == step_model(old(self)@, PointerDirection::Right))
            }),
    {
        if self.terminated {
            proof {
                assert((self@, None::<ExecutionError>) == step_model(
                    old(self)@,
                    PointerDirection::Right,
                ));
            }
            return Ok(());
        }
        self.bump_count();
        let c = self.program.get(&self.pointer.position);
        if self.string_mode && c != '"' {
            let v = char_code_exec(c);
            self.push_and_move(v);
            proof {
                assert((self@, None::<ExecutionError>) == step_model(
                    old(self)@,
                    PointerDirection::Right,
                ));
            }
            Ok(())
        } else if c == '"' {
            self.toggle_string_mode();
            proof {
                assert((self@, None::<ExecutionError>) == step_model(
                    old(self)@,
                    PointerDirection::Right,
                ));
            }
            Ok(())
        } else if c == '^' {
            self.turn_and_move(PointerDirection::Up);
            proof {
                assert((self@, None::<ExecutionError>) == step_model(
                    old(self)@,
                    PointerDirection::Right,
                ));
            }
            Ok(())
        } else if c == 'v' {
            self.turn_and_move(PointerDirection::Down);
            proof {
                assert((self@, None::<ExecutionError>) == step_model(
                    old(self)@,
                    PointerDirection::Right,
                ));
            }
            Ok(())
        } else if c == '>' {
            self.turn_and_move(PointerDirection::Right);
            proof {
                assert((self@, None::<ExecutionError>) == step_model(
                    old(self)@,
                    PointerDirection::Right,
                ));
            }
            Ok(())
        } else if c == '<' {
            self.turn_and_move(PointerDirection::Left);
            proof {
                assert((self@, None::<ExecutionError>) == step_model(
                    old(self)@,
                    PointerDirection::Right,
                ));
            }
            Ok(())
        } else if c == '?' {
            let d = direction_from_index(random_quarter());
            self.turn_and_move(d);
            proof {
                assert((self@, None::<ExecutionError>) == step_model(old(self)@, d));
            }
            Ok(())
        } else if c == '_' {
            self.pop_branch(PointerDirection::Right, PointerDirection::Left);
            proof {
                assert((self@, None::<ExecutionError>) == step_model(
                    old(self)@,
                    PointerDirection::Right,
                ));
            }
            Ok(())
        } else if c == '|' {
            self.pop_branch(PointerDirection::Down, PointerDirection::Up);
            proof {
                assert((self@, None::<ExecutionError>) == step_model(
                    old(self)@,
                    PointerDirection::Right,
                ));
            }
            Ok(())
        } else if c == '+' {
            self.op_add();
            proof {
                assert((self@, None::<ExecutionError>) == step_model(
                    old(self)@,
                    PointerDirection::Right,
                ));
            }
            Ok(())
        } else if c == '-' {
            self.op_sub();
            proof {
                assert((self@, None::<ExecutionError>) == step_model(
                    old(self)@,
                    PointerDirection::Right,
                ));
            }
            Ok(())
        } else if c == '*' {
            self.op_mul();
            proof {
                assert((self@, None::<ExecutionError>) == step_model(
                    old(self)@,
                    PointerDirection::Right,
                ));
            }
            Ok(())
        } else if c == '/' {
            let r = self.op_div();
            proof {
                let em = match r {
                    None => None::<ExecutionError>,
                    Some(e) => Some(e),
                };
                assert((self@, em) == step_model(old(self)@, PointerDirection::Right));
            }
            match r {
                None => Ok(()),
                Some(e) => Err(e),
            }
        } else if c == '%' {
            let r = self.op_rem();
            proof {
                let em = match r {
                    None => None::<ExecutionError>,
                    Some(e) => Some(e),
                };
                assert((self@, em) == step_model(old(self)@, PointerDirection::Right));
            }
            match r {
                None => Ok(()),
                Some(e) => Err(e),
            }
        } else if c == '!' {
            self.op_not();
            proof {
                assert((self@, None::<ExecutionError>) == step_model(
                    old(self)@,
                    PointerDirection::Right,
                ));
            }
            Ok(())
        } else if c == '`' {
            self.op_greater();
            proof {
                assert((self@, None::<ExecutionError>) == step_model(
                    old(self)@,
                    PointerDirection::Right,
                ));
            }
            Ok(())
        } else if c == ':' {
            self.op_dup();
            proof {
                assert((self@, None::<ExecutionError>) == step_model(
                    old(self)@,
                    PointerDirection::Right,
                ));
            }
            Ok(())
        } else if c == '\\' {
            self.op_swap();
            proof {
                assert((self@, None::<ExecutionError>) == step_model(
                    old(self)@,
                    PointerDirection::Right,
                ));
            }
            Ok(())
        } else if c == '$' {
            self.op_discard();
            proof {
                assert((self@, None::<ExecutionError>) == step_model(
                    old(self)@,
                    PointerDirection::Right,
                ));
            }
            Ok(())
        } else if c == '.' {
            self.out_decimal();
            proof {
                assert((self@, None::<ExecutionError>) == step_model(
                    old(self)@,
                    PointerDirection::Right,
                ));
            }
            Ok(())
        } else if c == ',' {
            self.out_byte();
            proof {
                assert((self@, None::<ExecutionError>) == step_model(
                    old(self)@,
                    PointerDirection::Right,
                ));
            }
            Ok(())
        } else if c == '#' {
            self.advance();
            self.advance();
            proof {
                assert((self@, None::<ExecutionError>) == step_model(
                    old(self)@,
                    PointerDirection::Right,
                ));
            }
            Ok(())
        } else if c == 'g' {
            self.op_get();
            proof {
                assert((self@, None::<ExecutionError>) == step_model(
                    old(self)@,
                    PointerDirection::Right,
                ));
            }
            Ok(())
        } else if c == 'p' {
            self.op_put();
            proof {
                assert((self@, None::<ExecutionError>) == step_model(
                    old(self)@,
                    PointerDirection::Right,
                ));
            }
            Ok(())
        } else if c == '&' {
            let r = self.in_int();
            proof {
                let em = match r {
                    None => None::<ExecutionError>,
                    Some(e) => Some(e),
                };
                assert((self@, em) == step_model(old(self)@, PointerDirection::Right));
            }
            match r {
                None => Ok(()),
                Some(e) => Err(e),
            }
        } else if c == '~' {
            let r = self.in_byte();
            proof {
                let em = match r {
                    None => None::<ExecutionError>,
                    Some(e) => Some(e),
                };
                assert((self@, em) == step_model(old(self)@, PointerDirection::Right));
            }
            match r {
                None => Ok(()),
                Some(e) => Err(e),
            }
        } else if c == '@' {
            self.halt();
            proof {
                assert((self@, None::<ExecutionError>) == step_model(
                    old(self)@,
                    PointerDirection::Right,
                ));
            }
            Ok(())
        } else {
            let u = c as u32;
            if 48 <= u && u <= 57 {
                self.push_and_move((u - 48) as i64);
                proof {
                    assert((self@, None::<ExecutionError>) == step_model(
                        old(self)@,
                        PointerDirection::Right,
                    ));
                }
                Ok(())
            } else if c == ' ' {
                self.advance();
                proof {
                    assert((self@, None::<ExecutionError>) == step_model(
                        old(self)@,
                        PointerDirection::Right,
                    ));
                }
                Ok(())
            } else {
                let e = ExecutionError::UnrecognizedInstruction {
                    position: self.pointer.position,
                    instruction: c,
                };
                proof {
                    assert((self@, Some(e)) == step_model(old(self)@, PointerDirection::Right));
                }
                Err(e)
            }
        }
    }
}

/// One successful step leads from `s` to `t`.
pub open spec fn step_ok(s: StateModel, t: StateModel) -> bool {
    exists|d: PointerDirection| step_model(s, d) == (t, None::<ExecutionError>)
}

/// `t` is `s` after zero or more successful steps.
pub open spec fn reachable(s: StateModel, t: StateModel) -> bool {
    exists|tr: Seq<StateModel>| is_step_trace(s, t, tr)
}

/// A witness for `reachable`: the sequence of states passed through.
pub open spec fn is_step_trace(s: StateModel, t: StateModel, tr: Seq<StateModel>) -> bool {
    &&& tr.len() >= 1
    &&& tr[0] == s
    &&& tr.last() == t
    &&& forall|i: int| 0 <= i < tr.len() - 1 ==> step_ok(tr[i], #[trigger] tr[i + 1])
}

pub proof fn lemma_reachable_refl(s: StateModel)
    ensures
        reachable(s, s),
{
    let tr = seq![s];
    assert(is_step_trace(s, s, tr));
}

pub proof fn lemma_reachable_step(s: StateModel, t: StateModel, u: StateModel)
    requires
        reachable(s, t),
        step_ok(t, u),
    ensures
        reachable(s, u),
{
    let tr = choose|tr: Seq<StateModel>| is_step_trace(s, t, tr);
    let tr2 = tr.push(u);
    assert forall|i: int| 0 <= i < tr2.len() - 1 implies step_ok(tr2[i], #[trigger] tr2[i + 1]) by {
        if i < tr.len() - 1 {
            assert(tr2[i] == tr[i]);
            assert(tr2[i + 1] == tr[i + 1]);
        } else {
            assert(tr2[i] == tr.last());
            assert(tr2[i + 1] == u);
        }
    }
    assert(is_step_trace(s, u, tr2));
}

/// Stepping a terminated engine changes nothing; stepping a running one
/// advances the instruction counter by exactly one (saturating at the top of
/// its range), whatever else the instruction does.
pub proof fn lemma_step_count(s: StateModel, d: PointerDirection)
    ensures
        s.terminated ==> step_model(s, d).0 == s,
        !s.terminated ==> step_model(s, d).0.instruction_count == count_step(
            s.instruction_count,
        ),
{
}

/// Every instruction but the random-direction one ignores the drawn
/// direction: on such states the step is deterministic.
pub proof fn lemma_step_deterministic(s: StateModel, d1: PointerDirection, d2: PointerDirection)
    requires
        read_cell(s.grid, s.position) != '?' || s.terminated,
    ensures
        step_model(s, d1) == step_model(s, d2),
{
}

/// How a run from `s` can end: with no error, `t` is reached from `s` by
/// successful steps alone and has either terminated or exhausted the
/// instruction counter; with an error, successful steps reach some state
/// whose next step fails, and `t` is what that failing step leaves behind.
pub open spec fn run_outcome(s: StateModel, t: StateModel, em: Option<ExecutionError>) -> bool {
    match em {
        None => reachable(s, t) && (t.terminated || t.instruction_count == u64::MAX),
        Some(e) => exists|u: StateModel, d: PointerDirection| #![auto]
            reachable(s, u) && step_model(u, d) == (t, Some(e)),
    }
}

impl ExecutionState {
    /// Repeatedly steps until the engine terminates or a step fails. The
    /// first failure stops the loop and is handed to the caller unchanged.
    /// The loop also stops, without an error, in the practically
    /// unreachable case that the instruction counter saturates.
    pub fn run(&mut self) -> (r: Result<(), ExecutionError>)
        requires
            old(self).wf(),
        ensures
            final(self).wf(),
            run_outcome(
                old(self)@,
                final(self)@,
                match r {
                    Ok(_) => None::<ExecutionError>,
                    Err(e) => Some(e),
                },
            ),
    {
        proof {
            lemma_reachable_refl(old(self)@);
        }
        while !self.terminated && self.instruction_count < u64::MAX
            invariant
                self.wf(),
                reachable(old(self)@, self@),
            decreases u64::MAX - self.instruction_count,
        {
            let ghost pre = self@;
            let r = self.step();
            match r {
                Ok(()) => {
                    proof {
                        let d = choose|d: PointerDirection|
                            (self@, None::<ExecutionError>) == step_model(pre, d);
                        lemma_step_count(pre, d);
                        assert(step_ok(pre, self@));
                        lemma_reachable_step(old(self)@, pre, self@);
                    }
                },
                Err(e) => {
                    proof {
                        let d = choose|d: PointerDirection|
                            (self@, Some(e)) == step_model(pre, d);
                        assert(reachable(old(self)@, pre) && step_model(pre, d) == (
                            self@,
                            Some(e),
                        ));
                    }
                    return Err(e);
                },
            }
        }
        Ok(())
    }
}

/// Operand order for the pure stack instructions, exactly as the instruction
/// table gives it: with `a` the value popped first (the top of the stack)
/// and `b` the value popped second, the arithmetic instructions push
/// `b op a`, the comparison pushes 1 exactly when `b > a`, swap pushes `a`
/// then `b`, duplicate pushes the old top twice, and discard pops once.
pub proof fn lemma_operand_order(
    s: StateModel,
    d: PointerDirection,
    rest: Seq<i64>,
    b: i64,
    a: i64,
)
    requires
        !s.string_mode,
        s.stack == rest.push(b).push(a),
    ensures
        s.terminated ==> step_model(s, d) == (s, None::<ExecutionError>),
        ({
            let c = read_cell(s.grid, s.position);
            let out = step_model(s, d);
            &&& s.terminated ==> out.0.stack == rest.push(b).push(a)
            &&& !s.terminated && c == '+' ==> out.0.stack == rest.push(b.wrapping_add(a)) && out.1 is None
            &&& !s.terminated && c == '-' ==> out.0.stack == rest.push(b.wrapping_sub(a)) && out.1 is None
            &&& !s.terminated && c == '*' ==> out.0.stack == rest.push(b.wrapping_mul(a)) && out.1 is None
            &&& !s.terminated && c == '/' && a != 0 ==> out.0.stack == rest.push(div_cell(b, a)) && out.1 is None
            &&& !s.terminated && c == '%' && a != 0 ==> out.0.stack == rest.push(rem_cell(b, a)) && out.1 is None
            &&& !s.terminated && c == '`' ==> out.0.stack == rest.push(
                if b > a {
                    1i64
                } else {
                    0i64
                },
            ) && out.1 is None
            &&& !s.terminated && c == '\\' ==> out.0.stack == rest.push(a).push(b) && out.1 is None
            &&& !s.terminated && c == '!' ==> out.0.stack == rest.push(b).push(
                if a == 0 {
                    1i64
                } else {
                    0i64
                },
            ) && out.1 is None
            &&& !s.terminated && c == ':' ==> out.0.stack == rest.push(b).push(a).push(a) && out.1 is None
            &&& !s.terminated && c == '$' ==> out.0.stack == rest.push(b) && out.1 is None
        }),
{
    assert(s.stack.last() == a);
    assert(s.stack.drop_last() =~= rest.push(b));
    assert(rest.push(b).last() == b);
    assert(rest.push(b).drop_last() =~= rest);
}

/// Self-modification: after the put instruction stores value `v` at cell
/// `(x, y)`, a later get instruction aimed at `(x, y)` pushes `v mod 256` —
/// for every value and every cell, as long as the cell kept the written
/// character in between.
pub proof fn lemma_write_then_read(
    s: StateModel,
    d1: PointerDirection,
    rest1: Seq<i64>,
    v: i64,
    x: i64,
    y: i64,
    t: StateModel,
    d2: PointerDirection,
    rest2: Seq<i64>,
)
    requires
        !s.string_mode,
        read_cell(s.grid, s.position) == 'p',
        s.stack == rest1.push(v).push(x).push(y),
        read_cell(t.grid, (x as int, y as int)) == read_cell(
            step_model(s, d1).0.grid,
            (x as int, y as int),
        ),
        !t.string_mode,
        read_cell(t.grid, t.position) == 'g',
        t.stack == rest2.push(x).push(y),
    ensures
        !s.terminated ==> step_model(s, d1).1 is None,
        !s.terminated && !t.terminated ==> step_model(t, d2).1 is None && step_model(
            t,
            d2,
        ).0.stack == rest2.push(((v as int) % 256) as i64),
{
    assert(s.stack.last() == y);
    assert(s.stack.drop_last() =~= rest1.push(v).push(x));
    assert(rest1.push(v).push(x).last() == x);
    assert(rest1.push(v).push(x).drop_last() =~= rest1.push(v));
    assert(rest1.push(v).last() == v);
    assert(rest1.push(v).drop_last() =~= rest1);
    if !s.terminated {
        let g2 = step_model(s, d1).0.grid;
        assert(g2 == s.grid.insert((x as int, y as int), byte_char(v)));
        assert(read_cell(g2, (x as int, y as int)) == byte_char(v));
    }
    assert(t.stack.last() == y);
    assert(t.stack.drop_last() =~= rest2.push(x));
    assert(rest2.push(x).last() == x);
    assert(rest2.push(x).drop_last() =~= rest2);
    assert(char_code(byte_char(v)) == ((v as int) % 256) as i64) by {
        let k = (v as int) % 256;
        assert(0 <= k < 256);
        assert(byte_of(v) == k as u8);
        assert((byte_of(v) as char) as u32 == k as u32);
        assert((k as u32) % 256 == k);
    }
}

/// Input and output discipline of a step: the input bytes themselves never
/// change and the input cursor never moves backwards, while the output only
/// grows — every byte already written stays where it is.
pub proof fn lemma_step_io(s: StateModel, d: PointerDirection)
    requires
        0 <= s.input_pos <= s.input.len(),
        s.input.len() <= usize::MAX,
    ensures
        step_model(s, d).0.input == s.input,
        step_model(s, d).0.input_pos >= s.input_pos,
        step_model(s, d).0.output.len() >= s.output.len(),
        step_model(s, d).0.output.subrange(0, s.output.len() as int) == s.output,
{
    let t = step_model(s, d).0;
    assert(s.output.subrange(0, s.output.len() as int) =~= s.output);
    if !s.terminated {
        let c = read_cell(s.grid, s.position);
        if !(s.string_mode && c != '"') {
            if c == '.' || c == ',' {
                assert(t.output.subrange(0, s.output.len() as int) =~= s.output);
            } else if c == '&' {
                lemma_token_end_bounds(s.input, s.input_pos);
            }
        }
    }
}

/// Runs a fresh engine until it terminates, fails, or exhausts the
/// instruction counter, and reports how many instructions executed.
pub fn run_to_termination(program_state: ExecutionState) -> (count: u64)
    requires
        program_state.wf(),
    ensures
        exists|t: StateModel, em: Option<ExecutionError>| #![auto]
            run_outcome(program_state@, t, em) && count == t.instruction_count,
{
    let ghost m0 = program_state@;
    let mut state = program_state;
    let r = state.run();
    proof {
        let em = match r {
            Ok(_) => None::<ExecutionError>,
            Err(e) => Some(e),
        };
        assert(run_outcome(m0, state@, em) && state.instruction_count
            == state@.instruction_count);
    }
    state.instruction_count
}

} // verus!
