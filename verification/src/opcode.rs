//! The flat instruction set and the text that stands for each instruction.

use vstd::prelude::*;
use vstd::string::StringExecFns;
use crate::nesting::Bracket;

verus! {

/// One instruction of a compiled program.
#[derive(Clone, Copy, Debug, PartialEq, Eq, Structural)]
pub enum OpCode {
    /// Move the cursor by a signed number of cells, around the ring.
    Shift(i128),
    /// Add a signed amount to the current cell, wrapping.
    Add(i128),
    /// Start of a loop; holds the index of the matching `JumpIfNonZero`.
    JumpIfZero(usize),
    /// End of a loop; holds the index of the matching `JumpIfZero`.
    JumpIfNonZero(usize),
    /// Emit the current cell.
    Output,
    /// Read one input byte into the current cell, zero once input is used up.
    Input,
    /// A loop of one decrement: the cell counts down to zero.
    SetZero,
    /// A loop of one increment: the cell counts up until it wraps to zero.
    SetMax,
    /// A loop of one move: the cursor goes on in strides until it is on a
    /// zero cell.
    SeekZero(i128),
    /// A loop of one read: input is read into the cell until a zero byte
    /// comes, be it a byte of the input or the sign that the input is used up.
    DrainInput,
}

impl Bracket for OpCode {
    open spec fn nesting(&self) -> int {
        match *self {
            OpCode::JumpIfZero(_) => 1,
            OpCode::JumpIfNonZero(_) => -1,
            _ => 0,
        }
    }
}

/// The character of one decimal digit.
pub open spec fn digit_char(d: int) -> char {
    if d == 0 {
        '0'
    } else if d == 1 {
        '1'
    } else if d == 2 {
        '2'
    } else if d == 3 {
        '3'
    } else if d == 4 {
        '4'
    } else if d == 5 {
        '5'
    } else if d == 6 {
        '6'
    } else if d == 7 {
        '7'
    } else if d == 8 {
        '8'
    } else {
        '9'
    }
}

/// A natural number in decimal, without leading zeros.
pub open spec fn decimal(n: nat) -> Seq<char>
    decreases n,
{
    if n < 10 {
        seq![digit_char(n as int)]
    } else {
        decimal(n / 10).push(digit_char((n % 10) as int))
    }
}

/// An integer in decimal, with a minus sign if it is negative.
pub open spec fn signed_decimal(d: int) -> Seq<char> {
    if d < 0 {
        seq!['-'] + decimal((-d) as nat)
    } else {
        decimal(d as nat)
    }
}

/// The text that stands for one instruction in a rendered span.
pub open spec fn token_text(op: OpCode) -> Seq<char> {
    match op {
        OpCode::Shift(delta) => seq![' ', 'M'] + signed_decimal(delta as int),
        OpCode::Add(delta) => seq![' ', 'I'] + signed_decimal(delta as int),
        OpCode::JumpIfZero(_) => seq![' ', '['],
        OpCode::JumpIfNonZero(_) => seq![' ', ']'],
        OpCode::Output => seq!['O'],
        OpCode::Input => seq![' ', 'I'],
        OpCode::SetZero => seq![' ', '@'],
        OpCode::SetMax => seq![' ', '^'],
        OpCode::SeekZero(step) => seq![' ', 'S'] + signed_decimal(step as int),
        OpCode::DrainInput => seq![' ', 'D'],
    }
}

/// The text of the instructions from index `from` up to, not including,
/// index `to`, one token after the other in program order.
pub open spec fn span_text(ops: Seq<OpCode>, from: int, to: int) -> Seq<char>
    decreases to - from,
{
    if to <= from {
        Seq::empty()
    } else {
        span_text(ops, from, to - 1) + token_text(ops[to - 1])
    }
}

fn digit_str(d: u128) -> (s: &'static str)
    requires
        d < 10,
    ensures
        s@ == seq![digit_char(d as int)],
{
    proof {
        reveal_strlit("0");
        reveal_strlit("1");
        reveal_strlit("2");
        reveal_strlit("3");
        reveal_strlit("4");
        reveal_strlit("5");
        reveal_strlit("6");
        reveal_strlit("7");
        reveal_strlit("8");
        reveal_strlit("9");
    }
    let s = if d == 0 {
        "0"
    } else if d == 1 {
        "1"
    } else if d == 2 {
        "2"
    } else if d == 3 {
        "3"
    } else if d == 4 {
        "4"
    } else if d == 5 {
        "5"
    } else if d == 6 {
        "6"
    } else if d == 7 {
        "7"
    } else if d == 8 {
        "8"
    } else {
        "9"
    };
    assert(s@ =~= seq![digit_char(d as int)]);
    s
}

/// Appends a natural number in decimal.
fn write_decimal(text: &mut String, n: u128)
    ensures
        final(text)@ == old(text)@ + decimal(n as nat),
    decreases n,
{
    if n >= 10 {
        write_decimal(text, n / 10);
    }
    text.append(digit_str(n % 10));
    assert(text@ =~= old(text)@ + decimal(n as nat));
}

/// Appends an integer in decimal, with its sign if it is negative.
fn write_signed(text: &mut String, d: i128)
    ensures
        final(text)@ == old(text)@ + signed_decimal(d as int),
{
    if d < 0 {
        text.append("-");
        let magnitude: u128 = (-(d + 1)) as u128 + 1;
        write_decimal(text, magnitude);
        proof {
            reveal_strlit("-");
            assert(text@ =~= old(text)@ + signed_decimal(d as int));
        }
    } else {
        write_decimal(text, d as u128);
    }
}

impl OpCode {
    /// Appends the text that stands for this instruction.
    pub fn write_to(&self, text: &mut String)
        ensures
            final(text)@ == old(text)@ + token_text(*self),
    {
        proof {
            reveal_strlit(" M");
            reveal_strlit(" I");
            reveal_strlit(" [");
            reveal_strlit(" ]");
            reveal_strlit("O");
            reveal_strlit(" @");
            reveal_strlit(" ^");
            reveal_strlit(" S");
            reveal_strlit(" D");
        }
        match *self {
            OpCode::Shift(delta) => {
                text.append(" M");
                write_signed(text, delta);
                assert(text@ =~= old(text)@ + token_text(*self));
            },
            OpCode::Add(delta) => {
                text.append(" I");
                write_signed(text, delta);
                assert(text@ =~= old(text)@ + token_text(*self));
            },
            OpCode::JumpIfZero(_) => {
                text.append(" [");
                assert(text@ =~= old(text)@ + token_text(*self));
            },
            OpCode::JumpIfNonZero(_) => {
                text.append(" ]");
                assert(text@ =~= old(text)@ + token_text(*self));
            },
            OpCode::Output => {
                text.append("O");
                assert(text@ =~= old(text)@ + token_text(*self));
            },
            OpCode::Input => {
                text.append(" I");
                assert(text@ =~= old(text)@ + token_text(*self));
            },
            OpCode::SetZero => {
                text.append(" @");
                assert(text@ =~= old(text)@ + token_text(*self));
            },
            OpCode::SetMax => {
                text.append(" ^");
                assert(text@ =~= old(text)@ + token_text(*self));
            },
            OpCode::SeekZero(step) => {
                text.append(" S");
                write_signed(text, step);
                assert(text@ =~= old(text)@ + token_text(*self));
            },
            OpCode::DrainInput => {
                text.append(" D");
                assert(text@ =~= old(text)@ + token_text(*self));
            },
        }
    }

    /// The text that stands for this instruction.
    pub fn render(&self) -> (text: String)
        ensures
            text@ == token_text(*self),
    {
        let mut text = String::new();
        self.write_to(&mut text);
        text
    }
}

/// Renders the instructions from `locs.0` to `locs.1`, both included, one
/// token after the other in program order.
pub fn token_run_to_string(locs: (usize, usize), ops: &Vec<OpCode>) -> (text: String)
    requires
        locs.0 <= locs.1 < ops.len(),
    ensures
        text@ == span_text(ops@, locs.0 as int, locs.1 + 1),
{
    let mut text = String::new();
    let mut index: usize = locs.0;
    while index <= locs.1
        invariant
            locs.0 <= index <= locs.1 + 1,
            locs.1 < ops.len(),
            text@ == span_text(ops@, locs.0 as int, index as int),
        decreases locs.1 + 1 - index,
    {
        ops[index].write_to(&mut text);
        index = index + 1;
    }
    text
}

} // verus!
