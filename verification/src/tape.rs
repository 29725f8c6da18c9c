//! The memory tape: a ring of wrapping byte cells under a cursor.

use vstd::prelude::*;
use vstd::arithmetic::div_mod::{lemma_add_mod_noop, lemma_small_mod};

verus! {

/// Number of cells on the tape.
pub const TAPE_SIZE: usize = 30000;

/// What a tape holds: the cursor and the cells.
pub struct TapeModel {
    pub cursor: int,
    pub cells: Seq<u8>,
}

/// The cursor that lies `delta` cells from `cursor`, around the ring.
pub open spec fn wrap_cursor(cursor: int, delta: int) -> int {
    (cursor + delta) % (TAPE_SIZE as int)
}

/// The cell value that lies `delta` above `value`, wrapping at eight bits.
pub open spec fn wrap_cell(value: u8, delta: int) -> u8 {
    ((value as int + delta) % 256) as u8
}

impl TapeModel {
    /// The cursor addresses one of exactly `TAPE_SIZE` cells.
    pub open spec fn well_formed(self) -> bool {
        &&& self.cells.len() == TAPE_SIZE
        &&& 0 <= self.cursor < TAPE_SIZE
    }

    /// A tape of zeros with the cursor on the first cell.
    pub open spec fn blank() -> TapeModel {
        TapeModel { cursor: 0, cells: Seq::new(TAPE_SIZE as nat, |i: int| 0u8) }
    }

    /// The cell under the cursor.
    pub open spec fn current(self) -> u8 {
        self.cells[self.cursor]
    }

    /// The tape with `value` in the cell under the cursor.
    pub open spec fn stored(self, value: u8) -> TapeModel {
        TapeModel { cursor: self.cursor, cells: self.cells.update(self.cursor, value) }
    }

    /// The tape with the cursor moved by `delta` around the ring.
    pub open spec fn shifted(self, delta: int) -> TapeModel {
        TapeModel { cursor: wrap_cursor(self.cursor, delta), cells: self.cells }
    }

    /// The tape with `delta` added to the cell under the cursor, wrapping.
    pub open spec fn added(self, delta: int) -> TapeModel {
        self.stored(wrap_cell(self.current(), delta))
    }

    /// Where a seek ends that may still look at `budget` cells: the first
    /// cursor, going from the present one in strides of `step`, whose cell is
    /// zero; nothing if none of the `budget` cells is zero.
    pub open spec fn seek(self, step: int, budget: nat) -> Option<int>
        decreases budget,
    {
        if budget == 0 {
            None
        } else if self.current() == 0 {
            Some(self.cursor)
        } else {
            self.shifted(step).seek(step, (budget - 1) as nat)
        }
    }

    /// Where a seek in strides of `step` ends. A seek that has looked at
    /// `TAPE_SIZE` cells is back where it started, so it needs no more.
    pub open spec fn seek_zero(self, step: int) -> Option<int> {
        self.seek(step, TAPE_SIZE as nat)
    }
}

/// Adding nothing leaves a tape as it is, and so does moving by nothing.
pub proof fn lemma_nothing_changes(tape: TapeModel)
    requires
        tape.well_formed(),
    ensures
        tape.added(0) == tape,
        tape.shifted(0) == tape,
        tape.stored(tape.current()) == tape,
{
    assert(tape.added(0).cells =~= tape.cells);
    assert(tape.stored(tape.current()).cells =~= tape.cells);
}

/// Two additions are one addition of the sum; two moves are one move of
/// the sum; of two values stored the later one stays.
pub proof fn lemma_twice(tape: TapeModel, a: int, b: int, v: u8, w: u8)
    requires
        tape.well_formed(),
    ensures
        tape.added(a).added(b) == tape.added(a + b),
        tape.shifted(a).shifted(b) == tape.shifted(a + b),
        tape.stored(v).stored(w) == tape.stored(w),
        tape.added(a).stored(w) == tape.stored(w),
{
    assert(tape.added(a).added(b).cells =~= tape.added(a + b).cells);
    assert(tape.stored(v).stored(w).cells =~= tape.stored(w).cells);
    assert(tape.added(a).stored(w).cells =~= tape.stored(w).cells);
}

/// A round of the ring more or less makes no difference to a move: from
/// the first cell, a round and a cell lead to the second cell.
pub proof fn lemma_full_round(tape: TapeModel, delta: int)
    ensures
        tape.shifted(delta + TAPE_SIZE) == tape.shifted(delta),
        tape.shifted(delta - TAPE_SIZE) == tape.shifted(delta),
        TapeModel::blank().shifted(TAPE_SIZE + 1).cursor == 1,
{
}

/// A tape stays in order whatever is done to it.
pub proof fn lemma_stays_well_formed(tape: TapeModel, delta: int, value: u8)
    requires
        tape.well_formed(),
    ensures
        tape.added(delta).well_formed(),
        tape.shifted(delta).well_formed(),
        tape.stored(value).well_formed(),
{
}

/// The cursor after `hops` strides of `step`.
pub open spec fn hop(tape: TapeModel, step: int, hops: int) -> int {
    wrap_cursor(tape.cursor, hops * step)
}

/// A stride later, every hop is one hop further.
pub proof fn lemma_hop_shifted(tape: TapeModel, step: int, hops: int)
    requires
        tape.well_formed(),
    ensures
        hop(tape.shifted(step), step, hops) == hop(tape, step, hops + 1),
        hop(tape, step, 0) == tape.cursor,
{
    assert((hops + 1) * step == hops * step + step) by (nonlinear_arith);
    assert(0 * step == 0) by (nonlinear_arith);
    lemma_add_mod_noop(tape.cursor + step, hops * step, TAPE_SIZE as int);
    lemma_add_mod_noop(tape.cursor + step + hops * step, 0, TAPE_SIZE as int);
    lemma_mod_add(tape.cursor, step, hops * step);
}

/// Taking the remainder early does not change a sum around the ring.
proof fn lemma_mod_add(a: int, b: int, c: int)
    ensures
        ((a + b) % (TAPE_SIZE as int) + c) % (TAPE_SIZE as int) == (a + b + c) % (
        TAPE_SIZE as int),
{
    lemma_add_mod_noop(a + b, c, TAPE_SIZE as int);
    lemma_add_mod_noop((a + b) % (TAPE_SIZE as int), c, TAPE_SIZE as int);
    vstd::arithmetic::div_mod::lemma_mod_twice(a + b, TAPE_SIZE as int);
}

/// A seek that looks at more cells than lie before the first zero cell in
/// its way ends on that cell.
pub proof fn lemma_seek_finds(tape: TapeModel, step: int, hops: nat, budget: nat)
    requires
        tape.well_formed(),
        hops < budget,
        tape.cells[hop(tape, step, hops as int)] == 0,
        forall|j: int| 0 <= j < hops ==> tape.cells[#[trigger] hop(tape, step, j)] != 0,
    ensures
        tape.seek(step, budget) == Some(hop(tape, step, hops as int)),
    decreases hops,
{
    lemma_hop_shifted(tape, step, 0);
    if hops == 0 {
    } else {
        assert(tape.cells[hop(tape, step, 0)] != 0);
        let next = tape.shifted(step);
        assert forall|j: int| 0 <= j < hops - 1 implies next.cells[#[trigger] hop(next, step, j)]
            != 0 by {
            lemma_hop_shifted(tape, step, j);
            assert(tape.cells[hop(tape, step, j + 1)] != 0);
        }
        lemma_hop_shifted(tape, step, hops - 1);
        lemma_seek_finds(next, step, (hops - 1) as nat, (budget - 1) as nat);
    }
}

/// The first zero cell in the way of a seek lies less than a round of the
/// ring ahead: a round later the seek is back where it started.
pub proof fn lemma_first_zero_is_near(tape: TapeModel, step: int, hops: nat)
    requires
        tape.well_formed(),
        tape.cells[hop(tape, step, hops as int)] == 0,
        forall|j: int| 0 <= j < hops ==> tape.cells[#[trigger] hop(tape, step, j)] != 0,
    ensures
        hops < TAPE_SIZE,
{
    if hops >= TAPE_SIZE {
        let size = TAPE_SIZE as int;
        let back = hops - size;
        assert(hops * step == size * step + back * step) by (nonlinear_arith)
            requires
                back == hops - size,
        ;
        vstd::arithmetic::div_mod::lemma_mod_multiples_vanish(
            step,
            tape.cursor + back * step,
            size,
        );
        assert(hop(tape, step, back) == hop(tape, step, hops as int));
        assert(tape.cells[hop(tape, step, back)] != 0);
    }
}

/// The tape of one run.
pub struct Tape {
    loc: usize,
    cells: Vec<u8>,
}

impl View for Tape {
    type V = TapeModel;

    closed spec fn view(&self) -> TapeModel {
        TapeModel { cursor: self.loc as int, cells: self.cells@ }
    }
}

impl Tape {
    /// The cursor addresses one of exactly `TAPE_SIZE` cells.
    pub open spec fn wf(&self) -> bool {
        self@.well_formed()
    }

    /// A tape of zeros with the cursor on the first cell.
    pub fn new() -> (tape: Tape)
        ensures
            tape.wf(),
            tape@ == TapeModel::blank(),
    {
        let tape = Tape { loc: 0, cells: vec![0u8; TAPE_SIZE] };
        proof {
            assert(tape.cells@ =~= TapeModel::blank().cells);
        }
        tape
    }

    /// Moves the cursor by `delta` cells around the ring; it never leaves
    /// the tape.
    pub fn move_(&mut self, delta: i128)
        requires
            old(self).wf(),
        ensures
            final(self).wf(),
            final(self)@ == old(self)@.shifted(delta as int),
    {
        let size: i128 = TAPE_SIZE as i128;
        let rest: i128 = delta % size;
        let offset: i128 = if rest < 0 {
            rest + size
        } else {
            rest
        };
        let target: i128 = (self.loc as i128 + offset) % size;
        proof {
            assert(offset == delta as int % size as int);
            lemma_add_mod_noop(self.loc as int, delta as int, size as int);
            lemma_small_mod(self.loc as nat, size as nat);
        }
        self.loc = target as usize;
    }

    /// Adds `delta` to the cell under the cursor, wrapping at eight bits.
    pub fn incr(&mut self, delta: i128)
        requires
            old(self).wf(),
        ensures
            final(self).wf(),
            final(self)@ == old(self)@.added(delta as int),
    {
        let rest: i128 = delta % 256;
        let offset: i128 = if rest < 0 {
            rest + 256
        } else {
            rest
        };
        let value: i128 = (self.cells[self.loc] as i128 + offset) % 256;
        proof {
            assert(offset == delta as int % 256);
            lemma_add_mod_noop(self.cells[self.loc as int] as int, delta as int, 256);
            lemma_small_mod(self.cells[self.loc as int] as nat, 256);
        }
        self.cells.set(self.loc, value as u8);
    }

    /// The cell under the cursor.
    pub fn get(&self) -> (value: u8)
        requires
            self.wf(),
        ensures
            value == self@.current(),
    {
        self.cells[self.loc]
    }

    /// The cell under the cursor, as the character with that code.
    pub fn getc(&self) -> (c: char)
        requires
            self.wf(),
        ensures
            c == self@.current() as char,
    {
        self.cells[self.loc] as char
    }

    /// Writes `value` into the cell under the cursor.
    pub fn put(&mut self, value: u8)
        requires
            old(self).wf(),
        ensures
            final(self).wf(),
            final(self)@ == old(self)@.stored(value),
    {
        self.cells.set(self.loc, value);
    }

    /// Writes the code of `c` into the cell under the cursor, cut down to
    /// its lowest eight bits.
    pub fn putc(&mut self, c: char)
        requires
            old(self).wf(),
        ensures
            final(self).wf(),
            final(self)@ == old(self)@.stored((c as u32 % 256) as u8),
    {
        let code: u32 = c as u32;
        self.cells.set(self.loc, (code % 256) as u8);
    }

    /// Position of the cursor.
    pub fn cursor(&self) -> (cursor: usize)
        ensures
            cursor == self@.cursor,
    {
        self.loc
    }

    /// The cell at `index`, wherever the cursor is.
    pub fn cell(&self, index: usize) -> (value: u8)
        requires
            self.wf(),
            index < TAPE_SIZE,
        ensures
            value == self@.cells[index as int],
    {
        self.cells[index]
    }

    /// Moves the cursor in strides of `step` until the cell under it is
    /// zero. Says whether such a cell was found; if none was, the tape is
    /// left as it was.
    pub fn seek(&mut self, step: i128) -> (found: bool)
        requires
            old(self).wf(),
        ensures
            final(self).wf(),
            match old(self)@.seek_zero(step as int) {
                Some(cursor) => found && final(self)@ == (TapeModel {
                    cursor,
                    cells: old(self)@.cells,
                }),
                None => !found && final(self)@ == old(self)@,
            },
    {
        let start: usize = self.loc;
        let mut looked: usize = 0;
        while looked < TAPE_SIZE
            invariant
                self.wf(),
                looked <= TAPE_SIZE,
                start == old(self)@.cursor,
                self@.cells == old(self)@.cells,
                old(self)@.seek_zero(step as int) == self@.seek(
                    step as int,
                    (TAPE_SIZE - looked) as nat,
                ),
            decreases TAPE_SIZE - looked,
        {
            if self.cells[self.loc] == 0 {
                return true;
            }
            self.move_(step);
            looked = looked + 1;
        }
        self.loc = start;
        false
    }
}

} // verus!
