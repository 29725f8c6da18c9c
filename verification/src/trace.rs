//! The hot-loop profiler: a tally of loop entries, and the report made of it.

use vstd::prelude::*;
use crate::opcode::{span_text, token_run_to_string, OpCode};

verus! {

/// A loop is hot when it was entered more often than this.
pub const HOT_THRESHOLD: u64 = 100;

/// How often the loop from index `entry` to index `exit` was entered.
pub struct LoopTally {
    pub entry: int,
    pub exit: int,
    pub count: nat,
}

/// Index of the first tally at or after `from` kept for the loop from
/// `entry` to `exit`; the number of tallies if none is kept for it.
pub open spec fn find_tally(tallies: Seq<LoopTally>, entry: int, exit: int, from: int) -> int
    decreases tallies.len() - from,
{
    if from >= tallies.len() {
        tallies.len() as int
    } else if tallies[from].entry == entry && tallies[from].exit == exit {
        from
    } else {
        find_tally(tallies, entry, exit, from + 1)
    }
}

/// How often the loop from `entry` to `exit` was entered.
pub open spec fn count_of(tallies: Seq<LoopTally>, entry: int, exit: int) -> nat {
    let at = find_tally(tallies, entry, exit, 0);
    if 0 <= at < tallies.len() {
        tallies[at].count
    } else {
        0
    }
}

/// The tallies after one more entry into the loop from `entry` to `exit`:
/// its count goes up by one, or it gets a new tally of one at the end.
pub open spec fn recorded(tallies: Seq<LoopTally>, entry: int, exit: int) -> Seq<LoopTally> {
    let at = find_tally(tallies, entry, exit, 0);
    if 0 <= at < tallies.len() {
        tallies.update(at, LoopTally { entry, exit, count: tallies[at].count + 1 })
    } else {
        tallies.push(LoopTally { entry, exit, count: 1 })
    }
}

/// No loop has two tallies.
pub open spec fn distinct_loops(tallies: Seq<LoopTally>) -> bool {
    forall|i: int, j: int|
        0 <= i < j < tallies.len() ==> !((#[trigger] tallies[i]).entry == (
        #[trigger] tallies[j]).entry && tallies[i].exit == tallies[j].exit)
}

/// Number of loop entries counted in all.
pub open spec fn total(tallies: Seq<LoopTally>) -> nat
    decreases tallies.len(),
{
    if tallies.len() == 0 {
        0
    } else {
        total(tallies.drop_last()) + tallies.last().count
    }
}

/// Every tallied loop is a span of a program of `len` instructions.
pub open spec fn spans_within(tallies: Seq<LoopTally>, len: int) -> bool {
    forall|i: int|
        0 <= i < tallies.len() ==> 0 <= (#[trigger] tallies[i]).entry <= tallies[i].exit < len
}

/// What one tally adds to the report line of `text`: its count, if the loop
/// is hot and renders as `text`.
pub open spec fn hot_share(tally: LoopTally, ops: Seq<OpCode>, text: Seq<char>) -> nat {
    if tally.count > HOT_THRESHOLD && span_text(ops, tally.entry, tally.exit + 1) == text {
        tally.count
    } else {
        0
    }
}

/// Entries into all the hot loops that render as `text`.
pub open spec fn hot_total(tallies: Seq<LoopTally>, ops: Seq<OpCode>, text: Seq<char>) -> nat
    decreases tallies.len(),
{
    if tallies.len() == 0 {
        0
    } else {
        hot_total(tallies.drop_last(), ops, text) + hot_share(tallies.last(), ops, text)
    }
}

/// Where the search for the tally of a loop ends: on the first tally of
/// the loop at or behind `from`, or behind the last tally.
proof fn lemma_find_tally(tallies: Seq<LoopTally>, entry: int, exit: int, from: int)
    requires
        0 <= from <= tallies.len(),
    ensures
        from <= find_tally(tallies, entry, exit, from) <= tallies.len(),
        forall|k: int|
            from <= k < find_tally(tallies, entry, exit, from) ==> !(tallies[k].entry == entry
                && tallies[k].exit == exit),
        find_tally(tallies, entry, exit, from) < tallies.len() ==> {
            let at = find_tally(tallies, entry, exit, from);
            tallies[at].entry == entry && tallies[at].exit == exit
        },
    decreases tallies.len() - from,
{
    if from < tallies.len() && !(tallies[from].entry == entry && tallies[from].exit == exit) {
        lemma_find_tally(tallies, entry, exit, from + 1);
    }
}

/// Raising one count by one raises the total by one.
proof fn lemma_total_update(tallies: Seq<LoopTally>, at: int, tally: LoopTally)
    requires
        0 <= at < tallies.len(),
        tally.count == tallies[at].count + 1,
    ensures
        total(tallies.update(at, tally)) == total(tallies) + 1,
    decreases tallies.len(),
{
    let updated = tallies.update(at, tally);
    if at == tallies.len() - 1 {
        assert(updated.drop_last() =~= tallies.drop_last());
    } else {
        assert(updated.drop_last() =~= tallies.drop_last().update(at, tally));
        lemma_total_update(tallies.drop_last(), at, tally);
    }
}

/// No count is above the total.
proof fn lemma_count_within_total(tallies: Seq<LoopTally>, at: int)
    requires
        0 <= at < tallies.len(),
    ensures
        tallies[at].count <= total(tallies),
    decreases tallies.len(),
{
    if at < tallies.len() - 1 {
        lemma_count_within_total(tallies.drop_last(), at);
    }
}

/// One more entry into a loop raises its count and the total by one, and
/// leaves every loop with one tally.
pub proof fn lemma_recorded(tallies: Seq<LoopTally>, entry: int, exit: int)
    requires
        distinct_loops(tallies),
    ensures
        distinct_loops(recorded(tallies, entry, exit)),
        total(recorded(tallies, entry, exit)) == total(tallies) + 1,
        count_of(recorded(tallies, entry, exit), entry, exit) == count_of(tallies, entry, exit)
            + 1,
        forall|len: int|
            spans_within(tallies, len) && 0 <= entry <= exit < len ==> spans_within(
                #[trigger] recorded(tallies, entry, exit),
                len,
            ),
{
    let at = find_tally(tallies, entry, exit, 0);
    let after = recorded(tallies, entry, exit);
    lemma_find_tally(tallies, entry, exit, 0);
    if 0 <= at < tallies.len() {
        lemma_total_update(tallies, at, after[at]);
        lemma_find_tally(after, entry, exit, 0);
        let found = find_tally(after, entry, exit, 0);
        if found < at {
            assert(after[found] == tallies[found]);
        } else if found > at {
            assert(after[at].entry == entry);
        }
    } else {
        assert(after.drop_last() =~= tallies);
        lemma_find_tally(after, entry, exit, 0);
        let found = find_tally(after, entry, exit, 0);
        if found < tallies.len() {
            assert(after[found] == tallies[found]);
        } else if found > tallies.len() {
            assert(after[tallies.len() as int].entry == entry);
        }
    }
}

/// A text has a line in the report exactly when some hot loop renders as
/// that text.
pub proof fn lemma_hot_total_positive(tallies: Seq<LoopTally>, ops: Seq<OpCode>, text: Seq<char>)
    ensures
        hot_total(tallies, ops, text) > 0 <==> exists|i: int|
            0 <= i < tallies.len() && (#[trigger] tallies[i]).count > HOT_THRESHOLD && span_text(
                ops,
                tallies[i].entry,
                tallies[i].exit + 1,
            ) == text,
    decreases tallies.len(),
{
    if tallies.len() > 0 {
        let front = tallies.drop_last();
        let last = tallies.len() - 1;
        lemma_hot_total_positive(front, ops, text);
        if hot_total(tallies, ops, text) > 0 {
            if hot_share(tallies.last(), ops, text) > 0 {
                assert(tallies[last].count > HOT_THRESHOLD);
            } else {
                let i = choose|i: int|
                    0 <= i < front.len() && (#[trigger] front[i]).count > HOT_THRESHOLD
                        && span_text(ops, front[i].entry, front[i].exit + 1) == text;
                assert(tallies[i] == front[i]);
            }
        }
        if exists|i: int|
            0 <= i < tallies.len() && (#[trigger] tallies[i]).count > HOT_THRESHOLD && span_text(
                ops,
                tallies[i].entry,
                tallies[i].exit + 1,
            ) == text {
            let i = choose|i: int|
                0 <= i < tallies.len() && (#[trigger] tallies[i]).count > HOT_THRESHOLD
                    && span_text(ops, tallies[i].entry, tallies[i].exit + 1) == text;
            if i < last {
                assert(front[i] == tallies[i]);
            }
        }
    }
}

/// The hot loops of one text were not entered more often than all loops.
proof fn lemma_hot_within_total(tallies: Seq<LoopTally>, ops: Seq<OpCode>, text: Seq<char>)
    ensures
        hot_total(tallies, ops, text) <= total(tallies),
    decreases tallies.len(),
{
    if tallies.len() > 0 {
        lemma_hot_within_total(tallies.drop_last(), ops, text);
    }
}

/// The first tallies do not count more entries than all of them.
proof fn lemma_total_of_prefix(tallies: Seq<LoopTally>, k: int)
    requires
        0 <= k <= tallies.len(),
    ensures
        total(tallies.take(k)) <= total(tallies),
    decreases tallies.len() - k,
{
    if k == tallies.len() {
        assert(tallies.take(k) =~= tallies);
    } else {
        lemma_total_of_prefix(tallies, k + 1);
        assert(tallies.take(k + 1).drop_last() =~= tallies.take(k));
    }
}

/// Some line of a report is the line of `text`.
pub open spec fn has_row(rows: Seq<(String, u64)>, text: Seq<char>) -> bool {
    exists|i: int| 0 <= i < rows.len() && (#[trigger] rows[i]).0@ == text
}

/// The lines of a report give, for these tallies, every text that a
/// hot loop among them renders as, once, with the entries into all hot
/// loops of that text.
spec fn reported(rows: Seq<(String, u64)>, tallies: Seq<LoopTally>, ops: Seq<OpCode>) -> bool {
    &&& forall|i: int, j: int|
        0 <= i < j < rows.len() ==> (#[trigger] rows[i]).0@ != (#[trigger] rows[j]).0@
    &&& forall|i: int|
        0 <= i < rows.len() ==> (#[trigger] rows[i]).1 > 0 && rows[i].1 == hot_total(
            tallies,
            ops,
            rows[i].0@,
        )
    &&& forall|text: Seq<char>| #[trigger]
        hot_total(tallies, ops, text) > 0 ==> has_row(rows, text)
}

/// One counter of the profiler.
#[derive(Clone, Copy, Debug)]
struct LoopCount {
    entry: usize,
    exit: usize,
    count: u64,
}

/// The profiler of one run.
#[derive(Debug)]
pub struct Trace {
    counts: Vec<LoopCount>,
    complete: bool,
}

impl View for Trace {
    type V = Seq<LoopTally>;

    closed spec fn view(&self) -> Seq<LoopTally> {
        Seq::new(
            self.counts@.len(),
            |i: int|
                LoopTally {
                    entry: self.counts@[i].entry as int,
                    exit: self.counts@[i].exit as int,
                    count: self.counts@[i].count as nat,
                },
        )
    }
}

impl Trace {
    /// No loop has two tallies, and the total fits the counter.
    pub open spec fn wf(&self) -> bool {
        &&& distinct_loops(self@)
        &&& total(self@) <= u64::MAX
    }

    /// The run that this profile belongs to has come to its end.
    pub closed spec fn complete(&self) -> bool {
        self.complete
    }

    /// A profile without any tally, of a run that has not ended.
    pub fn new() -> (trace: Trace)
        ensures
            trace.wf(),
            trace@ == Seq::<LoopTally>::empty(),
            !trace.complete(),
    {
        let trace = Trace { counts: Vec::new(), complete: false };
        proof {
            assert(trace@ =~= Seq::<LoopTally>::empty());
        }
        trace
    }

    /// Forgets every tally, for a new run.
    pub fn reset(&mut self)
        ensures
            final(self).wf(),
            final(self)@ == Seq::<LoopTally>::empty(),
            !final(self).complete(),
    {
        self.counts = Vec::new();
        self.complete = false;
        proof {
            assert(self@ =~= Seq::<LoopTally>::empty());
        }
    }

    /// Counts one entry into the loop from `locs.0` to `locs.1`. A run in
    /// which a loop is entered has not ended.
    pub fn trace(&mut self, locs: (usize, usize))
        requires
            old(self).wf(),
            total(old(self)@) < u64::MAX,
        ensures
            final(self).wf(),
            final(self)@ == recorded(old(self)@, locs.0 as int, locs.1 as int),
            !final(self).complete(),
    {
        let ghost before = self@;
        self.complete = false;
        let mut index: usize = 0;
        while index < self.counts.len()
            invariant
                self@ == before,
                before == old(self)@,
                distinct_loops(before),
                total(before) < u64::MAX,
                index <= self.counts.len(),
                !self.complete,
                find_tally(before, locs.0 as int, locs.1 as int, 0) == find_tally(
                    before,
                    locs.0 as int,
                    locs.1 as int,
                    index as int,
                ),
            decreases self.counts.len() - index,
        {
            let current = self.counts[index];
            assert(before[index as int].entry == current.entry);
            if current.entry == locs.0 && current.exit == locs.1 {
                proof {
                    lemma_count_within_total(before, index as int);
                }
                self.counts.set(
                    index,
                    LoopCount { entry: current.entry, exit: current.exit, count: current.count + 1 },
                );
                proof {
                    assert(self@ =~= recorded(before, locs.0 as int, locs.1 as int));
                    lemma_recorded(before, locs.0 as int, locs.1 as int);
                }
                return ;
            }
            index = index + 1;
        }
        self.counts.push(LoopCount { entry: locs.0, exit: locs.1, count: 1 });
        proof {
            assert(self@ =~= recorded(before, locs.0 as int, locs.1 as int));
            lemma_recorded(before, locs.0 as int, locs.1 as int);
        }
    }

    /// Marks the run as still going on: the tallies stay, but no report
    /// may be made of them yet.
    pub fn reopen(&mut self)
        ensures
            final(self)@ == old(self)@,
            !final(self).complete(),
    {
        self.complete = false;
    }

    /// Number of loop entries counted in all.
    pub fn entries(&self) -> (sum: u64)
        requires
            self.wf(),
        ensures
            sum == total(self@),
    {
        let mut sum: u64 = 0;
        let mut k: usize = 0;
        proof {
            assert(self@.take(0) =~= Seq::<LoopTally>::empty());
        }
        while k < self.counts.len()
            invariant
                k <= self.counts.len(),
                self.counts.len() == self@.len(),
                total(self@) <= u64::MAX,
                sum == total(self@.take(k as int)),
            decreases self.counts.len() - k,
        {
            proof {
                assert(self@.take(k + 1).drop_last() =~= self@.take(k as int));
                assert(self@.take(k + 1).last().count == self.counts[k as int].count);
                lemma_total_of_prefix(self@, k + 1);
            }
            sum = sum + self.counts[k].count;
            k = k + 1;
        }
        proof {
            assert(self@.take(k as int) =~= self@);
        }
        sum
    }

    /// Marks the end of the run: from now on a report may be made.
    pub fn finish(&mut self)
        ensures
            final(self)@ == old(self)@,
            final(self).complete(),
    {
        self.complete = true;
    }

    /// The report of a finished run: one line for every text that a hot
    /// loop renders as, with the entries into all the hot loops of that
    /// text taken together. A loop is hot when it was entered more than
    /// `HOT_THRESHOLD` times; it renders as the tokens of its instructions
    /// from loop start to loop end.
    pub fn report(&self, ops: &Vec<OpCode>) -> (rows: Vec<(String, u64)>)
        requires
            self.wf(),
            self.complete(),
            spans_within(self@, ops.len() as int),
        ensures
            forall|i: int, j: int|
                0 <= i < j < rows.len() ==> (#[trigger] rows[i]).0@ != (#[trigger] rows[j]).0@,
            forall|i: int|
                0 <= i < rows.len() ==> (#[trigger] rows[i]).1 > 0 && rows[i].1 == hot_total(
                    self@,
                    ops@,
                    rows[i].0@,
                ),
            forall|text: Seq<char>| #[trigger]
                hot_total(self@, ops@, text) > 0 ==> has_row(rows@, text),
    {
        let mut rows: Vec<(String, u64)> = Vec::new();
        let mut k: usize = 0;
        proof {
            assert(self@.take(0) =~= Seq::<LoopTally>::empty());
        }
        while k < self.counts.len()
            invariant
                k <= self.counts.len(),
                self.counts.len() == self@.len(),
                total(self@) <= u64::MAX,
                spans_within(self@, ops.len() as int),
                reported(rows@, self@.take(k as int), ops@),
            decreases self.counts.len() - k,
        {
            let current = self.counts[k];
            let ghost seen = self@.take(k as int);
            let ghost next = self@.take(k + 1);
            let ghost tally = self@[k as int];
            let ghost lines = rows@;
            proof {
                assert(next.drop_last() =~= seen);
                assert(next.last() == tally);
                assert(tally.count == current.count);
                assert(tally.entry == current.entry);
                assert(tally.exit == current.exit);
            }
            if current.count > HOT_THRESHOLD {
                let text = token_run_to_string((current.entry, current.exit), ops);
                let ghost name = text@;
                let mut j: usize = 0;
                let mut found = false;
                while j < rows.len() && !found
                    invariant
                        j <= rows.len(),
                        rows@ == lines,
                        text@ == name,
                        found ==> j < rows.len() && rows[j as int].0@ == name,
                        forall|i: int| 0 <= i < j ==> (#[trigger] rows[i]).0@ != name,
                    decreases rows.len() - j + (if found { 0int } else { 1int }),
                {
                    if rows[j].0 == text {
                        found = true;
                    } else {
                        j = j + 1;
                    }
                }
                if found {
                    proof {
                        lemma_hot_within_total(next, ops@, name);
                        lemma_total_of_prefix(self@, k + 1);
                    }
                    let sum: u64 = rows[j].1 + current.count;
                    rows.set(j, (text, sum));
                    proof {
                        assert forall|t: Seq<char>| #[trigger]
                            hot_total(next, ops@, t) > 0 implies has_row(rows@, t) by {
                            if t == name {
                                assert(rows@[j as int].0@ == t);
                            } else {
                                assert(hot_share(tally, ops@, t) == 0);
                                assert(hot_total(seen, ops@, t) > 0);
                                assert(has_row(lines, t));
                                let i = choose|i: int| 0 <= i < lines.len() && lines[i].0@ == t;
                                assert(rows@[i].0@ == t);
                            }
                        }
                        assert(reported(rows@, next, ops@));
                    }
                } else {
                    proof {
                        if hot_total(seen, ops@, name) > 0 {
                            assert(has_row(lines, name));
                        }
                    }
                    rows.push((text, current.count));
                    proof {
                        assert forall|t: Seq<char>| #[trigger]
                            hot_total(next, ops@, t) > 0 implies has_row(rows@, t) by {
                            if t == name {
                                assert(rows@[lines.len() as int].0@ == t);
                            } else {
                                assert(hot_share(tally, ops@, t) == 0);
                                assert(hot_total(seen, ops@, t) > 0);
                                assert(has_row(lines, t));
                                let i = choose|i: int| 0 <= i < lines.len() && lines[i].0@ == t;
                                assert(rows@[i].0@ == t);
                            }
                        }
                        assert(reported(rows@, next, ops@));
                    }
                }
            } else {
                proof {
                    assert forall|t: Seq<char>| #[trigger]
                        hot_total(next, ops@, t) > 0 implies has_row(rows@, t) by {
                        assert(hot_total(seen, ops@, t) > 0);
                    }
                    assert(reported(rows@, next, ops@));
                }
            }
            k = k + 1;
        }
        proof {
            assert(self@.take(k as int) =~= self@);
        }
        rows
    }

    /// How often the loop from `locs.0` to `locs.1` was entered.
    pub fn count(&self, locs: (usize, usize)) -> (count: u64)
        ensures
            count == count_of(self@, locs.0 as int, locs.1 as int),
    {
        let mut index: usize = 0;
        while index < self.counts.len()
            invariant
                index <= self.counts.len(),
                find_tally(self@, locs.0 as int, locs.1 as int, 0) == find_tally(
                    self@,
                    locs.0 as int,
                    locs.1 as int,
                    index as int,
                ),
            decreases self.counts.len() - index,
        {
            let current = self.counts[index];
            assert(self@[index as int].entry == current.entry);
            if current.entry == locs.0 && current.exit == locs.1 {
                return current.count;
            }
            index = index + 1;
        }
        0
    }
}

} // verus!
