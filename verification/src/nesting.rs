//! Bracket nesting over any sequence whose items may open or close a scope.

use vstd::prelude::*;

verus! {

/// An item that may open or close a nesting scope.
pub trait Bracket {
    /// `1` for an item that opens a scope, `-1` for one that closes a scope,
    /// `0` for any other item.
    spec fn nesting(&self) -> int;
}

/// Number of scopes that the first `k` items leave open: openers minus closers.
pub open spec fn depth<T: Bracket>(items: Seq<T>, k: int) -> int
    decreases k,
{
    if k <= 0 {
        0
    } else {
        depth(items, k - 1) + items[k - 1].nesting()
    }
}

/// No prefix closes more scopes than it opened.
pub open spec fn never_negative<T: Bracket>(items: Seq<T>, upto: int) -> bool {
    forall|k: int| 0 <= k <= upto ==> depth(items, k) >= 0
}

/// Every opener has its closer and every closer its opener.
pub open spec fn balanced<T: Bracket>(items: Seq<T>) -> bool {
    &&& never_negative(items, items.len() as int)
    &&& depth(items, items.len() as int) == 0
}

/// The item at `p` is the first closer that has no opener.
pub open spec fn excess_close_at<T: Bracket>(items: Seq<T>, p: int) -> bool {
    &&& 0 <= p < items.len()
    &&& items[p].nesting() < 0
    &&& depth(items, p) == 0
    &&& never_negative(items, p)
}

/// No closer lacks an opener, and the item at `p` is the last opener that
/// is never closed: the innermost scope still open at the end.
pub open spec fn pending_open_at<T: Bracket>(items: Seq<T>, p: int) -> bool {
    &&& 0 <= p < items.len()
    &&& items[p].nesting() > 0
    &&& never_negative(items, items.len() as int)
    &&& forall|k: int| p < k <= items.len() ==> depth(items, k) > depth(items, p)
    &&& depth(items, items.len() as int) == depth(items, p) + 1
}

/// The opener at `open` and the closer at `close` delimit one scope.
pub open spec fn matched<T: Bracket>(items: Seq<T>, open: int, close: int) -> bool {
    &&& 0 <= open < close < items.len()
    &&& items[open].nesting() > 0
    &&& items[close].nesting() < 0
    &&& depth(items, close + 1) == depth(items, open)
    &&& forall|k: int| open < k <= close ==> depth(items, k) > depth(items, open)
}

/// An opener has at most one closer.
pub proof fn lemma_closer_unique<T: Bracket>(items: Seq<T>, open: int, c1: int, c2: int)
    requires
        matched(items, open, c1),
        matched(items, open, c2),
    ensures
        c1 == c2,
{
    if c1 < c2 {
        assert(depth(items, c1 + 1) > depth(items, open));
    } else if c2 < c1 {
        assert(depth(items, c2 + 1) > depth(items, open));
    }
}

/// A closer has at most one opener.
pub proof fn lemma_opener_unique<T: Bracket>(items: Seq<T>, o1: int, o2: int, close: int)
    requires
        matched(items, o1, close),
        matched(items, o2, close),
    ensures
        o1 == o2,
{
    if o1 < o2 {
        assert(depth(items, o2) > depth(items, o1));
    } else if o2 < o1 {
        assert(depth(items, o1) > depth(items, o2));
    }
}

/// A sequence is balanced, or has a first closer without opener, or has a
/// last opener without closer: never two of these at once.
pub proof fn lemma_outcomes_exclusive<T: Bracket>(items: Seq<T>, p: int, q: int)
    ensures
        !(balanced(items) && excess_close_at(items, p)),
        !(balanced(items) && pending_open_at(items, p)),
        !(excess_close_at(items, p) && pending_open_at(items, q)),
        excess_close_at(items, p) && excess_close_at(items, q) ==> p == q,
        pending_open_at(items, p) && pending_open_at(items, q) ==> p == q,
{
    if excess_close_at(items, p) {
        assert(depth(items, p + 1) < 0);
        if excess_close_at(items, q) && p != q {
            if p < q {
                assert(depth(items, p + 1) >= 0);
            } else {
                assert(depth(items, q + 1) < 0);
                assert(depth(items, q + 1) >= 0);
            }
        }
    }
    if pending_open_at(items, p) && pending_open_at(items, q) && p != q {
        if p < q {
            assert(depth(items, q) > depth(items, p));
            assert(depth(items, q + 1) > depth(items, q));
        } else {
            assert(depth(items, p) > depth(items, q));
            assert(depth(items, p + 1) > depth(items, p));
        }
    }
}

/// The depth within two sequences put one after the other: that of the
/// first, and behind it the depth at its end plus that of the second.
pub proof fn lemma_depth_concat<T: Bracket>(a: Seq<T>, b: Seq<T>, k: int)
    requires
        0 <= k <= a.len() + b.len(),
    ensures
        depth(a + b, k) == if k <= a.len() {
            depth(a, k)
        } else {
            depth(a, a.len() as int) + depth(b, k - a.len())
        },
    decreases k,
{
    if k > 0 {
        lemma_depth_concat(a, b, k - 1);
        if k - 1 < a.len() {
            assert((a + b)[k - 1] == a[k - 1]);
        } else {
            assert((a + b)[k - 1] == b[k - 1 - a.len()]);
        }
    }
}

/// The depth within a part of a sequence is the depth gained since the
/// start of the part.
pub proof fn lemma_depth_subrange<T: Bracket>(items: Seq<T>, from: int, to: int, k: int)
    requires
        0 <= from <= to <= items.len(),
        0 <= k <= to - from,
    ensures
        depth(items.subrange(from, to), k) == depth(items, from + k) - depth(items, from),
    decreases k,
{
    if k > 0 {
        lemma_depth_subrange(items, from, to, k - 1);
        assert(items.subrange(from, to)[k - 1] == items[from + k - 1]);
    }
}

/// Nothing is balanced.
pub proof fn lemma_balanced_empty<T: Bracket>()
    ensures
        balanced(Seq::<T>::empty()),
{
    assert forall|k: int| 0 <= k <= 0 implies depth(Seq::<T>::empty(), k) >= 0 by {}
}

/// One item that neither opens nor closes a scope is balanced.
pub proof fn lemma_balanced_flat<T: Bracket>(item: T)
    requires
        item.nesting() == 0,
    ensures
        balanced(seq![item]),
{
    let s = seq![item];
    assert(depth(s, 0) == 0);
    assert(depth(s, 1) == depth(s, 0) + s[0].nesting());
    assert forall|k: int| 0 <= k <= s.len() implies depth(s, k) >= 0 by {
        if k == 1 {
        }
    }
}

/// Two balanced sequences, one after the other, are balanced.
pub proof fn lemma_balanced_concat<T: Bracket>(a: Seq<T>, b: Seq<T>)
    requires
        balanced(a),
        balanced(b),
    ensures
        balanced(a + b),
{
    assert forall|k: int| 0 <= k <= (a + b).len() implies depth(a + b, k) >= 0 by {
        lemma_depth_concat(a, b, k);
    }
    lemma_depth_concat(a, b, (a + b).len() as int);
}

/// A balanced sequence between an opener and a closer is balanced.
pub proof fn lemma_balanced_nest<T: Bracket>(open: T, body: Seq<T>, close: T)
    requires
        open.nesting() == 1,
        close.nesting() == -1,
        balanced(body),
    ensures
        balanced(seq![open] + body + seq![close]),
{
    let head = seq![open];
    let tail = seq![close];
    let all = head + body + tail;
    assert(depth(head, 0) == 0);
    assert(depth(head, 1) == depth(head, 0) + head[0].nesting());
    assert(depth(tail, 0) == 0);
    assert(depth(tail, 1) == depth(tail, 0) + tail[0].nesting());
    assert forall|k: int| 0 <= k <= all.len() implies depth(all, k) >= 0 by {
        lemma_depth_concat(head + body, tail, k);
        if k <= (head + body).len() {
            lemma_depth_concat(head, body, k);
        } else {
            lemma_depth_concat(head, body, (head + body).len() as int);
        }
    }
    lemma_depth_concat(head + body, tail, all.len() as int);
    lemma_depth_concat(head, body, (head + body).len() as int);
}

} // verus!
