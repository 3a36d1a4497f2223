//! Sequences of strings: occurrence counts and first occurrences.

use crate::tables::{members, members_insert, members_new};
use crate::text::views;
use ahash::AHashSet;
use vstd::prelude::*;

verus! {

/// How often `x` occurs in `s`.
pub open spec fn count_of(s: Seq<Seq<char>>, x: Seq<char>) -> nat
    decreases s.len(),
{
    if s.len() == 0 {
        0
    } else {
        count_of(s.drop_last(), x) + if s.last() == x {
            1nat
        } else {
            0nat
        }
    }
}

/// The items of `s` without repetition, each where it first occurs.
pub open spec fn distinct(s: Seq<Seq<char>>) -> Seq<Seq<char>>
    decreases s.len(),
{
    if s.len() == 0 {
        Seq::empty()
    } else if s.drop_last().contains(s.last()) {
        distinct(s.drop_last())
    } else {
        distinct(s.drop_last()).push(s.last())
    }
}

/// An item occurs at most as often as the sequence is long, and at least
/// once exactly if it occurs at all.
pub proof fn lemma_count_of(s: Seq<Seq<char>>, x: Seq<char>)
    ensures
        count_of(s, x) <= s.len(),
        count_of(s, x) > 0 <==> s.contains(x),
    decreases s.len(),
{
    if s.len() > 0 {
        let r = s.drop_last();
        lemma_count_of(r, x);
        if s.last() == x {
            assert(s[s.len() - 1] == x);
        } else if r.contains(x) {
            let i = choose|i: int| 0 <= i < r.len() && r[i] == x;
            assert(s[i] == x);
        } else if s.contains(x) {
            let i = choose|i: int| 0 <= i < s.len() && s[i] == x;
            assert(r[i] == x);
        }
    }
}

/// `distinct(s)` holds exactly the items of `s`, none of them twice, and is
/// no longer than `s`.
pub proof fn lemma_distinct(s: Seq<Seq<char>>)
    ensures
        distinct(s).no_duplicates(),
        distinct(s).len() <= s.len(),
        forall|x: Seq<char>| #[trigger] distinct(s).contains(x) <==> s.contains(x),
    decreases s.len(),
{
    if s.len() > 0 {
        let r = s.drop_last();
        let d = distinct(r);
        lemma_distinct(r);
        assert forall|x: Seq<char>| #[trigger] distinct(s).contains(x) <==> s.contains(x) by {
            if s.contains(x) {
                let i = choose|i: int| 0 <= i < s.len() && s[i] == x;
                if i < s.len() - 1 {
                    assert(r[i] == x);
                    assert(d.contains(x));
                    let j = choose|j: int| 0 <= j < d.len() && d[j] == x;
                    assert(distinct(s)[j] == x);
                } else if !r.contains(x) {
                    assert(distinct(s)[d.len() as int] == x);
                } else {
                    assert(d.contains(x));
                }
            }
            if distinct(s).contains(x) {
                let j = choose|j: int| 0 <= j < distinct(s).len() && distinct(s)[j] == x;
                if j < d.len() {
                    assert(d[j] == x);
                    assert(d.contains(x));
                    let i = choose|i: int| 0 <= i < r.len() && r[i] == x;
                    assert(s[i] == x);
                } else {
                    assert(s[s.len() - 1] == x);
                }
            }
        }
        if !r.contains(s.last()) {
            assert forall|i: int, j: int|
                0 <= i < distinct(s).len() && 0 <= j < distinct(s).len() && i != j implies distinct(
                s,
            )[i] != distinct(s)[j] by {
                if i == d.len() {
                    assert(d[j] == distinct(s)[j]);
                    assert(d.contains(d[j]));
                } else if j == d.len() {
                    assert(d[i] == distinct(s)[i]);
                    assert(d.contains(d[i]));
                }
            }
        }
    }
}

/// Drops every repetition from a list of strings, keeping first occurrences
/// in their order.
pub fn dedup(items: Vec<String>) -> (out: Vec<String>)
    ensures
        views(out@) == distinct(views(items@)),
{
    let mut seen: AHashSet<String> = members_new();
    let mut out: Vec<String> = Vec::new();
    let n: usize = items.len();
    let ghost all = views(items@);
    let mut i: usize = 0;
    assert(views(out@) =~= distinct(all.take(0)));
    while i < n
        invariant
            n == items@.len(),
            all == views(items@),
            i <= n,
            views(out@) == distinct(all.take(i as int)),
            forall|x: Seq<char>| members(seen).contains(x) <==> all.take(i as int).contains(x),
        decreases n - i,
    {
        let item: String = items[i].clone();
        let ghost before = all.take(i as int);
        let ghost done = views(out@);
        proof {
            assert(all.take(i + 1).drop_last() =~= before);
            assert(all.take(i + 1).last() == item@);
        }
        if members_insert(&mut seen, item.clone()) {
            out.push(item);
            assert(views(out@) =~= done.push(item@));
        }
        proof {
            assert forall|x: Seq<char>| members(seen).contains(x) <==> all.take(i + 1).contains(
                x,
            ) by {
                let next = all.take(i + 1);
                if next.contains(x) {
                    let j = choose|j: int| 0 <= j < next.len() && next[j] == x;
                    if j < i {
                        assert(before[j] == x);
                    }
                }
                if before.contains(x) {
                    let j = choose|j: int| 0 <= j < before.len() && before[j] == x;
                    assert(next[j] == x);
                }
                if x == item@ {
                    assert(next[i as int] == x);
                }
            }
        }
        i = i + 1;
    }
    assert(all.take(n as int) =~= all);
    out
}

} // verus!
