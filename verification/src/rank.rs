//! Ranking by score.
//!
//! A score is an IEEE-754 binary64 number held as its bit pattern, so that
//! everything here is integer arithmetic. `rank_of` maps a bit pattern to an
//! integer that grows with the number it encodes: negative numbers come
//! first, larger magnitudes lower, and `-0` directly below `+0`. Selection
//! works on a slice of scores and returns the positions of the best ones.

use crate::text::views;
use vstd::prelude::*;

verus! {

/// The bit pattern from which the sign bit is set.
pub const SIGN: u64 = 0x8000_0000_0000_0000;

/// The rank of a score: an integer whose order is the order of the encoded
/// numbers.
pub open spec fn rank_of(s: u64) -> int {
    if s >= SIGN {
        u64::MAX - s
    } else {
        s + SIGN
    }
}

/// Computes `rank_of`.
pub fn score_rank(s: u64) -> (r: u64)
    ensures
        r == rank_of(s),
{
    if s >= SIGN {
        u64::MAX - s
    } else {
        s + SIGN
    }
}

/// Ranking loses nothing: two scores of equal rank are the same score.
pub proof fn lemma_rank_injective(a: u64, b: u64)
    ensures
        0 <= rank_of(a) <= u64::MAX,
        rank_of(a) == rank_of(b) ==> a == b,
{
}

/// Among non-negative encodings rank follows the bit pattern, among negative
/// ones it runs against it, and every negative encoding ranks below every
/// non-negative one.
pub proof fn lemma_rank_order(a: u64, b: u64)
    ensures
        a < SIGN && b < SIGN ==> (rank_of(a) <= rank_of(b) <==> a <= b),
        a >= SIGN && b >= SIGN ==> (rank_of(a) <= rank_of(b) <==> b <= a),
        a >= SIGN && b < SIGN ==> rank_of(a) < rank_of(b),
{
}

/// Every position in `picks` is a position of `scores`.
pub open spec fn in_range(picks: Seq<usize>, n: int) -> bool {
    forall|i: int| 0 <= i < picks.len() ==> (#[trigger] picks[i]) < n
}

/// The scores at `picks` never fall from one pick to the next.
pub open spec fn ascending(scores: Seq<u64>, picks: Seq<usize>) -> bool {
    forall|i: int, j: int|
        0 <= i < j < picks.len() ==> rank_of(scores[#[trigger] picks[i] as int]) <= rank_of(
            scores[#[trigger] picks[j] as int],
        )
}

/// The scores at `picks` never rise from one pick to the next.
pub open spec fn descending(scores: Seq<u64>, picks: Seq<usize>) -> bool {
    forall|i: int, j: int|
        0 <= i < j < picks.len() ==> rank_of(scores[#[trigger] picks[i] as int]) >= rank_of(
            scores[#[trigger] picks[j] as int],
        )
}

/// No position below `n` that was passed over has a score above a picked one.
pub open spec fn none_better(scores: Seq<u64>, picks: Seq<usize>, n: int) -> bool {
    forall|r: int, i: int|
        0 <= r < n && 0 <= i < picks.len() && !picks.contains(r as usize) ==> rank_of(
            #[trigger] scores[r],
        ) <= rank_of(scores[#[trigger] picks[i] as int])
}

/// `picks` names the `k` best positions of `scores`, best first: as many as
/// there are if fewer than `k`, each once, and nothing left out outranks
/// anything chosen. Which of several equal scores is chosen, and in what
/// order equal scores stand, is left open.
pub open spec fn is_top_k(scores: Seq<u64>, k: int, picks: Seq<usize>) -> bool {
    &&& picks.len() == if k <= scores.len() { k } else { scores.len() as int }
    &&& in_range(picks, scores.len() as int)
    &&& picks.no_duplicates()
    &&& descending(scores, picks)
    &&& none_better(scores, picks, scores.len() as int)
}

/// Puts `row` into an ascending buffer, before the first entry that does not
/// rank below it, and returns where it went.
fn insert_ascending(buf: &mut Vec<usize>, scores: &[u64], row: usize) -> (at: usize)
    requires
        row < scores@.len(),
        in_range(old(buf)@, scores@.len() as int),
        ascending(scores@, old(buf)@),
    ensures
        at <= old(buf)@.len(),
        final(buf)@ == old(buf)@.insert(at as int, row),
        ascending(scores@, final(buf)@),
{
    let rank: u64 = score_rank(scores[row]);
    let mut at: usize = 0;
    while at < buf.len() && score_rank(scores[buf[at]]) < rank
        invariant
            at <= buf@.len(),
            row < scores@.len(),
            rank == rank_of(scores@[row as int]),
            in_range(buf@, scores@.len() as int),
            forall|i: int| 0 <= i < at ==> rank_of(scores@[#[trigger] buf@[i] as int]) < rank,
        decreases buf@.len() - at,
    {
        at = at + 1;
    }
    let ghost before = buf@;
    buf.insert(at, row);
    proof {
        let after = buf@;
        assert forall|i: int, j: int| 0 <= i < j < after.len() implies rank_of(
            scores@[#[trigger] after[i] as int],
        ) <= rank_of(scores@[#[trigger] after[j] as int]) by {
            if j < at {
                assert(after[i] == before[i] && after[j] == before[j]);
            } else if j == at {
                assert(after[i] == before[i]);
            } else if i < at {
                assert(after[i] == before[i] && after[j] == before[j - 1]);
                if at < before.len() {
                    assert(rank_of(scores@[before[at as int] as int]) >= rank);
                }
            } else if i == at {
                assert(after[j] == before[j - 1]);
                assert(rank_of(scores@[before[at as int] as int]) >= rank);
            } else {
                assert(after[i] == before[i - 1] && after[j] == before[j - 1]);
            }
        }
    }
    at
}

/// The picks in the opposite order.
fn reversed(picks: &Vec<usize>) -> (out: Vec<usize>)
    ensures
        out@ == picks@.reverse(),
{
    let mut out: Vec<usize> = Vec::new();
    let mut left: usize = picks.len();
    while left > 0
        invariant
            left <= picks@.len(),
            out@.len() == picks@.len() - left,
            forall|i: int| 0 <= i < out@.len() ==> out@[i] == picks@[picks@.len() - 1 - i],
        decreases left,
    {
        left = left - 1;
        out.push(picks[left]);
    }
    assert(out@ =~= picks@.reverse());
    out
}

/// What a buffer holds after `x` was put in at `at`.
proof fn lemma_inserted(before: Seq<usize>, at: int, x: usize, n: int)
    requires
        0 <= at <= before.len(),
    ensures
        forall|y: usize| #[trigger]
            before.insert(at, x).contains(y) <==> before.contains(y) || y == x,
        before.no_duplicates() && !before.contains(x) ==> before.insert(at, x).no_duplicates(),
        in_range(before, n) && x < n ==> in_range(before.insert(at, x), n),
{
    let after = before.insert(at, x);
    assert forall|y: usize| #[trigger] after.contains(y) <==> before.contains(y) || y == x by {
        if before.contains(y) {
            let w = choose|w: int| 0 <= w < before.len() && before[w] == y;
            if w < at {
                assert(after[w] == y);
            } else {
                assert(after[w + 1] == y);
            }
        }
        if y == x {
            assert(after[at] == y);
        }
        if after.contains(y) {
            let w = choose|w: int| 0 <= w < after.len() && after[w] == y;
            if w < at {
                assert(before[w] == y);
            } else if w > at {
                assert(before[w - 1] == y);
            }
        }
    }
    if before.no_duplicates() && !before.contains(x) {
        assert forall|i: int, j: int|
            0 <= i < after.len() && 0 <= j < after.len() && i != j implies after[i]
            != after[j] by {
            let a = if i < at { i } else { i - 1 };
            let b = if j < at { j } else { j - 1 };
            if i != at {
                assert(after[i] == before[a]);
                assert(before.contains(before[a]));
            }
            if j != at {
                assert(after[j] == before[b]);
                assert(before.contains(before[b]));
            }
        }
    }
    if in_range(before, n) && x < n {
        assert forall|i: int| 0 <= i < after.len() implies (#[trigger] after[i]) < n by {
            if i < at {
                assert(after[i] == before[i]);
            } else if i > at {
                assert(after[i] == before[i - 1]);
            }
        }
    }
}

/// What a buffer holds after its first entry was taken out.
proof fn lemma_first_removed(scores: Seq<u64>, before: Seq<usize>, n: int)
    requires
        before.len() > 0,
        before.no_duplicates(),
    ensures
        forall|y: usize| #[trigger]
            before.remove(0).contains(y) <==> before.contains(y) && y != before[0],
        before.remove(0).no_duplicates(),
        in_range(before, n) ==> in_range(before.remove(0), n),
        ascending(scores, before) ==> ascending(scores, before.remove(0)),
{
    let after = before.remove(0);
    assert forall|y: usize| #[trigger] after.contains(y) <==> before.contains(y) && y
        != before[0] by {
        if before.contains(y) && y != before[0] {
            let w = choose|w: int| 0 <= w < before.len() && before[w] == y;
            assert(after[w - 1] == y);
        }
        if after.contains(y) {
            let w = choose|w: int| 0 <= w < after.len() && after[w] == y;
            assert(before[w + 1] == y);
        }
    }
    assert forall|i: int, j: int|
        0 <= i < after.len() && 0 <= j < after.len() && i != j implies after[i] != after[j] by {
        assert(after[i] == before[i + 1] && after[j] == before[j + 1]);
    }
    if in_range(before, n) {
        assert forall|i: int| 0 <= i < after.len() implies (#[trigger] after[i]) < n by {
            assert(after[i] == before[i + 1]);
        }
    }
    if ascending(scores, before) {
        assert forall|i: int, j: int| 0 <= i < j < after.len() implies rank_of(
            scores[#[trigger] after[i] as int],
        ) <= rank_of(scores[#[trigger] after[j] as int]) by {
            assert(after[i] == before[i + 1] && after[j] == before[j + 1]);
        }
    }
}

/// A buffer that holds every position so far has passed over none.
proof fn lemma_all_kept(scores: Seq<u64>, picks: Seq<usize>, n: int)
    requires
        forall|r: int| 0 <= r < n ==> picks.contains(#[trigger] (r as usize)),
        n <= usize::MAX,
    ensures
        none_better(scores, picks, n),
{
    assert forall|r: int, i: int|
        0 <= r < n && 0 <= i < picks.len() && !picks.contains(r as usize) implies rank_of(
        #[trigger] scores[r],
    ) <= rank_of(scores[#[trigger] picks[i] as int]) by {
        assert(picks.contains(r as usize));
    }
}

/// The weakest entry of a full buffer makes way for a position that
/// outranks it.
proof fn lemma_replaced(scores: Seq<u64>, before: Seq<usize>, after: Seq<usize>, row: int)
    requires
        before.len() > 0,
        0 <= row < scores.len(),
        row <= usize::MAX,
        in_range(before, row),
        ascending(scores, before),
        none_better(scores, before, row),
        rank_of(scores[row]) > rank_of(scores[before[0] as int]),
        forall|y: usize| #[trigger]
            after.contains(y) <==> (before.contains(y) && y != before[0]) || y == row,
    ensures
        none_better(scores, after, row + 1),
{
    let floor = rank_of(scores[before[0] as int]);
    assert forall|r: int, i: int|
        0 <= r < row + 1 && 0 <= i < after.len() && !after.contains(r as usize) implies rank_of(
        #[trigger] scores[r],
    ) <= rank_of(scores[#[trigger] after[i] as int]) by {
        // what was passed over ranks no higher than the old weakest entry
        assert(r != row);
        if r as usize != before[0] {
            assert(!before.contains(r as usize));
            assert(rank_of(scores[r]) <= rank_of(scores[before[0] as int]));
        }
        assert(rank_of(scores[r]) <= floor);
        // and every entry of the new buffer ranks at least as high as that
        let y = after[i];
        assert(after.contains(y));
        if y != row {
            let w = choose|w: int| 0 <= w < before.len() && before[w] == y;
            if w > 0 {
                assert(rank_of(scores[before[0] as int]) <= rank_of(scores[before[w] as int]));
            }
        }
    }
}

/// A position that does not outrank the weakest entry of the buffer is
/// passed over.
proof fn lemma_passed_over(scores: Seq<u64>, picks: Seq<usize>, row: int)
    requires
        picks.len() > 0,
        0 <= row < scores.len(),
        ascending(scores, picks),
        none_better(scores, picks, row),
        rank_of(scores[row]) <= rank_of(scores[picks[0] as int]),
    ensures
        none_better(scores, picks, row + 1),
{
    assert forall|r: int, i: int|
        0 <= r < row + 1 && 0 <= i < picks.len() && !picks.contains(r as usize) implies rank_of(
        #[trigger] scores[r],
    ) <= rank_of(scores[#[trigger] picks[i] as int]) by {
        if r == row && i > 0 {
            assert(rank_of(scores[picks[0] as int]) <= rank_of(scores[picks[i] as int]));
        }
    }
}

/// An ascending buffer read backwards is a ranking.
proof fn lemma_reversed(scores: Seq<u64>, buf: Seq<usize>, n: int)
    requires
        in_range(buf, n),
        buf.no_duplicates(),
        ascending(scores, buf),
        none_better(scores, buf, n),
    ensures
        in_range(buf.reverse(), n),
        buf.reverse().no_duplicates(),
        descending(scores, buf.reverse()),
        none_better(scores, buf.reverse(), n),
{
    let p = buf.reverse();
    assert forall|i: int| 0 <= i < p.len() implies (#[trigger] p[i]) < n by {
        assert(p[i] == buf[buf.len() - 1 - i]);
    }
    assert forall|i: int, j: int| 0 <= i < p.len() && 0 <= j < p.len() && i != j implies p[i]
        != p[j] by {
        assert(p[i] == buf[buf.len() - 1 - i] && p[j] == buf[buf.len() - 1 - j]);
    }
    assert forall|i: int, j: int| 0 <= i < j < p.len() implies rank_of(
        scores[#[trigger] p[i] as int],
    ) >= rank_of(scores[#[trigger] p[j] as int]) by {
        assert(p[i] == buf[buf.len() - 1 - i] && p[j] == buf[buf.len() - 1 - j]);
    }
    assert forall|r: int, i: int|
        0 <= r < n && 0 <= i < p.len() && !p.contains(r as usize) implies rank_of(
        #[trigger] scores[r],
    ) <= rank_of(scores[#[trigger] p[i] as int]) by {
        assert(p[i] == buf[buf.len() - 1 - i]);
        if buf.contains(r as usize) {
            let w = choose|w: int| 0 <= w < buf.len() && buf[w] == r as usize;
            assert(p[buf.len() - 1 - w] == buf[w]);
        }
    }
}

/// The positions of the `k` best scores, best first.
///
/// A buffer of at most `k` positions is kept in ascending order, so that its
/// first entry is the weakest kept so far. A new position joins while the
/// buffer has room; once it is full a position joins only if it outranks the
/// weakest, which then leaves.
pub fn top_rows(scores: &[u64], k: usize) -> (picks: Vec<usize>)
    ensures
        is_top_k(scores@, k as int, picks@),
{
    let n: usize = scores.len();
    let mut buf: Vec<usize> = Vec::new();
    let mut row: usize = 0;
    proof {
        lemma_all_kept(scores@, buf@, 0);
    }
    while row < n
        invariant
            n == scores@.len(),
            row <= n,
            buf@.len() == if k <= row { k } else { row },
            in_range(buf@, row as int),
            buf@.no_duplicates(),
            ascending(scores@, buf@),
            none_better(scores@, buf@, row as int),
            row <= k ==> forall|r: int| 0 <= r < row ==> buf@.contains(#[trigger] (r as usize)),
        decreases n - row,
    {
        let ghost before = buf@;
        if buf.len() < k {
            let at: usize = insert_ascending(&mut buf, scores, row);
            proof {
                assert(!before.contains(row)) by {
                    if before.contains(row) {
                        let w = choose|w: int| 0 <= w < before.len() && before[w] == row;
                        assert(before[w] < row);
                    }
                }
                lemma_inserted(before, at as int, row, row + 1);
                assert forall|r: int| 0 <= r < row + 1 implies buf@.contains(
                    #[trigger] (r as usize),
                ) by {
                    if r < row {
                        assert(before.contains(r as usize));
                    }
                }
                lemma_all_kept(scores@, buf@, row + 1);
            }
        } else if k > 0 && score_rank(scores[row]) > score_rank(scores[buf[0]]) {
            buf.remove(0);
            let ghost middle = buf@;
            proof {
                lemma_first_removed(scores@, before, row as int);
            }
            let at: usize = insert_ascending(&mut buf, scores, row);
            proof {
                assert(!middle.contains(row)) by {
                    if before.contains(row) {
                        let w = choose|w: int| 0 <= w < before.len() && before[w] == row;
                        assert(before[w] < row);
                    }
                }
                lemma_inserted(middle, at as int, row, row + 1);
                lemma_replaced(scores@, before, buf@, row as int);
            }
        } else {
            proof {
                if k > 0 {
                    lemma_passed_over(scores@, before, row as int);
                } else {
                    assert(none_better(scores@, before, row + 1));
                }
            }
        }
        row = row + 1;
    }
    let picks: Vec<usize> = reversed(&buf);
    proof {
        lemma_reversed(scores@, buf@, n as int);
    }
    picks
}

/// A document with its score. The score is held as the bit pattern of an
/// IEEE-754 binary64 number.
#[derive(Debug, PartialEq, Eq)]
pub struct PairIdScore {
    /// The document.
    pub id: String,
    /// The score.
    pub s: u64,
}

impl View for PairIdScore {
    type V = (Seq<char>, u64);

    open spec fn view(&self) -> (Seq<char>, u64) {
        (self.id@, self.s)
    }
}

/// The pairs of a list, each as a value.
pub open spec fn pair_views(v: Seq<PairIdScore>) -> Seq<(Seq<char>, u64)> {
    v.map_values(|p: PairIdScore| p@)
}

/// The identifiers of a list of pairs.
pub open spec fn ids_of(v: Seq<(Seq<char>, u64)>) -> Seq<Seq<char>> {
    v.map_values(|p: (Seq<char>, u64)| p.0)
}

/// The scores of a list of pairs.
pub open spec fn scores_of(v: Seq<(Seq<char>, u64)>) -> Seq<u64> {
    v.map_values(|p: (Seq<char>, u64)| p.1)
}

/// The pairs at the picked positions, in the order of the picks.
pub open spec fn picked(items: Seq<(Seq<char>, u64)>, picks: Seq<usize>) -> Seq<(Seq<char>, u64)> {
    picks.map_values(|p: usize| items[p as int])
}

/// `out` ranks the `k` best of `items`: it lists, best first, the pairs at
/// positions that are the top `k` by score.
pub open spec fn is_ranking(items: Seq<(Seq<char>, u64)>, k: int, out: Seq<(Seq<char>, u64)>) -> bool {
    exists|picks: Seq<usize>| #[trigger]
        is_top_k(scores_of(items), k, picks) && out == picked(items, picks)
}

/// The identifiers paired with the scores, position by position.
pub open spec fn zipped(ids: Seq<Seq<char>>, scores: Seq<u64>) -> Seq<(Seq<char>, u64)> {
    Seq::new(ids.len(), |i: int| (ids[i], scores[i]))
}

/// The `k` best of the identifiers by their scores, best first, each with
/// its score.
pub fn top_pairs(ids: &Vec<String>, scores: &[u64], k: usize) -> (out: Vec<PairIdScore>)
    requires
        ids@.len() == scores@.len(),
    ensures
        is_ranking(zipped(views(ids@), scores@), k as int, pair_views(out@)),
{
    let picks: Vec<usize> = top_rows(scores, k);
    let ghost items = zipped(views(ids@), scores@);
    let mut out: Vec<PairIdScore> = Vec::new();
    let n: usize = picks.len();
    let mut i: usize = 0;
    while i < n
        invariant
            n == picks@.len(),
            i <= n,
            ids@.len() == scores@.len(),
            items == zipped(views(ids@), scores@),
            in_range(picks@, scores@.len() as int),
            out@.len() == i,
            forall|j: int| 0 <= j < i ==> (#[trigger] out@[j])@ == items[picks@[j] as int],
        decreases n - i,
    {
        let row: usize = picks[i];
        assert(picks@[i as int] < scores@.len());
        out.push(PairIdScore { id: ids[row].clone(), s: scores[row] });
        i = i + 1;
    }
    proof {
        assert(scores_of(items) =~= scores@);
        assert(pair_views(out@) =~= picked(items, picks@));
        assert(is_top_k(scores_of(items), k as int, picks@));
    }
    out
}

/// The `k` best of the pairs, best first.
pub fn top_of(items: &Vec<PairIdScore>, k: usize) -> (out: Vec<PairIdScore>)
    ensures
        is_ranking(pair_views(items@), k as int, pair_views(out@)),
{
    let ghost all = pair_views(items@);
    let m: usize = items.len();
    let mut scores: Vec<u64> = Vec::new();
    let mut a: usize = 0;
    while a < m
        invariant
            m == items@.len(),
            a <= m,
            all == pair_views(items@),
            scores@.len() == a,
            forall|j: int| 0 <= j < a ==> scores@[j] == (#[trigger] all[j]).1,
        decreases m - a,
    {
        scores.push(items[a].s);
        a = a + 1;
    }
    assert(scores@ =~= scores_of(all));
    let picks: Vec<usize> = top_rows(scores.as_slice(), k);
    let mut out: Vec<PairIdScore> = Vec::new();
    let n: usize = picks.len();
    let mut i: usize = 0;
    while i < n
        invariant
            n == picks@.len(),
            i <= n,
            m == items@.len(),
            all == pair_views(items@),
            in_range(picks@, m as int),
            out@.len() == i,
            forall|j: int| 0 <= j < i ==> (#[trigger] out@[j])@ == all[picks@[j] as int],
        decreases n - i,
    {
        let row: usize = picks[i];
        assert(picks@[i as int] < m);
        out.push(PairIdScore { id: items[row].id.clone(), s: items[row].s });
        i = i + 1;
    }
    proof {
        assert(pair_views(out@) =~= picked(all, picks@));
        assert(is_top_k(scores_of(all), k as int, picks@));
    }
    out
}

} // verus!
