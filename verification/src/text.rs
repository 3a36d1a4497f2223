//! The tokenizer.
//!
//! A text is read as its UTF-8 bytes. After ASCII lowercasing, a term is a
//! maximal run of bytes from `a-z`, `0-9` and `_`; every other byte, and so
//! every byte of a non-ASCII character, separates terms and is dropped.

use vstd::prelude::*;
use vstd::utf8::encode_utf8;

verus! {

/// ASCII lowercasing of one byte.
pub open spec fn lower(b: u8) -> u8 {
    if 0x41 <= b <= 0x5a {
        (b + 0x20) as u8
    } else {
        b
    }
}

/// Whether a byte is one of `a-z`, `0-9`, `_`.
pub open spec fn is_term_byte(b: u8) -> bool {
    (0x61 <= b <= 0x7a) || (0x30 <= b <= 0x39) || b == 0x5f
}

/// Whether a byte of the text belongs to a term, that is, is a term byte once
/// lowercased.
pub open spec fn is_word(b: u8) -> bool {
    is_term_byte(lower(b))
}

/// The length of the run of word bytes with which `s` begins.
pub open spec fn run_len(s: Seq<u8>) -> nat
    decreases s.len(),
{
    if s.len() == 0 || !is_word(s[0]) {
        0
    } else {
        1 + run_len(s.drop_first())
    }
}

/// The terms of a byte string, in the order in which they appear.
pub open spec fn tokens(s: Seq<u8>) -> Seq<Seq<u8>>
    decreases s.len(),
    via tokens_decreases
{
    if s.len() == 0 {
        Seq::empty()
    } else if !is_word(s[0]) {
        tokens(s.drop_first())
    } else {
        seq![s.take(run_len(s) as int).map_values(|b: u8| lower(b))] + tokens(
            s.skip(run_len(s) as int),
        )
    }
}

/// After a term, less is left to tokenize.
#[via_fn]
proof fn tokens_decreases(s: Seq<u8>) {
    if s.len() > 0 && is_word(s[0]) {
        lemma_run_len_bound(s);
    }
}

/// A string of ASCII bytes as characters.
pub open spec fn ascii(t: Seq<u8>) -> Seq<char> {
    t.map_values(|b: u8| b as char)
}

/// The terms of a text, as the strings that the index is keyed by.
pub open spec fn terms_of(text: Seq<char>) -> Seq<Seq<char>> {
    tokens(encode_utf8(text)).map_values(|t: Seq<u8>| ascii(t))
}

/// The strings of a list, each by its characters.
pub open spec fn views(v: Seq<String>) -> Seq<Seq<char>> {
    v.map_values(|s: String| s@)
}

/// A leading run never reaches past the end.
pub proof fn lemma_run_len_bound(s: Seq<u8>)
    ensures
        run_len(s) <= s.len(),
    decreases s.len(),
{
    if s.len() > 0 && is_word(s[0]) {
        lemma_run_len_bound(s.drop_first());
    }
}

/// A stretch of word bytes that ends at a separator, or at the end of the
/// text, is the leading run.
pub proof fn lemma_run_len_is(s: Seq<u8>, n: int)
    requires
        0 <= n <= s.len(),
        forall|i: int| 0 <= i < n ==> is_word(#[trigger] s[i]),
        n == s.len() || !is_word(s[n]),
    ensures
        run_len(s) == n,
    decreases n,
{
    if n > 0 {
        let t = s.drop_first();
        assert forall|i: int| 0 <= i < n - 1 implies is_word(#[trigger] t[i]) by {
            assert(t[i] == s[i + 1]);
        }
        lemma_run_len_is(t, n - 1);
    }
}

/// A text has at most as many terms as bytes.
pub proof fn lemma_tokens_len(s: Seq<u8>)
    ensures
        tokens(s).len() <= s.len(),
    decreases s.len(),
{
    if s.len() == 0 {
    } else if !is_word(s[0]) {
        lemma_tokens_len(s.drop_first());
    } else {
        lemma_run_all_words(s);
        lemma_tokens_len(s.skip(run_len(s) as int));
    }
}

/// Tokenizing goes piece by piece: where no term runs across the seam
/// between two byte strings, the terms of the whole are those of the first
/// piece followed by those of the second.
pub proof fn lemma_tokens_concat(a: Seq<u8>, b: Seq<u8>)
    requires
        a.len() == 0 || b.len() == 0 || !is_word(a.last()) || !is_word(b[0]),
    ensures
        tokens(a + b) == tokens(a) + tokens(b),
    decreases a.len(),
{
    let ab = a + b;
    if a.len() == 0 {
        assert(ab =~= b);
        assert(tokens(a) + tokens(b) =~= tokens(b));
    } else if !is_word(a[0]) {
        let rest = a.drop_first();
        assert(ab.drop_first() =~= rest + b);
        if rest.len() > 0 {
            assert(rest.last() == a.last());
        }
        lemma_tokens_concat(rest, b);
    } else {
        lemma_run_all_words(a);
        let n = run_len(a) as int;
        let rest = a.skip(n);
        assert(run_len(ab) == n) by {
            assert forall|i: int| 0 <= i < n implies is_word(#[trigger] ab[i]) by {
                assert(ab[i] == a[i]);
            }
            if n < a.len() {
                assert(ab[n] == a[n]);
            } else if b.len() > 0 {
                assert(is_word(a[a.len() - 1]));
                assert(ab[n] == b[0]);
            }
            lemma_run_len_is(ab, n);
        }
        assert(ab.take(n) =~= a.take(n));
        assert(ab.skip(n) =~= rest + b);
        if rest.len() > 0 {
            assert(rest.last() == a.last());
        }
        lemma_tokens_concat(rest, b);
        let head = seq![a.take(n).map_values(|x: u8| lower(x))];
        assert(tokens(ab) == head + (tokens(rest) + tokens(b)));
        assert(head + (tokens(rest) + tokens(b)) =~= (head + tokens(rest)) + tokens(b));
    }
}

/// A character takes at most four bytes.
proof fn lemma_bytes_len(text: Seq<char>)
    ensures
        encode_utf8(text).len() <= 4 * text.len(),
    decreases text.len(),
{
    if text.len() > 0 {
        lemma_bytes_len(text.drop_first());
    }
}

/// A text has at most four terms for each of its characters.
pub proof fn lemma_terms_bound(text: Seq<char>)
    ensures
        terms_of(text).len() <= 4 * text.len(),
{
    lemma_bytes_len(text);
    lemma_tokens_len(encode_utf8(text));
}

/// What a term is: a non-empty string of term bytes.
pub open spec fn is_term(t: Seq<u8>) -> bool {
    t.len() > 0 && forall|j: int| 0 <= j < t.len() ==> is_term_byte(#[trigger] t[j])
}

/// Every term that the tokenizer yields is a term.
pub proof fn lemma_tokens_are_terms(s: Seq<u8>)
    ensures
        forall|i: int| 0 <= i < tokens(s).len() ==> is_term(#[trigger] tokens(s)[i]),
    decreases s.len(),
{
    if s.len() == 0 {
        assert(tokens(s).len() == 0);
    } else if !is_word(s[0]) {
        lemma_tokens_are_terms(s.drop_first());
        assert(tokens(s) == tokens(s.drop_first()));
    } else {
        lemma_run_all_words(s);
        let n = run_len(s) as int;
        let head = s.take(n).map_values(|b: u8| lower(b));
        let rest = tokens(s.skip(n));
        lemma_tokens_are_terms(s.skip(n));
        assert(tokens(s) == seq![head] + rest);
        assert(is_term(head)) by {
            assert forall|j: int| 0 <= j < head.len() implies is_term_byte(#[trigger] head[j]) by {
                assert(head[j] == lower(s[j]));
                assert(is_word(s[j]));
            }
        }
        assert forall|i: int| 0 <= i < tokens(s).len() implies is_term(#[trigger] tokens(s)[i]) by {
            if i == 0 {
                assert(tokens(s)[0] == head);
            } else {
                assert(tokens(s)[i] == rest[i - 1]);
            }
        }
    }
}

/// The leading run consists of word bytes.
pub proof fn lemma_run_all_words(s: Seq<u8>)
    ensures
        run_len(s) <= s.len(),
        forall|i: int| 0 <= i < run_len(s) ==> is_word(#[trigger] s[i]),
        run_len(s) == s.len() || !is_word(s[run_len(s) as int]),
    decreases s.len(),
{
    if s.len() > 0 && is_word(s[0]) {
        let t = s.drop_first();
        lemma_run_all_words(t);
        assert forall|i: int| 0 <= i < run_len(s) implies is_word(#[trigger] s[i]) by {
            if i > 0 {
                assert(s[i] == t[i - 1]);
            }
        }
        if run_len(s) < s.len() {
            assert(s[run_len(s) as int] == t[run_len(t) as int]);
        }
    }
}

/// `String::from_utf8` on ASCII bytes: the string whose characters are those
/// bytes, one character for each byte. Bytes from `0x80` on are left out, so
/// that the conversion cannot fail.
#[verifier::external_body]
fn ascii_string(bytes: Vec<u8>) -> (s: String)
    requires
        forall|i: int| 0 <= i < bytes@.len() ==> (#[trigger] bytes@[i]) < 0x80,
    ensures
        s@ == ascii(bytes@),
{
    String::from_utf8(bytes).unwrap()
}

/// Computes `lower`.
fn lower_byte(b: u8) -> (r: u8)
    ensures
        r == lower(b),
{
    if 0x41 <= b && b <= 0x5a {
        b + 0x20
    } else {
        b
    }
}

/// Computes `is_word`.
fn word_byte(b: u8) -> (r: bool)
    ensures
        r == is_word(b),
{
    let c: u8 = lower_byte(b);
    (0x61 <= c && c <= 0x7a) || (0x30 <= c && c <= 0x39) || c == 0x5f
}

/// The bytes of `bytes` from `from` up to `to`, lowercased, as a string.
fn term_at(bytes: &[u8], from: usize, to: usize) -> (t: String)
    requires
        from <= to <= bytes@.len(),
        forall|i: int| from <= i < to ==> is_word(#[trigger] bytes@[i]),
    ensures
        t@ == ascii(bytes@.subrange(from as int, to as int).map_values(|b: u8| lower(b))),
{
    let mut buf: Vec<u8> = Vec::new();
    let mut i: usize = from;
    while i < to
        invariant
            from <= i <= to <= bytes@.len(),
            buf@ == bytes@.subrange(from as int, i as int).map_values(|b: u8| lower(b)),
            forall|j: int| from <= j < to ==> is_word(#[trigger] bytes@[j]),
        decreases to - i,
    {
        buf.push(lower_byte(bytes[i]));
        i = i + 1;
        assert(buf@ =~= bytes@.subrange(from as int, i as int).map_values(|b: u8| lower(b)));
    }
    assert forall|j: int| 0 <= j < buf@.len() implies (#[trigger] buf@[j]) < 0x80 by {
        assert(is_word(bytes@[from + j]));
    }
    ascii_string(buf)
}

/// What is left to tokenize when the scan stands at `i` with a run open at
/// `start`, or with none open.
spec fn rest_of(s: Seq<u8>, open: bool, start: int, i: int) -> Seq<u8> {
    if open {
        s.skip(start)
    } else {
        s.skip(i)
    }
}

/// Splits a text into its terms.
pub fn tokenize(text: &str) -> (out: Vec<String>)
    ensures
        views(out@) == terms_of(text@),
{
    let bytes = text.as_bytes();
    let ghost s = bytes@;
    let n: usize = bytes.len();
    let mut out: Vec<String> = Vec::new();
    let mut open: bool = false;
    let mut start: usize = 0;
    let mut i: usize = 0;
    assert(s.skip(0) =~= s);
    assert(views(out@) =~= Seq::<Seq<char>>::empty());
    while i < n
        invariant
            s == bytes@,
            n == s.len(),
            i <= n,
            open ==> start < i,
            open ==> forall|j: int| start <= j < i ==> is_word(#[trigger] s[j]),
            views(out@) + tokens(rest_of(s, open, start as int, i as int)).map_values(
                |t: Seq<u8>| ascii(t),
            ) == tokens(s).map_values(|t: Seq<u8>| ascii(t)),
        decreases n - i,
    {
        let ghost done = views(out@);
        let word: bool = word_byte(bytes[i]);
        if word {
            if !open {
                open = true;
                start = i;
            }
        } else if open {
            let term: String = term_at(bytes, start, i);
            proof {
                let r = s.skip(start as int);
                assert forall|j: int| 0 <= j < i - start implies is_word(#[trigger] r[j]) by {
                    assert(r[j] == s[start + j]);
                }
                assert(r[i - start] == s[i as int]);
                lemma_run_len_is(r, i - start);
                assert(r.take(i - start) =~= s.subrange(start as int, i as int));
                assert(r.skip(i - start) =~= s.skip(i as int));
                let after = s.skip(i as int);
                assert(after[0] == s[i as int]);
                assert(after.drop_first() =~= s.skip(i + 1));
                let head = s.subrange(start as int, i as int).map_values(|b: u8| lower(b));
                assert(tokens(after) == tokens(s.skip(i + 1)));
                assert(r[0] == s[start as int]);
                assert(r.take(i - start).map_values(|b: u8| lower(b)) == head);
                assert(tokens(r) == seq![head] + tokens(after));
                assert(tokens(r).map_values(|t: Seq<u8>| ascii(t)) =~= seq![ascii(head)]
                    + tokens(s.skip(i + 1)).map_values(|t: Seq<u8>| ascii(t)));
            }
            out.push(term);
            open = false;
            proof {
                assert(views(out@) =~= done + seq![term@]);
                assert(views(out@) + tokens(s.skip(i + 1)).map_values(|t: Seq<u8>| ascii(t))
                    =~= done + (seq![term@] + tokens(s.skip(i + 1)).map_values(
                    |t: Seq<u8>| ascii(t),
                )));
            }
        } else {
            proof {
                let after = s.skip(i as int);
                assert(after[0] == s[i as int]);
                assert(after.drop_first() =~= s.skip(i + 1));
            }
        }
        i = i + 1;
    }
    if open {
        let term: String = term_at(bytes, start, n);
        let ghost done = views(out@);
        proof {
            let r = s.skip(start as int);
            assert forall|j: int| 0 <= j < n - start implies is_word(#[trigger] r[j]) by {
                assert(r[j] == s[start + j]);
            }
            lemma_run_len_is(r, n - start);
            assert(r.take(n - start) =~= s.subrange(start as int, n as int));
            assert(r.skip(n - start) =~= Seq::<u8>::empty());
            let head = s.subrange(start as int, n as int).map_values(|b: u8| lower(b));
            assert(tokens(Seq::<u8>::empty()) =~= Seq::<Seq<u8>>::empty());
            assert(tokens(r) =~= seq![head]);
            assert(tokens(r).map_values(|t: Seq<u8>| ascii(t)) =~= seq![ascii(head)]);
        }
        out.push(term);
        assert(views(out@) =~= done + seq![term@]);
    } else {
        proof {
            assert(s.skip(n as int) =~= Seq::<u8>::empty());
            assert(tokens(s.skip(n as int)).map_values(|t: Seq<u8>| ascii(t)) =~= Seq::<
                Seq<char>,
            >::empty());
            assert(views(out@) + Seq::<Seq<char>>::empty() =~= views(out@));
        }
    }
    out
}

} // verus!
