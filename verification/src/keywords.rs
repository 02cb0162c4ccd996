//! Keyword extraction: a filename's lowercased alphanumeric runs.
//!
//! A run is a maximal stretch of alphanumeric characters. Keywords are the
//! runs of length at least two, lowercased, in filename order; search
//! tokens are all runs, lowercased. Which characters count as
//! alphanumeric, and what lowercasing yields, are the standard library's
//! Unicode tables: both are named here and relied on through trusted
//! wrappers.

use vstd::prelude::*;
use vstd::string::StringSliceAdditionalSpecFns;
use vstd::utf8::encode_utf8;
use crate::hashing::{chars_to_string, str_chars};

verus! {

/// Whether the standard library counts a character as alphanumeric. A
/// pure function of the character, so it is named rather than written out.
pub uninterp spec fn is_alnum(c: char) -> bool;

/// What lowercasing a string yields. A pure function of the characters,
/// so it is named rather than written out.
pub uninterp spec fn lower_of(s: Seq<char>) -> Seq<char>;

/// Relies on char::is_alphanumeric: a pure predicate on the character.
#[verifier::external_body]
fn char_is_alnum(c: char) -> (r: bool)
    ensures
        r == is_alnum(c),
{
    c.is_alphanumeric()
}

/// Relies on str::to_lowercase: the result depends on the characters
/// alone, and an empty string stays empty.
#[verifier::external_body]
pub(crate) fn lowercase(s: &str) -> (r: String)
    ensures
        r@ == lower_of(s@),
        s@.len() == 0 ==> r@.len() == 0,
{
    s.to_lowercase()
}

/// The length of the alphanumeric run starting at the head of `s`.
pub open spec fn run_len(s: Seq<char>) -> int
    decreases s.len(),
{
    if s.len() == 0 || !is_alnum(s[0]) {
        0
    } else {
        1 + run_len(s.drop_first())
    }
}

pub proof fn lemma_run_len_bounds(s: Seq<char>)
    ensures
        0 <= run_len(s) <= s.len(),
        forall|i: int| 0 <= i < run_len(s) ==> is_alnum(#[trigger] s[i]),
        run_len(s) < s.len() ==> !is_alnum(s[run_len(s)]),
    decreases s.len(),
{
    if s.len() > 0 && is_alnum(s[0]) {
        lemma_run_len_bounds(s.drop_first());
        assert forall|i: int| 0 <= i < run_len(s) implies is_alnum(#[trigger] s[i]) by {
            if i > 0 {
                assert(s.drop_first()[i - 1] == s[i]);
            }
        }
        if run_len(s) < s.len() {
            assert(s.drop_first()[run_len(s) - 1] == s[run_len(s)]);
        }
    }
}

/// The maximal alphanumeric runs of `s`, raw (not yet lowercased), in
/// order of appearance.
pub open spec fn raw_runs(s: Seq<char>) -> Seq<Seq<char>>
    decreases s.len() via raw_runs_decreases
{
    if s.len() == 0 {
        Seq::<Seq<char>>::empty()
    } else if !is_alnum(s[0]) {
        raw_runs(s.drop_first())
    } else {
        seq![s.take(run_len(s))] + raw_runs(s.skip(run_len(s)))
    }
}

#[via_fn]
proof fn raw_runs_decreases(s: Seq<char>) {
    if s.len() > 0 && is_alnum(s[0]) {
        lemma_run_len_bounds(s);
        assert(run_len(s) >= 1);
    }
}

/// The search tokens of a string: every run, lowercased.
pub open spec fn tokens_of(s: Seq<char>) -> Seq<Seq<char>> {
    raw_runs(s).map_values(|r: Seq<char>| lower_of(r))
}

/// The runs of a string that are long enough to be keywords: at least
/// two bytes in their UTF-8 form, as the byte length is what a name's
/// segments are measured by.
pub open spec fn long_runs(s: Seq<char>) -> Seq<Seq<char>> {
    raw_runs(s).filter(|r: Seq<char>| encode_utf8(r).len() >= 2)
}

/// The keywords of a filename: the runs of length at least two,
/// lowercased, in filename order.
pub open spec fn keywords_of(s: Seq<char>) -> Seq<Seq<char>> {
    long_runs(s).map_values(|r: Seq<char>| lower_of(r))
}

/// Split a character sequence into its maximal alphanumeric runs.
fn split_runs(chars: &Vec<char>) -> (r: Vec<String>)
    ensures
        r.deep_view() == raw_runs(chars@),
{
    let mut out: Vec<String> = Vec::new();
    let mut cur: Vec<char> = Vec::new();
    let mut i: usize = 0;
    proof {
        assert(out.deep_view() =~= Seq::<Seq<char>>::empty());
        assert(cur@ =~= Seq::<char>::empty());
        lemma_raw_runs_state(chars@, 0, 0);
    }
    while i < chars.len()
        invariant
            i <= chars@.len(),
            cur@.len() <= i,
            // the characters of the unfinished run are the alphanumeric
            // stretch ending at i
            cur@ == chars@.subrange(i - cur@.len(), i as int),
            forall|j: int| i - cur@.len() <= j < i ==> is_alnum(#[trigger] chars@[j]),
            cur@.len() > 0 ==> (i - cur@.len() == 0 || !is_alnum(chars@[i - cur@.len() - 1])),
            cur@.len() == 0 ==> (i == 0 || !is_alnum(chars@[i - 1])),
            cur@.len() == 0 ==> raw_runs(chars@) == out.deep_view() + raw_runs(
                chars@.skip(i as int),
            ),
            cur@.len() > 0 ==> raw_runs(chars@) == out.deep_view() + raw_runs(
                chars@.skip(i - cur@.len()),
            ),
        decreases chars@.len() - i,
    {
        let c = chars[i];
        if char_is_alnum(c) {
            cur.push(c);
            proof {
                assert(cur@ =~= chars@.subrange(i + 1 - cur@.len(), i + 1));
            }
        } else {
            if cur.len() > 0 {
                let ghost start = i - cur@.len();
                let word = chars_to_string(&cur);
                out.push(word);
                proof {
                    lemma_run_at(chars@, start, i as int);
                    assert(raw_runs(chars@.skip(start)) == seq![cur@] + raw_runs(
                        chars@.skip(i as int),
                    ));
                    assert(out.deep_view() =~= out.deep_view().subrange(
                        0,
                        out.deep_view().len() - 1,
                    ).push(cur@));
                    assert(out.deep_view() + raw_runs(chars@.skip(i as int)) =~= (
                    out.deep_view().subrange(0, out.deep_view().len() - 1)) + (seq![cur@]
                        + raw_runs(chars@.skip(i as int))));
                }
                cur = Vec::new();
            }
            proof {
                assert(cur@ =~= chars@.subrange(i + 1 - cur@.len(), i + 1));
                // a separator: the runs of the rest are unchanged
                assert(raw_runs(chars@.skip(i as int)) == raw_runs(chars@.skip(i + 1))) by {
                    assert(chars@.skip(i as int).len() > 0);
                    assert(chars@.skip(i as int)[0] == chars@[i as int]);
                    assert(chars@.skip(i as int).drop_first() =~= chars@.skip(i + 1));
                }
            }
        }
        i = i + 1;
    }
    if cur.len() > 0 {
        let ghost start = i - cur@.len();
        let word = chars_to_string(&cur);
        out.push(word);
        proof {
            lemma_run_at(chars@, start, i as int);
            assert(raw_runs(chars@.skip(i as int)) =~= Seq::<Seq<char>>::empty()) by {
                assert(chars@.skip(i as int).len() == 0);
            }
            assert(raw_runs(chars@.skip(start)) == seq![cur@] + raw_runs(chars@.skip(i as int)));
            assert(out.deep_view() =~= out.deep_view().subrange(
                0,
                out.deep_view().len() - 1,
            ).push(cur@));
            assert(out.deep_view() =~= (out.deep_view().subrange(0, out.deep_view().len() - 1))
                + (seq![cur@] + raw_runs(chars@.skip(i as int))));
            assert(out.deep_view() =~= raw_runs(chars@));
        }
    } else {
        proof {
            assert(raw_runs(chars@.skip(i as int)) =~= Seq::<Seq<char>>::empty()) by {
                assert(chars@.skip(i as int).len() == 0);
            }
            assert(out.deep_view() =~= out.deep_view() + raw_runs(chars@.skip(i as int)));
        }
    }
    proof {
        assert(out.deep_view() =~= raw_runs(chars@));
    }
    out
}

/// Starting anywhere, the runs of the whole are the runs already emitted
/// plus the runs of the rest: the base step of the loop invariant.
proof fn lemma_raw_runs_state(s: Seq<char>, i: int, n: int)
    requires
        i == 0,
        n == 0,
    ensures
        raw_runs(s) == Seq::<Seq<char>>::empty() + raw_runs(s.skip(0)),
{
    assert(s.skip(0) =~= s);
    assert(Seq::<Seq<char>>::empty() + raw_runs(s) =~= raw_runs(s));
}

/// Where an alphanumeric stretch runs from `start` to `stop` and is
/// maximal on both sides, the first run of `skip(start)` is exactly that
/// stretch.
proof fn lemma_run_at(s: Seq<char>, start: int, stop: int)
    requires
        0 <= start < stop <= s.len(),
        forall|j: int| start <= j < stop ==> is_alnum(#[trigger] s[j]),
        stop < s.len() ==> !is_alnum(s[stop]),
    ensures
        raw_runs(s.skip(start)) == seq![s.subrange(start, stop)] + raw_runs(s.skip(stop)),
{
    let t = s.skip(start);
    assert(t[0] == s[start]);
    assert(is_alnum(t[0]));
    lemma_run_len_is(t, stop - start, s, start, stop);
    assert(raw_runs(t) == seq![t.take(run_len(t))] + raw_runs(t.skip(run_len(t))));
    assert(t.take(stop - start) =~= s.subrange(start, stop));
    assert(t.skip(stop - start) =~= s.skip(stop));
}

/// The run length of `skip(start)` is `stop - start` when the stretch is
/// alphanumeric up to `stop` and no further.
proof fn lemma_run_len_is(t: Seq<char>, n: int, s: Seq<char>, start: int, stop: int)
    requires
        0 <= start <= stop <= s.len(),
        n == stop - start,
        t == s.skip(start),
        forall|j: int| start <= j < stop ==> is_alnum(#[trigger] s[j]),
        stop < s.len() ==> !is_alnum(s[stop]),
    ensures
        run_len(t) == n,
    decreases n,
{
    if n == 0 {
        if t.len() > 0 {
            assert(t[0] == s[start]);
        }
    } else {
        assert(t[0] == s[start]);
        assert(is_alnum(t[0]));
        assert(t.drop_first() =~= s.skip(start + 1));
        lemma_run_len_is(t.drop_first(), n - 1, s, start + 1, stop);
    }
}

/// The keywords of a filename: its lowercased alphanumeric runs of length
/// at least two, in filename order.
pub fn extract_keywords(filename: &str) -> (r: Vec<String>)
    ensures
        r.deep_view() == keywords_of(filename@),
{
    let chars = str_chars(filename);
    let runs = split_runs(&chars);
    let mut out: Vec<String> = Vec::new();
    let mut i: usize = 0;
    proof {
        assert(out.deep_view() =~= raw_runs(filename@).filter(
            |r: Seq<char>| encode_utf8(r).len() >= 2,
        ).map_values(|r: Seq<char>| lower_of(r)).take(0));
        assert(raw_runs(filename@).take(0) =~= Seq::<Seq<char>>::empty());
        assert(raw_runs(filename@).take(0).filter(|r: Seq<char>| encode_utf8(r).len() >= 2).map_values(
            |r: Seq<char>| lower_of(r),
        ) =~= Seq::<Seq<char>>::empty());
    }
    while i < runs.len()
        invariant
            i <= runs@.len(),
            runs.deep_view() == raw_runs(filename@),
            out.deep_view() == raw_runs(filename@).take(i as int).filter(
                |r: Seq<char>| encode_utf8(r).len() >= 2,
            ).map_values(|r: Seq<char>| lower_of(r)),
        decreases runs@.len() - i,
    {
        let ghost pre = raw_runs(filename@).take(i as int);
        proof {
            assert(raw_runs(filename@).take(i as int + 1) =~= pre.push(runs.deep_view()[
                i as int]));
            let f = |r: Seq<char>| encode_utf8(r).len() >= 2;
            pre.lemma_filter_push(runs.deep_view()[i as int], f);
            assert(runs@[i as int]@ == runs.deep_view()[i as int]);
        }
        let run_str = self_str_kw(&runs[i]);
        let run_bytes = run_str.as_bytes();
        let long_enough = run_bytes.len() >= 2;
        proof {
            assert(run_str@ == runs.deep_view()[i as int]);
            assert(run_bytes@ == encode_utf8(run_str@));
            assert(long_enough == (encode_utf8(runs.deep_view()[i as int]).len() >= 2));
        }
        if long_enough {
            let low = lowercase(run_str);
            out.push(low);
            proof {
                let f = |r: Seq<char>| encode_utf8(r).len() >= 2;
                let g = |r: Seq<char>| lower_of(r);
                assert(pre.push(runs.deep_view()[i as int]).filter(f) == pre.filter(f).push(
                    runs.deep_view()[i as int],
                ));
                assert(pre.filter(f).push(runs.deep_view()[i as int]).map_values(g)
                    =~= pre.filter(f).map_values(g).push(g(runs.deep_view()[i as int])));
                assert(out.deep_view() =~= pre.filter(f).map_values(g).push(
                    g(runs.deep_view()[i as int]),
                ));
            }
        } else {
            proof {
                let f = |r: Seq<char>| encode_utf8(r).len() >= 2;
                let g = |r: Seq<char>| lower_of(r);
                assert(pre.push(runs.deep_view()[i as int]).filter(f) == pre.filter(f));
            }
        }
        i = i + 1;
    }
    proof {
        assert(raw_runs(filename@).take(runs@.len() as int) =~= raw_runs(filename@));
    }
    out
}

/// Borrow a String as a str slice.
fn self_str_kw(s: &String) -> (r: &str)
    ensures
        r@ == s@,
{
    s.as_str()
}

/// The search tokens of a string: every maximal alphanumeric run,
/// lowercased, in order.
pub fn tokenize(text: &str) -> (r: Vec<String>)
    ensures
        r.deep_view() == tokens_of(text@),
{
    let chars = str_chars(text);
    let runs = split_runs(&chars);
    let mut out: Vec<String> = Vec::new();
    let mut i: usize = 0;
    proof {
        assert(raw_runs(text@).take(0) =~= Seq::<Seq<char>>::empty());
        assert(out.deep_view() =~= raw_runs(text@).take(0).map_values(
            |r: Seq<char>| lower_of(r),
        ));
    }
    while i < runs.len()
        invariant
            i <= runs@.len(),
            runs.deep_view() == raw_runs(text@),
            out.deep_view() == raw_runs(text@).take(i as int).map_values(
                |r: Seq<char>| lower_of(r),
            ),
        decreases runs@.len() - i,
    {
        let low = lowercase(self_str_kw(&runs[i]));
        out.push(low);
        proof {
            let g = |r: Seq<char>| lower_of(r);
            assert(raw_runs(text@).take(i as int + 1) =~= raw_runs(text@).take(i as int).push(
                runs.deep_view()[i as int],
            ));
            assert(raw_runs(text@).take(i as int).push(runs.deep_view()[i as int]).map_values(g)
                =~= raw_runs(text@).take(i as int).map_values(g).push(
                g(runs.deep_view()[i as int]),
            ));
            assert(out.deep_view() =~= raw_runs(text@).take(i as int).map_values(g).push(
                g(runs.deep_view()[i as int]),
            ));
        }
        i = i + 1;
    }
    proof {
        assert(raw_runs(text@).take(runs@.len() as int) =~= raw_runs(text@));
    }
    out
}

/// Every keyword is the lowercase form of a maximal alphanumeric run of
/// the filename of length at least two, and the keywords appear in
/// filename order: the k-th keyword is the lowercased k-th long run.
pub proof fn lemma_keywords_are_long_runs(s: Seq<char>)
    ensures
        keywords_of(s).len() == long_runs(s).len(),
        forall|k: int| 0 <= k < keywords_of(s).len() ==> #[trigger] keywords_of(s)[k]
            == lower_of(long_runs(s)[k]),
        forall|k: int| 0 <= k < long_runs(s).len()
            ==> encode_utf8(#[trigger] long_runs(s)[k]).len() >= 2,
{
    let f = |r: Seq<char>| encode_utf8(r).len() >= 2;
    assert forall|k: int| 0 <= k < long_runs(s).len()
        implies encode_utf8(#[trigger] long_runs(s)[k]).len() >= 2 by {
        raw_runs(s).lemma_filter_pred(f, k);
    }
}

} // verus!
