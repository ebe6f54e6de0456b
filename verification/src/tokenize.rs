//! Splitting text into word tokens.
//!
//! A token is a maximal run of alphabetic characters; every other
//! character, whether a digit, punctuation, whitespace or a symbol,
//! separates tokens. Empty runs are never emitted. With case
//! normalization enabled every token is lowercased in full.

use vstd::prelude::*;
use vstd::string::StrSliceExecFns;

use crate::unicode::{char_is_alphabetic, is_alpha, lower_of, lowercase};

verus! {

/// Left-to-right scan of a prefix of the input: the tokens already closed,
/// and the alphabetic run still open at the end of the prefix.
pub open spec fn scan(s: Seq<char>) -> (Seq<Seq<char>>, Seq<char>)
    decreases s.len(),
{
    if s.len() == 0 {
        (Seq::<Seq<char>>::empty(), Seq::<char>::empty())
    } else {
        let prev = scan(s.drop_last());
        let c = s.last();
        if is_alpha(c) {
            (prev.0, prev.1.push(c))
        } else if prev.1.len() > 0 {
            (prev.0.push(prev.1), Seq::<char>::empty())
        } else {
            prev
        }
    }
}

/// The maximal alphabetic runs of `s`, in input order.
pub open spec fn raw_tokens(s: Seq<char>) -> Seq<Seq<char>> {
    let st = scan(s);
    if st.1.len() > 0 {
        st.0.push(st.1)
    } else {
        st.0
    }
}

/// Every token of a sequence, lowercased in full.
pub open spec fn lower_all(ts: Seq<Seq<char>>) -> Seq<Seq<char>> {
    ts.map_values(|t: Seq<char>| lower_of(t))
}

/// The token sequence of `s` after optional case normalization.
pub open spec fn norm_tokens(s: Seq<char>, ignore_case: bool) -> Seq<Seq<char>> {
    if ignore_case {
        lower_all(raw_tokens(s))
    } else {
        raw_tokens(s)
    }
}

/// Case normalization changes no token boundaries: the normalized token
/// sequence has exactly one token per maximal alphabetic run.
pub proof fn lemma_one_token_per_run(s: Seq<char>, ignore_case: bool)
    ensures
        norm_tokens(s, ignore_case).len() == raw_tokens(s).len(),
{
}

/// Split `input` into its word tokens, in input order.
///
/// Tokens are the maximal alphabetic runs of the input; with
/// `ignore_case` they are lowercased in full. No token is empty.
pub fn tokenize(input: &str, ignore_case: bool) -> (r: Vec<String>)
    ensures
        r.deep_view() == norm_tokens(input@, ignore_case),
        forall|i: int| 0 <= i < r.deep_view().len() ==> (#[trigger] r.deep_view()[i]).len() > 0,
{
    let n = input.unicode_len();
    let mut toks: Vec<String> = Vec::new();
    let mut in_run: bool = false;
    let mut run_start: usize = 0;
    let mut i: usize = 0;
    while i < n
        invariant
            n == input@.len(),
            i <= n,
            in_run ==> run_start < i && scan(input@.take(i as int)).1 == input@.subrange(
                run_start as int,
                i as int,
            ),
            !in_run ==> scan(input@.take(i as int)).1.len() == 0,
            toks.deep_view() == (if ignore_case {
                lower_all(scan(input@.take(i as int)).0)
            } else {
                scan(input@.take(i as int)).0
            }),
            forall|k: int|
                0 <= k < toks.deep_view().len() ==> (#[trigger] toks.deep_view()[k]).len() > 0,
        decreases n - i,
    {
        let ghost pre = input@.take(i as int);
        let ghost post = input@.take(i as int + 1);
        proof {
            assert(post.drop_last() =~= pre);
            assert(post.last() == input@[i as int]);
        }
        let c = input.get_char(i);
        if char_is_alphabetic(c) {
            if !in_run {
                run_start = i;
                in_run = true;
            }
            proof {
                assert(scan(post).1 =~= input@.subrange(run_start as int, i as int + 1));
            }
        } else {
            if in_run {
                let raw = input.substring_char(run_start, i);
                let word = if ignore_case {
                    lowercase(raw)
                } else {
                    raw.to_owned()
                };
                let ghost toks0 = toks@;
                let ghost d0 = toks.deep_view();
                toks.push(word);
                proof {
                    assert(scan(post).0 =~~= scan(pre).0.push(scan(pre).1));
                    assert(forall|k: int|
                        0 <= k < toks0.len() ==> #[trigger] d0[k] == (toks0[k])@);
                    assert(toks.deep_view() =~~= d0.push(word@));
                    if ignore_case {
                        assert(lower_all(scan(post).0) =~~= d0.push(word@));
                    } else {
                        assert(scan(post).0 =~~= d0.push(word@));
                    }
                }
                in_run = false;
            }
        }
        i = i + 1;
    }
    proof {
        assert(input@.take(n as int) =~= input@);
    }
    if in_run {
        let raw = input.substring_char(run_start, n);
        let word = if ignore_case {
            lowercase(raw)
        } else {
            raw.to_owned()
        };
        proof {
            assert(word@.len() > 0);
        }
        let ghost d0 = toks.deep_view();
        toks.push(word);
        proof {
            assert(toks.deep_view() =~~= d0.push(word@));
            assert(norm_tokens(input@, ignore_case) =~~= d0.push(word@));
        }
    }
    proof {
        assert(toks.deep_view() =~~= norm_tokens(input@, ignore_case));
        assert(forall|k: int|
            0 <= k < toks.deep_view().len() ==> (#[trigger] toks.deep_view()[k]).len() > 0);
    }
    toks
}

} // verus!
