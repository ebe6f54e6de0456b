//! Aggregation of a token sequence into word/count entries, and the
//! length filter applied to the aggregated entries.

use vstd::prelude::*;
use vstd::string::StrSliceExecFns;

use crate::tokenize::{lemma_one_token_per_run, norm_tokens, raw_tokens};

verus! {

/// How many times the word `w` occurs in `toks`.
pub open spec fn occ(toks: Seq<Seq<char>>, w: Seq<char>) -> nat
    decreases toks.len(),
{
    if toks.len() == 0 {
        0
    } else {
        occ(toks.drop_last(), w) + (if toks.last() == w {
            1nat
        } else {
            0nat
        })
    }
}

/// Whether some entry of the table carries this word.
pub open spec fn table_has_word(table: Seq<(Seq<char>, u64)>, w: Seq<char>) -> bool {
    exists|i: int| 0 <= i < table.len() && (#[trigger] table[i]).0 == w
}

/// What it means for `table` to be the frequency table of `toks`:
/// no word appears under two entries, every entry carries the exact
/// occurrence count of its word, and every token of the sequence has
/// an entry. Entry order is left open; it carries no meaning here.
pub open spec fn is_count_of(table: Seq<(Seq<char>, u64)>, toks: Seq<Seq<char>>) -> bool {
    &&& forall|i: int, j: int|
        0 <= i < j < table.len() ==> (#[trigger] table[i]).0 != (#[trigger] table[j]).0
    &&& forall|i: int|
        0 <= i < table.len() ==> (#[trigger] table[i]).1 == occ(toks, table[i].0)
            && table[i].1 > 0
    &&& forall|t: int| 0 <= t < toks.len() ==> #[trigger] table_has_word(table, toks[t])
}

/// The total of all counts in a table.
pub open spec fn sum_counts(table: Seq<(Seq<char>, u64)>) -> int
    decreases table.len(),
{
    if table.len() == 0 {
        0
    } else {
        sum_counts(table.drop_last()) + table.last().1
    }
}

/// A word cannot occur more often than there are tokens.
proof fn lemma_occ_le_len(toks: Seq<Seq<char>>, w: Seq<char>)
    ensures
        occ(toks, w) <= toks.len(),
    decreases toks.len(),
{
    if toks.len() > 0 {
        lemma_occ_le_len(toks.drop_last(), w);
    }
}

/// A word with a positive occurrence count stands somewhere in the tokens.
proof fn lemma_occ_pos_has_index(toks: Seq<Seq<char>>, w: Seq<char>)
    ensures
        occ(toks, w) > 0 ==> exists|i: int| 0 <= i < toks.len() && toks[i] == w,
    decreases toks.len(),
{
    if toks.len() > 0 {
        lemma_occ_pos_has_index(toks.drop_last(), w);
        if toks.last() == w {
            assert(toks[toks.len() - 1] == w);
        } else if occ(toks, w) > 0 {
            let i = choose|i: int| 0 <= i < toks.len() - 1 && toks.drop_last()[i] == w;
            assert(toks[i] == w);
        }
    }
}

/// Replacing one entry changes the total by the difference of the counts.
proof fn lemma_sum_update(t: Seq<(Seq<char>, u64)>, i: int, e: (Seq<char>, u64))
    requires
        0 <= i < t.len(),
    ensures
        sum_counts(t.update(i, e)) == sum_counts(t) - t[i].1 + e.1,
    decreases t.len(),
{
    if i == t.len() - 1 {
        assert(t.update(i, e).drop_last() =~~= t.drop_last());
    } else {
        assert(t.update(i, e).drop_last() =~~= t.drop_last().update(i, e));
        lemma_sum_update(t.drop_last(), i, e);
    }
}

/// Build the frequency table of a token sequence.
///
/// Each distinct word becomes one entry holding its number of
/// occurrences; any permutation of the same tokens yields a table with
/// the same entries. The counts always total the number of tokens.
pub fn count(tokens: Vec<String>) -> (r: Vec<(String, u64)>)
    ensures
        is_count_of(r.deep_view(), tokens.deep_view()),
        sum_counts(r.deep_view()) == tokens.deep_view().len(),
{
    let ghost toks = tokens.deep_view();
    let mut table: Vec<(String, u64)> = Vec::new();
    let mut k: usize = 0;
    while k < tokens.len()
        invariant
            k <= tokens@.len(),
            toks == tokens.deep_view(),
            is_count_of(table.deep_view(), toks.take(k as int)),
            sum_counts(table.deep_view()) == k,
        decreases tokens@.len() - k,
    {
        let ghost pre = toks.take(k as int);
        let ghost post = toks.take(k as int + 1);
        proof {
            assert(post.drop_last() =~~= pre);
            assert(post.last() == toks[k as int]);
            assert(toks[k as int] == tokens@[k as int]@);
        }
        let word = tokens[k].clone();
        let mut idx: usize = 0;
        while idx < table.len() && !(table[idx].0 == word)
            invariant
                idx <= table@.len(),
                word@ == toks[k as int],
                k < toks.len(),
                forall|j: int| 0 <= j < idx ==> (#[trigger] table.deep_view()[j]).0 != word@,
            decreases table@.len() - idx,
        {
            idx = idx + 1;
        }
        let ghost d0 = table.deep_view();
        if idx < table.len() {
            let c = table[idx].1;
            proof {
                assert(d0[idx as int].0 == word@);
                lemma_occ_le_len(pre, word@);
            }
            let w2 = table[idx].0.clone();
            table[idx] = (w2, c + 1);
            proof {
                let e = (word@, (c + 1) as u64);
                assert(table.deep_view() =~~= d0.update(idx as int, e));
                lemma_sum_update(d0, idx as int, e);
                assert forall|t: int| 0 <= t < post.len() implies #[trigger] table_has_word(
                    table.deep_view(),
                    post[t],
                ) by {
                    if t < k {
                        assert(table_has_word(d0, pre[t]));
                        let i0 = choose|i: int| 0 <= i < d0.len() && (#[trigger] d0[i]).0
                            == pre[t];
                        assert(table.deep_view()[i0].0 == post[t]);
                    } else {
                        assert(table.deep_view()[idx as int].0 == post[t]);
                    }
                }
            }
        } else {
            proof {
                lemma_occ_pos_has_index(pre, word@);
                if occ(pre, word@) > 0 {
                    let i = choose|i: int| 0 <= i < pre.len() && pre[i] == word@;
                    assert(table_has_word(d0, pre[i]));
                    let j = choose|j: int| 0 <= j < d0.len() && (#[trigger] d0[j]).0 == pre[i];
                    assert(false);
                }
            }
            table.push((word, 1));
            proof {
                let e = (toks[k as int], 1u64);
                assert(table.deep_view() =~~= d0.push(e));
                assert(d0.push(e).drop_last() =~~= d0);
                assert forall|t: int| 0 <= t < post.len() implies #[trigger] table_has_word(
                    table.deep_view(),
                    post[t],
                ) by {
                    if t < k {
                        assert(table_has_word(d0, pre[t]));
                        let i0 = choose|i: int| 0 <= i < d0.len() && (#[trigger] d0[i]).0
                            == pre[t];
                        assert(table.deep_view()[i0].0 == post[t]);
                    } else {
                        assert(table.deep_view()[d0.len() as int].0 == post[t]);
                    }
                }
            }
        }
        k = k + 1;
    }
    proof {
        assert(toks.take(toks.len() as int) =~~= toks);
    }
    table
}

/// The entries whose word is at least `min_len` characters long, in
/// their original order.
pub open spec fn keep_long(table: Seq<(Seq<char>, u64)>, min_len: nat) -> Seq<(Seq<char>, u64)>
    decreases table.len(),
{
    if table.len() == 0 {
        Seq::<(Seq<char>, u64)>::empty()
    } else {
        let p = keep_long(table.drop_last(), min_len);
        if table.last().0.len() >= min_len {
            p.push(table.last())
        } else {
            p
        }
    }
}

/// Drop every entry whose word is shorter than `min_len` characters.
///
/// The length is counted in characters, not bytes. An entry is kept or
/// dropped whole, count and all, and the surviving entries keep their
/// order. A threshold of zero or one drops nothing, every token being
/// non-empty.
pub fn filter_min_len(entries: Vec<(String, u64)>, min_len: usize) -> (r: Vec<(String, u64)>)
    ensures
        r.deep_view() == keep_long(entries.deep_view(), min_len as nat),
{
    let ghost all = entries.deep_view();
    let mut out: Vec<(String, u64)> = Vec::new();
    let mut k: usize = 0;
    while k < entries.len()
        invariant
            k <= entries@.len(),
            all == entries.deep_view(),
            out.deep_view() == keep_long(all.take(k as int), min_len as nat),
        decreases entries@.len() - k,
    {
        let ghost pre = all.take(k as int);
        let ghost post = all.take(k as int + 1);
        proof {
            assert(post.drop_last() =~~= pre);
            assert(post.last() == all[k as int]);
            assert(all[k as int] == entries@[k as int].deep_view());
        }
        let wlen = entries[k].0.as_str().unicode_len();
        if wlen >= min_len {
            let e = (entries[k].0.clone(), entries[k].1);
            let ghost d0 = out.deep_view();
            out.push(e);
            proof {
                assert(out.deep_view() =~~= d0.push(all[k as int]));
            }
        }
        k = k + 1;
    }
    proof {
        assert(all.take(all.len() as int) =~~= all);
    }
    out
}

/// The tokens with every occurrence of one word removed.
spec fn remove_word(toks: Seq<Seq<char>>, w: Seq<char>) -> Seq<Seq<char>>
    decreases toks.len(),
{
    if toks.len() == 0 {
        Seq::<Seq<char>>::empty()
    } else {
        let p = remove_word(toks.drop_last(), w);
        if toks.last() == w {
            p
        } else {
            p.push(toks.last())
        }
    }
}

proof fn lemma_remove_word_occ(toks: Seq<Seq<char>>, w: Seq<char>)
    ensures
        forall|x: Seq<char>|
            #[trigger] occ(remove_word(toks, w), x) == (if x == w {
                0nat
            } else {
                occ(toks, x)
            }),
    decreases toks.len(),
{
    if toks.len() > 0 {
        lemma_remove_word_occ(toks.drop_last(), w);
    }
    assert forall|x: Seq<char>| #[trigger] occ(remove_word(toks, w), x) == (if x == w {
        0nat
    } else {
        occ(toks, x)
    }) by {
        if toks.len() > 0 {
            let p = remove_word(toks.drop_last(), w);
            assert(occ(p, x) == (if x == w {
                0nat
            } else {
                occ(toks.drop_last(), x)
            }));
            if toks.last() != w {
                assert(p.push(toks.last()).drop_last() =~~= p);
                assert(p.push(toks.last()).last() == toks.last());
                assert(occ(p.push(toks.last()), x) == occ(p, x) + (if toks.last() == x {
                    1nat
                } else {
                    0nat
                }));
            }
        }
    }
}

proof fn lemma_remove_word_len(toks: Seq<Seq<char>>, w: Seq<char>)
    ensures
        remove_word(toks, w).len() as int == toks.len() - occ(toks, w),
    decreases toks.len(),
{
    if toks.len() > 0 {
        lemma_remove_word_len(toks.drop_last(), w);
    }
}

proof fn lemma_occ_at_index(toks: Seq<Seq<char>>, t: int)
    requires
        0 <= t < toks.len(),
    ensures
        occ(toks, toks[t]) > 0,
    decreases toks.len(),
{
    if t < toks.len() - 1 {
        lemma_occ_at_index(toks.drop_last(), t);
        assert(toks.drop_last()[t] == toks[t]);
    }
}

/// Law: the counts of any frequency table of a token sequence total
/// the number of tokens: every token is counted exactly once.
pub proof fn lemma_table_counts_total(table: Seq<(Seq<char>, u64)>, toks: Seq<Seq<char>>)
    requires
        is_count_of(table, toks),
    ensures
        sum_counts(table) == toks.len(),
    decreases table.len(),
{
    if table.len() == 0 {
        if toks.len() > 0 {
            assert(table_has_word(table, toks[0]));
            let i = choose|i: int| 0 <= i < table.len() && (#[trigger] table[i]).0 == toks[0];
            assert(false);
        }
    } else {
        let li = table.len() - 1;
        let w = table[li].0;
        let c = table[li].1;
        let t1 = table.drop_last();
        let toks1 = remove_word(toks, w);
        lemma_remove_word_occ(toks, w);
        lemma_remove_word_len(toks, w);
        assert(c == occ(toks, w));
        assert forall|i: int, j: int| 0 <= i < j < t1.len() implies (#[trigger] t1[i]).0 != (
        #[trigger] t1[j]).0 by {
            assert(t1[i] == table[i]);
            assert(t1[j] == table[j]);
        }
        assert forall|i: int| 0 <= i < t1.len() implies (#[trigger] t1[i]).1 == occ(
            toks1,
            t1[i].0,
        ) && t1[i].1 > 0 by {
            assert(t1[i] == table[i]);
            assert(table[i].0 != table[li].0);
        }
        assert forall|t: int| 0 <= t < toks1.len() implies #[trigger] table_has_word(
            t1,
            toks1[t],
        ) by {
            let x = toks1[t];
            lemma_occ_at_index(toks1, t);
            assert(occ(toks, x) > 0);
            lemma_occ_pos_has_index(toks, x);
            let t0 = choose|j: int| 0 <= j < toks.len() && toks[j] == x;
            assert(table_has_word(table, toks[t0]));
            let i0 = choose|i: int| 0 <= i < table.len() && (#[trigger] table[i]).0 == x;
            assert(x != w);
            assert(i0 != li);
            assert(t1[i0] == table[i0]);
        }
        lemma_table_counts_total(t1, toks1);
    }
}

/// Law: the counts of a frequency table built from the tokens of an
/// input text total the number of maximal alphabetic runs of that text,
/// whether or not the tokens were case-normalized.
pub proof fn lemma_counts_sum_to_runs(
    input: Seq<char>,
    ignore_case: bool,
    table: Seq<(Seq<char>, u64)>,
)
    requires
        is_count_of(table, norm_tokens(input, ignore_case)),
    ensures
        sum_counts(table) == raw_tokens(input).len(),
{
    lemma_table_counts_total(table, norm_tokens(input, ignore_case));
    lemma_one_token_per_run(input, ignore_case);
}

} // verus!
