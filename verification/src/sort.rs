//! Deterministic total orders on entries, and the two sort modes.
//!
//! Count-then-alpha mode orders by strictly descending count with ties
//! broken by ascending word; alpha mode orders by ascending word alone.
//! Both are stated over an explicit key order, never over the incidental
//! order in which entries arrived.

use vstd::prelude::*;
use vstd::multiset::Multiset;
use vstd::relations::{sorted_by, strongly_connected, total_ordering, transitive};
use vstd::seq_lib::lemma_sorted_unique;

verus! {

broadcast use
    vstd::seq_lib::group_to_multiset_ensures,
    vstd::multiset::group_multiset_axioms;

/// Distinct characters have distinct codepoints.
proof fn lemma_char_neq_code_neq(x: char, y: char)
    requires
        x != y,
    ensures
        (x as u32) != (y as u32),
{
    vstd::utf8::char_u32_cast(x, x as u32);
    vstd::utf8::char_u32_cast(y, y as u32);
}

/// Lexicographic order on character sequences, by codepoint.
pub open spec fn lex_le(a: Seq<char>, b: Seq<char>) -> bool
    decreases a.len(),
{
    if a.len() == 0 {
        true
    } else if b.len() == 0 {
        false
    } else if a[0] == b[0] {
        lex_le(a.drop_first(), b.drop_first())
    } else {
        (a[0] as u32) < (b[0] as u32)
    }
}

proof fn lemma_lex_le_total(a: Seq<char>, b: Seq<char>)
    ensures
        lex_le(a, b) || lex_le(b, a),
    decreases a.len(),
{
    if a.len() > 0 && b.len() > 0 {
        if a[0] == b[0] {
            lemma_lex_le_total(a.drop_first(), b.drop_first());
        } else {
            lemma_char_neq_code_neq(a[0], b[0]);
        }
    }
}

proof fn lemma_lex_le_antisym(a: Seq<char>, b: Seq<char>)
    requires
        lex_le(a, b),
        lex_le(b, a),
    ensures
        a == b,
    decreases a.len(),
{
    if a.len() == 0 {
        assert(a =~= b);
    } else {
        lemma_lex_le_antisym(a.drop_first(), b.drop_first());
        assert forall|i: int| 0 <= i < a.len() implies a[i] == b[i] by {
            if i > 0 {
                assert(a.drop_first()[i - 1] == b.drop_first()[i - 1]);
            }
        }
        assert(a =~= b);
    }
}

proof fn lemma_lex_le_trans(a: Seq<char>, b: Seq<char>, c: Seq<char>)
    requires
        lex_le(a, b),
        lex_le(b, c),
    ensures
        lex_le(a, c),
    decreases a.len(),
{
    if a.len() > 0 && b.len() > 0 && c.len() > 0 {
        if a[0] == b[0] && b[0] == c[0] {
            lemma_lex_le_trans(a.drop_first(), b.drop_first(), c.drop_first());
        } else {
            if a[0] != b[0] {
                lemma_char_neq_code_neq(a[0], b[0]);
            }
            if b[0] != c[0] {
                lemma_char_neq_code_neq(b[0], c[0]);
            }
            if a[0] != c[0] {
                lemma_char_neq_code_neq(a[0], c[0]);
            }
        }
    }
}

/// Count-then-alpha order: strictly greater count first, ties by
/// ascending word.
pub open spec fn count_alpha_le(a: (Seq<char>, u64), b: (Seq<char>, u64)) -> bool {
    a.1 > b.1 || (a.1 == b.1 && lex_le(a.0, b.0))
}

/// Alpha order: ascending word alone; the count plays no part.
pub open spec fn alpha_le(a: (Seq<char>, u64), b: (Seq<char>, u64)) -> bool {
    lex_le(a.0, b.0)
}

/// The order a sort mode promises, as a single relation value.
pub open spec fn mode_leq(by_count: bool) -> spec_fn((Seq<char>, u64), (Seq<char>, u64)) -> bool {
    if by_count {
        |a: (Seq<char>, u64), b: (Seq<char>, u64)| count_alpha_le(a, b)
    } else {
        |a: (Seq<char>, u64), b: (Seq<char>, u64)| alpha_le(a, b)
    }
}

/// Either mode's order relates any two entries and is transitive.
proof fn lemma_mode_leq_connected_transitive(by_count: bool)
    ensures
        strongly_connected(mode_leq(by_count)),
        transitive(mode_leq(by_count)),
{
    let r = mode_leq(by_count);
    assert forall|x: (Seq<char>, u64), y: (Seq<char>, u64)| #[trigger] r(x, y) || #[trigger] r(
        y,
        x,
    ) by {
        lemma_lex_le_total(x.0, y.0);
    }
    assert forall|x: (Seq<char>, u64), y: (Seq<char>, u64), z: (Seq<char>, u64)|
        #[trigger] r(x, y) && #[trigger] r(y, z) implies r(x, z) by {
        if lex_le(x.0, y.0) && lex_le(y.0, z.0) {
            lemma_lex_le_trans(x.0, y.0, z.0);
        }
    }
}

/// The count-then-alpha order is a total order: besides relating any
/// two entries, equal standing both ways forces equal entries.
pub proof fn lemma_count_alpha_total_ordering()
    ensures
        total_ordering(mode_leq(true)),
{
    lemma_mode_leq_connected_transitive(true);
    let r = mode_leq(true);
    assert forall|x: (Seq<char>, u64)| #[trigger] r(x, x) by {
        lemma_lex_le_total(x.0, x.0);
    }
    assert forall|x: (Seq<char>, u64), y: (Seq<char>, u64)|
        #[trigger] r(x, y) && #[trigger] r(y, x) implies x == y by {
        lemma_lex_le_antisym(x.0, y.0);
    }
}

/// Compare two words lexicographically by codepoint.
fn lex_le_exec(a: &str, b: &str) -> (r: bool)
    ensures
        r == lex_le(a@, b@),
{
    let an = a.unicode_len();
    let bn = b.unicode_len();
    let mut i: usize = 0;
    proof {
        assert(a@.skip(0) =~= a@);
        assert(b@.skip(0) =~= b@);
    }
    while i < an && i < bn
        invariant
            an == a@.len(),
            bn == b@.len(),
            i <= an,
            i <= bn,
            lex_le(a@, b@) == lex_le(a@.skip(i as int), b@.skip(i as int)),
        decreases an - i,
    {
        let ca = a.get_char(i);
        let cb = b.get_char(i);
        proof {
            assert(a@.skip(i as int)[0] == a@[i as int]);
            assert(b@.skip(i as int)[0] == b@[i as int]);
        }
        if (ca as u32) != (cb as u32) {
            return (ca as u32) < (cb as u32);
        }
        proof {
            assert(a@.skip(i as int).drop_first() =~= a@.skip(i as int + 1));
            assert(b@.skip(i as int).drop_first() =~= b@.skip(i as int + 1));
        }
        i = i + 1;
    }
    i >= an
}

/// Compare two entries in the order of the given mode.
fn entry_le(by_count: bool, a: &(String, u64), b: &(String, u64)) -> (r: bool)
    ensures
        r == mode_leq(by_count)(a.deep_view(), b.deep_view()),
{
    if by_count {
        if a.1 > b.1 {
            true
        } else if a.1 == b.1 {
            lex_le_exec(a.0.as_str(), b.0.as_str())
        } else {
            false
        }
    } else {
        lex_le_exec(a.0.as_str(), b.0.as_str())
    }
}

/// Place one entry into an already ordered sequence, keeping the order.
fn insert_sorted(out: &mut Vec<(String, u64)>, e: (String, u64), by_count: bool)
    requires
        sorted_by(old(out).deep_view(), mode_leq(by_count)),
    ensures
        sorted_by(final(out).deep_view(), mode_leq(by_count)),
        final(out).deep_view().to_multiset() == old(out).deep_view().to_multiset().insert(
            e.deep_view(),
        ),
{
    proof {
        lemma_mode_leq_connected_transitive(by_count);
    }
    let ghost r = mode_leq(by_count);
    let ghost ev = e.deep_view();
    let ghost d0 = out.deep_view();
    let mut k: usize = 0;
    while k < out.len() && entry_le(by_count, &out[k], &e)
        invariant
            k <= d0.len(),
            d0 == out.deep_view(),
            ev == e.deep_view(),
            forall|j: int| 0 <= j < k ==> #[trigger] r(d0[j], ev),
            r == mode_leq(by_count),
        decreases d0.len() - k,
    {
        proof {
            assert(d0[k as int] == out@[k as int].deep_view());
        }
        k = k + 1;
    }
    proof {
        if k < d0.len() {
            assert(d0[k as int] == out@[k as int].deep_view());
            assert(!r(d0[k as int], ev));
            assert(r(ev, d0[k as int]));
        }
    }
    out.insert(k, e);
    proof {
        let d1 = out.deep_view();
        assert(d1 =~~= d0.insert(k as int, ev));
        d0.insert_ensures(k as int, ev);
        assert forall|i: int, j: int| 0 <= i < j < d1.len() implies #[trigger] r(
            d1[i],
            d1[j],
        ) by {
            if j < k {
                assert(r(d0[i], d0[j]));
            } else if j == k {
                assert(r(d0[i], ev));
            } else if i < k {
                assert(r(d0[i], d0[j - 1]));
            } else if i == k {
                if j - 1 > k {
                    assert(r(d0[k as int], d0[j - 1]));
                }
                assert(r(ev, d0[j - 1]));
            } else {
                assert(r(d0[i - 1], d0[j - 1]));
            }
        }
        assert(d1.remove(k as int) =~~= d0);
        assert(d0.to_multiset() == d1.to_multiset().remove(ev));
        assert(d1[k as int] == ev);
        assert(d1.contains(ev));
        assert(d1.to_multiset().count(ev) > 0);
        assert(d1.to_multiset() =~= d0.to_multiset().insert(ev));
    }
}

/// Order the entries as the given mode demands; the entries themselves
/// are only rearranged.
fn sort_entries(entries: &mut Vec<(String, u64)>, by_count: bool)
    ensures
        sorted_by(final(entries).deep_view(), mode_leq(by_count)),
        final(entries).deep_view().to_multiset() == old(entries).deep_view().to_multiset(),
{
    let ghost orig = entries.deep_view();
    let mut out: Vec<(String, u64)> = Vec::new();
    while entries.len() > 0
        invariant
            sorted_by(out.deep_view(), mode_leq(by_count)),
            out.deep_view().to_multiset().add(entries.deep_view().to_multiset())
                == orig.to_multiset(),
        decreases entries@.len(),
    {
        let ghost dpre = entries.deep_view();
        let ghost opre = out.deep_view();
        let e = entries.pop().unwrap();
        proof {
            assert(dpre =~~= entries.deep_view().push(e.deep_view()));
            assert(dpre.to_multiset() == entries.deep_view().to_multiset().insert(
                e.deep_view(),
            ));
        }
        insert_sorted(&mut out, e, by_count);
        proof {
            assert(out.deep_view().to_multiset().add(entries.deep_view().to_multiset())
                =~= orig.to_multiset());
        }
    }
    proof {
        assert(entries.deep_view() =~~= Seq::<(Seq<char>, u64)>::empty());
        assert(entries.deep_view().to_multiset() =~= Multiset::<(Seq<char>, u64)>::empty());
        assert(out.deep_view().to_multiset() =~= orig.to_multiset());
    }
    *entries = out;
}

/// Sort entries by count descending, ties by word ascending.
///
/// Afterwards every adjacent pair either strictly descends in count or
/// shares a count and ascends weakly by word, so the arrangement is the
/// one total order of the entries: no tie is broken arbitrarily.
pub fn sort_by_count_then_alpha(entries: &mut Vec<(String, u64)>)
    ensures
        sorted_by(final(entries).deep_view(), mode_leq(true)),
        final(entries).deep_view().to_multiset() == old(entries).deep_view().to_multiset(),
        forall|i: int|
            0 <= i < final(entries).deep_view().len() - 1 ==> count_alpha_le(
                #[trigger] final(entries).deep_view()[i],
                final(entries).deep_view()[i + 1],
            ),
{
    sort_entries(entries, true);
    proof {
        let d = entries.deep_view();
        assert forall|i: int| 0 <= i < d.len() - 1 implies count_alpha_le(
            #[trigger] d[i],
            d[i + 1],
        ) by {
            assert(mode_leq(true)(d[i], d[i + 1]));
        }
    }
}

/// Sort entries by word ascending, ignoring counts.
pub fn sort_alpha(entries: &mut Vec<(String, u64)>)
    ensures
        sorted_by(final(entries).deep_view(), mode_leq(false)),
        final(entries).deep_view().to_multiset() == old(entries).deep_view().to_multiset(),
{
    sort_entries(entries, false);
}

/// Law: in count-then-alpha mode the sorted arrangement of a collection
/// of entries is unique, so sorting an already sorted sequence, or any
/// rearrangement of it, gives that sequence back unchanged.
pub proof fn lemma_count_alpha_sort_unique(a: Seq<(Seq<char>, u64)>, b: Seq<(Seq<char>, u64)>)
    requires
        sorted_by(a, mode_leq(true)),
        sorted_by(b, mode_leq(true)),
        a.to_multiset() == b.to_multiset(),
    ensures
        a == b,
{
    lemma_count_alpha_total_ordering();
    lemma_sorted_unique(a, b, mode_leq(true));
}

/// No two entries share a word.
pub open spec fn distinct_words(s: Seq<(Seq<char>, u64)>) -> bool {
    forall|i: int, j: int| 0 <= i < j < s.len() ==> (#[trigger] s[i]).0 != (#[trigger] s[j]).0
}

/// Word order refined by count, used only to show alpha sorting unique.
spec fn word_count_le(a: (Seq<char>, u64), b: (Seq<char>, u64)) -> bool {
    if a.0 == b.0 {
        a.1 <= b.1
    } else {
        lex_le(a.0, b.0)
    }
}

spec fn wc_leq() -> spec_fn((Seq<char>, u64), (Seq<char>, u64)) -> bool {
    |a: (Seq<char>, u64), b: (Seq<char>, u64)| word_count_le(a, b)
}

proof fn lemma_wc_total_ordering()
    ensures
        total_ordering(wc_leq()),
{
    let r = wc_leq();
    assert forall|x: (Seq<char>, u64)| #[trigger] r(x, x) by {
        lemma_lex_le_total(x.0, x.0);
    }
    assert forall|x: (Seq<char>, u64), y: (Seq<char>, u64)| #[trigger] r(x, y) || #[trigger] r(
        y,
        x,
    ) by {
        lemma_lex_le_total(x.0, y.0);
    }
    assert forall|x: (Seq<char>, u64), y: (Seq<char>, u64)|
        #[trigger] r(x, y) && #[trigger] r(y, x) implies x == y by {
        if x.0 != y.0 {
            lemma_lex_le_antisym(x.0, y.0);
        }
    }
    assert forall|x: (Seq<char>, u64), y: (Seq<char>, u64), z: (Seq<char>, u64)|
        #[trigger] r(x, y) && #[trigger] r(y, z) implies r(x, z) by {
        if x.0 != y.0 && y.0 != z.0 {
            lemma_lex_le_trans(x.0, y.0, z.0);
            if x.0 == z.0 {
                lemma_lex_le_antisym(x.0, y.0);
            }
        }
    }
}

/// Law: in alpha mode the sorted arrangement of entries with pairwise
/// distinct words is unique, so sorting an already sorted sequence of
/// such entries, or any rearrangement of it, gives it back unchanged.
/// Tables always have distinct words, one entry per counted word.
pub proof fn lemma_alpha_sort_unique(a: Seq<(Seq<char>, u64)>, b: Seq<(Seq<char>, u64)>)
    requires
        sorted_by(a, mode_leq(false)),
        sorted_by(b, mode_leq(false)),
        a.to_multiset() == b.to_multiset(),
        distinct_words(a),
    ensures
        a == b,
{
    assert(a.no_duplicates()) by {
        assert forall|i: int, j: int|
            0 <= i < a.len() && 0 <= j < a.len() && i != j implies a[i] != a[j] by {
            if i < j {
                assert(a[i].0 != a[j].0);
            } else {
                assert(a[j].0 != a[i].0);
            }
        }
    }
    a.lemma_multiset_has_no_duplicates();
    b.lemma_multiset_has_no_duplicates_conv();
    assert forall|i: int, j: int| 0 <= i < j < b.len() implies (#[trigger] b[i]).0
        != (#[trigger] b[j]).0 by {
        if b[i].0 == b[j].0 {
            assert(b[i] != b[j]);
            assert(b.contains(b[i]));
            assert(b.contains(b[j]));
            assert(a.to_multiset().count(b[i]) > 0);
            assert(a.to_multiset().count(b[j]) > 0);
            assert(a.contains(b[i]));
            assert(a.contains(b[j]));
            let ia = choose|t: int| 0 <= t < a.len() && a[t] == b[i];
            let ja = choose|t: int| 0 <= t < a.len() && a[t] == b[j];
            assert(a[ia].0 == a[ja].0 && ia != ja);
        }
    }
    assert(sorted_by(a, wc_leq())) by {
        assert forall|i: int, j: int| 0 <= i < j < a.len() implies #[trigger] wc_leq()(
            a[i],
            a[j],
        ) by {
            assert(mode_leq(false)(a[i], a[j]));
        }
    }
    assert(sorted_by(b, wc_leq())) by {
        assert forall|i: int, j: int| 0 <= i < j < b.len() implies #[trigger] wc_leq()(
            b[i],
            b[j],
        ) by {
            assert(mode_leq(false)(b[i], b[j]));
        }
    }
    lemma_wc_total_ordering();
    lemma_sorted_unique(a, b, wc_leq());
}

} // verus!
