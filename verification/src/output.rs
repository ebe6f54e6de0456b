//! Rendering of the final entry sequence as a text table or as CSV.

use vstd::prelude::*;
use vstd::string::{StrSliceExecFns, StringExecFns};

verus! {

/// The character of a single decimal digit.
pub open spec fn dec_digit(d: int) -> char {
    if d == 0 {
        '0'
    } else if d == 1 {
        '1'
    } else if d == 2 {
        '2'
    } else if d == 3 {
        '3'
    } else if d == 4 {
        '4'
    } else if d == 5 {
        '5'
    } else if d == 6 {
        '6'
    } else if d == 7 {
        '7'
    } else if d == 8 {
        '8'
    } else {
        '9'
    }
}

/// The decimal numeral of `n`, most significant digit first, without
/// leading zeros.
pub open spec fn dec_str(n: nat) -> Seq<char>
    decreases n,
{
    if n < 10 {
        seq![dec_digit(n as int)]
    } else {
        dec_str(n / 10).push(dec_digit((n % 10) as int))
    }
}

/// Relies on String::push: appends exactly the one character.
#[verifier::external_body]
pub(crate) fn push_char(s: &mut String, c: char)
    ensures
        final(s)@ == old(s)@.push(c),
{
    s.push(c);
}

pub(crate) fn dec_digit_exec(d: u64) -> (c: char)
    requires
        d < 10,
    ensures
        c == dec_digit(d as int),
{
    if d == 0 {
        '0'
    } else if d == 1 {
        '1'
    } else if d == 2 {
        '2'
    } else if d == 3 {
        '3'
    } else if d == 4 {
        '4'
    } else if d == 5 {
        '5'
    } else if d == 6 {
        '6'
    } else if d == 7 {
        '7'
    } else if d == 8 {
        '8'
    } else {
        '9'
    }
}

/// Render a count as its decimal numeral.
pub fn u64_to_string(n: u64) -> (r: String)
    ensures
        r@ == dec_str(n as nat),
    decreases n,
{
    if n < 10 {
        let mut s = String::new();
        push_char(&mut s, dec_digit_exec(n));
        proof {
            assert(s@ =~= dec_str(n as nat));
        }
        s
    } else {
        let mut s = u64_to_string(n / 10);
        push_char(&mut s, dec_digit_exec(n % 10));
        s
    }
}

/// `k` copies of one character.
pub open spec fn repeated(c: char, k: nat) -> Seq<char> {
    Seq::new(k, |i: int| c)
}

fn repeat_char(c: char, k: usize) -> (r: String)
    ensures
        r@ == repeated(c, k as nat),
{
    let mut s = String::new();
    let mut j: usize = 0;
    proof {
        assert(s@ =~= repeated(c, 0));
    }
    while j < k
        invariant
            j <= k,
            s@ == repeated(c, j as nat),
        decreases k - j,
    {
        push_char(&mut s, c);
        j = j + 1;
        proof {
            assert(s@ =~= repeated(c, j as nat));
        }
    }
    s
}

/// A word padded on the right with spaces up to `width` characters.
pub open spec fn pad_word(w: Seq<char>, width: int) -> Seq<char> {
    w + repeated(' ', if w.len() >= width {
        0nat
    } else {
        (width - w.len()) as nat
    })
}

/// The display width of the word column: the longest word, with a
/// floor of four characters for the column header.
pub open spec fn table_width(entries: Seq<(Seq<char>, u64)>) -> int
    decreases entries.len(),
{
    if entries.len() == 0 {
        4
    } else {
        let m = table_width(entries.drop_last());
        if entries.last().0.len() > m {
            entries.last().0.len() as int
        } else {
            m
        }
    }
}

/// One table row: the padded word, a space, and the decimal count.
pub open spec fn table_row(e: (Seq<char>, u64), width: int) -> Seq<char> {
    pad_word(e.0, width) + seq![' '] + dec_str(e.1 as nat) + seq!['\n']
}

/// All table rows in order.
pub open spec fn table_rows(entries: Seq<(Seq<char>, u64)>, width: int) -> Seq<char>
    decreases entries.len(),
{
    if entries.len() == 0 {
        Seq::<char>::empty()
    } else {
        table_rows(entries.drop_last(), width) + table_row(entries.last(), width)
    }
}

/// The whole table: a fixed placeholder for no entries; otherwise a
/// header and separator over one row per entry.
pub open spec fn table_of(entries: Seq<(Seq<char>, u64)>) -> Seq<char> {
    if entries.len() == 0 {
        "No entries found."@
    } else {
        let width = table_width(entries);
        pad_word("WORD"@, width) + " COUNT\n"@ + repeated('-', width as nat) + seq![' ']
            + repeated('-', 5) + seq!['\n'] + table_rows(entries, width)
    }
}

/// Render entries as a left-aligned text table.
///
/// An empty sequence gives the fixed placeholder line, never a header
/// over zero rows.
pub fn render_table(entries: &Vec<(String, u64)>) -> (r: String)
    ensures
        r@ == table_of(entries.deep_view()),
{
    let ghost d = entries.deep_view();
    if entries.len() == 0 {
        return "No entries found.".to_owned();
    }
    let mut width: usize = 4;
    let mut k: usize = 0;
    proof {
        assert(d.take(0) =~~= Seq::<(Seq<char>, u64)>::empty());
    }
    while k < entries.len()
        invariant
            k <= entries@.len(),
            d == entries.deep_view(),
            width >= 4,
            width as int == table_width(d.take(k as int)),
            forall|t: int| 0 <= t < k ==> (#[trigger] d[t]).0.len() <= width as int,
        decreases entries@.len() - k,
    {
        proof {
            assert(d.take(k as int + 1).drop_last() =~~= d.take(k as int));
            assert(d.take(k as int + 1).last() == d[k as int]);
            assert(d[k as int].0 == entries@[k as int].0@);
        }
        let l = entries[k].0.as_str().unicode_len();
        if l > width {
            width = l;
        }
        k = k + 1;
    }
    proof {
        assert(d.take(d.len() as int) =~~= d);
        reveal_strlit("WORD");
    }
    let mut out = String::new();
    out.append("WORD");
    let head_pad = repeat_char(' ', width - 4);
    out.append(head_pad.as_str());
    out.append(" COUNT\n");
    proof {
        assert(pad_word("WORD"@, width as int) =~= "WORD"@ + repeated(
            ' ',
            (width - 4) as nat,
        ));
        assert(out@ =~= pad_word("WORD"@, width as int) + " COUNT\n"@);
    }
    let dashes = repeat_char('-', width);
    out.append(dashes.as_str());
    out.append(" ");
    let dashes5 = repeat_char('-', 5);
    out.append(dashes5.as_str());
    out.append("\n");
    let ghost head = pad_word("WORD"@, width as int) + " COUNT\n"@ + repeated(
        '-',
        width as nat,
    ) + seq![' '] + repeated('-', 5) + seq!['\n'];
    proof {
        reveal_strlit(" ");
        reveal_strlit("\n");
        assert(out@ =~= head);
        assert(d.take(0) =~~= Seq::<(Seq<char>, u64)>::empty());
        assert(out@ =~= head + table_rows(d.take(0), width as int));
    }
    let mut k: usize = 0;
    while k < entries.len()
        invariant
            k <= entries@.len(),
            d == entries.deep_view(),
            width as int == table_width(d),
            out@ == head + table_rows(d.take(k as int), width as int),
            width >= 4,
            forall|t: int| 0 <= t < d.len() ==> (#[trigger] d[t]).0.len() <= width as int,
        decreases entries@.len() - k,
    {
        proof {
            reveal_strlit(" ");
            reveal_strlit("\n");
            assert(d.take(k as int + 1).drop_last() =~~= d.take(k as int));
            assert(d.take(k as int + 1).last() == d[k as int]);
            assert(d[k as int].0 == entries@[k as int].0@);
            assert(d[k as int].1 == entries@[k as int].1);
        }
        out.append(entries[k].0.as_str());
        let l = entries[k].0.as_str().unicode_len();
        let word_pad = repeat_char(' ', width - l);
        out.append(word_pad.as_str());
        out.append(" ");
        let num = u64_to_string(entries[k].1);
        out.append(num.as_str());
        out.append("\n");
        proof {
            assert(out@ =~= head + table_rows(d.take(k as int), width as int) + table_row(
                d[k as int],
                width as int,
            ));
            assert(out@ =~= head + table_rows(d.take(k as int + 1), width as int));
        }
        k = k + 1;
    }
    proof {
        assert(d.take(d.len() as int) =~~= d);
        assert(out@ =~= table_of(d));
    }
    out
}

/// Whether a CSV field must be quoted: it holds a comma, a quote, or a
/// line break.
pub open spec fn csv_needs_quoting(w: Seq<char>) -> bool {
    exists|i: int|
        0 <= i < w.len() && ((#[trigger] w[i]) == ',' || w[i] == '"' || w[i] == '\n' || w[i]
            == '\r')
}

/// The field's characters with every quote doubled.
pub open spec fn csv_escape(w: Seq<char>) -> Seq<char>
    decreases w.len(),
{
    if w.len() == 0 {
        Seq::<char>::empty()
    } else {
        csv_escape(w.drop_last()) + (if w.last() == '"' {
            seq!['"', '"']
        } else {
            seq![w.last()]
        })
    }
}

/// A CSV field: quoted with doubled quotes when needed, bare otherwise.
pub open spec fn csv_field(w: Seq<char>) -> Seq<char> {
    if csv_needs_quoting(w) {
        seq!['"'] + csv_escape(w) + seq!['"']
    } else {
        w
    }
}

/// All CSV records in order, one line each.
pub open spec fn csv_rows(entries: Seq<(Seq<char>, u64)>) -> Seq<char>
    decreases entries.len(),
{
    if entries.len() == 0 {
        Seq::<char>::empty()
    } else {
        csv_rows(entries.drop_last()) + csv_field(entries.last().0) + seq![','] + dec_str(
            entries.last().1 as nat,
        ) + seq!['\n']
    }
}

/// The whole CSV document: the fixed header line, then one record per
/// entry in order.
pub open spec fn csv_of(entries: Seq<(Seq<char>, u64)>) -> Seq<char> {
    "word,count\n"@ + csv_rows(entries)
}

fn csv_needs_quoting_exec(w: &str) -> (r: bool)
    ensures
        r == csv_needs_quoting(w@),
{
    let n = w.unicode_len();
    let mut i: usize = 0;
    while i < n
        invariant
            n == w@.len(),
            i <= n,
            forall|j: int|
                0 <= j < i ==> !((#[trigger] w@[j]) == ',' || w@[j] == '"' || w@[j] == '\n'
                    || w@[j] == '\r'),
        decreases n - i,
    {
        let c = w.get_char(i);
        if c == ',' || c == '"' || c == '\n' || c == '\r' {
            return true;
        }
        i = i + 1;
    }
    false
}

fn csv_escape_exec(w: &str, out: &mut String)
    ensures
        final(out)@ == old(out)@ + csv_escape(w@),
{
    let n = w.unicode_len();
    let mut i: usize = 0;
    proof {
        assert(w@.take(0) =~= Seq::<char>::empty());
        assert(old(out)@ =~= old(out)@ + csv_escape(w@.take(0)));
    }
    while i < n
        invariant
            n == w@.len(),
            i <= n,
            out@ == old(out)@ + csv_escape(w@.take(i as int)),
        decreases n - i,
    {
        proof {
            assert(w@.take(i as int + 1).drop_last() =~= w@.take(i as int));
            assert(w@.take(i as int + 1).last() == w@[i as int]);
        }
        let c = w.get_char(i);
        push_char(out, c);
        if c == '"' {
            push_char(out, '"');
        }
        proof {
            assert(out@ =~= old(out)@ + csv_escape(w@.take(i as int + 1)));
        }
        i = i + 1;
    }
    proof {
        assert(w@.take(n as int) =~= w@);
    }
}

/// Render entries as CSV with the fixed `word,count` header.
///
/// A word holding a comma, a quote or a line break is quoted, with
/// every quote doubled; every other word stands bare. Counts are plain
/// decimal digits and never need quoting.
pub fn render_csv(entries: &Vec<(String, u64)>) -> (r: String)
    ensures
        r@ == csv_of(entries.deep_view()),
{
    let ghost d = entries.deep_view();
    let mut out = String::new();
    out.append("word,count\n");
    proof {
        assert(d.take(0) =~~= Seq::<(Seq<char>, u64)>::empty());
        assert(out@ =~= "word,count\n"@ + csv_rows(d.take(0)));
    }
    let mut k: usize = 0;
    while k < entries.len()
        invariant
            k <= entries@.len(),
            d == entries.deep_view(),
            out@ == "word,count\n"@ + csv_rows(d.take(k as int)),
        decreases entries@.len() - k,
    {
        proof {
            assert(d.take(k as int + 1).drop_last() =~~= d.take(k as int));
            assert(d.take(k as int + 1).last() == d[k as int]);
            assert(d[k as int].0 == entries@[k as int].0@);
            assert(d[k as int].1 == entries@[k as int].1);
        }
        if csv_needs_quoting_exec(entries[k].0.as_str()) {
            push_char(&mut out, '"');
            csv_escape_exec(entries[k].0.as_str(), &mut out);
            push_char(&mut out, '"');
        } else {
            out.append(entries[k].0.as_str());
        }
        push_char(&mut out, ',');
        let num = u64_to_string(entries[k].1);
        out.append(num.as_str());
        push_char(&mut out, '\n');
        proof {
            assert(out@ =~= "word,count\n"@ + csv_rows(d.take(k as int + 1)));
        }
        k = k + 1;
    }
    proof {
        assert(d.take(d.len() as int) =~~= d);
    }
    out
}

} // verus!
