//! Rendering of entries as a JSON array of `word`/`count` objects, and
//! the proof that the rendering is lossless.
//!
//! The wire shape is fixed: an array of objects, each with a string
//! field `word` and a numeric field `count`, in entry order. The pretty
//! form differs from the compact form only in whitespace. A `String`
//! word always has a JSON representation, escaping covering the rest,
//! so rendering never fails. A parser for the compact shape is defined
//! here as well, and rendering followed by parsing is proved to give
//! back exactly the words and counts that went in, in order.

use vstd::prelude::*;
use vstd::string::{StrSliceExecFns, StringExecFns};

use crate::output::{dec_digit, dec_digit_exec, dec_str, push_char, u64_to_string};

verus! {

/// The character of a single lowercase hexadecimal digit.
pub open spec fn hex_digit(d: int) -> char {
    if d < 10 {
        dec_digit(d)
    } else if d == 10 {
        'a'
    } else if d == 11 {
        'b'
    } else if d == 12 {
        'c'
    } else if d == 13 {
        'd'
    } else if d == 14 {
        'e'
    } else {
        'f'
    }
}

/// JSON escaping of one character: a quote or backslash is preceded by
/// a backslash, a control character becomes a four-digit escape, and
/// every other character stands as itself.
pub open spec fn json_escape_char(c: char) -> Seq<char> {
    if c == '"' {
        seq!['\\', '"']
    } else if c == '\\' {
        seq!['\\', '\\']
    } else if (c as u32) < 32 {
        seq!['\\', 'u', '0', '0', hex_digit((c as u32) as int / 16), hex_digit(
            (c as u32) as int % 16,
        )]
    } else {
        seq![c]
    }
}

/// A word with every character JSON-escaped.
pub open spec fn json_escape(w: Seq<char>) -> Seq<char>
    decreases w.len(),
{
    if w.len() == 0 {
        Seq::<char>::empty()
    } else {
        json_escape_char(w[0]) + json_escape(w.drop_first())
    }
}

/// Escaping works character by character from either end.
proof fn lemma_escape_snoc(w: Seq<char>, c: char)
    ensures
        json_escape(w.push(c)) == json_escape(w) + json_escape_char(c),
    decreases w.len(),
{
    if w.len() == 0 {
        assert(w.push(c)[0] == c);
        assert(w.push(c).drop_first() =~= w);
        assert(json_escape(w.push(c)) =~= json_escape(w) + json_escape_char(c));
    } else {
        assert(w.push(c)[0] == w[0]);
        assert(w.push(c).drop_first() =~= w.drop_first().push(c));
        lemma_escape_snoc(w.drop_first(), c);
        assert(json_escape(w.push(c)) =~= json_escape(w) + json_escape_char(c));
    }
}

/// One entry as a compact JSON object with the fixed keys.
pub open spec fn json_entry(e: (Seq<char>, u64)) -> Seq<char> {
    "{\"word\":\""@ + json_escape(e.0) + "\",\"count\":"@ + dec_str(e.1 as nat) + seq!['}']
}

/// The compact objects joined by commas, in order.
pub open spec fn json_items(entries: Seq<(Seq<char>, u64)>) -> Seq<char>
    decreases entries.len(),
{
    if entries.len() == 0 {
        Seq::<char>::empty()
    } else if entries.len() == 1 {
        json_entry(entries[0])
    } else {
        json_entry(entries[0]) + seq![','] + json_items(entries.drop_first())
    }
}

/// Joining works entry by entry from either end.
proof fn lemma_items_snoc(xs: Seq<(Seq<char>, u64)>, e: (Seq<char>, u64))
    ensures
        json_items(xs.push(e)) == (if xs.len() == 0 {
            json_entry(e)
        } else {
            json_items(xs) + seq![','] + json_entry(e)
        }),
    decreases xs.len(),
{
    if xs.len() == 0 {
        assert(xs.push(e)[0] == e);
    } else {
        assert(xs.push(e)[0] == xs[0]);
        assert(xs.push(e).drop_first() =~~= xs.drop_first().push(e));
        lemma_items_snoc(xs.drop_first(), e);
        if xs.len() == 1 {
            assert(json_items(xs.push(e)) =~= json_items(xs) + seq![','] + json_entry(e));
        } else {
            assert(json_items(xs.push(e)) =~= json_items(xs) + seq![','] + json_entry(e));
        }
    }
}

/// The compact JSON document.
pub open spec fn json_of(entries: Seq<(Seq<char>, u64)>) -> Seq<char> {
    seq!['['] + json_items(entries) + seq![']']
}

/// One entry as an indented JSON object.
pub open spec fn pretty_entry(e: (Seq<char>, u64)) -> Seq<char> {
    "{\n    \"word\": \""@ + json_escape(e.0) + "\",\n    \"count\": "@ + dec_str(e.1 as nat)
        + "\n  }"@
}

/// The indented objects joined by commas, in order.
pub open spec fn pretty_items(entries: Seq<(Seq<char>, u64)>) -> Seq<char>
    decreases entries.len(),
{
    if entries.len() == 0 {
        Seq::<char>::empty()
    } else if entries.len() == 1 {
        pretty_entry(entries[0])
    } else {
        pretty_items(entries.drop_last()) + ",\n  "@ + pretty_entry(entries.last())
    }
}

/// The pretty JSON document: the compact one plus whitespace.
pub open spec fn pretty_json_of(entries: Seq<(Seq<char>, u64)>) -> Seq<char> {
    if entries.len() == 0 {
        "[]"@
    } else {
        "[\n  "@ + pretty_items(entries) + "\n]"@
    }
}

fn hex_digit_exec(d: u32) -> (c: char)
    requires
        d < 16,
    ensures
        c == hex_digit(d as int),
{
    if d < 10 {
        dec_digit_exec(d as u64)
    } else if d == 10 {
        'a'
    } else if d == 11 {
        'b'
    } else if d == 12 {
        'c'
    } else if d == 13 {
        'd'
    } else if d == 14 {
        'e'
    } else {
        'f'
    }
}

fn json_escape_exec(w: &str, out: &mut String)
    ensures
        final(out)@ == old(out)@ + json_escape(w@),
{
    let n = w.unicode_len();
    let mut i: usize = 0;
    proof {
        assert(w@.take(0) =~= Seq::<char>::empty());
        assert(old(out)@ =~= old(out)@ + json_escape(w@.take(0)));
    }
    while i < n
        invariant
            n == w@.len(),
            i <= n,
            out@ == old(out)@ + json_escape(w@.take(i as int)),
        decreases n - i,
    {
        proof {
            assert(w@.take(i as int + 1) =~= w@.take(i as int).push(w@[i as int]));
            lemma_escape_snoc(w@.take(i as int), w@[i as int]);
        }
        let c = w.get_char(i);
        if c == '"' {
            push_char(out, '\\');
            push_char(out, '"');
        } else if c == '\\' {
            push_char(out, '\\');
            push_char(out, '\\');
        } else if (c as u32) < 32 {
            let code = c as u32;
            push_char(out, '\\');
            push_char(out, 'u');
            push_char(out, '0');
            push_char(out, '0');
            push_char(out, hex_digit_exec(code / 16));
            push_char(out, hex_digit_exec(code % 16));
        } else {
            push_char(out, c);
        }
        proof {
            assert(out@ =~= old(out)@ + json_escape(w@.take(i as int + 1)));
        }
        i = i + 1;
    }
    proof {
        assert(w@.take(n as int) =~= w@);
    }
}

/// Render entries as a JSON array of objects with the string field
/// `word` and the numeric field `count`, in order. The pretty form
/// adds only whitespace.
pub fn render_json(entries: &Vec<(String, u64)>, pretty: bool) -> (r: String)
    ensures
        r@ == (if pretty {
            pretty_json_of(entries.deep_view())
        } else {
            json_of(entries.deep_view())
        }),
{
    let ghost d = entries.deep_view();
    if pretty {
        if entries.len() == 0 {
            let mut out = String::new();
            out.append("[]");
            proof {
                assert(out@ =~= "[]"@);
            }
            return out;
        }
        let mut out = String::new();
        out.append("[\n  ");
        let mut k: usize = 0;
        proof {
            assert(d.take(0) =~~= Seq::<(Seq<char>, u64)>::empty());
            assert(out@ =~= "[\n  "@ + pretty_items(d.take(0)));
        }
        while k < entries.len()
            invariant
                k <= entries@.len(),
                d == entries.deep_view(),
                out@ == "[\n  "@ + pretty_items(d.take(k as int)),
            decreases entries@.len() - k,
        {
            proof {
                assert(d.take(k as int + 1).drop_last() =~~= d.take(k as int));
                assert(d.take(k as int + 1).last() == d[k as int]);
                assert(d[k as int].0 == entries@[k as int].0@);
                assert(d[k as int].1 == entries@[k as int].1);
            }
            if k > 0 {
                out.append(",\n  ");
            }
            out.append("{\n    \"word\": \"");
            json_escape_exec(entries[k].0.as_str(), &mut out);
            out.append("\",\n    \"count\": ");
            let num = u64_to_string(entries[k].1);
            out.append(num.as_str());
            out.append("\n  }");
            proof {
                assert(out@ =~= "[\n  "@ + pretty_items(d.take(k as int)) + (if k == 0 {
                    Seq::<char>::empty()
                } else {
                    ",\n  "@
                }) + pretty_entry(d[k as int]));
                assert(out@ =~= "[\n  "@ + pretty_items(d.take(k as int + 1)));
            }
            k = k + 1;
        }
        out.append("\n]");
        proof {
            assert(d.take(d.len() as int) =~~= d);
            assert(out@ =~= pretty_json_of(d));
        }
        out
    } else {
        let mut out = String::new();
        push_char(&mut out, '[');
        let mut k: usize = 0;
        proof {
            assert(d.take(0) =~~= Seq::<(Seq<char>, u64)>::empty());
            assert(out@ =~= seq!['['] + json_items(d.take(0)));
        }
        while k < entries.len()
            invariant
                k <= entries@.len(),
                d == entries.deep_view(),
                out@ == seq!['['] + json_items(d.take(k as int)),
            decreases entries@.len() - k,
        {
            proof {
                assert(d.take(k as int + 1) =~~= d.take(k as int).push(d[k as int]));
                lemma_items_snoc(d.take(k as int), d[k as int]);
                assert(d[k as int].0 == entries@[k as int].0@);
                assert(d[k as int].1 == entries@[k as int].1);
            }
            if k > 0 {
                push_char(&mut out, ',');
            }
            out.append("{\"word\":\"");
            json_escape_exec(entries[k].0.as_str(), &mut out);
            out.append("\",\"count\":");
            let num = u64_to_string(entries[k].1);
            out.append(num.as_str());
            push_char(&mut out, '}');
            proof {
                assert(out@ =~= seq!['['] + json_items(d.take(k as int)) + (if k == 0 {
                    Seq::<char>::empty()
                } else {
                    seq![',']
                }) + json_entry(d[k as int]));
                assert(out@ =~= seq!['['] + json_items(d.take(k as int + 1)));
            }
            k = k + 1;
        }
        push_char(&mut out, ']');
        proof {
            assert(d.take(d.len() as int) =~~= d);
            assert(out@ =~= json_of(d));
        }
        out
    }
}

/// The numeric value of a decimal digit character; negative for any
/// other character.
pub open spec fn dec_val(c: char) -> int {
    if c == '0' {
        0
    } else if c == '1' {
        1
    } else if c == '2' {
        2
    } else if c == '3' {
        3
    } else if c == '4' {
        4
    } else if c == '5' {
        5
    } else if c == '6' {
        6
    } else if c == '7' {
        7
    } else if c == '8' {
        8
    } else if c == '9' {
        9
    } else {
        -1
    }
}

/// The numeric value of a lowercase hexadecimal digit character;
/// negative for any other character.
pub open spec fn hex_val(c: char) -> int {
    if dec_val(c) >= 0 {
        dec_val(c)
    } else if c == 'a' {
        10
    } else if c == 'b' {
        11
    } else if c == 'c' {
        12
    } else if c == 'd' {
        13
    } else if c == 'e' {
        14
    } else if c == 'f' {
        15
    } else {
        -1
    }
}

/// Parse a JSON string body up to its closing quote, undoing escapes;
/// the result pairs the word with what follows the quote.
pub open spec fn parse_word(s: Seq<char>) -> Option<(Seq<char>, Seq<char>)>
    decreases s.len(),
{
    if s.len() == 0 {
        None
    } else if s[0] == '"' {
        Some((Seq::<char>::empty(), s.drop_first()))
    } else if s[0] == '\\' {
        if s.len() >= 2 && (s[1] == '"' || s[1] == '\\') {
            match parse_word(s.skip(2)) {
                Some(p) => Some((seq![s[1]] + p.0, p.1)),
                None => None,
            }
        } else if s.len() >= 6 && s[1] == 'u' && s[2] == '0' && s[3] == '0' && hex_val(s[4]) >= 0
            && hex_val(s[5]) >= 0 {
            match parse_word(s.skip(6)) {
                Some(p) => Some(
                    (seq![(((16 * hex_val(s[4]) + hex_val(s[5])) as u32) as char)] + p.0, p.1),
                ),
                None => None,
            }
        } else {
            None
        }
    } else {
        match parse_word(s.drop_first()) {
            Some(p) => Some((seq![s[0]] + p.0, p.1)),
            None => None,
        }
    }
}

/// Greedy decimal parse: digits are folded onto `acc` until the first
/// non-digit, which is left in place.
pub open spec fn parse_num(s: Seq<char>, acc: int) -> (int, Seq<char>)
    decreases s.len(),
{
    if s.len() > 0 && dec_val(s[0]) >= 0 {
        parse_num(s.drop_first(), acc * 10 + dec_val(s[0]))
    } else {
        (acc, s)
    }
}

/// Parse one object of the compact shape; the result pairs the entry
/// with what follows the closing brace.
pub open spec fn parse_entry(s: Seq<char>) -> Option<((Seq<char>, u64), Seq<char>)> {
    let open_lit = "{\"word\":\""@;
    let mid_lit = ",\"count\":"@;
    if s.len() < open_lit.len() || s.take(open_lit.len() as int) != open_lit {
        None
    } else {
        match parse_word(s.skip(open_lit.len() as int)) {
            None => None,
            Some((w, r1)) => {
                if r1.len() < mid_lit.len() || r1.take(mid_lit.len() as int) != mid_lit {
                    None
                } else {
                    let r2 = r1.skip(mid_lit.len() as int);
                    if r2.len() == 0 || dec_val(r2[0]) < 0 {
                        None
                    } else {
                        let np = parse_num(r2, 0);
                        if np.1.len() == 0 || np.1[0] != '}' || np.0 > u64::MAX as int {
                            None
                        } else {
                            Some(((w, np.0 as u64), np.1.drop_first()))
                        }
                    }
                }
            },
        }
    }
}

/// Parse comma-separated objects, consuming the whole input; the fuel
/// bounds how many objects can be read.
pub open spec fn parse_items(s: Seq<char>, fuel: nat) -> Option<Seq<(Seq<char>, u64)>>
    decreases fuel,
{
    if fuel == 0 {
        None
    } else {
        match parse_entry(s) {
            None => None,
            Some((e, r)) => {
                if r.len() == 0 {
                    Some(seq![e])
                } else if r[0] == ',' {
                    match parse_items(r.drop_first(), (fuel - 1) as nat) {
                        None => None,
                        Some(es) => Some(seq![e] + es),
                    }
                } else {
                    None
                }
            },
        }
    }
}

/// Parse a compact document of the shape the renderer emits.
pub open spec fn parse_json(s: Seq<char>) -> Option<Seq<(Seq<char>, u64)>> {
    if s.len() < 2 || s[0] != '[' || s.last() != ']' {
        None
    } else {
        let mid = s.subrange(1, s.len() - 1);
        if mid.len() == 0 {
            Some(Seq::<(Seq<char>, u64)>::empty())
        } else {
            parse_items(mid, mid.len() as nat)
        }
    }
}

proof fn lemma_parse_word_round(w: Seq<char>, rest: Seq<char>)
    ensures
        parse_word(json_escape(w) + seq!['"'] + rest) == Some((w, rest)),
    decreases w.len(),
{
    let s = json_escape(w) + seq!['"'] + rest;
    if w.len() == 0 {
        assert(s =~= seq!['"'] + rest);
        assert(s[0] == '"');
        assert(s.drop_first() =~= rest);
        assert(w =~= Seq::<char>::empty());
    } else {
        let c = w[0];
        let w1 = w.drop_first();
        lemma_parse_word_round(w1, rest);
        let tail = json_escape(w1) + seq!['"'] + rest;
        if c == '"' {
            assert(s =~= seq!['\\', '"'] + tail);
            assert(s.skip(2) =~= tail);
            assert(seq![s[1]] + w1 =~= w);
        } else if c == '\\' {
            assert(s =~= seq!['\\', '\\'] + tail);
            assert(s.skip(2) =~= tail);
            assert(seq![s[1]] + w1 =~= w);
        } else if (c as u32) < 32 {
            let code = (c as u32) as int;
            assert(s =~= seq!['\\', 'u', '0', '0', hex_digit(code / 16), hex_digit(code % 16)]
                + tail);
            assert(s.skip(6) =~= tail);
            assert(hex_val(hex_digit(code / 16)) == code / 16);
            assert(hex_val(hex_digit(code % 16)) == code % 16);
            assert(16 * (code / 16) + code % 16 == code) by {
                vstd::arithmetic::div_mod::lemma_fundamental_div_mod(code, 16);
            }
            vstd::utf8::char_u32_cast(c, c as u32);
            assert(seq![((code as u32) as char)] + w1 =~= w);
        } else {
            assert(s =~= seq![c] + tail);
            assert(s[0] == c);
            assert(s.drop_first() =~= tail);
            assert(seq![s[0]] + w1 =~= w);
        }
    }
}

spec fn pow10(k: nat) -> int
    decreases k,
{
    if k == 0 {
        1
    } else {
        10 * pow10((k - 1) as nat)
    }
}

proof fn lemma_parse_num_prefix(n: nat, rest: Seq<char>, acc: int)
    ensures
        parse_num(dec_str(n) + rest, acc) == parse_num(
            rest,
            acc * pow10(dec_str(n).len()) + n,
        ),
    decreases n,
{
    if n < 10 {
        let s = dec_str(n) + rest;
        assert(s[0] == dec_digit(n as int));
        assert(dec_val(dec_digit(n as int)) == n);
        assert(s.drop_first() =~= rest);
        assert(dec_str(n).len() == 1);
        assert(pow10(0) == 1);
        assert(pow10(1) == 10);
    } else {
        let hd = dec_str(n / 10);
        let dl = dec_digit((n % 10) as int);
        assert(dec_str(n) == hd.push(dl));
        assert(dec_str(n) + rest =~= hd + (seq![dl] + rest));
        lemma_parse_num_prefix(n / 10, seq![dl] + rest, acc);
        let p = pow10(hd.len());
        let q = n as int / 10;
        let r = n as int % 10;
        let s1 = seq![dl] + rest;
        assert(s1[0] == dl);
        assert(dec_val(dl) == r);
        assert(s1.drop_first() =~= rest);
        assert(dec_str(n).len() == hd.len() + 1);
        assert(pow10(dec_str(n).len()) == 10 * p);
        assert((acc * p + q) * 10 + r == acc * (10 * p) + (10 * q + r)) by (nonlinear_arith);
        assert(n as int == 10 * q + r) by {
            vstd::arithmetic::div_mod::lemma_fundamental_div_mod(n as int, 10);
        }
    }
}

proof fn lemma_dec_str_digit(n: nat)
    ensures
        dec_str(n).len() >= 1,
        dec_val(dec_str(n)[0]) >= 0,
    decreases n,
{
    if n >= 10 {
        lemma_dec_str_digit(n / 10);
        assert(dec_str(n)[0] == dec_str(n / 10)[0]);
    }
}

proof fn lemma_parse_entry_round(e: (Seq<char>, u64), rest: Seq<char>)
    ensures
        parse_entry(json_entry(e) + rest) == Some((e, rest)),
{
    reveal_strlit("{\"word\":\"");
    reveal_strlit("\",\"count\":");
    reveal_strlit(",\"count\":");
    let open_lit = "{\"word\":\""@;
    let mid_full = "\",\"count\":"@;
    let mid_lit = ",\"count\":"@;
    let s = json_entry(e) + rest;
    let esc = json_escape(e.0);
    let num = dec_str(e.1 as nat);
    assert(mid_full =~= seq!['"'] + mid_lit);
    let wrest = mid_lit + num + seq!['}'] + rest;
    assert(s =~= open_lit + (esc + seq!['"'] + wrest));
    assert(s.take(open_lit.len() as int) =~= open_lit);
    assert(s.skip(open_lit.len() as int) =~= esc + seq!['"'] + wrest);
    lemma_parse_word_round(e.0, wrest);
    assert(wrest.take(mid_lit.len() as int) =~= mid_lit);
    let r2 = wrest.skip(mid_lit.len() as int);
    assert(r2 =~= num + (seq!['}'] + rest));
    lemma_dec_str_digit(e.1 as nat);
    assert(dec_val(r2[0]) >= 0);
    lemma_parse_num_prefix(e.1 as nat, seq!['}'] + rest, 0);
    assert((seq!['}'] + rest)[0] == '}');
    assert(dec_val('}') < 0);
    let np = parse_num(r2, 0);
    assert(np.0 == e.1 as int);
    assert(np.1 == seq!['}'] + rest);
    assert(np.1.drop_first() =~= rest);
    assert(e == (e.0, e.1));
}

proof fn lemma_items_len(entries: Seq<(Seq<char>, u64)>)
    ensures
        json_items(entries).len() >= entries.len(),
    decreases entries.len(),
{
    if entries.len() > 1 {
        lemma_items_len(entries.drop_first());
    }
}

proof fn lemma_parse_items_round(entries: Seq<(Seq<char>, u64)>, fuel: nat)
    requires
        entries.len() > 0,
        fuel >= entries.len(),
    ensures
        parse_items(json_items(entries), fuel) == Some(entries),
    decreases entries.len(),
{
    let e0 = entries[0];
    if entries.len() == 1 {
        lemma_parse_entry_round(e0, Seq::<char>::empty());
        assert(json_items(entries) =~= json_entry(e0) + Seq::<char>::empty());
        assert(seq![e0] =~~= entries);
    } else {
        let tail = entries.drop_first();
        let r = seq![','] + json_items(tail);
        assert(json_items(entries) =~= json_entry(e0) + r);
        lemma_parse_entry_round(e0, r);
        assert(r[0] == ',');
        assert(r.drop_first() =~= json_items(tail));
        lemma_parse_items_round(tail, (fuel - 1) as nat);
        assert(seq![e0] + tail =~~= entries);
    }
}

/// Law: rendering to JSON then parsing back yields exactly the same
/// words and counts, in the same order: the compact document of any
/// entry sequence parses to that sequence.
pub proof fn lemma_json_round_trip(entries: Seq<(Seq<char>, u64)>)
    ensures
        parse_json(json_of(entries)) == Some(entries),
{
    let s = json_of(entries);
    let items = json_items(entries);
    assert(s[0] == '[');
    assert(s.last() == ']');
    let mid = s.subrange(1, s.len() - 1);
    assert(mid =~= items);
    if entries.len() == 0 {
        assert(mid.len() == 0);
        assert(entries =~~= Seq::<(Seq<char>, u64)>::empty());
    } else {
        lemma_items_len(entries);
        lemma_parse_items_round(entries, mid.len() as nat);
    }
}

} // verus!
