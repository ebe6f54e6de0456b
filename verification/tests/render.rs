use wordfreq_rs::json::render_json;
use wordfreq_rs::output::{render_csv, render_table, u64_to_string};

fn entry(w: &str, c: u64) -> (String, u64) {
    (w.to_string(), c)
}

#[test]
fn decimal_rendering_exact() {
    assert_eq!(u64_to_string(0), "0");
    assert_eq!(u64_to_string(10), "10");
    assert_eq!(u64_to_string(12345), "12345");
    assert_eq!(u64_to_string(u64::MAX), "18446744073709551615");
}

#[test]
fn empty_table_is_the_placeholder() {
    let s = render_table(&Vec::new());
    assert_eq!(s, "No entries found.");
    assert!(!s.contains("WORD"));
}

#[test]
fn table_layout_exact_short_words() {
    let s = render_table(&vec![entry("foo", 3), entry("b", 1)]);
    assert_eq!(s, "WORD COUNT\n---- -----\nfoo  3\nb    1\n");
}

#[test]
fn table_layout_exact_wide_word() {
    let s = render_table(&vec![entry("elephant", 12)]);
    assert_eq!(s, "WORD     COUNT\n-------- -----\nelephant 12\n");
}

#[test]
fn csv_plain_words() {
    let s = render_csv(&vec![entry("foo", 3), entry("bar", 1)]);
    assert_eq!(s, "word,count\nfoo,3\nbar,1\n");
}

#[test]
fn csv_empty_is_header_only() {
    assert_eq!(render_csv(&Vec::new()), "word,count\n");
}

#[test]
fn csv_quotes_words_that_need_it() {
    let s = render_csv(&vec![entry("a,b", 2), entry("say \"hi\"", 1), entry("two\nlines", 4)]);
    assert_eq!(
        s,
        "word,count\n\"a,b\",2\n\"say \"\"hi\"\"\",1\n\"two\nlines\",4\n"
    );
}

#[test]
fn json_compact_exact() {
    assert_eq!(render_json(&Vec::new(), false), "[]");
    let s = render_json(&vec![entry("foo", 3), entry("bar", 1)], false);
    assert_eq!(s, "[{\"word\":\"foo\",\"count\":3},{\"word\":\"bar\",\"count\":1}]");
}

#[test]
fn json_pretty_exact() {
    assert_eq!(render_json(&Vec::new(), true), "[]");
    let s = render_json(&vec![entry("foo", 3)], true);
    assert_eq!(
        s,
        "[\n  {\n    \"word\": \"foo\",\n    \"count\": 3\n  }\n]"
    );
}

#[test]
fn json_round_trips_through_a_real_parser() {
    let entries = vec![entry("foo", 3), entry("bar", 1), entry("café", 2)];
    for pretty in [false, true] {
        let s = render_json(&entries, pretty);
        let v: serde_json::Value = serde_json::from_str(&s).unwrap();
        let arr = v.as_array().unwrap();
        assert_eq!(arr.len(), entries.len());
        for (i, e) in entries.iter().enumerate() {
            assert_eq!(arr[i]["word"].as_str().unwrap(), e.0);
            assert_eq!(arr[i]["count"].as_u64().unwrap(), e.1);
        }
    }
}

#[test]
fn json_escapes_round_trip_through_a_real_parser() {
    let entries = vec![entry("a\"b\\c", 1), entry("tab\there\nand\rthere", 2)];
    for pretty in [false, true] {
        let s = render_json(&entries, pretty);
        let v: serde_json::Value = serde_json::from_str(&s).unwrap();
        let arr = v.as_array().unwrap();
        for (i, e) in entries.iter().enumerate() {
            assert_eq!(arr[i]["word"].as_str().unwrap(), e.0);
            assert_eq!(arr[i]["count"].as_u64().unwrap(), e.1);
        }
    }
}
