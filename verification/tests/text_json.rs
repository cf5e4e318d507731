use strix_pipeline::hashed::{JsonHashMap, StrMap};
use strix_pipeline::json::{copy_json, is_wf, string_array, Json, JsonMap};
use strix_pipeline::mappingutil::{empty_set, set_delimiter, token_separator};
use strix_pipeline::text::{
    byte_len_capped, contains_str, decimal_text, join_strs, prefix_bytes, replace_str, split_char,
    str_lt, trim_str,
};
use strix_pipeline::xmlparser::compute_common_words_text;

fn strings(v: &[&str]) -> Vec<String> {
    v.iter().map(|s| s.to_string()).collect()
}

#[test]
fn split_char_keeps_empty_pieces() {
    assert_eq!(split_char("a:b::c", ':'), strings(&["a", "b", "", "c"]));
    assert_eq!(split_char("", ':'), strings(&[""]));
    assert_eq!(split_char(":", ':'), strings(&["", ""]));
}

#[test]
fn split_then_join_gives_text_back() {
    for s in ["text:year", "a::b", ":x:", "", "plain"] {
        let pieces = split_char(s, ':');
        assert_eq!(join_strs(&pieces, ":"), s);
        assert!(pieces.iter().all(|p| !p.contains(':')));
    }
}

#[test]
fn join_strs_puts_separator_between() {
    assert_eq!(join_strs(&strings(&["a", "b", "c"]), ", "), "a, b, c");
    assert_eq!(join_strs(&strings(&["one"]), ", "), "one");
    assert_eq!(join_strs(&Vec::new(), ", "), "");
}

#[test]
fn replace_str_scans_from_the_left() {
    assert_eq!(replace_str("aaa", "aa", "b"), "ba");
    assert_eq!(replace_str("text_title", "text_", ""), "title");
    assert_eq!(replace_str("a\\nb", "\\n", "y"), "ayb");
    assert_eq!(replace_str("no match", "zz", "y"), "no match");
}

#[test]
fn replacing_newlines_leaves_none() {
    let r = replace_str("one\ntwo\n\nthree", "\n", " ");
    assert_eq!(r, "one two  three");
    assert!(!r.contains('\n'));
}

#[test]
fn trim_and_search() {
    assert_eq!(trim_str("  word \n"), "word");
    assert_eq!(trim_str("   "), "");
    assert_eq!(trim_str("\u{3000}ord\u{85}\u{2009}"), "ord");
    assert_eq!(trim_str("\u{200b}x"), "\u{200b}x");
    assert!(contains_str("booktitle", "title"));
    assert!(!contains_str("titl", "title"));
    assert!(contains_str("anything", ""));
}

#[test]
fn decimal_and_order() {
    assert_eq!(decimal_text(0), "0");
    assert_eq!(decimal_text(2050), "2050");
    assert_eq!(decimal_text(u64::MAX), u64::MAX.to_string());
    assert!(str_lt("eng", "swe"));
    assert!(str_lt("ab", "abc"));
    assert!(!str_lt("abc", "abc"));
    assert!(str_lt("Z", "a"));
}

#[test]
fn byte_prefixes() {
    assert_eq!(byte_len_capped("åäö", 100), 6);
    assert_eq!(byte_len_capped("åäö", 3), 3);
    assert_eq!(prefix_bytes("2023-01-01", 4), Some("2023".to_string()));
    assert_eq!(prefix_bytes("åx", 1), None);
    assert_eq!(prefix_bytes("ab", 4), None);
}

#[test]
fn json_map_keeps_keys_sorted() {
    let mut m = JsonMap::new();
    m.insert("swe".to_string(), Json::Str("s".to_string()));
    m.insert("eng".to_string(), Json::Str("e".to_string()));
    m.insert("name".to_string(), Json::Int(1));
    let keys: Vec<&str> = m.entries.iter().map(|(k, _)| k.as_str()).collect();
    assert_eq!(keys, vec!["eng", "name", "swe"]);
    assert!(m.is_wf());
    assert_eq!(m.len(), 3);
}

#[test]
fn json_map_get_after_insert() {
    let mut m = JsonMap::new();
    m.insert("a".to_string(), Json::Int(1));
    m.insert("b".to_string(), Json::Int(2));
    m.insert("a".to_string(), Json::Int(3));
    assert_eq!(m.get("a"), Some(&Json::Int(3)));
    assert_eq!(m.get("b"), Some(&Json::Int(2)));
    assert_eq!(m.get("c"), None);
    assert!(m.contains_key("b"));
    assert_eq!(m.len(), 2);
}

#[test]
fn well_formedness_is_checked_at_every_depth() {
    let unsorted = JsonMap {
        entries: vec![
            ("b".to_string(), Json::Null),
            ("a".to_string(), Json::Null),
        ],
    };
    assert!(!unsorted.is_wf());
    let nested = Json::Array(vec![Json::Object(unsorted)]);
    assert!(!is_wf(&nested));
    let sorted = JsonMap {
        entries: vec![
            ("a".to_string(), Json::Bool(true)),
            ("b".to_string(), Json::Number("1.5".to_string())),
        ],
    };
    assert!(is_wf(&Json::Array(vec![Json::Object(sorted)])));
}

#[test]
fn copies_and_string_arrays() {
    let j = Json::Array(vec![Json::Str("x".to_string()), Json::Null, Json::Int(-4)]);
    assert_eq!(copy_json(&j), j);
    let a = string_array(strings(&["a", "b"]));
    assert_eq!(a, Json::Array(vec![Json::Str("a".to_string()), Json::Str("b".to_string())]));
    let o = Json::Object(JsonMap { entries: vec![("k".to_string(), Json::Null)] });
    assert_eq!(o.get("k"), Some(&Json::Null));
    assert_eq!(o.as_object().map(|m| m.len()), Some(1));
    assert_eq!(Json::Bool(true).as_bool(), Some(true));
    assert!(Json::Null.as_str().is_none());
}

#[test]
fn most_common_long_words_ranked_by_count_then_word() {
    let words = strings(&["bord", "stol", "bord", "hus", "lampa", "stol", "bord", "hus", "hus"]);
    assert_eq!(compute_common_words_text(&words), "bord (3), stol (2), lampa (1)");
    assert_eq!(compute_common_words_text(&Vec::new()), "");
}

#[test]
fn separators() {
    assert_eq!(token_separator(), "\u{241E}");
    assert_eq!(set_delimiter(), "\u{241F}");
    assert_eq!(empty_set(), "\u{2205}");
}

#[test]
fn hash_maps_by_value() {
    let m = StrMap::from_pairs(vec![
        ("k".to_string(), "v".to_string()),
        ("j".to_string(), "x".to_string()),
        ("k".to_string(), "w".to_string()),
    ]);
    assert_eq!(m.value_of("k"), Some("w".to_string()));
    assert_eq!(m.value_of("j"), Some("x".to_string()));
    assert_eq!(m.value_of("z"), None);
    let mut pairs = m.to_pairs();
    pairs.sort();
    assert_eq!(pairs, vec![("j".to_string(), "x".to_string()), ("k".to_string(), "w".to_string())]);
    let j = JsonHashMap::from_pairs(vec![("a".to_string(), Json::Int(1)), ("a".to_string(), Json::Null)]);
    assert_eq!(j.to_pairs(), vec![("a".to_string(), Json::Null)]);
}
