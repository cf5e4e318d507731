//! JSON text of strings, by `serde_json`, and the ranking of words, by `counter`.

use vstd::prelude::*;
use crate::text::{views, seq_lt, count_char, lemma_count_absent, lemma_count_concat};

verus! {

/// The hexadecimal digit `d`, in lower case.
pub open spec fn hex_digit(d: int) -> char {
    if d == 0 { '0' } else if d == 1 { '1' } else if d == 2 { '2' } else if d == 3 { '3' }
    else if d == 4 { '4' } else if d == 5 { '5' } else if d == 6 { '6' } else if d == 7 { '7' }
    else if d == 8 { '8' } else if d == 9 { '9' } else if d == 10 { 'a' } else if d == 11 { 'b' }
    else if d == 12 { 'c' } else if d == 13 { 'd' } else if d == 14 { 'e' } else { 'f' }
}

/// How `serde_json` writes one character of a string: `"` and `\` escaped
/// by a backslash, backspace, form feed, newline, carriage return and tab as
/// `\b \f \n \r \t`, the other control characters below U+0020 as
/// `\u00` and two hexadecimal digits, everything else as it is.
pub open spec fn json_char_text(c: char) -> Seq<char> {
    let n = c as int;
    if c == '"' {
        seq!['\\', '"']
    } else if c == '\\' {
        seq!['\\', '\\']
    } else if n == 0x8 {
        seq!['\\', 'b']
    } else if n == 0xc {
        seq!['\\', 'f']
    } else if c == '\n' {
        seq!['\\', 'n']
    } else if c == '\r' {
        seq!['\\', 'r']
    } else if c == '\t' {
        seq!['\\', 't']
    } else if n < 0x20 {
        seq!['\\', 'u', '0', '0', hex_digit(n / 16), hex_digit(n % 16)]
    } else {
        seq![c]
    }
}

/// The characters of a string as `serde_json` writes them inside quotes.
pub open spec fn json_chars(s: Seq<char>) -> Seq<char>
    decreases s.len(),
{
    if s.len() == 0 {
        Seq::<char>::empty()
    } else {
        json_chars(s.drop_last()) + json_char_text(s.last())
    }
}

/// The JSON text `serde_json` writes for a string: the string quoted, its
/// characters escaped (`json_char_text`).
pub open spec fn json_string_text(s: Seq<char>) -> Seq<char> {
    seq!['"'] + json_chars(s) + seq!['"']
}

/// The JSON texts of the strings, separated by commas.
pub open spec fn json_list_items(v: Seq<Seq<char>>) -> Seq<char>
    decreases v.len(),
{
    if v.len() == 0 {
        Seq::<char>::empty()
    } else if v.len() == 1 {
        json_string_text(v[0])
    } else {
        json_list_items(v.drop_last()) + seq![','] + json_string_text(v.last())
    }
}

/// The compact JSON text `serde_json` writes for an array of strings: the
/// strings' texts between brackets, separated by commas, with no white space.
pub open spec fn json_string_list_text(v: Seq<Seq<char>>) -> Seq<char> {
    seq!['['] + json_list_items(v) + seq![']']
}

proof fn lemma_char_text_no_newline(c: char)
    ensures
        count_char(json_char_text(c), '\n') == 0,
{
    let t = json_char_text(c);
    assert forall|j: int| 0 <= j < t.len() implies t[j] != '\n' by {}
    assert(!t.contains('\n'));
    lemma_count_absent(t, '\n');
}

proof fn lemma_chars_no_newline(s: Seq<char>)
    ensures
        count_char(json_chars(s), '\n') == 0,
    decreases s.len(),
{
    if s.len() > 0 {
        lemma_chars_no_newline(s.drop_last());
        lemma_char_text_no_newline(s.last());
        lemma_count_concat(json_chars(s.drop_last()), json_char_text(s.last()), '\n');
    }
}

proof fn lemma_one_char(c: char)
    ensures
        count_char(seq![c], '\n') == if c == '\n' { 1nat } else { 0nat },
{
    let t = seq![c];
    assert(t.drop_last() =~= Seq::<char>::empty());
    assert(t.last() == c);
    assert(count_char(Seq::<char>::empty(), '\n') == 0);
    assert(count_char(t, '\n') == count_char(t.drop_last(), '\n') + if t.last() == '\n' { 1nat } else { 0nat });
}

proof fn lemma_string_text_no_newline(s: Seq<char>)
    ensures
        count_char(json_string_text(s), '\n') == 0,
{
    lemma_chars_no_newline(s);
    lemma_one_char('"');
    lemma_count_concat(seq!['"'], json_chars(s), '\n');
    lemma_count_concat(seq!['"'] + json_chars(s), seq!['"'], '\n');
}

proof fn lemma_items_no_newline(v: Seq<Seq<char>>)
    ensures
        count_char(json_list_items(v), '\n') == 0,
    decreases v.len(),
{
    if v.len() == 1 {
        lemma_string_text_no_newline(v[0]);
    } else if v.len() > 1 {
        lemma_items_no_newline(v.drop_last());
        lemma_string_text_no_newline(v.last());
        lemma_one_char(',');
        lemma_count_concat(json_list_items(v.drop_last()), seq![','], '\n');
        lemma_count_concat(json_list_items(v.drop_last()) + seq![','], json_string_text(v.last()), '\n');
    }
}

/// The JSON text of an array of strings holds no newline: a newline inside a
/// string is written as an escape.
pub proof fn lemma_list_text_no_newline(v: Seq<Seq<char>>)
    ensures
        count_char(json_string_list_text(v), '\n') == 0,
{
    lemma_items_no_newline(v);
    lemma_one_char('[');
    lemma_one_char(']');
    lemma_count_concat(seq!['['], json_list_items(v), '\n');
    lemma_count_concat(seq!['['] + json_list_items(v), seq![']'], '\n');
}

/// Calls `serde_json::to_string` on a string, which cannot fail for a string;
/// it writes `json_string_text`.
#[verifier::external_body]
pub(crate) fn encode_string(s: &String) -> (r: String)
    ensures
        r@ == json_string_text(s@),
{
    serde_json::to_string(s).unwrap_or_default()
}

/// Calls `serde_json::to_string` on a list of strings, which cannot fail for
/// a list of strings; it writes the compact form `json_string_list_text`.
#[verifier::external_body]
pub(crate) fn encode_string_list(v: &Vec<String>) -> (r: String)
    ensures
        r@ == json_string_list_text(views(v@)),
{
    serde_json::to_string(v).unwrap_or_default()
}

/// How often `w` occurs in `words`.
pub open spec fn occurrences(words: Seq<Seq<char>>, w: Seq<char>) -> nat {
    words.to_multiset().count(w)
}

/// `(word, count)` ranked before `(word2, count2)`: more frequent first,
/// equal counts in increasing order of the words.
pub open spec fn ranked_before(a: (Seq<char>, nat), b: (Seq<char>, nat)) -> bool {
    a.1 > b.1 || (a.1 == b.1 && seq_lt(a.0, b.0))
}

/// `r` is the list of the `k` most common words of `words` with their
/// counts, most common first, ties in increasing order of the words.
pub open spec fn is_top_k(words: Seq<Seq<char>>, k: nat, r: Seq<(Seq<char>, nat)>) -> bool {
    &&& r.len() <= k
    &&& forall|i: int| 0 <= i < r.len() ==> (#[trigger] r[i]).1 == occurrences(words, r[i].0) && r[i].1 > 0
    &&& forall|i: int, j: int| 0 <= i < j < r.len() ==> ranked_before(#[trigger] r[i], #[trigger] r[j])
    &&& forall|w: Seq<char>| #[trigger] occurrences(words, w) > 0 && !(exists|i: int| 0 <= i < r.len() && (#[trigger] r[i]).0 == w) ==> {
        &&& r.len() == k
        &&& k > 0 ==> ranked_before(r[r.len() - 1], (w, occurrences(words, w)))
    }
}

/// The pairs of `r` by the characters of the word.
pub open spec fn count_pairs(r: Seq<(String, usize)>) -> Seq<(Seq<char>, nat)> {
    r.map_values(|p: (String, usize)| (p.0@, p.1 as nat))
}

/// Calls `counter::Counter::k_most_common_ordered` on the counts of `words`:
/// the `k` most common words with their counts, most common first, equal
/// counts in increasing order of the words (`str`'s `Ord`).
#[verifier::external_body]
pub(crate) fn most_common(words: &Vec<String>, k: usize) -> (r: Vec<(String, usize)>)
    ensures
        is_top_k(views(words@), k as nat, count_pairs(r@)),
{
    words.iter().collect::<counter::Counter<_>>().k_most_common_ordered(k).into_iter().map(|(w, n)| (w.clone(), n)).collect()
}

} // verus!
