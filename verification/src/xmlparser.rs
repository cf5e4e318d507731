//! Cutting a Sparv-annotated XML corpus into parts: the handlers of the
//! start tags, end tags and text of the XML stream, and the driver that
//! routes each event of the stream to them.

use vstd::prelude::*;
use vstd::slice::slice_to_vec;
use quick_xml::events::Event;
use quick_xml::events::attributes::Attributes;
use quick_xml::Reader;
use crate::text::{lemma_split_no_sep, lemma_split_concat, lemma_split_nonempty, law_split_join, law_split_pieces, lemma_byte_len_strict, char_width, count_char, decimal, decimal_text, from_utf8, byte_len, byte_len_capped, is_boundary, byte_prefix, prefix_bytes, join, join_strs, contains_seq, contains_str, contains_char, before_first, views, trim, trim_str, replace, replace_str, lossy_text, from_utf8_lossy, chars_of, push_char, str_eq, split_on, split_char, contains_string, starts_with_char, ends_with_char};
use crate::json::{Json, JsonMap, JsonV, obj_get, obj_insert, field, str_values, string_array, json_wf, lemma_entries_view, lemma_insert_wf, copy_json};
use crate::mappingutil::{set_delimiter_text, empty_set_text, token_separator_text, set_delimiter, empty_set, token_separator};
use crate::encode::{json_string_text, json_string_list_text, encode_string, encode_string_list, is_top_k, most_common, count_pairs};
use crate::hashed::{StrMap, StrSet, str_map_contents, str_set_contents, lists_str_pairs};

verus! {

// ---------------------------------------------------------------- types

/// Options of `parse_pipeline_xml` beside the split element and the word
/// annotations.
pub struct ParsePipelineXmlOptions {
    pub struct_annotations: JsonMap,
    pub token_count_id: bool,
    pub text_attributes: JsonMap,
    pub add_most_common_words: bool,
    pub save_whitespace_per_token: bool,
    pub pos_index_attributes: Vec<String>,
    pub text_tags: Vec<String>,
}

impl Default for ParsePipelineXmlOptions {
    fn default() -> (r: Self)
        ensures
            r.struct_annotations@.len() == 0,
            !r.token_count_id,
            r.text_attributes@.len() == 0,
            !r.add_most_common_words,
            !r.save_whitespace_per_token,
            r.pos_index_attributes@.len() == 0,
            r.text_tags@.len() == 0,
            r.struct_annotations.wf(),
            r.text_attributes.wf(),
    {
        ParsePipelineXmlOptions {
            struct_annotations: JsonMap::new(),
            token_count_id: false,
            text_attributes: JsonMap::new(),
            add_most_common_words: false,
            save_whitespace_per_token: false,
            pos_index_attributes: Vec::new(),
            text_tags: Vec::new(),
        }
    }
}

/// One token of a part: its text, its annotations and its position.
pub struct TokenLookup {
    pub word: String,
    pub attrs: JsonMap,
    pub position: usize,
    pub whitespace: Option<char>,
}

/// One part of a corpus text, cut at the split element.
pub struct Part {
    pub text_attributes: JsonMap,
    pub token_lookup: Vec<TokenLookup>,
    pub dump: Vec<String>,
    pub lines: Vec<Vec<i64>>,
    pub word_count: usize,
    pub text: String,
    pub ner_tags: String,
    pub geo_locations: Vec<String>,
    pub most_common_words: String,
    pub wid: String,
    pub extra: JsonMap,
}

/// The state of the parse of one XML file.
pub struct StrixParser {
    pub split_document: String,
    pub word_annotations: JsonMap,
    pub struct_annotations: JsonMap,
    pub token_count_id: bool,
    pub text_attributes: JsonMap,
    pub add_most_common_words: bool,
    pub save_whitespace_per_token: bool,
    pub pos_index_attributes: Vec<String>,
    pub text_tags: Vec<String>,
    pub current_part_tokens: Vec<StrMap>,
    pub all_word_level_annotations: StrSet,
    pub part_attributes: JsonMap,
    pub upper_level: JsonMap,
    pub current_token_lookup: Vec<TokenLookup>,
    pub dump: Vec<String>,
    pub token_count: i64,
    pub lines: Vec<Vec<i64>>,
    pub most_common_words: Vec<String>,
    pub in_word: bool,
    pub word_attrs: StrMap,
    pub current_word_content: String,
    pub current_parts: Vec<Part>,
    pub start_tag: Vec<u8>,
    /// The annotations of every token ended so far, in document order: what
    /// the caller hands, token by token, to its own processing.
    pub token_log: Vec<JsonMap>,
}

/// The lines of a part as sequences.
pub open spec fn lines_view(l: Seq<Vec<i64>>) -> Seq<Seq<i64>> {
    l.map_values(|x: Vec<i64>| x@)
}

/// A value a text attribute may take: a string, or an array of strings.
pub open spec fn is_text_value(v: JsonV) -> bool {
    match v {
        JsonV::Str(_) => true,
        JsonV::Array(s) => forall|i: int| 0 <= i < s.len() ==> (#[trigger] s[i]) is Str,
        _ => false,
    }
}

/// Every value of the object is a text value.
pub open spec fn all_text_values(e: Seq<(Seq<char>, JsonV)>) -> bool {
    forall|i: int| 0 <= i < e.len() ==> is_text_value(#[trigger] e[i].1)
}

/// A parser at the start of a file, with the given configuration: no
/// tokens, no parts, an empty dump line and a first line of positions.
pub open spec fn fresh_parser(
    r: StrixParser,
    split_document: String,
    word_annotations: JsonMap,
    struct_annotations: JsonMap,
    token_count_id: bool,
    text_attributes: JsonMap,
    add_most_common_words: bool,
    save_whitespace_per_token: bool,
    pos_index_attributes: Vec<String>,
    text_tags: Vec<String>,
) -> bool {
    &&& r.wf()
    &&& r.split_document == split_document
    &&& r.word_annotations == word_annotations
    &&& r.struct_annotations == struct_annotations
    &&& r.token_count_id == token_count_id
    &&& r.text_attributes == text_attributes
    &&& r.add_most_common_words == add_most_common_words
    &&& r.save_whitespace_per_token == save_whitespace_per_token
    &&& r.pos_index_attributes == pos_index_attributes
    &&& r.text_tags == text_tags
    &&& r.current_part_tokens@.len() == 0
    &&& str_set_contents(r.all_word_level_annotations) == Set::<Seq<char>>::empty()
    &&& r.part_attributes@.len() == 0
    &&& r.upper_level@.len() == 0
    &&& r.current_token_lookup@.len() == 0
    &&& views(r.dump@) == seq![Seq::<char>::empty()]
    &&& r.token_count == 0
    &&& lines_view(r.lines@) == seq![seq![0i64]]
    &&& r.most_common_words@.len() == 0
    &&& !r.in_word
    &&& str_map_contents(r.word_attrs).dom() == Set::<Seq<char>>::empty()
    &&& r.current_word_content@.len() == 0
    &&& r.current_parts@.len() == 0
    &&& r.start_tag@.len() == 0
    &&& r.token_log@.len() == 0
}

impl StrixParser {
    /// What every handler keeps.
    pub open spec fn wf(&self) -> bool {
        &&& self.dump@.len() >= 1
        &&& self.lines@.len() >= 1
        &&& forall|i: int| 0 <= i < self.lines@.len() ==> (#[trigger] self.lines@[i])@.len() >= 1
        &&& 0 <= self.token_count
        &&& self.word_annotations.wf()
        &&& self.struct_annotations.wf()
        &&& self.text_attributes.wf()
        &&& self.part_attributes.wf()
        &&& self.upper_level.wf()
        &&& all_text_values(self.part_attributes@)
        &&& all_text_values(self.upper_level@)
    }

    /// The configuration, fixed for the whole parse, is the same in both.
    pub open spec fn same_config(&self, other: &StrixParser) -> bool {
        &&& self.split_document == other.split_document
        &&& self.word_annotations == other.word_annotations
        &&& self.struct_annotations == other.struct_annotations
        &&& self.token_count_id == other.token_count_id
        &&& self.text_attributes == other.text_attributes
        &&& self.add_most_common_words == other.add_most_common_words
        &&& self.save_whitespace_per_token == other.save_whitespace_per_token
        &&& self.pos_index_attributes == other.pos_index_attributes
        &&& self.text_tags == other.text_tags
    }

    /// A parser at the start of a file.
    pub fn new(
        split_document: String,
        word_annotations: JsonMap,
        struct_annotations: JsonMap,
        token_count_id: bool,
        text_attributes: JsonMap,
        add_most_common_words: bool,
        save_whitespace_per_token: bool,
        pos_index_attributes: Vec<String>,
        text_tags: Vec<String>,
    ) -> (r: StrixParser)
        requires
            word_annotations.wf(),
            struct_annotations.wf(),
            text_attributes.wf(),
        ensures
            fresh_parser(
                r,
                split_document,
                word_annotations,
                struct_annotations,
                token_count_id,
                text_attributes,
                add_most_common_words,
                save_whitespace_per_token,
                pos_index_attributes,
                text_tags,
            ),
    {
        let mut dump: Vec<String> = Vec::new();
        dump.push(String::new());
        let mut first_line: Vec<i64> = Vec::new();
        first_line.push(0);
        let mut lines: Vec<Vec<i64>> = Vec::new();
        lines.push(first_line);
        let r = StrixParser {
            split_document,
            word_annotations,
            struct_annotations,
            token_count_id,
            text_attributes,
            add_most_common_words,
            save_whitespace_per_token,
            pos_index_attributes,
            text_tags,
            current_part_tokens: Vec::new(),
            all_word_level_annotations: StrSet::new(),
            part_attributes: JsonMap::new(),
            upper_level: JsonMap::new(),
            current_token_lookup: Vec::new(),
            dump,
            token_count: 0,
            lines,
            most_common_words: Vec::new(),
            in_word: false,
            word_attrs: StrMap::new(),
            current_word_content: String::new(),
            current_parts: Vec::new(),
            start_tag: Vec::new(),
            token_log: Vec::new(),
        };
        assert(views(r.dump@) =~= seq![Seq::<char>::empty()]);
        assert(lines_view(r.lines@) =~= seq![seq![0i64]]);
        r
    }

    /// The parts cut so far.
    pub fn get_result(self) -> (r: Vec<Part>)
        ensures
            r == self.current_parts,
    {
        self.current_parts
    }
}


// ---------------------------------------------------------------- text

/// The white space that follows a token, from its `_tail` attribute: the
/// escapes `\s`, `\n`, `\t` read as space, newline and nothing.
pub open spec fn tail_whitespace(word_attrs: Map<Seq<char>, Seq<char>>) -> Seq<char> {
    let t = if word_attrs.contains_key("_tail"@) {
        replace(replace(replace(word_attrs["_tail"@], "\\s"@, " "@), "\\n"@, "y"@), "\\t"@, "x"@)
    } else {
        Seq::<char>::empty()
    };
    replace(replace(t, "x"@, Seq::<char>::empty()), "y"@, "\n"@)
}

/// The dump and the lines after one white-space character, with `tc`
/// tokens read so far: the character goes at the end of the dump, and a
/// newline starts a new dump line and a new line of token positions.
pub open spec fn ws_step(d: Seq<Seq<char>>, l: Seq<Seq<i64>>, tc: int, c: char) -> (Seq<Seq<char>>, Seq<Seq<i64>>) {
    let d1 = d.update(d.len() - 1, d.last().push(c));
    if c == '\n' {
        let begin = l.last()[0];
        let last = if begin == tc { seq![-1i64] } else { seq![begin, (tc - 1) as i64] };
        (d1.push(Seq::<char>::empty()), l.update(l.len() - 1, last).push(seq![tc as i64]))
    } else {
        (d1, l)
    }
}

/// `ws_step` for each character of `ws` in turn.
pub open spec fn ws_fold(d: Seq<Seq<char>>, l: Seq<Seq<i64>>, tc: int, ws: Seq<char>) -> (Seq<Seq<char>>, Seq<Seq<i64>>)
    decreases ws.len(),
{
    if ws.len() == 0 {
        (d, l)
    } else {
        let p = ws_fold(d, l, tc, ws.drop_last());
        ws_step(p.0, p.1, tc, ws.last())
    }
}

pub proof fn lemma_ws_fold_shape(d: Seq<Seq<char>>, l: Seq<Seq<i64>>, tc: int, ws: Seq<char>)
    requires
        d.len() >= 1,
        l.len() >= 1,
        forall|i: int| 0 <= i < l.len() ==> (#[trigger] l[i]).len() >= 1,
    ensures
        ws_fold(d, l, tc, ws).0.len() >= 1,
        ws_fold(d, l, tc, ws).1.len() >= 1,
        forall|i: int| 0 <= i < ws_fold(d, l, tc, ws).1.len() ==> (#[trigger] ws_fold(d, l, tc, ws).1[i]).len() >= 1,
    decreases ws.len(),
{
    if ws.len() > 0 {
        lemma_ws_fold_shape(d, l, tc, ws.drop_last());
    }
}

/// The lines of a dump, one after another.
pub open spec fn dump_text(d: Seq<Seq<char>>) -> Seq<char>
    decreases d.len(),
{
    if d.len() == 0 {
        Seq::<char>::empty()
    } else {
        dump_text(d.drop_last()) + d.last()
    }
}

/// White space after a token goes into the dump as it is, and each newline
/// in it starts one more dump line and one more line of token positions.
pub proof fn law_whitespace_dump(d: Seq<Seq<char>>, l: Seq<Seq<i64>>, tc: int, ws: Seq<char>)
    requires
        d.len() >= 1,
        l.len() >= 1,
        forall|i: int| 0 <= i < l.len() ==> (#[trigger] l[i]).len() >= 1,
    ensures
        dump_text(ws_fold(d, l, tc, ws).0) == dump_text(d) + ws,
        ws_fold(d, l, tc, ws).0.len() == d.len() + count_char(ws, '\n'),
        ws_fold(d, l, tc, ws).1.len() == l.len() + count_char(ws, '\n'),
    decreases ws.len(),
{
    if ws.len() == 0 {
        assert(dump_text(d) + ws =~= dump_text(d));
    } else {
        law_whitespace_dump(d, l, tc, ws.drop_last());
        lemma_ws_fold_shape(d, l, tc, ws.drop_last());
        let p = ws_fold(d, l, tc, ws.drop_last());
        let c = ws.last();
        let d1 = p.0.update(p.0.len() - 1, p.0.last().push(c));
        assert(d1.drop_last() =~= p.0.drop_last());
        assert(dump_text(d1) =~= dump_text(p.0).push(c));
        if c == '\n' {
            let d2 = d1.push(Seq::<char>::empty());
            assert(d2.drop_last() =~= d1);
            assert(dump_text(d2) =~= dump_text(d1));
        }
        assert(ws.drop_last().push(c) =~= ws);
        assert(dump_text(d) + ws =~= (dump_text(d) + ws.drop_last()).push(c));
    }
}

/// What text does to the state.
pub open spec fn data_handled(old: &StrixParser, new: &StrixParser, data: Seq<char>, tag: Seq<u8>) -> bool {
    &&& old.in_word ==> new.current_word_content@ == old.current_word_content@ + trim(data)
    &&& !old.in_word ==> new.current_word_content == old.current_word_content
    &&& ({
        let active = !old.in_word && lossy_text(tag) == "token"@;
        let ws = tail_whitespace(str_map_contents(old.word_attrs));
        let n = old.current_token_lookup@.len();
        &&& active ==> (views(new.dump@), lines_view(new.lines@)) == ws_fold(
            views(old.dump@),
            lines_view(old.lines@),
            old.token_count as int,
            ws,
        )
        &&& !active ==> new.dump == old.dump && new.lines == old.lines
        &&& new.current_token_lookup@.len() == n
        &&& forall|i: int| 0 <= i < n - 1 ==> (#[trigger] new.current_token_lookup@[i]) == old.current_token_lookup@[i]
        &&& n > 0 ==> {
            let a = new.current_token_lookup@[n - 1];
            let b = old.current_token_lookup@[n - 1];
            &&& a.word == b.word
            &&& a.attrs == b.attrs
            &&& a.position == b.position
            &&& a.whitespace == if active && old.save_whitespace_per_token && ws.len() > 0 { Some(ws.last()) } else { b.whitespace }
        }
    })
    &&& new.current_part_tokens == old.current_part_tokens
    &&& new.all_word_level_annotations == old.all_word_level_annotations
    &&& new.part_attributes == old.part_attributes
    &&& new.upper_level == old.upper_level
    &&& new.token_count == old.token_count
    &&& new.most_common_words == old.most_common_words
    &&& new.in_word == old.in_word
    &&& new.word_attrs == old.word_attrs
    &&& new.current_parts == old.current_parts
    &&& new.start_tag == old.start_tag
    &&& new.token_log == old.token_log
}

impl StrixParser {
    /// Appends one white-space character after the last token.
    fn add_whitespace(&mut self, c: char)
        requires
            old(self).wf(),
        ensures
            final(self).wf(),
            final(self).same_config(old(self)),
            (views(final(self).dump@), lines_view(final(self).lines@)) == ws_step(
                views(old(self).dump@),
                lines_view(old(self).lines@),
                old(self).token_count as int,
                c,
            ),
            final(self).current_token_lookup@.len() == old(self).current_token_lookup@.len(),
            forall|i: int| 0 <= i < old(self).current_token_lookup@.len() - 1 ==> (#[trigger] final(self).current_token_lookup@[i]) == old(self).current_token_lookup@[i],
            old(self).current_token_lookup@.len() > 0 ==> {
                let n = old(self).current_token_lookup@.len() - 1;
                let a = final(self).current_token_lookup@[n];
                let b = old(self).current_token_lookup@[n];
                &&& a.word == b.word
                &&& a.attrs == b.attrs
                &&& a.position == b.position
                &&& a.whitespace == if old(self).save_whitespace_per_token { Some(c) } else { b.whitespace }
            },
            final(self).current_part_tokens == old(self).current_part_tokens,
            final(self).all_word_level_annotations == old(self).all_word_level_annotations,
            final(self).part_attributes == old(self).part_attributes,
            final(self).upper_level == old(self).upper_level,
            final(self).token_count == old(self).token_count,
            final(self).most_common_words == old(self).most_common_words,
            final(self).in_word == old(self).in_word,
            final(self).word_attrs == old(self).word_attrs,
            final(self).current_word_content == old(self).current_word_content,
            final(self).current_parts == old(self).current_parts,
            final(self).start_tag == old(self).start_tag,
            final(self).token_log == old(self).token_log,
    {
        let ghost d0 = views(self.dump@);
        let ghost l0 = lines_view(self.lines@);
        let mut last = self.dump.pop().unwrap();
        push_char(&mut last, c);
        self.dump.push(last);
        assert(views(self.dump@) =~= d0.update(d0.len() - 1, d0.last().push(c)));
        if self.save_whitespace_per_token {
            if self.current_token_lookup.len() > 0 {
                let mut t = self.current_token_lookup.pop().unwrap();
                t.whitespace = Some(c);
                self.current_token_lookup.push(t);
            }
        }
        if c == '\n' {
            let current_token = self.token_count - 1;
            self.dump.push(String::new());
            let last_line = self.lines.pop().unwrap();
            let begin = last_line[0];
            let mut new_last: Vec<i64> = Vec::new();
            if begin == current_token + 1 {
                new_last.push(-1);
            } else {
                new_last.push(begin);
                new_last.push(current_token);
            }
            self.lines.push(new_last);
            let mut next: Vec<i64> = Vec::new();
            next.push(current_token + 1);
            self.lines.push(next);
            proof {
                let d1 = d0.update(d0.len() - 1, d0.last().push(c));
                assert(views(self.dump@) =~= d1.push(Seq::<char>::empty()));
                let last_v = if begin == self.token_count { seq![-1i64] } else { seq![begin, (self.token_count - 1) as i64] };
                assert(new_last@ =~= last_v);
                assert(lines_view(self.lines@) =~= l0.update(l0.len() - 1, last_v).push(seq![self.token_count as i64]));
            }
        } else {
            assert(lines_view(self.lines@) =~= l0);
        }
    }

    /// The text handler: text inside a token is gathered; after a token
    /// its tail white space goes to the dump, and each newline starts a line.
    pub fn handle_data(&mut self, data: &str, tag: &[u8])
        requires
            old(self).wf(),
        ensures
            final(self).wf(),
            final(self).same_config(old(self)),
            data_handled(old(self), final(self), data@, tag@),
    {
        if self.in_word {
            let t = trim_str(data);
            self.current_word_content.append(t.as_str());
            return;
        }
        let tag_str = from_utf8_lossy(tag);
        if !str_eq(tag_str.as_str(), "token") {
            return;
        }
        proof {
            reveal_strlit("\\s");
            reveal_strlit("\\n");
            reveal_strlit("\\t");
            reveal_strlit("x");
            reveal_strlit("y");
        }
        let whitespaces = match self.word_attrs.get("_tail") {
            Some(tail) => {
                let a = replace_str(tail.as_str(), "\\s", " ");
                let b = replace_str(a.as_str(), "\\n", "y");
                replace_str(b.as_str(), "\\t", "x")
            },
            None => String::new(),
        };
        let e = String::new();
        let w1 = replace_str(whitespaces.as_str(), "x", e.as_str());
        let ws = replace_str(w1.as_str(), "y", "\n");
        assert(ws@ == tail_whitespace(str_map_contents(self.word_attrs)));
        let cs = chars_of(ws.as_str());
        let ghost d0 = views(self.dump@);
        let ghost l0 = lines_view(self.lines@);
        let ghost tc = self.token_count as int;
        let ghost lk0 = self.current_token_lookup@;
        let ghost start = *self;
        let mut i: usize = 0;
        assert(cs@.take(0) =~= Seq::<char>::empty());
        while i < cs.len()
            invariant
                self.wf(),
                self.same_config(&start),
                i <= cs.len(),
                cs@ == ws@,
                tc == self.token_count as int,
                (views(self.dump@), lines_view(self.lines@)) == ws_fold(d0, l0, tc, cs@.take(i as int)),
                self.current_token_lookup@.len() == lk0.len(),
                forall|j: int| 0 <= j < lk0.len() - 1 ==> (#[trigger] self.current_token_lookup@[j]) == lk0[j],
                lk0.len() > 0 ==> {
                    let a = self.current_token_lookup@[lk0.len() - 1];
                    let b = lk0[lk0.len() - 1];
                    &&& a.word == b.word
                    &&& a.attrs == b.attrs
                    &&& a.position == b.position
                    &&& a.whitespace == if self.save_whitespace_per_token && i > 0 { Some(cs@[i - 1]) } else { b.whitespace }
                },
                self.current_part_tokens == start.current_part_tokens,
                self.all_word_level_annotations == start.all_word_level_annotations,
                self.part_attributes == start.part_attributes,
                self.upper_level == start.upper_level,
                self.token_log == start.token_log,
                self.most_common_words == start.most_common_words,
                self.in_word == start.in_word,
                self.word_attrs == start.word_attrs,
                self.current_word_content == start.current_word_content,
                self.current_parts == start.current_parts,
                self.start_tag == start.start_tag,
            decreases cs.len() - i,
        {
            assert(cs@.take(i + 1).drop_last() =~= cs@.take(i as int));
            self.add_whitespace(cs[i]);
            i = i + 1;
        }
        assert(cs@.take(cs.len() as int) =~= cs@);
    }
}


// ---------------------------------------------------------------- start tags

/// The configuration under `key` is set to true.
pub open spec fn conf_flag(conf: Option<JsonV>, key: Seq<char>) -> bool {
    match conf {
        Some(c) => field(c, key) == Some(JsonV::Bool(true)),
        None => false,
    }
}

/// The value `value` of an attribute becomes under the name `name`: split at
/// `|` into a set where the configuration says `set` or the value is
/// enclosed in `|`, and `inf` read as `Infinity` for a `double`.
pub open spec fn text_attr_value(ta: Seq<(Seq<char>, JsonV)>, name: Seq<char>, value: Seq<char>) -> JsonV {
    let conf = obj_get(ta, name);
    let piped = value.len() > 0 && value[0] == '|' && value.last() == '|';
    let v1 = if conf_flag(conf, "set"@) || piped {
        JsonV::Array(str_values(split_on(value, '|')))
    } else {
        JsonV::Str(value)
    };
    let is_double = match conf {
        Some(c) => field(c, "type"@) == Some(JsonV::Str("double"@)),
        None => false,
    };
    if is_double && v1 == JsonV::Str("inf"@) {
        JsonV::Str("Infinity"@)
    } else {
        v1
    }
}

/// Where computing `text_attr_value` fails: a `type` that is not a string,
/// or a `double` whose value is a set.
pub open spec fn text_attr_value_fails(ta: Seq<(Seq<char>, JsonV)>, name: Seq<char>, value: Seq<char>) -> bool {
    match obj_get(ta, name) {
        Some(c) => match field(c, "type"@) {
            Some(t) => !(t is Str) || (t == JsonV::Str("double"@) && text_attr_value(ta, name, value) is Array),
            None => false,
        },
        None => false,
    }
}

/// Under the split element, the name an attribute `attr_name` takes for the
/// configured text attribute `entry`: its own name when it is the text
/// attribute, the text attribute's name when that names it as `nodeName`.
pub open spec fn split_name(entry: (Seq<char>, JsonV), attr_name: Seq<char>) -> Option<Seq<char>> {
    if attr_name == entry.0 {
        Some(attr_name)
    } else if field(entry.1, "nodeName"@) == Some(JsonV::Str(attr_name)) {
        Some(entry.0)
    } else {
        None
    }
}

pub open spec fn split_step(ta: Seq<(Seq<char>, JsonV)>, entry: (Seq<char>, JsonV), pair: (Seq<char>, Seq<char>), acc: Seq<(Seq<char>, JsonV)>) -> Seq<(Seq<char>, JsonV)> {
    match split_name(entry, pair.0) {
        Some(n) => obj_insert(acc, n, text_attr_value(ta, n, pair.1)),
        None => acc,
    }
}

pub open spec fn split_inner(ta: Seq<(Seq<char>, JsonV)>, entry: (Seq<char>, JsonV), l: Seq<(Seq<char>, Seq<char>)>, acc: Seq<(Seq<char>, JsonV)>) -> Seq<(Seq<char>, JsonV)>
    decreases l.len(),
{
    if l.len() == 0 {
        acc
    } else {
        split_step(ta, entry, l.last(), split_inner(ta, entry, l.drop_last(), acc))
    }
}

pub open spec fn split_outer(ta: Seq<(Seq<char>, JsonV)>, es: Seq<(Seq<char>, JsonV)>, l: Seq<(Seq<char>, Seq<char>)>, acc: Seq<(Seq<char>, JsonV)>) -> Seq<(Seq<char>, JsonV)>
    decreases es.len(),
{
    if es.len() == 0 {
        acc
    } else {
        split_inner(ta, es.last(), l, split_outer(ta, es.drop_last(), l, acc))
    }
}

/// Binds each key of `e` in turn.
pub open spec fn insert_all(acc: Seq<(Seq<char>, JsonV)>, e: Seq<(Seq<char>, JsonV)>) -> Seq<(Seq<char>, JsonV)>
    decreases e.len(),
{
    if e.len() == 0 {
        acc
    } else {
        obj_insert(insert_all(acc, e.drop_last()), e.last().0, e.last().1)
    }
}

/// The attributes of a part, at its split element: for each configured text
/// attribute and each attribute of the element (in the order `l` lists
/// them), the matching ones, then those of the enclosing elements.
pub open spec fn split_attributes(ta: Seq<(Seq<char>, JsonV)>, l: Seq<(Seq<char>, Seq<char>)>, upper: Seq<(Seq<char>, JsonV)>) -> Seq<(Seq<char>, JsonV)> {
    insert_all(split_outer(ta, ta, l, Seq::<(Seq<char>, JsonV)>::empty()), upper)
}

/// Above the split element, an attribute `attr_name` of element `tag`
/// matches the text attribute `entry` when `tag_attr_name` is its name or
/// its `nodeName`.
pub open spec fn upper_matches(tag: Seq<char>, entry: (Seq<char>, JsonV), attr_name: Seq<char>) -> bool {
    let n = tag + "_"@ + attr_name;
    n == entry.0 || field(entry.1, "nodeName"@) == Some(JsonV::Str(n))
}

pub open spec fn upper_step(ta: Seq<(Seq<char>, JsonV)>, tag: Seq<char>, entry: (Seq<char>, JsonV), pair: (Seq<char>, Seq<char>), acc: Seq<(Seq<char>, JsonV)>) -> Seq<(Seq<char>, JsonV)> {
    if upper_matches(tag, entry, pair.0) {
        obj_insert(acc, entry.0, text_attr_value(ta, entry.0, pair.1))
    } else {
        acc
    }
}

pub open spec fn upper_inner(ta: Seq<(Seq<char>, JsonV)>, tag: Seq<char>, entry: (Seq<char>, JsonV), l: Seq<(Seq<char>, Seq<char>)>, acc: Seq<(Seq<char>, JsonV)>) -> Seq<(Seq<char>, JsonV)>
    decreases l.len(),
{
    if l.len() == 0 {
        acc
    } else {
        upper_step(ta, tag, entry, l.last(), upper_inner(ta, tag, entry, l.drop_last(), acc))
    }
}

/// The attributes an element above the split element hands down to the
/// parts below it.
pub open spec fn upper_attributes(ta: Seq<(Seq<char>, JsonV)>, tag: Seq<char>, es: Seq<(Seq<char>, JsonV)>, l: Seq<(Seq<char>, Seq<char>)>, acc: Seq<(Seq<char>, JsonV)>) -> Seq<(Seq<char>, JsonV)>
    decreases es.len(),
{
    if es.len() == 0 {
        acc
    } else {
        upper_inner(ta, tag, es.last(), l, upper_attributes(ta, tag, es.drop_last(), l, acc))
    }
}

/// The attributes of a start tag as a list of pairs.
pub open spec fn pairs_view(r: Seq<(&String, &String)>) -> Seq<(Seq<char>, Seq<char>)> {
    r.map_values(|p: (&String, &String)| (p.0@, p.1@))
}

/// `l` lists each pair of `c` once, in some order.
pub open spec fn is_listing(l: Seq<(Seq<char>, Seq<char>)>, c: Map<Seq<char>, Seq<char>>) -> bool {
    &&& forall|i: int, j: int| 0 <= i < j < l.len() ==> (#[trigger] l[i]).0 != (#[trigger] l[j]).0
    &&& forall|i: int| 0 <= i < l.len() ==> c.contains_key((#[trigger] l[i]).0) && c[l[i].0] == l[i].1
    &&& forall|k: Seq<char>| #[trigger] c.contains_key(k) ==> exists|i: int| 0 <= i < l.len() && (#[trigger] l[i]).0 == k
}

/// Under the split element, the attribute `k` with value `v` cannot be
/// taken for the text attribute `entry`.
pub open spec fn split_pair_fails(ta: Seq<(Seq<char>, JsonV)>, entry: (Seq<char>, JsonV), k: Seq<char>, v: Seq<char>) -> bool {
    match split_name(entry, k) {
        Some(n) => text_attr_value_fails(ta, n, v),
        None => false,
    }
}

/// Above the split element, the attribute `k` with value `v` of element
/// `tag` cannot be checked against, or taken for, the text attribute `entry`.
pub open spec fn upper_pair_fails(ta: Seq<(Seq<char>, JsonV)>, tag: Seq<char>, entry: (Seq<char>, JsonV), k: Seq<char>, v: Seq<char>) -> bool {
    let bad_node_name = match field(entry.1, "nodeName"@) {
        Some(x) => !(x is Str),
        None => false,
    };
    ||| (tag + "_"@ + k != entry.0 && bad_node_name)
    ||| (upper_matches(tag, entry, k) && text_attr_value_fails(ta, entry.0, v))
}

/// Where a start tag makes the parse fail: a text attribute value that
/// cannot be computed, a `nodeName` that is not a string, or a structural or
/// word annotation element, which are not supported.
pub open spec fn starttag_fails(p: &StrixParser, tag: Seq<char>, attrs: Map<Seq<char>, Seq<char>>) -> bool {
    let ta = p.text_attributes@;
    if ta.len() > 0 && views(p.text_tags@).contains(tag) {
        if tag == p.split_document@ {
            exists|i: int, k: Seq<char>| 0 <= i < ta.len() && #[trigger] attrs.contains_key(k)
                && #[trigger] split_pair_fails(ta, ta[i], k, attrs[k])
        } else {
            exists|i: int, k: Seq<char>| 0 <= i < ta.len() && #[trigger] attrs.contains_key(k)
                && #[trigger] upper_pair_fails(ta, tag, ta[i], k, attrs[k])
        }
    } else if tag == "token"@ {
        false
    } else {
        obj_get(p.struct_annotations@, tag) is Some || obj_get(p.word_annotations@, tag) is Some
    }
}

pub proof fn lemma_text_attr_value_text(ta: Seq<(Seq<char>, JsonV)>, name: Seq<char>, value: Seq<char>)
    ensures
        is_text_value(text_attr_value(ta, name, value)),
        json_wf(text_attr_value(ta, name, value)),
{
    let v = text_attr_value(ta, name, value);
    if let JsonV::Array(s) = v {
        assert forall|i: int| 0 <= i < s.len() implies (#[trigger] s[i]) is Str && json_wf(s[i]) by {
        }
    }
}

/// Computes `text_attr_value`, or `None` where `text_attr_value_fails`.
fn compute_text_attr_value(ta: &JsonMap, name: &str, value: &String) -> (r: Option<Json>)
    requires
        ta.wf(),
    ensures
        r is None <==> text_attr_value_fails(ta@, name@, value@),
        r matches Some(j) ==> j@ == text_attr_value(ta@, name@, value@),
{
    proof { lemma_text_attr_value_text(ta@, name@, value@); }
    let conf = ta.get(name);
    let is_set = match conf {
        Some(c) => match c.get("set") {
            Some(v) => match v.as_bool() {
                Some(b) => b,
                None => false,
            },
            None => false,
        },
        None => false,
    };
    let piped = starts_with_char(value.as_str(), '|') && ends_with_char(value.as_str(), '|');
    let v1 = if is_set || piped {
        string_array(split_char(value.as_str(), '|'))
    } else {
        Json::Str(value.clone())
    };
    assert(v1@ == if conf_flag(obj_get(ta@, name@), "set"@) || (value@.len() > 0 && value@[0] == '|' && value@.last() == '|') {
        JsonV::Array(str_values(split_on(value@, '|')))
    } else {
        JsonV::Str(value@)
    });
    let is_double = match conf {
        Some(c) => match c.get("type") {
            Some(t) => match t.as_str() {
                Some(s) => str_eq(s.as_str(), "double"),
                None => {
                    return None;
                },
            },
            None => false,
        },
        None => false,
    };
    if is_double {
        match v1.as_str() {
            Some(s) => {
                if str_eq(s.as_str(), "inf") {
                    Some(Json::Str(String::from_str("Infinity")))
                } else {
                    Some(v1)
                }
            },
            None => None,
        }
    } else {
        Some(v1)
    }
}


pub proof fn lemma_insert_text(e: Seq<(Seq<char>, JsonV)>, k: Seq<char>, v: JsonV)
    requires
        all_text_values(e),
        is_text_value(v),
    ensures
        all_text_values(obj_insert(e, k, v)),
{
    crate::json::lemma_insert_keys(e, k, v);
    let r = obj_insert(e, k, v);
    assert forall|i: int| 0 <= i < r.len() implies is_text_value(#[trigger] r[i].1) by {
        if r[i] != (k, v) {
            let j = choose|j: int| 0 <= j < e.len() && e[j] == r[i];
            assert(is_text_value(e[j].1));
        }
    }
}

/// Binds each entry of `src` in `acc`, in order.
pub fn insert_all_from(acc: &mut JsonMap, src: &JsonMap)
    requires
        old(acc).wf(),
        src.wf(),
    ensures
        final(acc)@ == insert_all(old(acc)@, src@),
        final(acc).wf(),
        all_text_values(old(acc)@) && all_text_values(src@) ==> all_text_values(final(acc)@),
{
    let ghost a0 = acc@;
    let mut i: usize = 0;
    proof { lemma_entries_view(src.entries@); }
    assert(src@.take(0) =~= Seq::<(Seq<char>, JsonV)>::empty());
    while i < src.entries.len()
        invariant
            i <= src.entries.len(),
            src.wf(),
            entries_view_len(src),
            acc.wf(),
            acc@ == insert_all(a0, src@.take(i as int)),
            all_text_values(a0) && all_text_values(src@) ==> all_text_values(acc@),
        decreases src.entries.len() - i,
    {
        proof {
            lemma_entries_view(src.entries@);
            assert(src@.take(i + 1).drop_last() =~= src@.take(i as int));
            assert(json_wf(src@[i as int].1));
            if all_text_values(a0) && all_text_values(src@) {
                assert(is_text_value(src@[i as int].1));
                lemma_insert_text(acc@, src@[i as int].0, src@[i as int].1);
            }
        }
        let k = src.entries[i].0.clone();
        let v = copy_json(&src.entries[i].1);
        acc.insert(k, v);
        i = i + 1;
    }
    assert(src@.take(src.entries.len() as int) =~= src@);
}

/// The length of an object's entries is that of its view.
pub open spec fn entries_view_len(m: &JsonMap) -> bool {
    m@.len() == m.entries@.len()
}

impl StrixParser {
    /// `split_name`, computed.
    fn compute_split_name(entry: &(String, Json), attr_name: &String) -> (r: Option<String>)
        ensures
            match r {
                Some(n) => split_name((entry.0@, entry.1@), attr_name@) == Some(n@),
                None => split_name((entry.0@, entry.1@), attr_name@) is None,
            },
    {
        if str_eq(attr_name.as_str(), entry.0.as_str()) {
            return Some(attr_name.clone());
        }
        match entry.1.get("nodeName") {
            Some(x) => match x.as_str() {
                Some(s) => if str_eq(s.as_str(), attr_name.as_str()) {
                    Some(entry.0.clone())
                } else {
                    None
                },
                None => None,
            },
            None => None,
        }
    }

    /// The attributes of a part at its split element (`split_attributes`),
    /// or `None` where a value cannot be computed.
    fn compute_split_attributes(&self, listing: &Vec<(&String, &String)>) -> (r: Option<JsonMap>)
        requires
            self.wf(),
        ensures
            r is None <==> exists|i: int, j: int| 0 <= i < self.text_attributes@.len() && 0 <= j < listing@.len()
                && #[trigger] split_pair_fails(self.text_attributes@, self.text_attributes@[i], pairs_view(listing@)[j].0, #[trigger] pairs_view(listing@)[j].1),
            r matches Some(m) ==> m@ == split_attributes(self.text_attributes@, pairs_view(listing@), self.upper_level@)
                && m.wf() && all_text_values(m@),
    {
        let ghost ta = self.text_attributes@;
        let ghost l = pairs_view(listing@);
        let mut acc = JsonMap::new();
        let mut i: usize = 0;
        proof { lemma_entries_view(self.text_attributes.entries@); }
        assert(ta.take(0) =~= Seq::<(Seq<char>, JsonV)>::empty());
        while i < self.text_attributes.entries.len()
            invariant
                self.wf(),
                ta == self.text_attributes@,
                l == pairs_view(listing@),
                ta.len() == self.text_attributes.entries@.len(),
                i <= ta.len(),
                acc.wf(),
                all_text_values(acc@),
                acc@ == split_outer(ta, ta.take(i as int), l, Seq::<(Seq<char>, JsonV)>::empty()),
                forall|a: int, b: int| 0 <= a < i && 0 <= b < listing@.len() ==> !#[trigger] split_pair_fails(ta, ta[a], l[b].0, #[trigger] l[b].1),
            decreases ta.len() - i,
        {
            proof {
                lemma_entries_view(self.text_attributes.entries@);
                assert(ta.take(i + 1).drop_last() =~= ta.take(i as int));
            }
            let entry = &self.text_attributes.entries[i];
            let ghost base = acc@;
            let mut j: usize = 0;
            assert(l.take(0) =~= Seq::<(Seq<char>, Seq<char>)>::empty());
            while j < listing.len()
                invariant
                    self.wf(),
                    ta == self.text_attributes@,
                    l == pairs_view(listing@),
                    l.len() == listing@.len(),
                    i < ta.len(),
                    ta[i as int] == (entry.0@, entry.1@),
                    j <= listing.len(),
                    acc.wf(),
                    all_text_values(acc@),
                    acc@ == split_inner(ta, ta[i as int], l.take(j as int), base),
                    forall|a: int, b: int| 0 <= a < i && 0 <= b < listing@.len() ==> !#[trigger] split_pair_fails(ta, ta[a], l[b].0, #[trigger] l[b].1),
                    forall|b: int| 0 <= b < j ==> !#[trigger] split_pair_fails(ta, ta[i as int], l[b].0, l[b].1),
                decreases listing.len() - j,
            {
                assert(l.take(j + 1).drop_last() =~= l.take(j as int));
                assert(l[j as int] == (listing@[j as int].0@, listing@[j as int].1@));
                let name = Self::compute_split_name(entry, listing[j].0);
                match name {
                    Some(n) => {
                        let v = compute_text_attr_value(&self.text_attributes, n.as_str(), listing[j].1);
                        match v {
                            Some(v) => {
                                proof {
                                    lemma_text_attr_value_text(ta, n@, l[j as int].1);
                                    lemma_insert_text(acc@, n@, v@);
                                }
                                acc.insert(n, v);
                            },
                            None => {
                                assert(split_pair_fails(ta, ta[i as int], l[j as int].0, l[j as int].1));
                                return None;
                            },
                        }
                    },
                    None => {},
                }
                j = j + 1;
            }
            assert(l.take(listing.len() as int) =~= l);
            i = i + 1;
        }
        assert(ta.take(ta.len() as int) =~= ta);
        insert_all_from(&mut acc, &self.upper_level);
        Some(acc)
    }
}


impl StrixParser {
    /// The attributes an element above the split element hands down
    /// (`upper_attributes`, starting from `base`), or `None` where a
    /// `nodeName` or a value cannot be read.
    fn compute_upper_attributes(&self, tag: &String, listing: &Vec<(&String, &String)>, base: JsonMap) -> (r: Option<JsonMap>)
        requires
            self.wf(),
            base.wf(),
            all_text_values(base@),
        ensures
            r is None <==> exists|i: int, j: int| 0 <= i < self.text_attributes@.len() && 0 <= j < listing@.len()
                && #[trigger] upper_pair_fails(self.text_attributes@, tag@, self.text_attributes@[i], pairs_view(listing@)[j].0, #[trigger] pairs_view(listing@)[j].1),
            r matches Some(m) ==> m@ == upper_attributes(self.text_attributes@, tag@, self.text_attributes@, pairs_view(listing@), base@)
                && m.wf() && all_text_values(m@),
    {
        let ghost ta = self.text_attributes@;
        let ghost l = pairs_view(listing@);
        let ghost b0 = base@;
        let mut acc = base;
        let mut i: usize = 0;
        proof { lemma_entries_view(self.text_attributes.entries@); }
        assert(ta.take(0) =~= Seq::<(Seq<char>, JsonV)>::empty());
        while i < self.text_attributes.entries.len()
            invariant
                self.wf(),
                ta == self.text_attributes@,
                l == pairs_view(listing@),
                ta.len() == self.text_attributes.entries@.len(),
                i <= ta.len(),
                acc.wf(),
                all_text_values(acc@),
                acc@ == upper_attributes(ta, tag@, ta.take(i as int), l, b0),
                forall|a: int, b: int| 0 <= a < i && 0 <= b < listing@.len() ==> !#[trigger] upper_pair_fails(ta, tag@, ta[a], l[b].0, #[trigger] l[b].1),
            decreases ta.len() - i,
        {
            proof {
                lemma_entries_view(self.text_attributes.entries@);
                assert(ta.take(i + 1).drop_last() =~= ta.take(i as int));
            }
            let entry = &self.text_attributes.entries[i];
            let ghost base_i = acc@;
            let mut j: usize = 0;
            assert(l.take(0) =~= Seq::<(Seq<char>, Seq<char>)>::empty());
            while j < listing.len()
                invariant
                    self.wf(),
                    ta == self.text_attributes@,
                    l == pairs_view(listing@),
                    l.len() == listing@.len(),
                    i < ta.len(),
                    ta[i as int] == (entry.0@, entry.1@),
                    j <= listing.len(),
                    acc.wf(),
                    all_text_values(acc@),
                    acc@ == upper_inner(ta, tag@, ta[i as int], l.take(j as int), base_i),
                    forall|a: int, b: int| 0 <= a < i && 0 <= b < listing@.len() ==> !#[trigger] upper_pair_fails(ta, tag@, ta[a], l[b].0, #[trigger] l[b].1),
                    forall|b: int| 0 <= b < j ==> !#[trigger] upper_pair_fails(ta, tag@, ta[i as int], l[b].0, l[b].1),
                decreases listing.len() - j,
            {
                assert(l.take(j + 1).drop_last() =~= l.take(j as int));
                assert(l[j as int] == (listing@[j as int].0@, listing@[j as int].1@));
                let mut n = tag.clone();
                n.append("_");
                n.append(listing[j].0.as_str());
                let same = str_eq(n.as_str(), entry.0.as_str());
                let mut matched = same;
                if !same {
                    match entry.1.get("nodeName") {
                        Some(x) => match x.as_str() {
                            Some(s) => {
                                matched = str_eq(s.as_str(), n.as_str());
                            },
                            None => {
                                assert(upper_pair_fails(ta, tag@, ta[i as int], l[j as int].0, l[j as int].1));
                                return None;
                            },
                        },
                        None => {},
                    }
                }
                assert(matched == upper_matches(tag@, ta[i as int], l[j as int].0));
                if matched {
                    let v = compute_text_attr_value(&self.text_attributes, entry.0.as_str(), listing[j].1);
                    match v {
                        Some(v) => {
                            proof {
                                lemma_text_attr_value_text(ta, entry.0@, l[j as int].1);
                                lemma_insert_text(acc@, entry.0@, v@);
                            }
                            acc.insert(entry.0.clone(), v);
                        },
                        None => {
                            assert(upper_pair_fails(ta, tag@, ta[i as int], l[j as int].0, l[j as int].1));
                            return None;
                        },
                    }
                }
                j = j + 1;
            }
            assert(l.take(listing.len() as int) =~= l);
            i = i + 1;
        }
        assert(ta.take(ta.len() as int) =~= ta);
        Some(acc)
    }
}


pub proof fn lemma_pairs_listing(r: Seq<(&String, &String)>, c: Map<Seq<char>, Seq<char>>)
    requires
        lists_str_pairs(r, c),
    ensures
        is_listing(pairs_view(r), c),
{
    let l = pairs_view(r);
    assert forall|k: Seq<char>| #[trigger] c.contains_key(k) implies exists|i: int| 0 <= i < l.len() && (#[trigger] l[i]).0 == k by {
        let i = choose|i: int| 0 <= i < r.len() && (#[trigger] r[i]).0@ == k;
        assert(l[i].0 == k);
    }
    assert forall|i: int, j: int| 0 <= i < j < l.len() implies (#[trigger] l[i]).0 != (#[trigger] l[j]).0 by {
        assert(r[i].0@ != r[j].0@);
    }
    assert forall|i: int| 0 <= i < l.len() implies c.contains_key((#[trigger] l[i]).0) && c[l[i].0] == l[i].1 by {
        assert(c.contains_key(r[i].0@));
    }
}

pub proof fn lemma_split_fails_listing(ta: Seq<(Seq<char>, JsonV)>, l: Seq<(Seq<char>, Seq<char>)>, c: Map<Seq<char>, Seq<char>>)
    requires
        is_listing(l, c),
    ensures
        (exists|i: int, j: int| 0 <= i < ta.len() && 0 <= j < l.len() && #[trigger] split_pair_fails(ta, ta[i], l[j].0, #[trigger] l[j].1))
            <==> (exists|i: int, k: Seq<char>| 0 <= i < ta.len() && #[trigger] c.contains_key(k) && #[trigger] split_pair_fails(ta, ta[i], k, c[k])),
{
    if exists|i: int, j: int| 0 <= i < ta.len() && 0 <= j < l.len() && #[trigger] split_pair_fails(ta, ta[i], l[j].0, #[trigger] l[j].1) {
        let (i, j) = choose|i: int, j: int| 0 <= i < ta.len() && 0 <= j < l.len() && #[trigger] split_pair_fails(ta, ta[i], l[j].0, #[trigger] l[j].1);
        assert(c.contains_key(l[j].0));
    }
    if exists|i: int, k: Seq<char>| 0 <= i < ta.len() && #[trigger] c.contains_key(k) && #[trigger] split_pair_fails(ta, ta[i], k, c[k]) {
        let (i, k) = choose|i: int, k: Seq<char>| 0 <= i < ta.len() && #[trigger] c.contains_key(k) && #[trigger] split_pair_fails(ta, ta[i], k, c[k]);
        let j = choose|j: int| 0 <= j < l.len() && (#[trigger] l[j]).0 == k;
        assert(split_pair_fails(ta, ta[i], l[j].0, l[j].1));
    }
}

pub proof fn lemma_upper_fails_listing(ta: Seq<(Seq<char>, JsonV)>, tag: Seq<char>, l: Seq<(Seq<char>, Seq<char>)>, c: Map<Seq<char>, Seq<char>>)
    requires
        is_listing(l, c),
    ensures
        (exists|i: int, j: int| 0 <= i < ta.len() && 0 <= j < l.len() && #[trigger] upper_pair_fails(ta, tag, ta[i], l[j].0, #[trigger] l[j].1))
            <==> (exists|i: int, k: Seq<char>| 0 <= i < ta.len() && #[trigger] c.contains_key(k) && #[trigger] upper_pair_fails(ta, tag, ta[i], k, c[k])),
{
    if exists|i: int, j: int| 0 <= i < ta.len() && 0 <= j < l.len() && #[trigger] upper_pair_fails(ta, tag, ta[i], l[j].0, #[trigger] l[j].1) {
        let (i, j) = choose|i: int, j: int| 0 <= i < ta.len() && 0 <= j < l.len() && #[trigger] upper_pair_fails(ta, tag, ta[i], l[j].0, #[trigger] l[j].1);
        assert(c.contains_key(l[j].0));
    }
    if exists|i: int, k: Seq<char>| 0 <= i < ta.len() && #[trigger] c.contains_key(k) && #[trigger] upper_pair_fails(ta, tag, ta[i], k, c[k]) {
        let (i, k) = choose|i: int, k: Seq<char>| 0 <= i < ta.len() && #[trigger] c.contains_key(k) && #[trigger] upper_pair_fails(ta, tag, ta[i], k, c[k]);
        let j = choose|j: int| 0 <= j < l.len() && (#[trigger] l[j]).0 == k;
        assert(upper_pair_fails(ta, tag, ta[i], l[j].0, l[j].1));
    }
}

/// What a start tag does to the state.
pub open spec fn tag_started(old: &StrixParser, new: &StrixParser, tag: Seq<u8>, attrs: StrMap) -> bool {
    &&& ({
        let t = lossy_text(tag);
        let ta = old.text_attributes@;
        let text_branch = ta.len() > 0 && views(old.text_tags@).contains(t);
        let fresh = old.start_tag@.len() == 0;
        let upper0 = if fresh { Seq::<(Seq<char>, JsonV)>::empty() } else { old.upper_level@ };
        &&& text_branch ==> {
            &&& new.start_tag@ == if fresh { tag } else { old.start_tag@ }
            &&& exists|l: Seq<(Seq<char>, Seq<char>)>| #[trigger] is_listing(l, str_map_contents(attrs)) && if t == old.split_document@ {
                &&& new.part_attributes@ == split_attributes(ta, l, upper0)
                &&& new.upper_level@ == upper0
            } else {
                &&& new.upper_level@ == upper_attributes(ta, t, ta, l, upper0)
                &&& new.part_attributes == old.part_attributes
            }
            &&& new.in_word == old.in_word
            &&& new.word_attrs == old.word_attrs
        }
        &&& !text_branch ==> {
            &&& new.start_tag == old.start_tag
            &&& new.part_attributes == old.part_attributes
            &&& new.upper_level == old.upper_level
            &&& if t == "token"@ {
                new.in_word && new.word_attrs == attrs
            } else {
                new.in_word == old.in_word && new.word_attrs == old.word_attrs
            }
        }
    })
    &&& new.current_part_tokens == old.current_part_tokens
    &&& new.all_word_level_annotations == old.all_word_level_annotations
    &&& new.current_token_lookup == old.current_token_lookup
    &&& new.dump == old.dump
    &&& new.token_count == old.token_count
    &&& new.lines == old.lines
    &&& new.most_common_words == old.most_common_words
    &&& new.current_word_content == old.current_word_content
    &&& new.current_parts == old.current_parts
    &&& new.token_log == old.token_log
}

impl StrixParser {
    /// Whether `handle_starttag` accepts the start tag: `!starttag_fails`.
    pub fn starttag_supported(&self, tag: &[u8], attrs: &StrMap) -> (r: bool)
        requires
            self.wf(),
        ensures
            r == !starttag_fails(self, lossy_text(tag@), str_map_contents(*attrs)),
    {
        let tag_str = from_utf8_lossy(tag);
        let ghost c = str_map_contents(*attrs);
        if self.text_attributes.len() > 0 && contains_string(&self.text_tags, tag_str.as_str()) {
            let listing = attrs.pairs();
            proof { lemma_pairs_listing(listing@, c); }
            if str_eq(tag_str.as_str(), self.split_document.as_str()) {
                proof { lemma_split_fails_listing(self.text_attributes@, pairs_view(listing@), c); }
                self.compute_split_attributes(&listing).is_some()
            } else {
                proof { lemma_upper_fails_listing(self.text_attributes@, tag_str@, pairs_view(listing@), c); }
                self.compute_upper_attributes(&tag_str, &listing, JsonMap::new()).is_some()
            }
        } else if str_eq(tag_str.as_str(), "token") {
            true
        } else {
            !(self.struct_annotations.contains_key(tag_str.as_str()) || self.word_annotations.contains_key(tag_str.as_str()))
        }
    }

    /// The start-tag handler. The first configured text element starts a
    /// new set of inherited attributes; the split element takes its text
    /// attributes; the elements above it hand theirs down; a token opens a
    /// word with its attributes.
    pub fn handle_starttag(&mut self, tag: &[u8], attrs: StrMap)
        requires
            old(self).wf(),
            !starttag_fails(old(self), lossy_text(tag@), str_map_contents(attrs)),
        ensures
            final(self).wf(),
            final(self).same_config(old(self)),
            tag_started(old(self), final(self), tag@, attrs),
    {
        let tag_str = from_utf8_lossy(tag);
        let ghost c = str_map_contents(attrs);
        if self.text_attributes.len() > 0 && contains_string(&self.text_tags, tag_str.as_str()) {
            if self.start_tag.len() == 0 {
                self.start_tag = slice_to_vec(tag);
                self.upper_level = JsonMap::new();
            }
            let listing = attrs.pairs();
            proof { lemma_pairs_listing(listing@, c); }
            if str_eq(tag_str.as_str(), self.split_document.as_str()) {
                proof { lemma_split_fails_listing(self.text_attributes@, pairs_view(listing@), c); }
                match self.compute_split_attributes(&listing) {
                    Some(m) => {
                        self.part_attributes = m;
                    },
                    None => {},
                }
            } else {
                proof { lemma_upper_fails_listing(self.text_attributes@, tag_str@, pairs_view(listing@), c); }
                let base = crate::json::copy_map(&self.upper_level);
                match self.compute_upper_attributes(&tag_str, &listing, base) {
                    Some(m) => {
                        self.upper_level = m;
                    },
                    None => {},
                }
            }
            assert(is_listing(pairs_view(listing@), c));
        } else if str_eq(tag_str.as_str(), "token") {
            self.in_word = true;
            self.word_attrs = attrs;
        }
    }
}


// ---------------------------------------------------------------- tokens

/// The string in an optional value, or the empty text.
pub open spec fn opt_str(o: Option<JsonV>) -> Seq<char> {
    match o {
        Some(JsonV::Str(s)) => s,
        _ => Seq::<char>::empty(),
    }
}

/// The optional value is a string.
pub open spec fn is_opt_str(o: Option<JsonV>) -> bool {
    match o {
        Some(JsonV::Str(_)) => true,
        _ => false,
    }
}

/// A word annotation cannot be read: it is no object, its `nodeName` or
/// `name` is no string, or the token lacks the attribute they name.
pub open spec fn annotation_fails(ann: JsonV, wa: Map<Seq<char>, Seq<char>>) -> bool {
    match ann {
        JsonV::Object(e) => match obj_get(e, "nodeName"@) {
            Some(JsonV::Str(nn)) => !wa.contains_key(nn) || !is_opt_str(obj_get(e, "name"@)),
            Some(_) => true,
            None => !is_opt_str(obj_get(e, "name"@)) || !wa.contains_key(opt_str(obj_get(e, "name"@))),
        },
        _ => true,
    }
}

/// A lemma piece kept from a `nodeName` attribute: a piece without `.` as it
/// is, else the part before `:` of a piece with `:`.
pub open spec fn keep_lemma(l: Seq<char>) -> Option<Seq<char>> {
    if l.len() > 0 && !l.contains('.') {
        Some(l)
    } else if l.contains(':') {
        Some(before_first(l, ':'))
    } else {
        None
    }
}

pub open spec fn kept_lemmas(parts: Seq<Seq<char>>) -> Seq<Seq<char>>
    decreases parts.len(),
{
    if parts.len() == 0 {
        Seq::<Seq<char>>::empty()
    } else {
        let p = kept_lemmas(parts.drop_last());
        match keep_lemma(parts.last()) {
            Some(x) => p.push(x),
            None => p,
        }
    }
}

/// The non-empty pieces.
pub open spec fn nonempty_parts(parts: Seq<Seq<char>>) -> Seq<Seq<char>>
    decreases parts.len(),
{
    if parts.len() == 0 {
        Seq::<Seq<char>>::empty()
    } else {
        let p = nonempty_parts(parts.drop_last());
        if parts.last().len() > 0 {
            p.push(parts.last())
        } else {
            p
        }
    }
}

/// The text an annotation reads from the token's attributes.
pub open spec fn annotation_base(ann: JsonV, wa: Map<Seq<char>, Seq<char>>) -> Seq<char> {
    match field(ann, "nodeName"@) {
        Some(JsonV::Str(nn)) => join(kept_lemmas(split_on(wa[nn], '|')), "|"@),
        _ => wa[opt_str(field(ann, "name"@))],
    }
}

/// The value of an annotation for a token: its text, or the set of its
/// non-empty `|` pieces, or for a ranked one the first piece up to `:`.
pub open spec fn annotation_value(ann: JsonV, wa: Map<Seq<char>, Seq<char>>) -> JsonV {
    let base = annotation_base(ann, wa);
    let pieces = nonempty_parts(split_on(base, '|'));
    if field(ann, "ranked"@) == Some(JsonV::Bool(true)) {
        if pieces.len() == 0 {
            JsonV::Null
        } else {
            JsonV::Str(before_first(pieces[0], ':'))
        }
    } else if field(ann, "set"@) == Some(JsonV::Bool(true)) {
        JsonV::Array(str_values(pieces))
    } else {
        JsonV::Str(base)
    }
}

/// The annotations of a token, each under its name, in turn.
pub open spec fn token_data_of(anns: Seq<JsonV>, wa: Map<Seq<char>, Seq<char>>) -> Seq<(Seq<char>, JsonV)>
    decreases anns.len(),
{
    if anns.len() == 0 {
        Seq::<(Seq<char>, JsonV)>::empty()
    } else {
        obj_insert(token_data_of(anns.drop_last(), wa), opt_str(field(anns.last(), "name"@)), annotation_value(anns.last(), wa))
    }
}

/// The names of the annotations.
pub open spec fn annotation_names(anns: Seq<JsonV>) -> Seq<Seq<char>> {
    anns.map_values(|a: JsonV| opt_str(field(a, "name"@)))
}

/// The configured word annotations: those under `token`.
pub open spec fn word_annotation_list(wa: Seq<(Seq<char>, JsonV)>) -> Seq<JsonV> {
    match obj_get(wa, "token"@) {
        Some(JsonV::Array(s)) => s,
        _ => Seq::<JsonV>::empty(),
    }
}

/// Some annotation of `s` cannot be read.
pub open spec fn some_annotation_fails(s: Seq<JsonV>, wa: Map<Seq<char>, Seq<char>>) -> bool {
    exists|i: int| 0 <= i < s.len() && annotation_fails(#[trigger] s[i], wa)
}

/// A token's annotations cannot be read.
pub open spec fn token_data_fails(word_annotations: Seq<(Seq<char>, JsonV)>, wa: Map<Seq<char>, Seq<char>>) -> bool {
    match obj_get(word_annotations, "token"@) {
        Some(JsonV::Array(s)) => some_annotation_fails(s, wa),
        Some(_) => true,
        None => false,
    }
}

/// The text of an annotation value in a token's column: a string as it is, a
/// set between `|` with its members apart, no value as the empty set.
pub open spec fn attr_text(v: JsonV) -> Seq<char> {
    match v {
        JsonV::Array(s) => if s.len() == 0 {
            set_delimiter_text()
        } else {
            "|"@ + join(s.map_values(|x: JsonV| opt_str(Some(x))), set_delimiter_text()) + "|"@
        },
        JsonV::Null => empty_set_text(),
        JsonV::Str(x) => x,
        _ => Seq::<char>::empty(),
    }
}

/// The texts of a token's annotations, by name.
pub open spec fn attr_texts(e: Seq<(Seq<char>, JsonV)>) -> Map<Seq<char>, Seq<char>>
    decreases e.len(),
{
    if e.len() == 0 {
        Map::<Seq<char>, Seq<char>>::empty()
    } else {
        attr_texts(e.drop_last()).insert(e.last().0, attr_text(e.last().1))
    }
}

/// A lemma that counts toward the most common words: no `:` and no `--`.
pub open spec fn countable_lemma(x: Seq<char>) -> bool {
    !contains_seq(x, ":"@) && !contains_seq(x, "--"@)
}

pub open spec fn countable_values(a: Seq<JsonV>) -> Seq<Seq<char>>
    decreases a.len(),
{
    if a.len() == 0 {
        Seq::<Seq<char>>::empty()
    } else {
        let p = countable_values(a.drop_last());
        match a.last() {
            JsonV::Str(x) => if countable_lemma(x) { p.push(x) } else { p },
            _ => p,
        }
    }
}

pub open spec fn countable_pieces(parts: Seq<Seq<char>>) -> Seq<Seq<char>>
    decreases parts.len(),
{
    if parts.len() == 0 {
        Seq::<Seq<char>>::empty()
    } else {
        let p = countable_pieces(parts.drop_last());
        if parts.last().len() > 0 && countable_lemma(parts.last()) {
            p.push(parts.last())
        } else {
            p
        }
    }
}

/// The words a common noun adds to the most common words: its lemmas, from
/// the annotation or else the `lemma` attribute, or the token itself.
pub open spec fn common_words_of(td: Seq<(Seq<char>, JsonV)>, wa: Map<Seq<char>, Seq<char>>, token: Seq<char>) -> Seq<Seq<char>> {
    let c = match obj_get(td, "lemma"@) {
        Some(JsonV::Array(a)) => countable_values(a),
        _ => if wa.contains_key("lemma"@) {
            countable_pieces(split_on(wa["lemma"@], '|'))
        } else {
            Seq::<Seq<char>>::empty()
        },
    };
    if c.len() == 0 {
        seq![token]
    } else {
        c
    }
}


/// `kept_lemmas`, computed.
fn compute_kept_lemmas(parts: &Vec<String>) -> (r: Vec<String>)
    ensures
        views(r@) == kept_lemmas(views(parts@)),
{
    let mut r: Vec<String> = Vec::new();
    let mut i: usize = 0;
    assert(views(parts@).take(0) =~= Seq::<Seq<char>>::empty());
    while i < parts.len()
        invariant
            i <= parts.len(),
            views(r@) == kept_lemmas(views(parts@).take(i as int)),
        decreases parts.len() - i,
    {
        let ghost pv = views(parts@);
        assert(pv.take(i + 1).drop_last() =~= pv.take(i as int));
        assert(pv.take(i + 1).last() == parts@[i as int]@);
        let l = &parts[i];
        let ghost before = r@;
        if !l.as_str().is_empty() && !contains_char(l.as_str(), '.') {
            r.push(l.clone());
            assert(views(r@) =~= views(before).push(l@));
        } else if contains_char(l.as_str(), ':') {
            let pieces = split_char(l.as_str(), ':');
            let first = pieces[0].clone();
            r.push(first);
            assert(views(r@) =~= views(before).push(before_first(l@, ':')));
        }
        i = i + 1;
    }
    assert(views(parts@).take(parts.len() as int) =~= views(parts@));
    r
}

/// `nonempty_parts`, computed.
fn compute_nonempty_parts(parts: &Vec<String>) -> (r: Vec<String>)
    ensures
        views(r@) == nonempty_parts(views(parts@)),
{
    let mut r: Vec<String> = Vec::new();
    let mut i: usize = 0;
    assert(views(parts@).take(0) =~= Seq::<Seq<char>>::empty());
    while i < parts.len()
        invariant
            i <= parts.len(),
            views(r@) == nonempty_parts(views(parts@).take(i as int)),
        decreases parts.len() - i,
    {
        let ghost pv = views(parts@);
        assert(pv.take(i + 1).drop_last() =~= pv.take(i as int));
        assert(pv.take(i + 1).last() == parts@[i as int]@);
        let ghost before = r@;
        if !parts[i].as_str().is_empty() {
            r.push(parts[i].clone());
            assert(views(r@) =~= views(before).push(parts@[i as int]@));
        }
        i = i + 1;
    }
    assert(views(parts@).take(parts.len() as int) =~= views(parts@));
    r
}

/// The flag `key` of an annotation is set to true.
fn flag_of(obj: &JsonMap, key: &str) -> (r: bool)
    ensures
        r == (obj_get(obj@, key@) == Some(JsonV::Bool(true))),
{
    match obj.get(key) {
        Some(v) => match v.as_bool() {
            Some(b) => b,
            None => false,
        },
        None => false,
    }
}

/// The name and value of an annotation for a token, or `None` where
/// `annotation_fails`.
fn compute_annotation(ann: &Json, word_attrs: &StrMap) -> (r: Option<(String, Json)>)
    ensures
        r is None <==> annotation_fails(ann@, str_map_contents(*word_attrs)),
        r matches Some(p) ==> p.0@ == opt_str(field(ann@, "name"@)) && p.1@ == annotation_value(ann@, str_map_contents(*word_attrs))
            && json_wf(p.1@),
{
    let ghost wa = str_map_contents(*word_attrs);
    let obj = match ann.as_object() {
        Some(o) => o,
        None => {
            return None;
        },
    };
    let name: &String = match obj.get("name") {
        Some(j) => match j.as_str() {
            Some(n) => n,
            None => {
                return None;
            },
        },
        None => {
            return None;
        },
    };
    let base: String = match obj.get("nodeName") {
        Some(nnj) => match nnj.as_str() {
            Some(nn) => match word_attrs.get(nn.as_str()) {
                Some(attr) => {
                    let pieces = split_char(attr.as_str(), '|');
                    let kept = compute_kept_lemmas(&pieces);
                    join_strs(&kept, "|")
                },
                None => {
                    return None;
                },
            },
            None => {
                return None;
            },
        },
        None => match word_attrs.get(name.as_str()) {
            Some(a) => a.clone(),
            None => {
                return None;
            },
        },
    };
    assert(base@ == annotation_base(ann@, wa));
    let pieces = compute_nonempty_parts(&split_char(base.as_str(), '|'));
    let value = if flag_of(obj, "ranked") {
        if pieces.len() == 0 {
            Json::Null
        } else {
            let first = split_char(pieces[0].as_str(), ':');
            Json::Str(first[0].clone())
        }
    } else if flag_of(obj, "set") {
        string_array(pieces)
    } else {
        Json::Str(base)
    };
    proof {
        if let JsonV::Array(a) = value@ {
            assert forall|i: int| 0 <= i < a.len() implies json_wf(#[trigger] a[i]) by {
                assert(a[i] == JsonV::Str(nonempty_parts(split_on(base@, '|'))[i]));
            }
        }
    }
    Some((name.clone(), value))
}


impl StrixParser {
    /// A token's annotations under their names, and the names in turn, or
    /// `None` where `token_data_fails`.
    fn compute_token_data(&self) -> (r: Option<(JsonMap, Vec<String>)>)
        requires
            self.wf(),
        ensures
            r is None <==> token_data_fails(self.word_annotations@, str_map_contents(self.word_attrs)),
            r matches Some(p) ==> {
                let anns = word_annotation_list(self.word_annotations@);
                &&& p.0@ == token_data_of(anns, str_map_contents(self.word_attrs))
                &&& p.0.wf()
                &&& views(p.1@) == annotation_names(anns)
            },
    {
        let ghost wa = str_map_contents(self.word_attrs);
        let anns = match self.word_annotations.get("token") {
            None => {
                let m = JsonMap::new();
                let names: Vec<String> = Vec::new();
                assert(views(names@) =~= annotation_names(Seq::<JsonV>::empty()));
                return Some((m, names));
            },
            Some(j) => match j.as_array() {
                Some(a) => a,
                None => {
                    return None;
                },
            },
        };
        let ghost av = crate::json::array_view(anns@);
        proof { crate::json::lemma_array_view(anns@); }
        let mut m = JsonMap::new();
        let mut names: Vec<String> = Vec::new();
        let mut i: usize = 0;
        assert(av.take(0) =~= Seq::<JsonV>::empty());
        assert(views(names@) =~= annotation_names(av.take(0)));
        while i < anns.len()
            invariant
                i <= anns.len(),
                av == crate::json::array_view(anns@),
                av.len() == anns@.len(),
                forall|k: int| 0 <= k < anns@.len() ==> #[trigger] av[k] == anns@[k]@,
                obj_get(self.word_annotations@, "token"@) == Some(JsonV::Array(av)),
                wa == str_map_contents(self.word_attrs),
                m.wf(),
                m@ == token_data_of(av.take(i as int), wa),
                views(names@) == annotation_names(av.take(i as int)),
                forall|k: int| 0 <= k < i ==> !annotation_fails(#[trigger] av[k], wa),
            decreases anns.len() - i,
        {
            assert(av.take(i + 1).drop_last() =~= av.take(i as int));
            assert(av.take(i + 1).last() == anns@[i as int]@);
            match compute_annotation(&anns[i], &self.word_attrs) {
                Some(p) => {
                    let ghost before = names@;
                    names.push(p.0.clone());
                    assert(views(names@) =~= views(before).push(p.0@));
                    assert(annotation_names(av.take(i + 1)) =~= annotation_names(av.take(i as int)).push(opt_str(field(av[i as int], "name"@))));
                    assert(views(names@) =~= annotation_names(av.take(i + 1)));
                    m.insert(p.0, p.1);
                },
                None => {
                    assert(annotation_fails(av[i as int], wa));
                    assert(0 <= i < av.len());
                    assert(some_annotation_fails(av, wa));
                    return None;
                },
            }
            i = i + 1;
        }
        assert(av.take(anns.len() as int) =~= av);
        Some((m, names))
    }
}

/// `attr_text`, computed.
fn compute_attr_text(v: &Json) -> (r: String)
    ensures
        r@ == attr_text(v@),
{
    match v {
        Json::Array(a) => {
            if a.len() == 0 {
                set_delimiter()
            } else {
                let mut texts: Vec<String> = Vec::new();
                let mut i: usize = 0;
                proof { crate::json::lemma_array_view(a@); }
                let ghost av = crate::json::array_view(a@);
                while i < a.len()
                    invariant
                        i <= a.len(),
                        av == crate::json::array_view(a@),
                        av.len() == a@.len(),
                        forall|k: int| 0 <= k < a@.len() ==> #[trigger] av[k] == a@[k]@,
                        views(texts@) == av.take(i as int).map_values(|x: JsonV| opt_str(Some(x))),
                    decreases a.len() - i,
                {
                    let t = match &a[i] {
                        Json::Str(s) => s.clone(),
                        _ => String::new(),
                    };
                    let ghost before = texts@;
                    assert(t@ == opt_str(Some(av[i as int])));
                    texts.push(t);
                    assert(views(texts@) =~= views(before).push(t@));
                    assert(av.take(i + 1).map_values(|x: JsonV| opt_str(Some(x))) =~= av.take(i as int).map_values(|x: JsonV| opt_str(Some(x))).push(opt_str(Some(av[i as int]))));
                    assert(views(texts@) =~= av.take(i + 1).map_values(|x: JsonV| opt_str(Some(x))));
                    i = i + 1;
                }
                assert(av.take(a.len() as int) =~= av);
                let mut r = String::from_str("|");
                let joined = join_strs(&texts, set_delimiter().as_str());
                r.append(joined.as_str());
                r.append("|");
                r
            }
        },
        Json::Null => empty_set(),
        Json::Str(x) => x.clone(),
        _ => String::new(),
    }
}

/// The texts of a token's annotations, by name, in a map (`attr_texts`).
fn compute_attr_texts(td: &JsonMap) -> (r: StrMap)
    ensures
        str_map_contents(r) == attr_texts(td@),
{
    let mut r = StrMap::new();
    let mut i: usize = 0;
    proof { lemma_entries_view(td.entries@); }
    assert(td@.take(0) =~= Seq::<(Seq<char>, JsonV)>::empty());
    assert(str_map_contents(r) =~= attr_texts(td@.take(0)));
    while i < td.entries.len()
        invariant
            i <= td.entries.len(),
            td@.len() == td.entries@.len(),
            forall|k: int| 0 <= k < td.entries@.len() ==> #[trigger] td@[k] == (td.entries@[k].0@, td.entries@[k].1@),
            str_map_contents(r) == attr_texts(td@.take(i as int)),
        decreases td.entries.len() - i,
    {
        assert(td@.take(i + 1).drop_last() =~= td@.take(i as int));
        assert(td@.take(i + 1).last() == td@[i as int]);
        let t = compute_attr_text(&td.entries[i].1);
        r.insert(td.entries[i].0.clone(), t);
        i = i + 1;
    }
    assert(td@.take(td.entries.len() as int) =~= td@);
    r
}

/// `countable_lemma`, computed.
fn is_countable(x: &str) -> (r: bool)
    ensures
        r == countable_lemma(x@),
{
    !contains_str(x, ":") && !contains_str(x, "--")
}

/// `common_words_of`, computed.
fn compute_common_words(td: &JsonMap, word_attrs: &StrMap, token: &String) -> (r: Vec<String>)
    ensures
        views(r@) == common_words_of(td@, str_map_contents(*word_attrs), token@),
{
    let mut c: Vec<String> = Vec::new();
    let lemma_array = match td.get("lemma") {
        Some(j) => j.as_array(),
        None => None,
    };
    match lemma_array {
        Some(a) => {
            proof { crate::json::lemma_array_view(a@); }
            let ghost av = crate::json::array_view(a@);
            let mut i: usize = 0;
            assert(av.take(0) =~= Seq::<JsonV>::empty());
            while i < a.len()
                invariant
                    i <= a.len(),
                    av == crate::json::array_view(a@),
                    av.len() == a@.len(),
                    forall|k: int| 0 <= k < a@.len() ==> #[trigger] av[k] == a@[k]@,
                    views(c@) == countable_values(av.take(i as int)),
                decreases a.len() - i,
            {
                assert(av.take(i + 1).drop_last() =~= av.take(i as int));
                assert(av.take(i + 1).last() == a@[i as int]@);
                let ghost before = c@;
                match &a[i] {
                    Json::Str(x) => {
                        if is_countable(x.as_str()) {
                            c.push(x.clone());
                            assert(views(c@) =~= views(before).push(x@));
                        }
                    },
                    _ => {},
                }
                i = i + 1;
            }
            assert(av.take(a.len() as int) =~= av);
        },
        None => match word_attrs.get("lemma") {
            Some(l) => {
                let parts = split_char(l.as_str(), '|');
                let ghost pv = views(parts@);
                let mut i: usize = 0;
                assert(pv.take(0) =~= Seq::<Seq<char>>::empty());
                while i < parts.len()
                    invariant
                        i <= parts.len(),
                        pv == views(parts@),
                        views(c@) == countable_pieces(pv.take(i as int)),
                    decreases parts.len() - i,
                {
                    assert(pv.take(i + 1).drop_last() =~= pv.take(i as int));
                    assert(pv.take(i + 1).last() == parts@[i as int]@);
                    let ghost before = c@;
                    if !parts[i].as_str().is_empty() && is_countable(parts[i].as_str()) {
                        c.push(parts[i].clone());
                        assert(views(c@) =~= views(before).push(parts@[i as int]@));
                    }
                    i = i + 1;
                }
                assert(pv.take(parts.len() as int) =~= pv);
            },
            None => {
                assert(views(c@) =~= Seq::<Seq<char>>::empty());
            },
        },
    }
    if c.len() == 0 {
        c.push(token.clone());
        assert(views(c@) =~= seq![token@]);
    }
    c
}


pub proof fn lemma_push_to_set<A>(s: Seq<A>, a: A)
    ensures
        s.push(a).to_set() == s.to_set().insert(a),
{
    assert forall|x: A| s.push(a).to_set().contains(x) <==> #[trigger] s.to_set().insert(a).contains(x) by {
        if s.contains(x) {
            let i = choose|i: int| 0 <= i < s.len() && s[i] == x;
            assert(s.push(a)[i] == x);
        }
        if x == a {
            assert(s.push(a)[s.len() as int] == a);
        }
        if s.push(a).contains(x) {
            let i = choose|i: int| 0 <= i < s.push(a).len() && s.push(a)[i] == x;
            if i < s.len() {
                assert(s[i] == x);
            }
        }
    }
    assert(s.push(a).to_set() =~= s.to_set().insert(a));
}

/// Adds each name to the set.
fn add_names(set: &mut StrSet, names: &Vec<String>)
    ensures
        str_set_contents(*final(set)) == str_set_contents(*old(set)).union(views(names@).to_set()),
{
    let ghost set0 = str_set_contents(*set);
    let mut i: usize = 0;
    assert(views(names@).take(0).to_set() =~= Set::<Seq<char>>::empty());
    assert(set0.union(Set::<Seq<char>>::empty()) =~= set0);
    while i < names.len()
        invariant
            i <= names.len(),
            str_set_contents(*set) == set0.union(views(names@).take(i as int).to_set()),
        decreases names.len() - i,
    {
        assert(views(names@).take(i + 1) =~= views(names@).take(i as int).push(names@[i as int]@));
        proof { lemma_push_to_set(views(names@).take(i as int), names@[i as int]@); }
        set.insert(names[i].clone());
        assert(str_set_contents(*set) =~= set0.union(views(names@).take(i + 1).to_set()));
        i = i + 1;
    }
    assert(views(names@).take(names.len() as int) =~= views(names@));
}

/// Appends copies of the strings of `w` to `v`.
fn extend_strings(v: &mut Vec<String>, w: &Vec<String>)
    ensures
        views(final(v)@) == views(old(v)@) + views(w@),
{
    let ghost before = views(v@);
    let mut k: usize = 0;
    assert(before + views(w@).take(0) =~= before);
    while k < w.len()
        invariant
            k <= w.len(),
            views(v@) == before + views(w@).take(k as int),
        decreases w.len() - k,
    {
        let ghost prev = v@;
        v.push(w[k].clone());
        assert(views(v@) =~= views(prev).push(w@[k as int]@));
        assert(views(v@) =~= before + views(w@).take(k + 1));
        k = k + 1;
    }
    assert(views(w@).take(w.len() as int) =~= views(w@));
}

/// The token a word element ends with: its gathered text, trimmed.
pub open spec fn ended_token(p: &StrixParser) -> Seq<char> {
    trim(p.current_word_content@)
}

/// The annotations of the token being ended.
pub open spec fn ended_token_data(p: &StrixParser) -> Seq<(Seq<char>, JsonV)> {
    token_data_of(word_annotation_list(p.word_annotations@), str_map_contents(p.word_attrs))
}

/// Where ending a non-empty token makes the parse fail: its annotations
/// cannot be read, a token number (`token_count_id`) would have to be
/// written as a column text, or, when the most common words are gathered,
/// the token has no `pos` string.
pub open spec fn token_end_fails(p: &StrixParser) -> bool {
    ended_token(p).len() > 0 && {
        ||| token_data_fails(p.word_annotations@, str_map_contents(p.word_attrs))
        ||| p.token_count_id
        ||| (p.add_most_common_words && !is_opt_str(obj_get(ended_token_data(p), "pos"@)))
    }
}

/// What ending a non-empty token does to the state, beside closing the word.
pub open spec fn token_ended(old: &StrixParser, new: &StrixParser) -> bool {
    let token = ended_token(old);
    let wa = str_map_contents(old.word_attrs);
    let anns = word_annotation_list(old.word_annotations@);
    let td = ended_token_data(old);
    let n: int = old.current_token_lookup@.len() as int;
    &&& str_set_contents(new.all_word_level_annotations) == str_set_contents(old.all_word_level_annotations).union(annotation_names(anns).to_set())
    &&& views(new.dump@) == views(old.dump@).update(old.dump@.len() - 1, views(old.dump@).last() + token)
    &&& new.current_part_tokens@.len() == old.current_part_tokens@.len() + 1
    &&& new.current_part_tokens@.drop_last() == old.current_part_tokens@
    &&& str_map_contents(new.current_part_tokens@.last()) == attr_texts(td).insert("token"@, token)
    &&& new.current_token_lookup@.len() == n + 1
    &&& new.current_token_lookup@.drop_last() == old.current_token_lookup@
    &&& new.current_token_lookup@[n].word@ == token
    &&& new.current_token_lookup@[n].attrs@ == td
    &&& new.current_token_lookup@[n].position == old.token_count as usize
    &&& new.current_token_lookup@[n].whitespace is None
    &&& new.token_count == old.token_count + 1
    &&& new.token_log@.len() == old.token_log@.len() + 1
    &&& new.token_log@.drop_last() == old.token_log@
    &&& new.token_log@.last()@ == td
    &&& views(new.most_common_words@) == if old.add_most_common_words && opt_str(obj_get(td, "pos"@)) == "NN"@ {
        views(old.most_common_words@) + common_words_of(td, wa, token)
    } else {
        views(old.most_common_words@)
    }
}

impl StrixParser {
    /// Ends a word element: a non-empty token is added, with its annotations,
    /// to the part in progress.
    fn end_token(&mut self)
        requires
            old(self).wf(),
            !token_end_fails(old(self)),
            ended_token(old(self)).len() > 0 ==> old(self).token_count < i64::MAX,
        ensures
            final(self).wf(),
            final(self).same_config(old(self)),
            ended_token(old(self)).len() > 0 ==> token_ended(old(self), final(self)),
            ended_token(old(self)).len() == 0 ==> {
                &&& final(self).all_word_level_annotations == old(self).all_word_level_annotations
                &&& final(self).dump == old(self).dump
                &&& final(self).current_part_tokens == old(self).current_part_tokens
                &&& final(self).current_token_lookup == old(self).current_token_lookup
                &&& final(self).token_count == old(self).token_count
                &&& final(self).most_common_words == old(self).most_common_words
                &&& final(self).token_log == old(self).token_log
            },
            final(self).part_attributes == old(self).part_attributes,
            final(self).upper_level == old(self).upper_level,
            final(self).lines == old(self).lines,
            final(self).in_word == old(self).in_word,
            final(self).word_attrs == old(self).word_attrs,
            final(self).current_word_content == old(self).current_word_content,
            final(self).current_parts == old(self).current_parts,
            final(self).start_tag == old(self).start_tag,
    {
        let token = trim_str(self.current_word_content.as_str());
        if token.as_str().is_empty() {
            return;
        }
        let ghost old_self = *self;
        let (td, names) = match self.compute_token_data() {
            Some(p) => p,
            None => {
                return;
            },
        };
        add_names(&mut self.all_word_level_annotations, &names);
        // the token's column texts
        let mut str_attrs = compute_attr_texts(&td);
        str_attrs.insert(String::from_str("token"), token.clone());
        // the dump
        let mut last = self.dump.pop().unwrap();
        last.append(token.as_str());
        self.dump.push(last);
        assert(views(self.dump@) =~= views(old_self.dump@).update(old_self.dump@.len() - 1, views(old_self.dump@).last() + token@));
        self.current_part_tokens.push(str_attrs);
        let lookup = TokenLookup {
            word: token.clone(),
            attrs: crate::json::copy_map(&td),
            position: #[verifier::truncate] (self.token_count as usize),
            whitespace: None,
        };
        self.current_token_lookup.push(lookup);
        self.token_log.push(crate::json::copy_map(&td));
        self.token_count = self.token_count + 1;
        if self.add_most_common_words {
            let pos_nn = match td.get("pos") {
                Some(p) => match p.as_str() {
                    Some(ps) => str_eq(ps.as_str(), "NN"),
                    None => false,
                },
                None => false,
            };
            if pos_nn {
                let words = compute_common_words(&td, &self.word_attrs, &token);
                extend_strings(&mut self.most_common_words, &words);
            }
        }
        assert(self.current_part_tokens@.drop_last() =~= old_self.current_part_tokens@);
        assert(self.current_token_lookup@.drop_last() =~= old_self.current_token_lookup@);
        assert(self.token_log@.drop_last() =~= old_self.token_log@);
        assert(views(names@).to_set() =~= annotation_names(word_annotation_list(old_self.word_annotations@)).to_set());
    }
}


// ---------------------------------------------------------------- parts

/// The first four bytes of the date under `key`.
pub open spec fn date_text(pa: Seq<(Seq<char>, JsonV)>, key: Seq<char>) -> Seq<char> {
    match obj_get(pa, key) {
        Some(JsonV::Str(s)) => byte_prefix(s, 4),
        _ => Seq::<char>::empty(),
    }
}

/// The date under `key` has no first four bytes to take.
pub open spec fn date_fails(pa: Seq<(Seq<char>, JsonV)>, key: Seq<char>) -> bool {
    match obj_get(pa, key) {
        Some(JsonV::Str(s)) => !is_boundary(s, 4),
        Some(_) => true,
        None => false,
    }
}

/// The attribute that gives the date itself: `date`, else `datum`, else
/// `topic_year`.
pub open spec fn given_date_key(pa: Seq<(Seq<char>, JsonV)>) -> Option<Seq<char>> {
    if obj_get(pa, "date"@) is Some {
        Some("date"@)
    } else if obj_get(pa, "datum"@) is Some {
        Some("datum"@)
    } else if obj_get(pa, "topic_year"@) is Some {
        Some("topic_year"@)
    } else {
        None
    }
}

/// A part's year cannot be computed from its date attributes.
pub open spec fn year_fails(pa: Seq<(Seq<char>, JsonV)>) -> bool {
    ||| date_fails(pa, "datefrom"@)
    ||| date_fails(pa, "dateto"@)
    ||| match given_date_key(pa) {
        Some(k) => date_fails(pa, k),
        None => false,
    }
}

/// The year of a part that has none: the given date's, else the one end of
/// the date range that is there, else the range's, else `2050`.
pub open spec fn year_text(pa: Seq<(Seq<char>, JsonV)>) -> Seq<char> {
    let df = date_text(pa, "datefrom"@);
    let dt = date_text(pa, "dateto"@);
    let gd = match given_date_key(pa) {
        Some(k) => date_text(pa, k),
        None => Seq::<char>::empty(),
    };
    if df.len() == 0 && dt.len() == 0 && gd.len() == 0 {
        "2050"@
    } else if gd.len() > 0 {
        gd
    } else if dt.len() > 0 && df.len() == 0 {
        dt
    } else if df.len() > 0 && dt.len() == 0 {
        df
    } else if df == dt {
        df
    } else {
        df + ", "@ + dt
    }
}

/// The first four bytes of the date under `key`, or the empty text where
/// there is none; `None` where `date_fails`.
fn compute_date(pa: &JsonMap, key: &str) -> (r: Option<String>)
    ensures
        r is None <==> date_fails(pa@, key@),
        r matches Some(d) ==> d@ == date_text(pa@, key@),
{
    match pa.get(key) {
        Some(j) => match j.as_str() {
            Some(s) => prefix_bytes(s.as_str(), 4),
            None => None,
        },
        None => Some(String::new()),
    }
}

/// `year_text`, or `None` where `year_fails`.
fn compute_year(pa: &JsonMap) -> (r: Option<String>)
    ensures
        r is None <==> year_fails(pa@),
        r matches Some(y) ==> y@ == year_text(pa@),
{
    let date_from = compute_date(pa, "datefrom")?;
    let date_to = compute_date(pa, "dateto")?;
    let given = if pa.contains_key("date") {
        compute_date(pa, "date")?
    } else if pa.contains_key("datum") {
        compute_date(pa, "datum")?
    } else if pa.contains_key("topic_year") {
        compute_date(pa, "topic_year")?
    } else {
        String::new()
    };
    let df_empty = date_from.as_str().is_empty();
    let dt_empty = date_to.as_str().is_empty();
    let gd_empty = given.as_str().is_empty();
    let year = if df_empty && dt_empty && gd_empty {
        String::from_str("2050")
    } else if !gd_empty {
        given
    } else if !dt_empty && df_empty {
        date_to
    } else if !df_empty && dt_empty {
        date_from
    } else if str_eq(date_from.as_str(), date_to.as_str()) {
        date_from
    } else {
        let mut y = date_from;
        y.append(", ");
        y.append(date_to.as_str());
        y
    };
    Some(year)
}

/// Whether the text attribute `key` is to be indexed: configured, and its
/// `index` not set to false.
pub open spec fn index_flag(ta: Seq<(Seq<char>, JsonV)>, key: Seq<char>) -> bool {
    match obj_get(ta, key) {
        Some(c) => match field(c, "index"@) {
            Some(JsonV::Bool(b)) => b,
            _ => true,
        },
        None => false,
    }
}

/// The JSON text of a text value.
pub open spec fn value_json_text(v: JsonV) -> Seq<char> {
    match v {
        JsonV::Str(s) => json_string_text(s),
        JsonV::Array(a) => json_string_list_text(a.map_values(|x: JsonV| opt_str(Some(x)))),
        _ => Seq::<char>::empty(),
    }
}

/// For each indexed text attribute of `e` in turn, an entry `text_` followed
/// by the JSON text of its value, bound to the value.
pub open spec fn text_extras(ta: Seq<(Seq<char>, JsonV)>, e: Seq<(Seq<char>, JsonV)>, acc: Seq<(Seq<char>, JsonV)>) -> Seq<(Seq<char>, JsonV)>
    decreases e.len(),
{
    if e.len() == 0 {
        acc
    } else {
        let p = text_extras(ta, e.drop_last(), acc);
        if index_flag(ta, e.last().0) {
            obj_insert(p, "text_"@ + value_json_text(e.last().1), e.last().1)
        } else {
            p
        }
    }
}

/// `index_flag`, computed.
fn compute_index_flag(ta: &JsonMap, key: &str) -> (r: bool)
    ensures
        r == index_flag(ta@, key@),
{
    match ta.get(key) {
        Some(c) => match c.get("index") {
            Some(v) => match v.as_bool() {
                Some(b) => b,
                None => true,
            },
            None => true,
        },
        None => false,
    }
}

/// `value_json_text` of a text value, computed.
fn compute_value_json_text(v: &Json) -> (r: String)
    ensures
        r@ == value_json_text(v@),
{
    match v {
        Json::Str(s) => encode_string(s),
        Json::Array(a) => {
            let mut texts: Vec<String> = Vec::new();
            let mut i: usize = 0;
            proof { crate::json::lemma_array_view(a@); }
            let ghost av = crate::json::array_view(a@);
            while i < a.len()
                invariant
                    i <= a.len(),
                    av == crate::json::array_view(a@),
                    av.len() == a@.len(),
                    forall|k: int| 0 <= k < a@.len() ==> #[trigger] av[k] == a@[k]@,
                    views(texts@) == av.take(i as int).map_values(|x: JsonV| opt_str(Some(x))),
                decreases a.len() - i,
            {
                let t = match &a[i] {
                    Json::Str(s) => s.clone(),
                    _ => String::new(),
                };
                let ghost before = texts@;
                assert(t@ == opt_str(Some(av[i as int])));
                texts.push(t);
                assert(views(texts@) =~= views(before).push(t@));
                assert(av.take(i + 1).map_values(|x: JsonV| opt_str(Some(x))) =~= av.take(i as int).map_values(|x: JsonV| opt_str(Some(x))).push(opt_str(Some(av[i as int]))));
                i = i + 1;
            }
            assert(av.take(a.len() as int) =~= av);
            encode_string_list(&texts)
        },
        _ => String::new(),
    }
}

/// `text_extras` of the attributes of a part, added to `extra`.
fn add_text_extras(extra: &mut JsonMap, ta: &JsonMap, pa: &JsonMap)
    requires
        old(extra).wf(),
        pa.wf(),
    ensures
        final(extra)@ == text_extras(ta@, pa@, old(extra)@),
        final(extra).wf(),
{
    let ghost e0 = extra@;
    let mut i: usize = 0;
    proof { lemma_entries_view(pa.entries@); }
    assert(pa@.take(0) =~= Seq::<(Seq<char>, JsonV)>::empty());
    while i < pa.entries.len()
        invariant
            i <= pa.entries.len(),
            pa.wf(),
            pa@.len() == pa.entries@.len(),
            forall|k: int| 0 <= k < pa.entries@.len() ==> #[trigger] pa@[k] == (pa.entries@[k].0@, pa.entries@[k].1@),
            extra.wf(),
            extra@ == text_extras(ta@, pa@.take(i as int), e0),
        decreases pa.entries.len() - i,
    {
        assert(pa@.take(i + 1).drop_last() =~= pa@.take(i as int));
        assert(pa@.take(i + 1).last() == pa@[i as int]);
        assert(json_wf(pa@[i as int].1));
        if compute_index_flag(ta, pa.entries[i].0.as_str()) {
            let mut key = String::from_str("text_");
            let t = compute_value_json_text(&pa.entries[i].1);
            key.append(t.as_str());
            let v = copy_json(&pa.entries[i].1);
            extra.insert(key, v);
        }
        i = i + 1;
    }
    assert(pa@.take(pa.entries.len() as int) =~= pa@);
}


/// The words longer than three bytes.
pub open spec fn long_words(w: Seq<Seq<char>>) -> Seq<Seq<char>>
    decreases w.len(),
{
    if w.len() == 0 {
        Seq::<Seq<char>>::empty()
    } else {
        let p = long_words(w.drop_last());
        if byte_len(w.last()) > 3 {
            p.push(w.last())
        } else {
            p
        }
    }
}

/// A word with its count: `word (count)`.
pub open spec fn count_entry_text(p: (Seq<char>, nat)) -> Seq<char> {
    p.0 + " ("@ + decimal(p.1) + ")"@
}

/// The ranked words with their counts, apart by `, `.
pub open spec fn common_words_text(r: Seq<(Seq<char>, nat)>) -> Seq<char> {
    join(r.map_values(|p: (Seq<char>, nat)| count_entry_text(p)), ", "@)
}

/// The ten most common words longer than three bytes, with their counts.
pub fn compute_common_words_text(words: &Vec<String>) -> (r: String)
    ensures
        exists|ranked: Seq<(Seq<char>, nat)>| #[trigger] is_top_k(long_words(views(words@)), 10, ranked) && r@ == common_words_text(ranked),
{
    let mut long: Vec<String> = Vec::new();
    let mut i: usize = 0;
    assert(views(words@).take(0) =~= Seq::<Seq<char>>::empty());
    while i < words.len()
        invariant
            i <= words.len(),
            views(long@) == long_words(views(words@).take(i as int)),
        decreases words.len() - i,
    {
        assert(views(words@).take(i + 1).drop_last() =~= views(words@).take(i as int));
        assert(views(words@).take(i + 1).last() == words@[i as int]@);
        let ghost before = long@;
        if byte_len_capped(words[i].as_str(), 4) > 3 {
            long.push(words[i].clone());
            assert(views(long@) =~= views(before).push(words@[i as int]@));
        }
        i = i + 1;
    }
    assert(views(words@).take(words.len() as int) =~= views(words@));
    let ranked = most_common(&long, 10);
    let mut texts: Vec<String> = Vec::new();
    let mut k: usize = 0;
    let ghost rv = count_pairs(ranked@);
    while k < ranked.len()
        invariant
            k <= ranked.len(),
            rv == count_pairs(ranked@),
            views(texts@) == rv.take(k as int).map_values(|p: (Seq<char>, nat)| count_entry_text(p)),
        decreases ranked.len() - k,
    {
        let mut t = ranked[k].0.clone();
        t.append(" (");
        let d = decimal_text(ranked[k].1 as u64);
        t.append(d.as_str());
        t.append(")");
        let ghost before = texts@;
        texts.push(t);
        assert(rv[k as int] == (ranked@[k as int].0@, ranked@[k as int].1 as nat));
        assert(views(texts@) =~= views(before).push(t@));
        assert(rv.take(k + 1).map_values(|p: (Seq<char>, nat)| count_entry_text(p)) =~= rv.take(k as int).map_values(|p: (Seq<char>, nat)| count_entry_text(p)).push(count_entry_text(rv[k as int])));
        k = k + 1;
    }
    assert(rv.take(ranked.len() as int) =~= rv);
    let r = join_strs(&texts, ", ");
    assert(is_top_k(long_words(views(words@)), 10, rv));
    r
}

/// The columns of the tokens of a part as maps.
pub open spec fn token_maps(ts: Seq<StrMap>) -> Seq<Map<Seq<char>, Seq<char>>> {
    ts.map_values(|t: StrMap| str_map_contents(t))
}

/// The tokens' own texts.
pub open spec fn token_words(ms: Seq<Map<Seq<char>, Seq<char>>>) -> Seq<Seq<char>>
    decreases ms.len(),
{
    if ms.len() == 0 {
        Seq::<Seq<char>>::empty()
    } else {
        let p = token_words(ms.drop_last());
        if ms.last().contains_key("token"@) {
            p.push(ms.last()["token"@])
        } else {
            p
        }
    }
}

/// A token's text in the column of `key`, the empty set where it has none.
pub open spec fn column_cell(m: Map<Seq<char>, Seq<char>>, key: Seq<char>) -> Seq<char> {
    if m.contains_key(key) {
        m[key]
    } else {
        empty_set_text()
    }
}

/// The column of `key`: each token's text in it, apart by the token separator.
pub open spec fn column_text(ms: Seq<Map<Seq<char>, Seq<char>>>, key: Seq<char>) -> Seq<char> {
    join(ms.map_values(|m: Map<Seq<char>, Seq<char>>| column_cell(m, key)), token_separator_text())
}

/// The columns of a part, one annotation in turn (in the order `l` lists
/// them): `wid` is the part's token numbers, the others listed in `pos`
/// become entries `pos_` followed by the annotation.
pub open spec fn columns(ms: Seq<Map<Seq<char>, Seq<char>>>, pos: Seq<Seq<char>>, l: Seq<Seq<char>>, wid: Seq<char>, extra: Seq<(Seq<char>, JsonV)>) -> (Seq<char>, Seq<(Seq<char>, JsonV)>)
    decreases l.len(),
{
    if l.len() == 0 {
        (wid, extra)
    } else {
        let p = columns(ms, pos, l.drop_last(), wid, extra);
        let key = l.last();
        if key == "wid"@ {
            (column_text(ms, key), p.1)
        } else if pos.contains(key) {
            (p.0, obj_insert(p.1, "pos_"@ + key, JsonV::Str(column_text(ms, key))))
        } else {
            p
        }
    }
}

/// `l` lists each member of `c` once, in some order.
pub open spec fn is_member_listing(l: Seq<Seq<char>>, c: Set<Seq<char>>) -> bool {
    &&& l.no_duplicates()
    &&& l.to_set() == c
}

impl StrixParser {
    /// The tokens' own texts, apart by the token separator.
    fn token_text(&self) -> (r: String)
        ensures
            r@ == join(token_words(token_maps(self.current_part_tokens@)), token_separator_text()),
    {
        let ghost ms = token_maps(self.current_part_tokens@);
        let mut words: Vec<String> = Vec::new();
        let mut i: usize = 0;
        assert(ms.take(0) =~= Seq::<Map<Seq<char>, Seq<char>>>::empty());
        while i < self.current_part_tokens.len()
            invariant
                i <= self.current_part_tokens.len(),
                ms == token_maps(self.current_part_tokens@),
                views(words@) == token_words(ms.take(i as int)),
            decreases self.current_part_tokens.len() - i,
        {
            assert(ms.take(i + 1).drop_last() =~= ms.take(i as int));
            assert(ms.take(i + 1).last() == str_map_contents(self.current_part_tokens@[i as int]));
            let ghost before = words@;
            match self.current_part_tokens[i].get("token") {
                Some(t) => {
                    words.push(t.clone());
                    assert(views(words@) =~= views(before).push(t@));
                },
                None => {},
            }
            i = i + 1;
        }
        assert(ms.take(self.current_part_tokens.len() as int) =~= ms);
        join_strs(&words, token_separator().as_str())
    }

    /// The column of `key`.
    fn column(&self, key: &str) -> (r: String)
        ensures
            r@ == column_text(token_maps(self.current_part_tokens@), key@),
    {
        let ghost ms = token_maps(self.current_part_tokens@);
        let mut cells: Vec<String> = Vec::new();
        let mut i: usize = 0;
        while i < self.current_part_tokens.len()
            invariant
                i <= self.current_part_tokens.len(),
                ms == token_maps(self.current_part_tokens@),
                views(cells@) == ms.take(i as int).map_values(|m: Map<Seq<char>, Seq<char>>| column_cell(m, key@)),
            decreases self.current_part_tokens.len() - i,
        {
            let cell = match self.current_part_tokens[i].get(key) {
                Some(t) => t.clone(),
                None => empty_set(),
            };
            let ghost before = cells@;
            cells.push(cell);
            assert(ms[i as int] == str_map_contents(self.current_part_tokens@[i as int]));
            assert(views(cells@) =~= views(before).push(cell@));
            assert(ms.take(i + 1).map_values(|m: Map<Seq<char>, Seq<char>>| column_cell(m, key@)) =~= ms.take(i as int).map_values(|m: Map<Seq<char>, Seq<char>>| column_cell(m, key@)).push(column_cell(ms[i as int], key@)));
            i = i + 1;
        }
        assert(ms.take(self.current_part_tokens.len() as int) =~= ms);
        join_strs(&cells, token_separator().as_str())
    }
}


/// The lines of a part when it ends: an open last line closes at the last token.
pub open spec fn closed_lines(l: Seq<Seq<i64>>, tc: int) -> Seq<Seq<i64>> {
    if l.last().len() == 1 && l.last()[0] != -1 {
        l.update(l.len() - 1, l.last().push((tc - 1) as i64))
    } else {
        l
    }
}

/// The attributes of a part when it ends: a year is added where the text
/// attributes are configured and none is given.
pub open spec fn attributes_with_year(p: &StrixParser) -> Seq<(Seq<char>, JsonV)> {
    if p.text_attributes@.len() > 0 && obj_get(p.part_attributes@, "year"@) is None {
        obj_insert(p.part_attributes@, "year"@, JsonV::Str(year_text(p.part_attributes@)))
    } else {
        p.part_attributes@
    }
}

/// Where ending a part makes the parse fail: its year is to be computed
/// and cannot be.
pub open spec fn part_end_fails(p: &StrixParser) -> bool {
    p.text_attributes@.len() > 0 && obj_get(p.part_attributes@, "year"@) is None && year_fails(p.part_attributes@)
}

/// The part that ending the split element makes of the state `p`, with the
/// word-level annotations walked in the order `l`.
pub open spec fn part_made(p: &StrixParser, part: &Part, l: Seq<Seq<char>>) -> bool {
    let ta = p.text_attributes@;
    let pa = attributes_with_year(p);
    let ms = token_maps(p.current_part_tokens@);
    let extra0 = if ta.len() > 0 { text_extras(ta, pa, Seq::<(Seq<char>, JsonV)>::empty()) } else { Seq::<(Seq<char>, JsonV)>::empty() };
    let cols = columns(ms, views(p.pos_index_attributes@), l, Seq::<char>::empty(), extra0);
    &&& part.text_attributes@ == if ta.len() > 0 { pa } else { Seq::<(Seq<char>, JsonV)>::empty() }
    &&& part.token_lookup == p.current_token_lookup
    &&& views(part.dump@) == views(p.dump@)
    &&& lines_view(part.lines@) == closed_lines(lines_view(p.lines@), p.token_count as int)
    &&& part.word_count == p.current_part_tokens@.len()
    &&& part.text@ == join(token_words(ms), token_separator_text())
    &&& part.ner_tags@.len() == 0
    &&& part.geo_locations@.len() == 0
    &&& part.wid@ == cols.0
    &&& part.extra@ == cols.1
    &&& !p.add_most_common_words ==> part.most_common_words@.len() == 0
}

/// What ending the split element does to the state: the part is stored,
/// and the tokens, lines, dump and gathered words start anew.
pub open spec fn part_ended(old: &StrixParser, new: &StrixParser) -> bool {
    &&& new.part_attributes@ == attributes_with_year(old)
    &&& new.current_parts@.len() == old.current_parts@.len() + 1
    &&& new.current_parts@.drop_last() == old.current_parts@
    &&& exists|l: Seq<Seq<char>>| #[trigger] is_member_listing(l, str_set_contents(old.all_word_level_annotations)) && part_made(old, &new.current_parts@.last(), l)
    &&& old.add_most_common_words ==> exists|ranked: Seq<(Seq<char>, nat)>| #[trigger] is_top_k(long_words(views(old.most_common_words@)), 10, ranked) && new.current_parts@.last().most_common_words@ == common_words_text(ranked)
    &&& new.current_part_tokens@.len() == 0
    &&& str_set_contents(new.all_word_level_annotations) == Set::<Seq<char>>::empty()
    &&& new.current_token_lookup@.len() == 0
    &&& views(new.dump@) == seq![Seq::<char>::empty()]
    &&& new.token_count == 0
    &&& lines_view(new.lines@) == seq![seq![0i64]]
    &&& new.most_common_words@.len() == 0
    &&& new.upper_level == old.upper_level
    &&& new.start_tag == old.start_tag
    &&& new.token_log == old.token_log
}

impl StrixParser {
    /// Ends the split element: the part in progress is completed and stored,
    /// and a new one begins.
    fn end_part(&mut self)
        requires
            old(self).wf(),
            !part_end_fails(old(self)),
        ensures
            final(self).wf(),
            final(self).same_config(old(self)),
            part_ended(old(self), final(self)),
            final(self).in_word == old(self).in_word,
            final(self).word_attrs == old(self).word_attrs,
            final(self).current_word_content == old(self).current_word_content,
    {
        let ghost old_self = *self;
        let mut text_attributes = JsonMap::new();
        let mut extra = JsonMap::new();
        if self.text_attributes.len() > 0 {
            if !self.part_attributes.contains_key("year") {
                let year = match compute_year(&self.part_attributes) {
                    Some(y) => y,
                    None => {
                        return;
                    },
                };
                proof { lemma_insert_text(self.part_attributes@, "year"@, JsonV::Str(year@)); }
                self.part_attributes.insert(String::from_str("year"), Json::Str(year));
            }
            add_text_extras(&mut extra, &self.text_attributes, &self.part_attributes);
            text_attributes = crate::json::copy_map(&self.part_attributes);
        }
        assert(self.part_attributes@ == attributes_with_year(&old_self));
        let ghost extra0 = extra@;
        let mut token_lookup: Vec<TokenLookup> = Vec::new();
        std::mem::swap(&mut token_lookup, &mut self.current_token_lookup);
        let mut last_line = self.lines.pop().unwrap();
        if last_line.len() == 1 && last_line[0] != -1 {
            last_line.push(self.token_count - 1);
        }
        self.lines.push(last_line);
        assert(lines_view(self.lines@) =~= closed_lines(lines_view(old_self.lines@), old_self.token_count as int));
        let mut dump: Vec<String> = Vec::new();
        dump.push(String::new());
        std::mem::swap(&mut dump, &mut self.dump);
        let mut first_line: Vec<i64> = Vec::new();
        first_line.push(0);
        let mut lines: Vec<Vec<i64>> = Vec::new();
        lines.push(first_line);
        std::mem::swap(&mut lines, &mut self.lines);
        let word_count = self.current_part_tokens.len();
        let text = self.token_text();
        // the columns of the word-level annotations
        let ghost ms = token_maps(self.current_part_tokens@);
        let ghost pos = views(self.pos_index_attributes@);
        let members = self.all_word_level_annotations.members();
        let ghost l = views_of_refs(members@);
        let mut wid = String::new();
        let mut i: usize = 0;
        assert(l.take(0) =~= Seq::<Seq<char>>::empty());
        while i < members.len()
            invariant
                i <= members.len(),
                l == views_of_refs(members@),
                ms == token_maps(self.current_part_tokens@),
                pos == views(self.pos_index_attributes@),
                extra.wf(),
                (wid@, extra@) == columns(ms, pos, l.take(i as int), Seq::<char>::empty(), extra0),
            decreases members.len() - i,
        {
            assert(l.take(i + 1).drop_last() =~= l.take(i as int));
            assert(l.take(i + 1).last() == members@[i as int]@);
            let key = members[i];
            let col = self.column(key.as_str());
            if str_eq(key.as_str(), "wid") {
                wid = col;
            } else if contains_string(&self.pos_index_attributes, key.as_str()) {
                let mut name = String::from_str("pos_");
                name.append(key.as_str());
                extra.insert(name, Json::Str(col));
            }
            i = i + 1;
        }
        assert(l.take(members.len() as int) =~= l);
        proof { lemma_member_listing(members@, str_set_contents(self.all_word_level_annotations)); }
        let most_common_words = if self.add_most_common_words {
            compute_common_words_text(&self.most_common_words)
        } else {
            String::new()
        };
        let part = Part {
            text_attributes,
            token_lookup,
            dump,
            lines,
            word_count,
            text,
            ner_tags: String::new(),
            geo_locations: Vec::new(),
            most_common_words,
            wid,
            extra,
        };
        assert(part_made(&old_self, &part, l));
        let ghost parts0 = self.current_parts@;
        self.current_parts.push(part);
        assert(self.current_parts@.drop_last() =~= parts0);
        self.token_count = 0;
        self.current_part_tokens = Vec::new();
        self.most_common_words = Vec::new();
        self.all_word_level_annotations.clear();
        assert(views(self.dump@) =~= seq![Seq::<char>::empty()]);
        assert(lines_view(self.lines@) =~= seq![seq![0i64]]);
    }
}

/// The members of a set as listed.
pub open spec fn views_of_refs(r: Seq<&String>) -> Seq<Seq<char>> {
    r.map_values(|s: &String| s@)
}

pub proof fn lemma_member_listing(r: Seq<&String>, c: Set<Seq<char>>)
    requires
        crate::hashed::lists_strs(r, c),
    ensures
        is_member_listing(views_of_refs(r), c),
{
    let l = views_of_refs(r);
    assert forall|i: int, j: int| 0 <= i < l.len() && 0 <= j < l.len() && i != j implies l[i] != l[j] by {
        if i < j {
            assert(r[i]@ != r[j]@);
        } else {
            assert(r[j]@ != r[i]@);
        }
    }
    assert forall|x: Seq<char>| l.to_set().contains(x) <==> #[trigger] c.contains(x) by {
        if c.contains(x) {
            let i = choose|i: int| 0 <= i < r.len() && (#[trigger] r[i])@ == x;
            assert(l[i] == x);
        }
        if l.to_set().contains(x) {
            let i = choose|i: int| 0 <= i < l.len() && l[i] == x;
            assert(c.contains(r[i]@));
        }
    }
    assert(l.to_set() =~= c);
}


/// What ending a word element does to the state beside closing the word.
pub open spec fn word_ended(old: &StrixParser, new: &StrixParser) -> bool {
    &&& ended_token(old).len() > 0 ==> token_ended(old, new)
    &&& ended_token(old).len() == 0 ==> {
        &&& new.all_word_level_annotations == old.all_word_level_annotations
        &&& new.dump == old.dump
        &&& new.current_part_tokens == old.current_part_tokens
        &&& new.current_token_lookup == old.current_token_lookup
        &&& new.token_count == old.token_count
        &&& new.most_common_words == old.most_common_words
        &&& new.token_log == old.token_log
    }
    &&& new.part_attributes == old.part_attributes
    &&& new.upper_level == old.upper_level
    &&& new.lines == old.lines
    &&& new.current_parts == old.current_parts
    &&& new.start_tag == old.start_tag
}

/// Where an end tag makes the parse fail: the split element's part or the
/// word's token cannot be completed, or a structural annotation element,
/// which is not supported, ends.
pub open spec fn endtag_fails(p: &StrixParser, tag: Seq<char>) -> bool {
    if tag == p.split_document@ {
        part_end_fails(p)
    } else if obj_get(p.struct_annotations@, tag) is Some {
        true
    } else if tag == "token"@ {
        token_end_fails(p)
    } else {
        false
    }
}

/// Ending the token would take the token count past `i64::MAX`.
pub open spec fn endtag_overflows(p: &StrixParser, tag: Seq<char>) -> bool {
    tag != p.split_document@ && tag == "token"@ && ended_token(p).len() > 0 && p.token_count == i64::MAX
}

/// What an end tag does to the state.
pub open spec fn tag_ended(old: &StrixParser, new: &StrixParser, tag: Seq<u8>) -> bool {
    &&& !new.in_word
    &&& new.current_word_content@.len() == 0
    &&& new.word_attrs == old.word_attrs
    &&& ({
        let t = lossy_text(tag);
        &&& t == old.split_document@ ==> part_ended(old, new)
        &&& t != old.split_document@ && t == "token"@ ==> word_ended(old, new)
        &&& t != old.split_document@ && t != "token"@ ==> {
            &&& new.current_part_tokens == old.current_part_tokens
            &&& new.all_word_level_annotations == old.all_word_level_annotations
            &&& new.part_attributes == old.part_attributes
            &&& new.upper_level == old.upper_level
            &&& new.current_token_lookup == old.current_token_lookup
            &&& new.dump == old.dump
            &&& new.token_count == old.token_count
            &&& new.lines == old.lines
            &&& new.most_common_words == old.most_common_words
            &&& new.current_parts == old.current_parts
            &&& new.start_tag == old.start_tag
            &&& new.token_log == old.token_log
        }
    })
}

/// The parts cut so far never change: text and start tags keep them, and
/// an end tag keeps them or, at the end of the split element, adds one
/// after them.
pub proof fn law_parts_kept(old: &StrixParser, new: &StrixParser, tag: Seq<u8>, data: Seq<char>, attrs: StrMap)
    ensures
        data_handled(old, new, data, tag) ==> new.current_parts == old.current_parts,
        tag_started(old, new, tag, attrs) ==> new.current_parts == old.current_parts,
        tag_ended(old, new, tag) ==> {
            &&& old.current_parts@.len() <= new.current_parts@.len() <= old.current_parts@.len() + 1
            &&& new.current_parts@.take(old.current_parts@.len() as int) == old.current_parts@
        },
{
    if tag_ended(old, new, tag) {
        if lossy_text(tag) == old.split_document@ {
            assert(new.current_parts@.take(old.current_parts@.len() as int) =~= new.current_parts@.drop_last());
        } else {
            assert(new.current_parts == old.current_parts);
            assert(new.current_parts@.take(old.current_parts@.len() as int) =~= old.current_parts@);
        }
    }
}

/// The token log only grows: text and start tags keep it, and an end tag
/// keeps it or, at the end of a word with a non-empty token, adds after it
/// the token's annotations, the same the token is looked up by.
pub proof fn law_token_log_kept(old: &StrixParser, new: &StrixParser, tag: Seq<u8>, data: Seq<char>, attrs: StrMap)
    ensures
        data_handled(old, new, data, tag) ==> new.token_log == old.token_log,
        tag_started(old, new, tag, attrs) ==> new.token_log == old.token_log,
        tag_ended(old, new, tag) ==> {
            &&& old.token_log@.len() <= new.token_log@.len() <= old.token_log@.len() + 1
            &&& new.token_log@.take(old.token_log@.len() as int) == old.token_log@
            &&& new.token_log@.len() == old.token_log@.len() + 1 ==> {
                &&& new.current_token_lookup@.len() > 0
                &&& new.token_log@.last()@ == new.current_token_lookup@.last().attrs@
            }
        },
{
    if tag_ended(old, new, tag) {
        let t = lossy_text(tag);
        if t != old.split_document@ && t == "token"@ && ended_token(old).len() > 0 {
            assert(new.token_log@.take(old.token_log@.len() as int) =~= new.token_log@.drop_last());
        } else {
            assert(new.token_log == old.token_log);
            assert(new.token_log@.take(old.token_log@.len() as int) =~= old.token_log@);
        }
    }
}

/// The tokens of the part in progress are numbered from 0 in the order they
/// come, and the token count is their number.
pub open spec fn tokens_numbered(p: &StrixParser) -> bool {
    &&& p.token_count == p.current_token_lookup@.len()
    &&& p.current_part_tokens@.len() == p.current_token_lookup@.len()
    &&& forall|i: int| 0 <= i < p.current_token_lookup@.len() ==> (#[trigger] p.current_token_lookup@[i]).position == i
}

/// Every handler keeps the tokens numbered, and a part holds its tokens
/// numbered from 0, as many as its word count.
pub proof fn law_tokens_numbered(old: &StrixParser, new: &StrixParser, tag: Seq<u8>, data: Seq<char>, attrs: StrMap)
    requires
        tokens_numbered(old),
    ensures
        data_handled(old, new, data, tag) ==> tokens_numbered(new),
        tag_started(old, new, tag, attrs) ==> tokens_numbered(new),
        tag_ended(old, new, tag) ==> tokens_numbered(new),
        tag_ended(old, new, tag) && lossy_text(tag) == old.split_document@ ==> {
            let part = new.current_parts@.last();
            &&& part.word_count == part.token_lookup@.len()
            &&& forall|i: int| 0 <= i < part.token_lookup@.len() ==> (#[trigger] part.token_lookup@[i]).position == i
        },
{
    if data_handled(old, new, data, tag) {
        let n = old.current_token_lookup@.len();
        assert forall|i: int| 0 <= i < new.current_token_lookup@.len() implies (#[trigger] new.current_token_lookup@[i]).position == i by {
            if i < n - 1 {
                assert(new.current_token_lookup@[i] == old.current_token_lookup@[i]);
            } else {
                assert(old.current_token_lookup@[n - 1].position == n - 1);
            }
        }
    }
    if tag_ended(old, new, tag) {
        let t = lossy_text(tag);
        if t == old.split_document@ {
            let part = new.current_parts@.last();
            let l = choose|l: Seq<Seq<char>>| #[trigger] is_member_listing(l, str_set_contents(old.all_word_level_annotations)) && part_made(old, &new.current_parts@.last(), l);
            assert(part.token_lookup == old.current_token_lookup);
        } else if t == "token"@ && ended_token(old).len() > 0 {
            let n = old.current_token_lookup@.len();
            assert(n == old.current_token_lookup.len());
            assert(old.token_count as usize == n);
            assert forall|i: int| 0 <= i < new.current_token_lookup@.len() implies (#[trigger] new.current_token_lookup@[i]).position == i by {
                if i < n {
                    assert(new.current_token_lookup@[i] == new.current_token_lookup@.drop_last()[i]);
                }
            }
        }
    }
}

impl StrixParser {
    /// The end-tag handler: the split element completes a part, a word
    /// element adds its token, and its annotations to the token log; any end
    /// tag closes the word.
    pub fn handle_endtag(&mut self, tag: &[u8])
        requires
            old(self).wf(),
            !endtag_fails(old(self), lossy_text(tag@)),
            !endtag_overflows(old(self), lossy_text(tag@)),
        ensures
            final(self).wf(),
            final(self).same_config(old(self)),
            tag_ended(old(self), final(self), tag@),
    {
        let tag_str = from_utf8_lossy(tag);
        if str_eq(tag_str.as_str(), self.split_document.as_str()) {
            self.end_part();
        } else if str_eq(tag_str.as_str(), "token") {
            assert(obj_get(self.struct_annotations@, "token"@) is None);
            self.end_token();
        }
        self.in_word = false;
        self.current_word_content = String::new();
    }

    /// Whether `handle_endtag` accepts the end tag: it neither fails
    /// (`endtag_fails`) nor overflows the token count.
    pub fn endtag_supported(&self, tag: &[u8]) -> (r: bool)
        requires
            self.wf(),
        ensures
            r == (!endtag_fails(self, lossy_text(tag@)) && !endtag_overflows(self, lossy_text(tag@))),
    {
        let tag_str = from_utf8_lossy(tag);
        if str_eq(tag_str.as_str(), self.split_document.as_str()) {
            if self.text_attributes.len() > 0 && !self.part_attributes.contains_key("year") {
                compute_year(&self.part_attributes).is_some()
            } else {
                true
            }
        } else if self.struct_annotations.contains_key(tag_str.as_str()) {
            false
        } else if str_eq(tag_str.as_str(), "token") {
            let token = trim_str(self.current_word_content.as_str());
            if token.as_str().is_empty() {
                return true;
            }
            if self.token_count_id || self.token_count == i64::MAX {
                return false;
            }
            match self.compute_token_data() {
                Some(p) => {
                    if self.add_most_common_words {
                        match p.0.get("pos") {
                            Some(j) => j.as_str().is_some(),
                            None => false,
                        }
                    } else {
                        true
                    }
                },
                None => false,
            }
        } else {
            true
        }
    }
}


// ---------------------------------------------------------------- the event stream

/// An attribute whose name or value is not UTF-8.
pub struct AttributeError;

/// The parse of an XML file failed.
pub struct ParseXmlError;

/// The walk of an XML file failed: in a handler, or in the XML reader at
/// byte `pos` of the file at `path`.
pub enum IterParseError {
    Failure,
    XmlError { path: String, pos: u64 },
}

/// An event of the XML reader, with what the handlers read of it.
pub enum XmlEvent {
    /// A start tag: its name and its attributes (`None` where the reader
    /// could not read them).
    Start { name: Vec<u8>, attributes: Option<Vec<(Vec<u8>, Vec<u8>)>> },
    /// Text (`None` where the reader could not decode it).
    Text(Option<String>),
    End(Vec<u8>),
    Eof,
    Other,
}

/// The attributes as byte pairs.
pub open spec fn raw_pairs(v: Seq<(Vec<u8>, Vec<u8>)>) -> Seq<(Seq<u8>, Seq<u8>)> {
    v.map_values(|p: (Vec<u8>, Vec<u8>)| (p.0@, p.1@))
}

/// Every name and value is UTF-8.
pub open spec fn attributes_valid(v: Seq<(Seq<u8>, Seq<u8>)>) -> bool {
    forall|i: int| 0 <= i < v.len() ==> vstd::utf8::valid_utf8((#[trigger] v[i]).0) && vstd::utf8::valid_utf8(v[i].1)
}

/// The attributes by name; of a name given twice, the later value.
pub open spec fn attribute_map(v: Seq<(Seq<u8>, Seq<u8>)>) -> Map<Seq<char>, Seq<char>>
    decreases v.len(),
{
    if v.len() == 0 {
        Map::<Seq<char>, Seq<char>>::empty()
    } else {
        attribute_map(v.drop_last()).insert(vstd::utf8::decode_utf8(v.last().0), vstd::utf8::decode_utf8(v.last().1))
    }
}

/// Of an attribute given more than once, the map keeps the value of the
/// last occurrence; every name given is in the map.
pub proof fn law_attribute_last_wins(v: Seq<(Seq<u8>, Seq<u8>)>, i: int)
    requires
        0 <= i < v.len(),
        forall|j: int| i < j < v.len() ==> vstd::utf8::decode_utf8((#[trigger] v[j]).0) != vstd::utf8::decode_utf8(v[i].0),
    ensures
        attribute_map(v).contains_key(vstd::utf8::decode_utf8(v[i].0)),
        attribute_map(v)[vstd::utf8::decode_utf8(v[i].0)] == vstd::utf8::decode_utf8(v[i].1),
    decreases v.len(),
{
    if i < v.len() - 1 {
        assert forall|j: int| i < j < v.drop_last().len() implies vstd::utf8::decode_utf8((#[trigger] v.drop_last()[j]).0) != vstd::utf8::decode_utf8(v.drop_last()[i].0) by {
            assert(v.drop_last()[j] == v[j]);
        }
        law_attribute_last_wins(v.drop_last(), i);
        assert(v.drop_last()[i] == v[i]);
        assert(vstd::utf8::decode_utf8(v.last().0) != vstd::utf8::decode_utf8(v[i].0));
    }
}

/// The attributes of a start tag as a map of strings, or an error where a
/// name or a value is not UTF-8.
pub fn attributes_to_map(attributes: Vec<(Vec<u8>, Vec<u8>)>) -> (r: Result<StrMap, AttributeError>)
    ensures
        r is Ok <==> attributes_valid(raw_pairs(attributes@)),
        r matches Ok(m) ==> str_map_contents(m) == attribute_map(raw_pairs(attributes@)),
{
    let ghost v = raw_pairs(attributes@);
    let mut attrs = StrMap::new();
    let mut i: usize = 0;
    assert(v.take(0) =~= Seq::<(Seq<u8>, Seq<u8>)>::empty());
    assert(str_map_contents(attrs) =~= attribute_map(v.take(0)));
    while i < attributes.len()
        invariant
            i <= attributes.len(),
            v == raw_pairs(attributes@),
            attributes_valid(v.take(i as int)),
            str_map_contents(attrs) == attribute_map(v.take(i as int)),
        decreases attributes.len() - i,
    {
        assert(v.take(i + 1).drop_last() =~= v.take(i as int));
        assert(v.take(i + 1).last() == v[i as int]);
        assert(v[i as int] == (attributes@[i as int].0@, attributes@[i as int].1@));
        let name = match from_utf8(attributes[i].0.clone()) {
            Some(n) => n,
            None => {
                assert(!attributes_valid(v));
                return Err(AttributeError);
            },
        };
        let value = match from_utf8(attributes[i].1.clone()) {
            Some(x) => x,
            None => {
                assert(!attributes_valid(v));
                return Err(AttributeError);
            },
        };
        attrs.insert(name, value);
        assert forall|k: int| 0 <= k < i + 1 implies vstd::utf8::valid_utf8((#[trigger] v.take(i + 1)[k]).0) && vstd::utf8::valid_utf8(v.take(i + 1)[k].1) by {
            if k < i {
                assert(v.take(i + 1)[k] == v.take(i as int)[k]);
            }
        }
        i = i + 1;
    }
    assert(v.take(attributes.len() as int) =~= v);
    Ok(attrs)
}

/// The parser and the stack of the start tags seen, which routes text to
/// the last of them.
pub struct XmlDriver {
    pub parser: StrixParser,
    pub tags: Vec<Vec<u8>>,
}

/// Where an event makes the walk fail in a handler.
pub open spec fn step_fails(d: &XmlDriver, e: &XmlEvent) -> bool {
    match e {
        XmlEvent::Start { name, attributes: Some(a) } => attributes_valid(raw_pairs(a@))
            && starttag_fails(&d.parser, lossy_text(name@), attribute_map(raw_pairs(a@))),
        XmlEvent::End(name) => endtag_fails(&d.parser, lossy_text(name@)) || endtag_overflows(&d.parser, lossy_text(name@)),
        _ => false,
    }
}

/// What one event does to the walk: the parser stays well-formed with its
/// configuration; a start tag goes on the stack and to the start-tag
/// handler, text to the text handler with the last start tag, an end tag to
/// the end-tag handler; `r` says whether the walk goes on, or why it fails.
pub open spec fn step_made(before: &XmlDriver, after: &XmlDriver, event: XmlEvent, r: Result<bool, IterParseError>) -> bool {
    &&& after.parser.wf()
    &&& after.parser.same_config(&before.parser)
    &&& match event {
        XmlEvent::Start { name, attributes } => {
            &&& after.tags@ == before.tags@.push(name)
            &&& match attributes {
                Some(a) => if attributes_valid(raw_pairs(a@)) {
                    &&& r == Ok::<bool, IterParseError>(true)
                    &&& exists|m: StrMap| str_map_contents(m) == attribute_map(raw_pairs(a@))
                        && #[trigger] tag_started(&before.parser, &after.parser, name@, m)
                } else {
                    r == Err::<bool, IterParseError>(IterParseError::Failure) && after.parser == before.parser
                },
                None => r == Err::<bool, IterParseError>(IterParseError::Failure) && after.parser == before.parser,
            }
        },
        XmlEvent::Text(t) => {
            &&& after.tags == before.tags
            &&& match t {
                Some(text) => {
                    &&& r == Ok::<bool, IterParseError>(true)
                    &&& before.tags@.len() > 0 ==> data_handled(&before.parser, &after.parser, text@, before.tags@.last()@)
                    &&& before.tags@.len() == 0 ==> after.parser == before.parser
                },
                None => r == Err::<bool, IterParseError>(IterParseError::Failure) && after.parser == before.parser,
            }
        },
        XmlEvent::End(name) => {
            &&& r == Ok::<bool, IterParseError>(true)
            &&& after.tags == before.tags
            &&& tag_ended(&before.parser, &after.parser, name@)
        },
        XmlEvent::Eof => r == Ok::<bool, IterParseError>(false) && *after == *before,
        XmlEvent::Other => r == Ok::<bool, IterParseError>(true) && *after == *before,
    }
}

impl XmlDriver {
    /// A walk at the start of a file.
    pub fn new(parser: StrixParser) -> (r: XmlDriver)
        ensures
            r.parser == parser,
            r.tags@.len() == 0,
    {
        XmlDriver { parser, tags: Vec::new() }
    }

    /// Whether `step` accepts the event: `!step_fails`.
    pub fn step_supported(&self, event: &XmlEvent) -> (r: bool)
        requires
            self.parser.wf(),
        ensures
            r == !step_fails(self, event),
    {
        match event {
            XmlEvent::Start { name, attributes: Some(a) } => {
                match attributes_to_map(clone_pairs(a)) {
                    Ok(m) => self.parser.starttag_supported(name.as_slice(), &m),
                    Err(_) => true,
                }
            },
            XmlEvent::End(name) => self.parser.endtag_supported(name.as_slice()),
            _ => true,
        }
    }

    /// Routes one event: a start tag goes on the stack and to the start-tag
    /// handler with its attributes, text to the text handler with the last
    /// start tag, an end tag to the end-tag handler. Returns whether the walk
    /// goes on: it ends at the end of the file.
    #[verifier::spinoff_prover]
    #[verifier::rlimit(40)]
    pub fn step(&mut self, event: XmlEvent) -> (r: Result<bool, IterParseError>)
        requires
            old(self).parser.wf(),
            !step_fails(old(self), &event),
        ensures
            step_made(old(self), final(self), event, r),
    {
        let ghost ev = event;
        let ghost before = *self;
        let r = match event {
            XmlEvent::Start { name, attributes } => {
                let ghost nm = name;
                let ghost at = attributes;
                let r = match attributes {
                    Some(a) => match attributes_to_map(a) {
                        Ok(m) => {
                            let ghost mg = m;
                            let ghost p0 = self.parser;
                            self.parser.handle_starttag(name.as_slice(), m);
                            assert(tag_started(&p0, &self.parser, name@, mg));
                            assert(str_map_contents(mg) == attribute_map(raw_pairs(a@)));
                            Ok(true)
                        },
                        Err(_) => Err(IterParseError::Failure),
                    },
                    None => Err(IterParseError::Failure),
                };
                let ghost p1 = self.parser;
                self.tags.push(name);
                assert(self.parser == p1);
                assert(self.tags@ == before.tags@.push(nm));
                proof {
                    if let Some(a) = at {
                        if attributes_valid(raw_pairs(a@)) {
                            let mg = choose|m: StrMap| str_map_contents(m) == attribute_map(raw_pairs(a@))
                                && #[trigger] tag_started(&before.parser, &p1, nm@, m);
                            assert(tag_started(&before.parser, &self.parser, nm@, mg));
                        }
                    }
                }
                assert(step_made(&before, self, ev, r));
                r
            },
            XmlEvent::Text(t) => match t {
                Some(text) => {
                    if self.tags.len() > 0 {
                        let last = self.tags.len() - 1;
                        self.parser.handle_data(text.as_str(), self.tags[last].as_slice());
                    }
                    Ok(true)
                },
                None => Err(IterParseError::Failure),
            },
            XmlEvent::End(name) => {
                self.parser.handle_endtag(name.as_slice());
                Ok(true)
            },
            XmlEvent::Eof => Ok(false),
            XmlEvent::Other => Ok(true),
        };
        assert(step_made(&before, self, ev, r));
        r
    }
}

/// A copy of some bytes.
fn clone_bytes(b: &Vec<u8>) -> (r: Vec<u8>)
    ensures
        r@ == b@,
{
    slice_to_vec(b.as_slice())
}

/// A copy of byte pairs.
fn clone_pairs(v: &Vec<(Vec<u8>, Vec<u8>)>) -> (r: Vec<(Vec<u8>, Vec<u8>)>)
    ensures
        raw_pairs(r@) == raw_pairs(v@),
{
    let mut r: Vec<(Vec<u8>, Vec<u8>)> = Vec::new();
    let mut i: usize = 0;
    while i < v.len()
        invariant
            i <= v.len(),
            raw_pairs(r@) == raw_pairs(v@.take(i as int)),
        decreases v.len() - i,
    {
        let ghost before = r@;
        r.push((clone_bytes(&v[i].0), clone_bytes(&v[i].1)));
        assert(raw_pairs(r@) =~= raw_pairs(before).push((v@[i as int].0@, v@[i as int].1@)));
        assert(raw_pairs(v@.take(i + 1)) =~= raw_pairs(v@.take(i as int)).push((v@[i as int].0@, v@[i as int].1@)));
        assert(raw_pairs(r@) =~= raw_pairs(v@.take(i + 1)));
        i = i + 1;
    }
    assert(v@.take(v.len() as int) =~= v@);
    r
}


// ---------------------------------------------------------------- the walk of a file

/// What one event does where the walk cannot take it too: it fails the
/// walk, and the driver stays as it was.
pub open spec fn try_step_made(before: &XmlDriver, after: &XmlDriver, event: XmlEvent, r: Result<bool, IterParseError>) -> bool {
    if step_fails(before, &event) {
        r == Err::<bool, IterParseError>(IterParseError::Failure) && *after == *before
    } else {
        step_made(before, after, event, r)
    }
}

impl XmlDriver {
    /// `step` where the walk can take the event; otherwise a failure, with
    /// the driver unchanged (`try_step_made`).
    pub fn try_step(&mut self, event: XmlEvent) -> (r: Result<bool, IterParseError>)
        requires
            old(self).parser.wf(),
        ensures
            final(self).parser.wf(),
            try_step_made(old(self), final(self), event, r),
    {
        if self.step_supported(&event) {
            self.step(event)
        } else {
            Err(IterParseError::Failure)
        }
    }
}

/// An event as the XML reader of `quick_xml` reads it: a start tag by its
/// name and the raw text of its attributes, text by its content, an end tag
/// by its name, and any other event.
pub enum RawXmlEvent {
    Start { name: Vec<u8>, attributes: String },
    Text(String),
    End(Vec<u8>),
    Other,
}

/// A reader event by its values.
pub enum RawXmlEventView {
    Start { name: Seq<u8>, attributes: Seq<char> },
    Text(Seq<char>),
    End(Seq<u8>),
    Other,
}

impl View for RawXmlEvent {
    type V = RawXmlEventView;

    open spec fn view(&self) -> RawXmlEventView {
        match self {
            RawXmlEvent::Start { name, attributes } => RawXmlEventView::Start { name: name@, attributes: attributes@ },
            RawXmlEvent::Text(t) => RawXmlEventView::Text(t@),
            RawXmlEvent::End(name) => RawXmlEventView::End(name@),
            RawXmlEvent::Other => RawXmlEventView::Other,
        }
    }
}

/// Reader events by their values.
pub open spec fn raw_views(es: Seq<RawXmlEvent>) -> Seq<RawXmlEventView> {
    es.map_values(|e: RawXmlEvent| e@)
}

/// The events the XML reader of `quick_xml` yields for `bytes`, with its
/// default configuration, up to the end of input or up to the first error,
/// with the byte position of that error.
pub uninterp spec fn xml_events_of(bytes: Seq<u8>) -> (Seq<RawXmlEventView>, Option<u64>);

/// Reads `bytes` with `quick_xml::Reader::read_event` until the end of
/// input or the first error, each event as a `RawXmlEvent`. Claims no more
/// than that the result is `xml_events_of(bytes)`.
#[verifier::external_body]
fn read_xml_events(bytes: &[u8]) -> (r: (Vec<RawXmlEvent>, Option<u64>))
    ensures
        (raw_views(r.0@), r.1) == xml_events_of(bytes@),
{
    let mut reader = Reader::from_reader(bytes);
    let mut events = Vec::new();
    loop {
        let e = match reader.read_event() {
            Ok(Event::Start(s)) => RawXmlEvent::Start { name: s.name().0.into(), attributes: s.attributes_raw().into() },
            Ok(Event::Text(t)) => RawXmlEvent::Text(t.xml10_content().into()),
            Ok(Event::End(e)) => RawXmlEvent::End(e.name().0.into()),
            Ok(Event::Eof) => return (events, None),
            Ok(_) => RawXmlEvent::Other,
            Err(_) => return (events, Some(reader.error_position())),
        };
        events.push(e);
    }
}

/// The attributes `quick_xml::events::attributes::Attributes` reads in the
/// raw attribute text of a start tag, as name and value bytes; `None` where
/// one of them cannot be read.
pub uninterp spec fn xml_attributes_of(raw: Seq<char>) -> Option<Seq<(Seq<u8>, Seq<u8>)>>;

/// Reads the attributes of the raw attribute text with
/// `quick_xml::events::attributes::Attributes::new`. Claims no more than
/// that the result is `xml_attributes_of(raw)`.
#[verifier::external_body]
fn read_attributes(raw: &str) -> (r: Option<Vec<(Vec<u8>, Vec<u8>)>>)
    ensures
        match r {
            Some(v) => xml_attributes_of(raw@) == Some(raw_pairs(v@)),
            None => xml_attributes_of(raw@) is None,
        },
{
    Attributes::new(raw, 0).map(|a| a.map(|a| (a.key.0.into(), a.value.as_bytes().into()))).collect::<Result<_, _>>().ok()
}

/// `e` is the event the driver takes for the event `raw` of the reader.
pub open spec fn cooked_as(raw: RawXmlEventView, e: XmlEvent) -> bool {
    match raw {
        RawXmlEventView::Start { name, attributes } => e matches XmlEvent::Start { name: n, attributes: a } && n@ == name
            && match xml_attributes_of(attributes) {
                Some(p) => a matches Some(v) && raw_pairs(v@) == p,
                None => a is None,
            },
        RawXmlEventView::Text(t) => e matches XmlEvent::Text(Some(x)) && x@ == t,
        RawXmlEventView::End(name) => e matches XmlEvent::End(n) && n@ == name,
        RawXmlEventView::Other => e is Other,
    }
}

/// The event the driver takes for an event of the reader (`cooked_as`).
fn cook_event(raw: RawXmlEvent) -> (e: XmlEvent)
    ensures
        cooked_as(raw@, e),
{
    match raw {
        RawXmlEvent::Start { name, attributes } => XmlEvent::Start { name, attributes: read_attributes(attributes.as_str()) },
        RawXmlEvent::Text(t) => XmlEvent::Text(Some(t)),
        RawXmlEvent::End(name) => XmlEvent::End(name),
        RawXmlEvent::Other => XmlEvent::Other,
    }
}

/// The drivers and events of a walk that each event lets go on: `ds[j]`
/// takes `cs[j]`, the event it is given for the reader's `es[j]`, to
/// `ds[j + 1]`.
pub open spec fn chain(ds: Seq<XmlDriver>, cs: Seq<XmlEvent>, es: Seq<RawXmlEventView>) -> bool {
    &&& ds.len() == es.len() + 1
    &&& cs.len() == es.len()
    &&& forall|j: int| 0 <= j < es.len() ==> cooked_as(es[j], #[trigger] cs[j]) && try_step_made(&ds[j], &ds[j + 1], cs[j], Ok(true))
}

/// How a walk ends after the first `k` events of `es` let it go on: the next
/// event stops it, at the end of input or with a failure; or there is none,
/// and the walk ends, failed by a reader error at `pos` in the file `path`
/// where there is one.
pub open spec fn walk_end(m: XmlDriver, d1: XmlDriver, es: Seq<RawXmlEventView>, k: int, pos: Option<u64>, path: Seq<char>, r: Result<(), IterParseError>) -> bool {
    if k < es.len() {
        exists|c: XmlEvent, s: Result<bool, IterParseError>| cooked_as(es[k], c) && #[trigger] try_step_made(&m, &d1, c, s)
            && s != Ok::<bool, IterParseError>(true)
            && match s {
                Ok(_) => r == Ok::<(), IterParseError>(()),
                Err(e) => r == Err::<(), IterParseError>(e),
            }
    } else {
        &&& d1 == m
        &&& match pos {
            Some(p) => r matches Err(IterParseError::XmlError { path: f, pos: q }) && f@ == path && q == p,
            None => r == Ok::<(), IterParseError>(()),
        }
    }
}

/// A walk of the reader's events `es` from `d0` that ends in `d1` with `r`.
pub open spec fn walked(d0: XmlDriver, d1: XmlDriver, es: Seq<RawXmlEventView>, pos: Option<u64>, path: Seq<char>, r: Result<(), IterParseError>) -> bool {
    exists|k: int, ds: Seq<XmlDriver>, cs: Seq<XmlEvent>| 0 <= k <= es.len() && #[trigger] chain(ds, cs, es.take(k)) && ds[0] == d0
        && walk_end(ds.last(), d1, es, k, pos, path, r)
}

/// Walks the XML text `bytes` of the file `file_name`: the driver takes the
/// reader's events in turn (`walked`) until one stops the walk or they run
/// out.
pub fn iterparse_parser(file_name: &str, bytes: &[u8], driver: &mut XmlDriver) -> (r: Result<(), IterParseError>)
    requires
        old(driver).parser.wf(),
    ensures
        final(driver).parser.wf(),
        walked(*old(driver), *final(driver), xml_events_of(bytes@).0, xml_events_of(bytes@).1, file_name@, r),
{
    let (events, pos) = read_xml_events(bytes);
    let ghost es = raw_views(events@);
    let ghost d0 = *driver;
    let total = events.len();
    let mut events = events;
    let mut rest: Vec<RawXmlEvent> = Vec::new();
    while events.len() > 0
        invariant
            rest@.len() + events@.len() == es.len(),
            es.len() == total,
            raw_views(events@) == es.take(events@.len() as int),
            forall|j: int| 0 <= j < rest@.len() ==> #[trigger] rest@[j]@ == es[es.len() - 1 - j],
        decreases events.len(),
    {
        let ghost n = events@.len() as int;
        let ghost before = events@;
        let e = events.pop().unwrap();
        assert(before[n - 1] == e);
        assert(e@ == raw_views(before)[n - 1]);
        assert(e@ == es[n - 1]);
        rest.push(e);
        assert(raw_views(events@) =~= es.take(n - 1));
    }
    let mut i: usize = 0;
    let ghost mut ds = seq![d0];
    let ghost mut cs = Seq::<XmlEvent>::empty();
    assert(es.take(0) =~= Seq::<RawXmlEventView>::empty());
    while rest.len() > 0
        invariant
            i + rest@.len() == es.len(),
            es.len() == total,
            forall|j: int| 0 <= j < rest@.len() ==> #[trigger] rest@[j]@ == es[es.len() - 1 - j],
            driver.parser.wf(),
            chain(ds, cs, es.take(i as int)),
            ds[0] == d0,
            ds.last() == *driver,
            d0 == *old(driver),
            (es, pos) == xml_events_of(bytes@),
        decreases rest.len(),
    {
        let raw = rest.pop().unwrap();
        assert(raw@ == es[i as int]);
        let e = cook_event(raw);
        let ghost eg = e;
        let ghost dm = *driver;
        let s = driver.try_step(e);
        match s {
            Ok(true) => {
                proof {
                    let ds2 = ds.push(*driver);
                    let cs2 = cs.push(eg);
                    let t = es.take(i + 1);
                    assert forall|j: int| 0 <= j < t.len() implies cooked_as(t[j], #[trigger] cs2[j]) && try_step_made(&ds2[j], &ds2[j + 1], cs2[j], Ok(true)) by {
                        if j < i {
                            assert(t[j] == es.take(i as int)[j]);
                            assert(ds2[j] == ds[j] && ds2[j + 1] == ds[j + 1] && cs2[j] == cs[j]);
                        } else {
                            assert(t[j] == es[i as int]);
                        }
                    }
                    ds = ds2;
                    cs = cs2;
                }
            },
            Ok(false) => {
                assert(walk_end(dm, *driver, es, i as int, pos, file_name@, Ok(())));
                assert(chain(ds, cs, es.take(i as int)));
                return Ok(());
            },
            Err(err) => {
                let ghost errg = err;
                assert(walk_end(dm, *driver, es, i as int, pos, file_name@, Err(errg)));
                assert(chain(ds, cs, es.take(i as int)));
                return Err(err);
            },
        }
        i = i + 1;
    }
    assert(es.take(i as int) =~= es);
    let r = match pos {
        Some(p) => Err(IterParseError::XmlError { path: String::from_str(file_name), pos: p }),
        None => Ok(()),
    };
    assert(walk_end(*driver, *driver, es, es.len() as int, pos, file_name@, r));
    assert(chain(ds, cs, es.take(es.len() as int)));
    r
}

/// The parts of the XML text `bytes` of the file `file_name`, cut at
/// `split_document`: a parser with this configuration walks the text
/// (`iterparse_parser`), and the parts it has cut when the walk ends are the
/// result; an `Err` comes exactly where the walk fails.
pub fn parse_pipeline_xml(
    file_name: &str,
    bytes: &[u8],
    split_document: String,
    word_annotations: JsonMap,
    options: ParsePipelineXmlOptions,
) -> (r: Result<Vec<Part>, ParseXmlError>)
    requires
        word_annotations.wf(),
        options.struct_annotations.wf(),
        options.text_attributes.wf(),
    ensures
        exists|d0: XmlDriver, d1: XmlDriver, w: Result<(), IterParseError>|
            #[trigger] walked(d0, d1, xml_events_of(bytes@).0, xml_events_of(bytes@).1, file_name@, w)
            && d0.tags@.len() == 0
            && fresh_parser(
                d0.parser,
                split_document,
                word_annotations,
                options.struct_annotations,
                options.token_count_id,
                options.text_attributes,
                options.add_most_common_words,
                options.save_whitespace_per_token,
                options.pos_index_attributes,
                options.text_tags,
            )
            && (r is Ok <==> w is Ok)
            && (r matches Ok(parts) ==> parts == d1.parser.current_parts),
{
    let parser = StrixParser::new(
        split_document,
        word_annotations,
        options.struct_annotations,
        options.token_count_id,
        options.text_attributes,
        options.add_most_common_words,
        options.save_whitespace_per_token,
        options.pos_index_attributes,
        options.text_tags,
    );
    let mut driver = XmlDriver::new(parser);
    let ghost d0 = driver;
    let w = iterparse_parser(file_name, bytes, &mut driver);
    let ghost d1 = driver;
    let ghost wg = w;
    assert(walked(d0, d1, xml_events_of(bytes@).0, xml_events_of(bytes@).1, file_name@, wg));
    match w {
        Ok(()) => Ok(driver.parser.get_result()),
        Err(_) => Err(ParseXmlError),
    }
}


// ---------------------------------------------------------------- laws of the values

/// The first four characters of `s` are decimal digits.
pub open spec fn starts_with_year(s: Seq<char>) -> bool {
    s.len() >= 4 && forall|i: int| 0 <= i < 4 ==> '0' <= #[trigger] s[i] <= '9'
}

proof fn lemma_year_prefix(s: Seq<char>)
    requires
        starts_with_year(s),
    ensures
        is_boundary(s, 4),
        byte_prefix(s, 4) == s.take(4),
{
    assert(s[0] <= '9' && s[1] <= '9' && s[2] <= '9' && s[3] <= '9');
    assert(s.take(0) =~= Seq::<char>::empty());
    assert(byte_len(s.take(0)) == 0);
    assert(s.take(1).drop_last() =~= s.take(0));
    assert(s.take(1).last() == s[0]);
    assert(char_width(s[0]) == 1);
    assert(byte_len(s.take(1)) == 1);
    assert(s.take(2).drop_last() =~= s.take(1));
    assert(s.take(2).last() == s[1]);
    assert(char_width(s[1]) == 1);
    assert(byte_len(s.take(2)) == 2);
    assert(s.take(3).drop_last() =~= s.take(2));
    assert(s.take(3).last() == s[2]);
    assert(char_width(s[2]) == 1);
    assert(byte_len(s.take(3)) == 3);
    assert(s.take(4).drop_last() =~= s.take(3));
    assert(s.take(4).last() == s[3]);
    assert(char_width(s[3]) == 1);
    assert(byte_len(s.take(4)) == 4);
    assert(byte_len(s.take(4)) == 4);
    assert(is_boundary(s, 4));
    let k = choose|k: int| 0 <= k <= s.len() && byte_len(s.take(k)) == 4;
    if k < 4 {
        lemma_byte_len_strict(s, k, 4);
    } else if k > 4 {
        lemma_byte_len_strict(s, 4, k);
    }
}

/// A part whose date range has both ends, and no date of its own, has as
/// year the first four digits of the range's start where both ends agree on
/// them, and both years, start first, where they do not.
pub proof fn law_year_of_range(pa: Seq<(Seq<char>, JsonV)>, a: Seq<char>, b: Seq<char>)
    requires
        obj_get(pa, "date"@) is None,
        obj_get(pa, "datum"@) is None,
        obj_get(pa, "topic_year"@) is None,
        obj_get(pa, "datefrom"@) == Some(JsonV::Str(a)),
        obj_get(pa, "dateto"@) == Some(JsonV::Str(b)),
        starts_with_year(a),
        starts_with_year(b),
    ensures
        !year_fails(pa),
        a.take(4) == b.take(4) ==> year_text(pa) == a.take(4),
        a.take(4) != b.take(4) ==> year_text(pa) == a.take(4) + ", "@ + b.take(4),
{
    lemma_year_prefix(a);
    lemma_year_prefix(b);
}

/// A part with a date of its own (`date`, `datum` or `topic_year`, the first
/// of them given) has as year its first four digits, whatever its range says.
pub proof fn law_year_of_given_date(pa: Seq<(Seq<char>, JsonV)>, key: Seq<char>, d: Seq<char>)
    requires
        key == "date"@ || (key == "datum"@ && obj_get(pa, "date"@) is None)
            || (key == "topic_year"@ && obj_get(pa, "date"@) is None && obj_get(pa, "datum"@) is None),
        obj_get(pa, key) == Some(JsonV::Str(d)),
        starts_with_year(d),
        !year_fails(pa),
    ensures
        year_text(pa) == d.take(4),
{
    lemma_year_prefix(d);
}

/// A part without any date has the year 2050.
pub proof fn law_year_without_dates(pa: Seq<(Seq<char>, JsonV)>)
    requires
        obj_get(pa, "date"@) is None,
        obj_get(pa, "datum"@) is None,
        obj_get(pa, "topic_year"@) is None,
        obj_get(pa, "datefrom"@) is None,
        obj_get(pa, "dateto"@) is None,
    ensures
        !year_fails(pa),
        year_text(pa) == "2050"@,
{
}

proof fn lemma_nonempty_parts_concat(a: Seq<Seq<char>>, b: Seq<Seq<char>>)
    ensures
        nonempty_parts(a + b) == nonempty_parts(a) + nonempty_parts(b),
    decreases b.len(),
{
    if b.len() == 0 {
        assert(a + b =~= a);
        assert(nonempty_parts(a) + nonempty_parts(b) =~= nonempty_parts(a));
    } else {
        assert((a + b).drop_last() =~= a + b.drop_last());
        assert((a + b).last() == b.last());
        lemma_nonempty_parts_concat(a, b.drop_last());
        if b.last().len() > 0 {
            assert((nonempty_parts(a) + nonempty_parts(b.drop_last())).push(b.last())
                =~= nonempty_parts(a) + nonempty_parts(b.drop_last()).push(b.last()));
        }
    }
}

proof fn lemma_nonempty_parts_single(p: Seq<char>)
    ensures
        nonempty_parts(seq![p]) == if p.len() > 0 { seq![p] } else { Seq::<Seq<char>>::empty() },
{
    assert(seq![p].drop_last() =~= Seq::<Seq<char>>::empty());
    assert(nonempty_parts(Seq::<Seq<char>>::empty()) == Seq::<Seq<char>>::empty());
    assert(Seq::<Seq<char>>::empty().push(p) =~= seq![p]);
}

/// The non-empty `|` pieces of `pre + p + rest`, where `pre` holds only
/// separators and `p` is a whole piece, begin with `p`.
proof fn lemma_first_nonempty_piece(pre: Seq<char>, p: Seq<char>, rest: Seq<char>)
    requires
        forall|i: int| 0 <= i < pre.len() ==> pre[i] == '|',
        p.len() > 0,
        !p.contains('|'),
        rest.len() == 0 || rest[0] == '|',
    ensures
        nonempty_parts(split_on(pre + p + rest, '|')).len() > 0,
        nonempty_parts(split_on(pre + p + rest, '|'))[0] == p,
    decreases pre.len(),
{
    lemma_split_no_sep(p, '|');
    lemma_nonempty_parts_single(p);
    if pre.len() == 0 {
        assert(pre + p + rest =~= p + rest);
        if rest.len() == 0 {
            assert(p + rest =~= p);
        } else {
            assert(p + rest =~= p + seq!['|'] + rest.skip(1));
            lemma_split_concat(p, rest.skip(1), '|');
            lemma_nonempty_parts_concat(seq![p], split_on(rest.skip(1), '|'));
        }
    } else {
        let e = Seq::<char>::empty();
        let q = pre.skip(1) + p + rest;
        assert(pre + p + rest =~= e + seq!['|'] + q);
        lemma_split_concat(e, q, '|');
        assert(split_on(e, '|') =~= seq![e]);
        lemma_nonempty_parts_single(e);
        lemma_nonempty_parts_concat(seq![e], split_on(q, '|'));
        lemma_first_nonempty_piece(pre.skip(1), p, rest);
        assert(Seq::<Seq<char>>::empty() + nonempty_parts(split_on(q, '|')) =~= nonempty_parts(split_on(q, '|')));
    }
}

/// A ranked annotation's value is the first non-empty `|` piece of the text
/// it reads, up to its first `:`.
pub proof fn law_ranked_first_piece(ann: JsonV, wa: Map<Seq<char>, Seq<char>>, pre: Seq<char>, p: Seq<char>, rest: Seq<char>, k: int)
    requires
        field(ann, "ranked"@) == Some(JsonV::Bool(true)),
        annotation_base(ann, wa) == pre + p + rest,
        forall|i: int| 0 <= i < pre.len() ==> pre[i] == '|',
        p.len() > 0,
        !p.contains('|'),
        rest.len() == 0 || rest[0] == '|',
        0 <= k <= p.len(),
        !p.take(k).contains(':'),
        k < p.len() ==> p[k] == ':',
    ensures
        annotation_value(ann, wa) == JsonV::Str(p.take(k)),
{
    lemma_first_nonempty_piece(pre, p, rest);
    lemma_split_no_sep(p.take(k), ':');
    if k == p.len() {
        assert(p.take(k) =~= p);
    } else {
        assert(p =~= p.take(k) + seq![':'] + p.skip(k + 1));
        lemma_split_concat(p.take(k), p.skip(k + 1), ':');
    }
}

proof fn lemma_only_separators(s: Seq<char>)
    requires
        forall|i: int| 0 <= i < s.len() ==> s[i] == '|',
    ensures
        nonempty_parts(split_on(s, '|')).len() == 0,
    decreases s.len(),
{
    if s.len() == 0 {
        lemma_nonempty_parts_single(Seq::<char>::empty());
    } else {
        let d = s.drop_last();
        assert(s.last() == s[s.len() - 1]);
        lemma_only_separators(d);
        let x = split_on(d, '|');
        assert(x.push(Seq::<char>::empty()).drop_last() =~= x);
    }
}

/// A ranked annotation whose text holds no non-empty `|` piece is null.
pub proof fn law_ranked_without_pieces(ann: JsonV, wa: Map<Seq<char>, Seq<char>>)
    requires
        field(ann, "ranked"@) == Some(JsonV::Bool(true)),
        forall|i: int| 0 <= i < annotation_base(ann, wa).len() ==> annotation_base(ann, wa)[i] == '|',
    ensures
        annotation_value(ann, wa) == JsonV::Null,
{
    lemma_only_separators(annotation_base(ann, wa));
}

/// A text attribute configured as a set takes as value the array of the
/// `|` pieces of the attribute's value: pieces without `|` that, joined with
/// `|`, give the value back.
pub proof fn law_set_value_pieces(ta: Seq<(Seq<char>, JsonV)>, name: Seq<char>, value: Seq<char>, c: JsonV)
    requires
        obj_get(ta, name) == Some(c),
        field(c, "set"@) == Some(JsonV::Bool(true)),
    ensures
        exists|ps: Seq<Seq<char>>| #[trigger] text_attr_value(ta, name, value) == JsonV::Array(str_values(ps))
            && join(ps, seq!['|']) == value
            && forall|i: int| 0 <= i < ps.len() ==> !(#[trigger] ps[i]).contains('|'),
{
    let ps = split_on(value, '|');
    law_split_join(value, '|');
    law_split_pieces(value, '|');
    assert(text_attr_value(ta, name, value) == JsonV::Array(str_values(ps)));
}

/// A word that counts among a common noun's lemmas: from its `lemma`
/// annotation where that is an array, else a non-empty `|` piece of its
/// `lemma` attribute; without `:` and `--`.
pub open spec fn counted_lemma(td: Seq<(Seq<char>, JsonV)>, wa: Map<Seq<char>, Seq<char>>, x: Seq<char>) -> bool {
    countable_lemma(x) && match obj_get(td, "lemma"@) {
        Some(JsonV::Array(a)) => a.contains(JsonV::Str(x)),
        _ => wa.contains_key("lemma"@) && x.len() > 0 && split_on(wa["lemma"@], '|').contains(x),
    }
}

proof fn lemma_countable_values(a: Seq<JsonV>)
    ensures
        forall|x: Seq<char>| #[trigger] countable_values(a).contains(x) <==> (countable_lemma(x) && a.contains(JsonV::Str(x))),
    decreases a.len(),
{
    if a.len() > 0 {
        lemma_countable_values(a.drop_last());
        let p = countable_values(a.drop_last());
        assert forall|x: Seq<char>| #[trigger] countable_values(a).contains(x) <==> (countable_lemma(x) && a.contains(JsonV::Str(x))) by {
            if a.contains(JsonV::Str(x)) {
                let j = choose|j: int| 0 <= j < a.len() && a[j] == JsonV::Str(x);
                if j < a.len() - 1 {
                    assert(a.drop_last()[j] == JsonV::Str(x));
                }
            }
            if a.drop_last().contains(JsonV::Str(x)) {
                let j = choose|j: int| 0 <= j < a.drop_last().len() && a.drop_last()[j] == JsonV::Str(x);
                assert(a[j] == JsonV::Str(x));
            }
            match a.last() {
                JsonV::Str(y) => if countable_lemma(y) {
                    assert(p.push(y)[p.len() as int] == y);
                    if p.contains(x) {
                        let j = choose|j: int| 0 <= j < p.len() && p[j] == x;
                        assert(p.push(y)[j] == x);
                    }
                    if p.push(y).contains(x) {
                        let j = choose|j: int| 0 <= j < p.push(y).len() && p.push(y)[j] == x;
                        if j < p.len() {
                            assert(p[j] == x);
                        }
                    }
                },
                _ => {},
            }
            assert(a.last() == a[a.len() - 1]);
        }
    }
}

proof fn lemma_countable_pieces(parts: Seq<Seq<char>>)
    ensures
        forall|x: Seq<char>| #[trigger] countable_pieces(parts).contains(x) <==> (x.len() > 0 && countable_lemma(x) && parts.contains(x)),
    decreases parts.len(),
{
    if parts.len() > 0 {
        lemma_countable_pieces(parts.drop_last());
        let p = countable_pieces(parts.drop_last());
        let y = parts.last();
        assert forall|x: Seq<char>| #[trigger] countable_pieces(parts).contains(x) <==> (x.len() > 0 && countable_lemma(x) && parts.contains(x)) by {
            if parts.contains(x) {
                let j = choose|j: int| 0 <= j < parts.len() && parts[j] == x;
                if j < parts.len() - 1 {
                    assert(parts.drop_last()[j] == x);
                }
            }
            if parts.drop_last().contains(x) {
                let j = choose|j: int| 0 <= j < parts.drop_last().len() && parts.drop_last()[j] == x;
                assert(parts[j] == x);
            }
            if y.len() > 0 && countable_lemma(y) {
                assert(p.push(y)[p.len() as int] == y);
                if p.contains(x) {
                    let j = choose|j: int| 0 <= j < p.len() && p[j] == x;
                    assert(p.push(y)[j] == x);
                }
                if p.push(y).contains(x) {
                    let j = choose|j: int| 0 <= j < p.push(y).len() && p.push(y)[j] == x;
                    if j < p.len() {
                        assert(p[j] == x);
                    }
                }
            }
            assert(y == parts[parts.len() - 1]);
        }
    }
}

/// A common noun adds to the most common words every lemma that counts, and
/// nothing else; only where none counts does it add the token itself.
pub proof fn law_common_words_are_lemmas(td: Seq<(Seq<char>, JsonV)>, wa: Map<Seq<char>, Seq<char>>, token: Seq<char>)
    ensures
        forall|x: Seq<char>| #[trigger] counted_lemma(td, wa, x) ==> common_words_of(td, wa, token).contains(x),
        forall|j: int| 0 <= j < common_words_of(td, wa, token).len() ==> {
            ||| counted_lemma(td, wa, #[trigger] common_words_of(td, wa, token)[j])
            ||| common_words_of(td, wa, token) == seq![token] && forall|x: Seq<char>| !(#[trigger] counted_lemma(td, wa, x))
        },
{
    let cw = common_words_of(td, wa, token);
    let c = match obj_get(td, "lemma"@) {
        Some(JsonV::Array(a)) => countable_values(a),
        _ => if wa.contains_key("lemma"@) {
            countable_pieces(split_on(wa["lemma"@], '|'))
        } else {
            Seq::<Seq<char>>::empty()
        },
    };
    match obj_get(td, "lemma"@) {
        Some(JsonV::Array(a)) => lemma_countable_values(a),
        _ => if wa.contains_key("lemma"@) {
            lemma_countable_pieces(split_on(wa["lemma"@], '|'));
        },
    }
    assert forall|x: Seq<char>| #[trigger] counted_lemma(td, wa, x) <==> c.contains(x) by {}
    if c.len() == 0 {
        assert forall|x: Seq<char>| !(#[trigger] counted_lemma(td, wa, x)) by {
            assert(!c.contains(x));
        }
    } else {
        assert(cw == c);
        assert forall|j: int| 0 <= j < cw.len() implies counted_lemma(td, wa, #[trigger] cw[j]) by {
            assert(c.contains(c[j]));
        }
    }
}

} // verus!
