//! The vector generation of a corpus: where its files go, and the
//! transformer input made of the parts of its texts.

use vstd::prelude::*;
use crate::config::{StrixConfig, path_join, join_path};
use crate::xmlparser::{Part, ParsePipelineXmlOptions};
use crate::json::{Json, JsonMap, JsonV, obj_get, json_wf};
use crate::text::{views, join, join_strs, replace, replace_str, copy_strings, count_char, lemma_count_concat};
use crate::encode::{json_string_list_text, encode_string_list};

verus! {

/// Where the document vectors are made.
pub enum VectorGenerationType {
    Local,
    Remote,
}

/// The vectors could not be generated.
pub enum GenerateVectorError {
    Failure,
}

/// Handling the vectors failed.
pub enum VectorError {
    Failure,
    WithMsg(String),
}

/// What is reported when no directory for the vector files is configured.
pub open spec fn missing_dir_message() -> Seq<char> {
    "`transformers_postprocess_dir` is not set in config"@
}

/// `sub` in the corpus's directory in the directory of the vector files, or
/// the error where that directory is not configured.
fn postprocess_subdir(corpus: &str, config: &StrixConfig, sub: &str) -> (r: Result<String, VectorError>)
    ensures
        match config.core.transformers_postprocess_dir {
            Some(d) => r matches Ok(p) && p@ == path_join(path_join(d@, corpus@), sub@),
            None => r matches Err(VectorError::WithMsg(m)) && m@ == missing_dir_message(),
        },
{
    match config.transformers_postprocess_dir() {
        Some(d) => {
            let c = join_path(d.as_str(), corpus);
            Ok(join_path(c.as_str(), sub))
        },
        None => Err(VectorError::WithMsg(String::from_str("`transformers_postprocess_dir` is not set in config"))),
    }
}

/// The directory the texts of the corpus are written to for the
/// transformer: `<dir>/<corpus>/texts` in the directory of the vector files.
pub fn vector_texts_dir(corpus: &str, config: &StrixConfig) -> (r: Result<String, VectorError>)
    ensures
        match config.core.transformers_postprocess_dir {
            Some(d) => r matches Ok(p) && p@ == path_join(path_join(d@, corpus@), "texts"@),
            None => r matches Err(VectorError::WithMsg(m)) && m@ == missing_dir_message(),
        },
{
    postprocess_subdir(corpus, config, "texts")
}

/// The directory of the corpus's vectors: `<dir>/<corpus>/vectors` in the
/// directory of the vector files.
pub fn vectors_dir(corpus: &str, config: &StrixConfig) -> (r: Result<String, VectorError>)
    ensures
        match config.core.transformers_postprocess_dir {
            Some(d) => r matches Ok(p) && p@ == path_join(path_join(d@, corpus@), "vectors"@),
            None => r matches Err(VectorError::WithMsg(m)) && m@ == missing_dir_message(),
        },
{
    postprocess_subdir(corpus, config, "vectors")
}

/// The file of a task's transformer input: `<corpus>/texts/<task_id>.jsonl`
/// in the directory `dir` of the vector files.
pub fn text_task_path(dir: &str, corpus: &str, task_id: &str) -> (r: String)
    ensures
        r@ == path_join(dir@, corpus@ + "/texts/"@ + task_id@ + ".jsonl"@),
{
    let mut p = String::from_str(corpus);
    p.append("/texts/");
    p.append(task_id);
    p.append(".jsonl");
    join_path(dir, p.as_str())
}

/// The text attributes the parts of the vector generation keep: `_id`.
pub open spec fn id_attributes() -> Seq<(Seq<char>, JsonV)> {
    seq![("_id"@, JsonV::Object(Seq::<(Seq<char>, JsonV)>::empty()))]
}

/// The options the texts are parsed with for the vector generation: the
/// document id as the one text attribute, and the corpus's text elements.
pub fn vector_parse_options(text_tags: &Vec<String>) -> (r: ParsePipelineXmlOptions)
    ensures
        r.text_attributes@ == id_attributes(),
        r.text_tags@ == text_tags@,
        r.struct_annotations@.len() == 0,
        !r.token_count_id,
        !r.add_most_common_words,
        !r.save_whitespace_per_token,
        r.pos_index_attributes@.len() == 0,
        r.struct_annotations.wf(),
        r.text_attributes.wf(),
{
    let mut attrs = JsonMap::new();
    let empty = JsonMap::new();
    proof {
        let v = JsonV::Object(Seq::<(Seq<char>, JsonV)>::empty());
        assert(json_wf(v));
        crate::sparv_decoder::lemma_item_wf("_id"@, v);
    }
    attrs.insert(String::from_str("_id"), Json::Object(empty));
    assert(attrs@ =~= id_attributes());
    ParsePipelineXmlOptions {
        struct_annotations: JsonMap::new(),
        token_count_id: false,
        text_attributes: attrs,
        add_most_common_words: false,
        save_whitespace_per_token: false,
        pos_index_attributes: Vec::new(),
        text_tags: copy_strings(text_tags),
    }
}

/// The document id of a part: its `_id` text attribute, where that is a
/// string.
pub open spec fn doc_id_of(text_attributes: Seq<(Seq<char>, JsonV)>) -> Option<Seq<char>> {
    match obj_get(text_attributes, "_id"@) {
        Some(JsonV::Str(s)) => Some(s),
        _ => None,
    }
}

/// A part as a row of the transformer input: its document id, and its text,
/// the dumped lines joined by spaces with each newline as a space.
pub open spec fn transformer_row_of(id: Seq<char>, dump: Seq<Seq<char>>) -> Seq<Seq<char>> {
    seq![id, replace(join(dump, " "@), "\n"@, " "@)]
}

/// Whether the part has a document id.
pub fn has_doc_id(part: &Part) -> (b: bool)
    ensures
        b == doc_id_of(part.text_attributes@) is Some,
{
    match part.text_attributes.get("_id") {
        Some(j) => j.as_str().is_some(),
        None => false,
    }
}

/// The part as a row of the transformer input (`transformer_row_of`).
pub fn transformer_row(part: &Part) -> (r: Vec<String>)
    requires
        doc_id_of(part.text_attributes@) is Some,
    ensures
        views(r@) == transformer_row_of(doc_id_of(part.text_attributes@)->Some_0, views(part.dump@)),
{
    let id = match part.text_attributes.get("_id") {
        Some(j) => match j.as_str() {
            Some(s) => s.clone(),
            None => String::new(),
        },
        None => String::new(),
    };
    let text = join_strs(&part.dump, " ");
    proof { reveal_strlit("\n"); }
    let text = replace_str(text.as_str(), "\n", " ");
    let mut r: Vec<String> = Vec::new();
    r.push(id);
    r.push(text);
    assert(views(r@) =~= transformer_row_of(doc_id_of(part.text_attributes@)->Some_0, views(part.dump@)));
    r
}

/// The rows of the parts.
pub open spec fn part_rows(parts: Seq<Part>) -> Seq<Seq<Seq<char>>> {
    parts.map_values(|p: Part| transformer_row_of(doc_id_of(p.text_attributes@)->Some_0, views(p.dump@)))
}

/// Rows as JSON lines: each row as a JSON array of strings, ended by a
/// newline.
pub open spec fn jsonl_of(rows: Seq<Seq<Seq<char>>>) -> Seq<char>
    decreases rows.len(),
{
    if rows.len() == 0 {
        Seq::<char>::empty()
    } else {
        jsonl_of(rows.drop_last()) + json_string_list_text(rows.last()) + "\n"@
    }
}

/// Whether every part has a document id.
pub fn all_have_doc_id(parts: &Vec<Part>) -> (b: bool)
    ensures
        b == forall|i: int| 0 <= i < parts@.len() ==> doc_id_of((#[trigger] parts@[i]).text_attributes@) is Some,
{
    let mut i: usize = 0;
    while i < parts.len()
        invariant
            i <= parts.len(),
            forall|k: int| 0 <= k < i ==> doc_id_of((#[trigger] parts@[k]).text_attributes@) is Some,
        decreases parts.len() - i,
    {
        if !has_doc_id(&parts[i]) {
            return false;
        }
        i = i + 1;
    }
    true
}

/// The transformer input of a task's parts: one JSON line per part
/// (`jsonl_of` of `part_rows`), so as many newlines as parts.
pub fn transformer_input(parts: &Vec<Part>) -> (r: String)
    requires
        forall|i: int| 0 <= i < parts@.len() ==> doc_id_of((#[trigger] parts@[i]).text_attributes@) is Some,
    ensures
        r@ == jsonl_of(part_rows(parts@)),
        count_char(r@, '\n') == parts@.len(),
{
    let ghost rows = part_rows(parts@);
    let mut out = String::new();
    let mut i: usize = 0;
    assert(rows.take(0) =~= Seq::<Seq<Seq<char>>>::empty());
    while i < parts.len()
        invariant
            i <= parts.len(),
            rows == part_rows(parts@),
            forall|k: int| 0 <= k < parts@.len() ==> doc_id_of((#[trigger] parts@[k]).text_attributes@) is Some,
            out@ == jsonl_of(rows.take(i as int)),
            count_char(out@, '\n') == i,
        decreases parts.len() - i,
    {
        let row = transformer_row(&parts[i]);
        let line = encode_string_list(&row);
        assert(rows.take(i + 1).drop_last() =~= rows.take(i as int));
        assert(rows.take(i + 1).last() == views(row@));
        let ghost before = out@;
        out.append(line.as_str());
        out.append("\n");
        proof {
            reveal_strlit("\n");
            crate::encode::lemma_list_text_no_newline(views(row@));
            lemma_count_concat(before, line@, '\n');
            lemma_count_concat(before + line@, "\n"@, '\n');
            assert(count_char("\n"@, '\n') == 1) by {
                reveal_strlit("\n");
                assert("\n"@.len() == 1);
                assert("\n"@.last() == '\n');
                assert("\n"@.drop_last() =~= Seq::<char>::empty());
                assert(count_char(Seq::<char>::empty(), '\n') == 0);
            }
            assert(out@ == before + line@ + "\n"@);
        }
        i = i + 1;
    }
    assert(rows.take(parts.len() as int) =~= rows);
    out
}

} // verus!
