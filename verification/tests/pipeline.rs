use strix_pipeline::config::{ConfigCore, StrixConfig};
use strix_pipeline::insertdata::{texts_glob_pattern, FoundPath, InsertData};
use strix_pipeline::json::{Json, JsonMap};
use strix_pipeline::options::{vectors_checked, Add, AddStep, AppError, VectorGeneration};
use strix_pipeline::pipeline::{
    all_have_doc_id, has_doc_id, text_task_path, transformer_input, transformer_row,
    vector_parse_options, vector_texts_dir, vectors_dir, VectorError, VectorGenerationType,
};
use strix_pipeline::shared::{DumpYamlError, LoadYamlError};
use strix_pipeline::sparv_decoder::CorpusConfig;
use strix_pipeline::xmlparser::Part;

fn config(texts_dir: &str, vectors: Option<&str>) -> StrixConfig {
    let core = ConfigCore {
        base_dir: "/base".to_string(),
        settings_dir: "/settings".to_string(),
        texts_dir: texts_dir.to_string(),
        transformers_postprocess_dir: vectors.map(|v| v.to_string()),
    };
    StrixConfig::from_core(core).ok().unwrap()
}

fn corpus(id: &str) -> CorpusConfig {
    let mut c = CorpusConfig::default();
    c.corpus_id = id.to_string();
    c
}

fn found(path: &str, is_file: bool, size: Option<u64>) -> FoundPath {
    FoundPath { path: path.to_string(), is_file, size, stem_is_utf8: true }
}

fn part(id: Option<&str>, dump: &[&str]) -> Part {
    let mut attrs = JsonMap::new();
    if let Some(id) = id {
        attrs.insert("_id".to_string(), Json::Str(id.to_string()));
    }
    Part {
        text_attributes: attrs,
        token_lookup: Vec::new(),
        dump: dump.iter().map(|s| s.to_string()).collect(),
        lines: Vec::new(),
        word_count: 0,
        text: String::new(),
        ner_tags: String::new(),
        geo_locations: Vec::new(),
        most_common_words: String::new(),
        wid: String::new(),
        extra: JsonMap::new(),
    }
}

#[test]
fn glob_pattern_under_the_base_dir_unless_absolute() {
    let c = corpus("abc");
    assert_eq!(texts_glob_pattern(&c, &config("texts", None)), "/base/texts/abc/**/*.xml");
    assert_eq!(texts_glob_pattern(&c, &config("/data/texts", None)), "/data/texts/abc/**/*.xml");
}

#[test]
fn prepare_urls_names_tasks_by_stem_or_number() {
    let c = corpus("abc");
    let mut insert = InsertData::new("index", &c);
    assert_eq!(insert.id_generator, 1);
    let paths = vec![
        found("/t/abc/one.xml", true, Some(10)),
        found("/t/abc/sub", false, None),
        found("/", true, Some(5)),
        found("/t/abc/two.tar.xml", true, Some(7)),
        found("/t/abc/..", true, Some(1)),
    ];
    assert!(insert.can_prepare(&paths));
    let (tasks, total) = insert.prepare_urls(paths).ok().unwrap();
    let ids: Vec<&str> = tasks.iter().map(|t| t.task_id.as_str()).collect();
    assert_eq!(ids, vec!["one", "text-1", "two.tar", "text-2"]);
    assert_eq!(total, 23);
    assert_eq!(tasks.iter().map(|t| t.task_size).sum::<u64>(), total);
    assert!(tasks.iter().all(|t| t.task_type == "text"));
    assert_eq!(tasks[2].task_data.text, "/t/abc/two.tar.xml");
    assert_eq!(insert.id_generator, 3);
    assert_eq!(insert.index, "index");
}

#[test]
fn prepare_urls_fails_where_a_size_is_unreadable() {
    let c = corpus("abc");
    let mut insert = InsertData::new("index", &c);
    let paths = vec![found("/t/a.xml", true, Some(1)), found("/", true, None), found("/t/b.xml", true, Some(2))];
    assert!(insert.prepare_urls(paths).is_err());
    assert_eq!(insert.id_generator, 2);
}

#[test]
fn vector_directories() {
    let c = config("texts", Some("/vec"));
    assert_eq!(vector_texts_dir("abc", &c).ok().unwrap(), "/vec/abc/texts");
    assert_eq!(vectors_dir("abc", &c).ok().unwrap(), "/vec/abc/vectors");
    assert_eq!(text_task_path("/vec", "abc", "t1"), "/vec/abc/texts/t1.jsonl");
    let none = config("texts", None);
    match vector_texts_dir("abc", &none) {
        Err(VectorError::WithMsg(m)) => assert_eq!(m, "`transformers_postprocess_dir` is not set in config"),
        _ => panic!("expected an error"),
    }
    assert!(matches!(vectors_dir("abc", &none), Err(VectorError::WithMsg(_))));
}

#[test]
fn parse_options_keep_the_document_id() {
    let tags = vec!["text".to_string()];
    let o = vector_parse_options(&tags);
    assert_eq!(o.text_tags, tags);
    assert_eq!(o.text_attributes.entries.len(), 1);
    assert_eq!(o.text_attributes.get("_id"), Some(&Json::Object(JsonMap::new())));
    assert!(!o.token_count_id && !o.add_most_common_words && !o.save_whitespace_per_token);
}

#[test]
fn transformer_rows_are_single_lines() {
    let p = part(Some("doc1"), &["Hej du\n", "Hallå"]);
    assert!(has_doc_id(&p));
    assert_eq!(transformer_row(&p), vec!["doc1".to_string(), "Hej du  Hallå".to_string()]);
    assert!(!has_doc_id(&part(None, &[""])));
}

#[test]
fn transformer_input_is_one_json_line_per_part() {
    let parts = vec![part(Some("a"), &["x\n", "y"]), part(Some("b"), &["\"q\""])];
    assert!(all_have_doc_id(&parts));
    assert_eq!(transformer_input(&parts), "[\"a\",\"x  y\"]\n[\"b\",\"\\\"q\\\"\"]\n");
    let multi = vec![part(Some("a\nb"), &["l1\n", "l2\n"]), part(Some("c"), &["\n"]), part(Some("d"), &[""])];
    assert_eq!(transformer_input(&multi).matches('\n').count(), multi.len());
    assert_eq!(transformer_input(&Vec::new()), "");
    let escaped = vec![part(Some("a\u{1}\\b/"), &["\t\r"])];
    assert_eq!(transformer_input(&escaped), "[\"a\\u0001\\\\b/\",\"\\t\\r\"]\n");
    assert!(!all_have_doc_id(&vec![part(None, &[""])]));
}

#[test]
fn add_generates_or_requires_vectors() {
    let add = Add { corpus: "c".to_string(), delete_previous_versions: false, vector_generation_type: Some(VectorGeneration::Local) };
    assert!(matches!(add.next_step(), AddStep::GenerateVectors(VectorGenerationType::Local)));
    let add = Add { corpus: "c".to_string(), delete_previous_versions: false, vector_generation_type: Some(VectorGeneration::Remote) };
    assert!(matches!(add.next_step(), AddStep::GenerateVectors(VectorGenerationType::Remote)));
    let add = Add { corpus: "c".to_string(), delete_previous_versions: true, vector_generation_type: None };
    assert!(matches!(add.next_step(), AddStep::CheckVectors));
    assert!(vectors_checked(true).is_ok());
    match vectors_checked(false) {
        Err(AppError::WithMsg(m)) => assert_eq!(m, "You must generate vectors first or use --vector-generation-type local/remote"),
        _ => panic!("expected an error"),
    }
}

#[test]
fn yaml_errors_name_their_file() {
    assert_eq!(LoadYamlError::new("/a.yaml").path, "/a.yaml");
    assert_eq!(DumpYamlError::new("/b.yaml").path, "/b.yaml");
}

#[test]
fn can_prepare_guards_the_sums() {
    let c = corpus("abc");
    let insert = InsertData::new("index", &c);
    assert!(insert.can_prepare(&vec![found("/a", true, Some(u64::MAX - 1)), found("/b", false, Some(9))]));
    assert!(!insert.can_prepare(&vec![found("/a", true, Some(u64::MAX)), found("/b", true, Some(1))]));
    let mut late = InsertData::new("index", &c);
    late.id_generator = u64::MAX;
    assert!(!late.can_prepare(&vec![found("/", true, Some(1))]));
    assert!(late.can_prepare(&vec![found("/a", true, Some(1)), found("/b", false, None)]));
    assert!(late.can_prepare(&Vec::new()));
    // a file whose size cannot be read ends the preparation: later sizes are not added
    assert!(insert.can_prepare(&vec![found("/a", true, Some(u64::MAX)), found("/b", true, None), found("/c", true, Some(1))]));
}

#[test]
fn prepare_urls_numbers_stems_that_are_not_utf8() {
    let c = corpus("abc");
    let mut insert = InsertData::new("index", &c);
    let mut odd = found("/t/abc/b\u{FFFD}d.xml", true, Some(3));
    odd.stem_is_utf8 = false;
    let paths = vec![found("/t/abc/one.xml", true, Some(10)), odd, found("/", true, Some(2))];
    let (tasks, total) = insert.prepare_urls(paths).ok().unwrap();
    let ids: Vec<&str> = tasks.iter().map(|t| t.task_id.as_str()).collect();
    assert_eq!(ids, vec!["one", "text-1", "text-2"]);
    assert_eq!(total, 15);
    assert_eq!(insert.id_generator, 3);
}

#[test]
fn prepare_urls_checked_refuses_what_does_not_fit() {
    let c = corpus("abc");
    let mut insert = InsertData::new("index", &c);
    insert.id_generator = u64::MAX;
    assert!(insert.prepare_urls_checked(vec![found("/", true, Some(1))]).is_none());
    assert_eq!(insert.id_generator, u64::MAX);
    let done = insert.prepare_urls_checked(vec![found("/t/a.xml", true, Some(4))]).unwrap().ok().unwrap();
    assert_eq!(done.0[0].task_id, "a");
    assert_eq!(done.1, 4);
}
