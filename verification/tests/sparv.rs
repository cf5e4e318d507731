use strix_pipeline::config::{join_path, path_is_absolute, ConfigCore, CorpusConf, StrixConfig};
use strix_pipeline::hashed::{JsonHashMap, StrMap};
use strix_pipeline::json::{Json, JsonMap};
use strix_pipeline::sparv_decoder::{
    complete_config, complete_config_now, convert_config, convert_config_supported,
    corpus_config_path, create_dict, make_map, mode_name, replace_key, replace_key_struct,
    restructure, sparv_config_path, struct_elems_path, CorpusConfig, LangValue,
};

fn s(x: &str) -> Json {
    Json::Str(x.to_string())
}

fn obj(pairs: Vec<(&str, Json)>) -> Json {
    let mut m = JsonMap::new();
    for (k, v) in pairs {
        m.insert(k.to_string(), v);
    }
    Json::Object(m)
}

fn map(pairs: Vec<(&str, Json)>) -> JsonMap {
    match obj(pairs) {
        Json::Object(m) => m,
        _ => unreachable!(),
    }
}

fn translation(swe: &str, eng: &str) -> Json {
    obj(vec![("swe", s(swe)), ("eng", s(eng))])
}

fn hash_get(m: &JsonHashMap, k: &str) -> Option<Json> {
    m.to_pairs().into_iter().find(|(key, _)| key.as_str() == k).map(|(_, v)| v)
}

fn config() -> StrixConfig {
    let core = ConfigCore {
        base_dir: "/srv/strix".to_string(),
        settings_dir: "/srv/settings".to_string(),
        texts_dir: "texts".to_string(),
        transformers_postprocess_dir: Some("/srv/vectors".to_string()),
    };
    StrixConfig::from_core(core).ok().unwrap()
}

fn mode_translations() -> StrMap {
    StrMap::from_pairs(vec![
        ("swe".to_string(), "Modern".to_string()),
        ("eng".to_string(), "Modern".to_string()),
    ])
}

fn sparv_data() -> Json {
    obj(vec![
        ("corpus_id", s("mycorpus")),
        ("corpus_name", obj(vec![("swe", s("Min korpus"))])),
        ("mode", Json::Array(vec![obj(vec![("name", s("modern"))])])),
        ("text_annotation", s("text")),
        (
            "text_attributes",
            Json::Array(vec![
                obj(vec![("text:title", s("text_title"))]),
                obj(vec![("text:year", obj(vec![("label", s("year_label"))]))]),
            ]),
        ),
        (
            "word_attributes",
            Json::Array(vec![
                obj(vec![("pos", s("pos"))]),
                obj(vec![("lex", s("x"))]),
                obj(vec![("msd", obj(vec![("preset", s("msd_tag"))]))]),
            ]),
        ),
        (
            "struct_attributes",
            Json::Array(vec![
                obj(vec![("sentence:id", s("sid"))]),
                obj(vec![("ne:name", obj(vec![("label", s("ne_name"))]))]),
            ]),
        ),
        ("other", Json::Int(5)),
    ])
}

#[test]
fn create_dict_makes_a_readable_translation() {
    let d = create_dict("word_form");
    assert_eq!(
        d,
        obj(vec![("name", s("word_form")), ("translation_name", translation("Word form", "Word form"))])
    );
}

#[test]
fn readable_names_are_capitalized() {
    assert_eq!(
        create_dict("HELLO"),
        obj(vec![("name", s("HELLO")), ("translation_name", translation("Hello", "Hello"))])
    );
    assert_eq!(
        create_dict(""),
        obj(vec![("name", s("")), ("translation_name", translation("", ""))])
    );
}

#[test]
fn replace_key_turns_labels_into_translations() {
    let item = obj(vec![
        ("label", obj(vec![("swe", s("hej")), ("eng", s("hi"))])),
        ("x", Json::Int(1)),
    ]);
    let r = replace_key(&item, "nm").unwrap();
    assert_eq!(
        r,
        obj(vec![
            ("name", s("nm")),
            ("translation_name", translation("Hej", "Hi")),
            ("x", Json::Int(1)),
        ])
    );
    let preset = obj(vec![("preset", s("part_of_speech"))]);
    assert_eq!(
        replace_key(&preset, "pos").unwrap(),
        obj(vec![("name", s("pos")), ("translation_name", translation("Part of speech", "Part of speech"))])
    );
}

#[test]
fn replace_key_of_a_non_object_is_its_name() {
    assert_eq!(replace_key(&Json::Int(3), "n").unwrap(), obj(vec![("name", s("n"))]));
}

#[test]
fn replace_key_fails_on_a_label_without_both_languages() {
    let item = obj(vec![("label", obj(vec![("swe", s("hej"))]))]);
    assert!(replace_key(&item, "nm").is_none());
}

#[test]
fn replace_key_struct_names_by_the_second_piece() {
    let item = obj(vec![("label", s("named_entity"))]);
    assert_eq!(
        replace_key_struct(&item, "ne_name").unwrap(),
        obj(vec![("name", s("name")), ("translation_name", translation("Named entity", "Named entity"))])
    );
    assert!(replace_key_struct(&item, "plain").is_none());
}

#[test]
fn lang_value_fills_in_the_other_language() {
    let l = LangValue::from_value(&obj(vec![("eng", s("Corpus"))])).unwrap();
    assert_eq!(l.values.value_of("swe"), Some("Corpus".to_string()));
    assert_eq!(l.values.value_of("eng"), Some("Corpus".to_string()));
    let l = LangValue::from_value(&obj(vec![("swe", s("Korpus"))])).unwrap();
    assert_eq!(l.values.value_of("eng"), Some("Korpus".to_string()));
    let l = LangValue::from_value(&obj(vec![("swe", s("A")), ("eng", s("B"))])).unwrap();
    assert_eq!(l.values.value_of("swe"), Some("A".to_string()));
    assert_eq!(l.values.value_of("eng"), Some("B".to_string()));
    let l = LangValue::from_value(&obj(vec![("fin", s("F"))])).unwrap();
    assert!(l.values.value_of("swe").is_none() && l.values.value_of("eng").is_none());
    assert!(LangValue::from_value(&obj(vec![("swe", Json::Int(1))])).is_none());
    let mut l = LangValue::new();
    l.add("swe".to_string(), "x".to_string());
    assert_eq!(l.values.value_of("swe"), Some("x".to_string()));
}

#[test]
fn restructure_groups_attributes_by_element() {
    let data = Json::Array(vec![
        obj(vec![("sentence:id", s("sid"))]),
        obj(vec![("ne:name", s("n")), ("ne:type", s("t"))]),
        obj(vec![("plain", s("p"))]),
    ]);
    let keys = map(vec![("sentence", obj(vec![]))]);
    let (elements, groups, attrs) = restructure(&data, &keys).unwrap();
    assert_eq!(elements, vec!["ne".to_string()]);
    assert_eq!(attrs, elements);
    assert_eq!(
        Json::Object(groups),
        obj(vec![
            ("ne", Json::Array(vec![obj(vec![("ne_name", s("n"))]), obj(vec![("ne_type", s("t"))])])),
            ("plain", s("p")),
            ("sentence", Json::Array(vec![obj(vec![("sentence_id", s("sid"))])])),
        ])
    );
}

#[test]
fn restructure_lists_each_text_element_once() {
    let data = Json::Array(vec![
        obj(vec![("ne:name", s("n"))]),
        obj(vec![("ne:type", s("t"))]),
        obj(vec![("page:n", s("p"))]),
    ]);
    let (elements, _, _) = restructure(&data, &JsonMap::new()).unwrap();
    assert_eq!(elements, vec!["ne".to_string(), "page".to_string()]);
}

#[test]
fn restructure_fails_where_an_element_is_a_plain_key() {
    let data = Json::Array(vec![obj(vec![("ne", s("x"))]), obj(vec![("ne:name", s("n"))])]);
    assert!(restructure(&data, &JsonMap::new()).is_none());
}

#[test]
fn mode_name_is_that_of_the_first_entry() {
    let v = Json::Array(vec![obj(vec![("name", s("m1"))]), obj(vec![("name", s("m2"))])]);
    assert_eq!(mode_name(&v), Some("m1".to_string()));
    assert_eq!(mode_name(&Json::Array(vec![])), None);
    assert_eq!(mode_name(&s("m")), None);
}

#[test]
fn convert_config_builds_the_corpus_configuration() {
    let data = sparv_data();
    let keys = map(vec![("sentence", obj(vec![]))]);
    assert!(convert_config_supported(&data, Some(&keys), Some(mode_translations())));
    let c = convert_config(&data, Some(&keys), Some(mode_translations())).ok().unwrap();
    assert_eq!(c.corpus_id(), "mycorpus");
    assert_eq!(c.split(), "text");
    assert_eq!(c.text_tags(), &vec!["ne".to_string(), "text".to_string()]);
    assert!(c.corpus_dir().is_none());
    assert_eq!(c.mode_id, "modern");
    assert_eq!(c.mode_name.value_of("eng"), Some("Modern".to_string()));
    assert_eq!(c.folder_name, "");
    assert_eq!(c.title, "title");
    assert_eq!(c.document_id, "");
    assert_eq!(c.corpus_name.values.value_of("eng"), Some("Min korpus".to_string()));
    assert_eq!(hash_get(&c.extra, "other"), Some(Json::Int(5)));

    let ta = &c.analyze_config.text_attributes;
    assert_eq!(ta.len(), 3);
    assert_eq!(hash_get(&ta[0], "title"), Some(s("title")));
    assert_eq!(
        hash_get(&ta[1], "year"),
        Some(obj(vec![("name", s("year")), ("translation_name", translation("Year label", "Year label"))]))
    );
    assert_eq!(
        hash_get(&ta[2], "ne_name"),
        Some(obj(vec![("name", s("ne_name")), ("translation_name", translation("Ne name", "Ne name"))]))
    );

    let wa = &c.analyze_config.word_attributes;
    assert_eq!(wa.len(), 3);
    assert_eq!(hash_get(&wa[0], "lemgram"), Some(s("lemgram")));
    assert_eq!(hash_get(&wa[1], "pos"), Some(s("pos")));
    assert_eq!(
        hash_get(&wa[2], "msd"),
        Some(obj(vec![("name", s("msd")), ("translation_name", translation("Msd tag", "Msd tag"))]))
    );
    assert!(wa.iter().all(|m| hash_get(m, "lex").is_none()));

    assert_eq!(
        hash_get(&c.analyze_config.struct_attributes, "sentence"),
        Some(Json::Array(vec![obj(vec![("sentence_id", s("sid"))])]))
    );
    assert!(hash_get(&c.analyze_config.struct_attributes, "ne").is_none());
}

#[test]
fn convert_config_adds_a_year_when_none_is_given() {
    let data = obj(vec![
        ("text_attributes", Json::Array(vec![obj(vec![("text:_id", s("id"))])])),
        ("corpus_id", s("c")),
    ]);
    let c = convert_config(&data, None, None).ok().unwrap();
    let ta = &c.analyze_config.text_attributes;
    assert_eq!(ta.len(), 2);
    assert_eq!(hash_get(&ta[0], "_id"), Some(s("id")));
    assert_eq!(hash_get(&ta[1], "year"), Some(s("year")));
    assert_eq!(c.document_id, "_id");
    assert_eq!(c.title, "");
}

#[test]
fn convert_config_takes_the_last_title_like_name() {
    let data = obj(vec![(
        "text_attributes",
        Json::Array(vec![
            obj(vec![("text:title", s("a"))]),
            obj(vec![("text:author_name", s("b"))]),
        ]),
    )]);
    let c = convert_config(&data, None, None).ok().unwrap();
    assert_eq!(c.title, "author_name");
}

#[test]
fn convert_config_fails_where_a_settings_file_is_missing() {
    let data = sparv_data();
    assert!(convert_config_supported(&data, None, Some(mode_translations())));
    assert!(convert_config(&data, None, Some(mode_translations())).is_err());
    let keys = map(vec![("sentence", obj(vec![]))]);
    assert!(convert_config(&data, Some(&keys), None).is_err());
}

#[test]
fn convert_config_rejects_a_shape_it_cannot_read() {
    let bad_split = obj(vec![("text_annotation", Json::Int(3))]);
    assert!(!convert_config_supported(&bad_split, None, None));
    let not_object = Json::Array(vec![]);
    assert!(!convert_config_supported(&not_object, None, None));
    let no_colon = obj(vec![("text_attributes", Json::Array(vec![obj(vec![("title", s("t"))])]))]);
    assert!(!convert_config_supported(&no_colon, None, None));
    let unsorted = Json::Object(JsonMap {
        entries: vec![("b".to_string(), Json::Null), ("a".to_string(), Json::Null)],
    });
    assert!(!convert_config_supported(&unsorted, None, None));
}

#[test]
fn completed_configuration_has_a_title_and_an_id() {
    let c = CorpusConfig::default();
    let c = complete_config(c, 1_700_000_000);
    assert_eq!(c.title, "n/a");
    assert_eq!(c.document_id, "generated");
    assert_eq!(c.updated_at, 1_700_000_000);
    let mut d = CorpusConfig::default();
    d.title = "t".to_string();
    d.document_id = "_id".to_string();
    let d = complete_config_now(d);
    assert_eq!(d.title, "t");
    assert_eq!(d.document_id, "_id");
    assert!(d.updated_at > 1_600_000_000);
}

#[test]
fn settings_paths() {
    let config = config();
    assert_eq!(sparv_config_path(&config, "abc"), "/srv/settings/sparv2strix/abc.yaml");
    assert_eq!(struct_elems_path(&config), "/srv/settings/attributes/struct_elems.yaml");
    assert_eq!(corpus_config_path(&config, "abc"), "/srv/settings/corpora/abc.yaml");
    assert_eq!(config.corpusconf().mode_path("modern"), "/srv/settings/modes/modern.yaml");
    assert_eq!(config.base_dir(), "/srv/strix");
    assert_eq!(config.texts_dir(), "texts");
    assert_eq!(config.transformers_postprocess_dir(), Some(&"/srv/vectors".to_string()));
    assert_eq!(CorpusConf::from_path("/x").ok().unwrap().settings_dir, "/x");
}

#[test]
fn join_path_as_on_unix() {
    assert_eq!(join_path("/a", "b"), "/a/b");
    assert_eq!(join_path("/a/", "b"), "/a/b");
    assert_eq!(join_path("", "b"), "b");
    assert_eq!(join_path("/a", "/b"), "/b");
    assert!(path_is_absolute("/x"));
    assert!(!path_is_absolute("x/y"));
}

#[test]
fn one_entry_maps() {
    let m = make_map("k".to_string(), Json::Null);
    assert_eq!(m.to_pairs().len(), 1);
    assert_eq!(hash_get(&m, "k"), Some(Json::Null));
}
