use strix_pipeline::hashed::StrMap;
use strix_pipeline::json::{Json, JsonMap};
use strix_pipeline::xmlparser::{
    attributes_to_map, iterparse_parser, parse_pipeline_xml, IterParseError, ParsePipelineXmlOptions, Part,
    StrixParser, XmlDriver, XmlEvent,
};

fn s(x: &str) -> Json {
    Json::Str(x.to_string())
}

fn map(pairs: Vec<(&str, Json)>) -> JsonMap {
    let mut m = JsonMap::new();
    for (k, v) in pairs {
        m.insert(k.to_string(), v);
    }
    m
}

fn parser(text_attributes: JsonMap, add_most_common_words: bool, save_ws: bool) -> StrixParser {
    StrixParser::new(
        "text".to_string(),
        JsonMap::new(),
        JsonMap::new(),
        false,
        text_attributes,
        add_most_common_words,
        save_ws,
        Vec::new(),
        vec!["text".to_string()],
    )
}

fn start(name: &str, attrs: &[(&str, &str)]) -> XmlEvent {
    XmlEvent::Start {
        name: name.as_bytes().to_vec(),
        attributes: Some(attrs.iter().map(|(k, v)| (k.as_bytes().to_vec(), v.as_bytes().to_vec())).collect()),
    }
}

fn text(t: &str) -> XmlEvent {
    XmlEvent::Text(Some(t.to_string()))
}

fn end(name: &str) -> XmlEvent {
    XmlEvent::End(name.as_bytes().to_vec())
}

fn run(parser: StrixParser, events: Vec<XmlEvent>) -> Vec<Part> {
    let mut d = XmlDriver::new(parser);
    for e in events {
        assert!(d.step_supported(&e));
        let go_on = d.step(e).ok().unwrap();
        if !go_on {
            break;
        }
    }
    d.parser.get_result()
}

fn token(word: &str, tail: &str) -> Vec<XmlEvent> {
    vec![start("token", &[("_tail", tail)]), text(word), end("token")]
}

#[test]
fn a_text_becomes_one_part() {
    let attrs = map(vec![("title", Json::Object(JsonMap::new()))]);
    let mut events = vec![text("ignored before any tag"), start("text", &[("title", "Hello")])];
    events.extend(token("Hej", "\\n"));
    events.push(text("\n"));
    events.extend(token(" du ", ""));
    events.push(end("text"));
    events.push(XmlEvent::Eof);
    let parts = run(parser(attrs, false, false), events);
    assert_eq!(parts.len(), 1);
    let p = &parts[0];
    assert_eq!(p.text_attributes, map(vec![("title", s("Hello")), ("year", s("2050"))]));
    assert_eq!(p.dump, vec!["Hej\n".to_string(), "du".to_string()]);
    assert_eq!(p.lines, vec![vec![0i64, 0], vec![1, 1]]);
    assert_eq!(p.word_count, 2);
    assert_eq!(p.text, "Hej\u{241E}du");
    assert_eq!(p.token_lookup.len(), 2);
    assert_eq!(p.token_lookup[1].word, "du");
    assert_eq!(p.token_lookup[1].position, 1);
    assert_eq!(p.extra.get("text_\"Hello\""), Some(&s("Hello")));
}

#[test]
fn the_year_comes_from_the_dates() {
    let attrs = map(vec![
        ("datefrom", Json::Object(JsonMap::new())),
        ("dateto", Json::Object(JsonMap::new())),
    ]);
    let mut events = vec![start("text", &[("datefrom", "19991231"), ("dateto", "20010101")])];
    events.extend(token("a", ""));
    events.push(end("text"));
    let parts = run(parser(attrs, false, false), events);
    assert_eq!(parts[0].text_attributes.get("year"), Some(&s("1999, 2001")));

    let attrs = map(vec![("date", Json::Object(JsonMap::new()))]);
    let mut events = vec![start("text", &[("date", "1884-05-01")])];
    events.extend(token("a", ""));
    events.push(end("text"));
    let parts = run(parser(attrs, false, false), events);
    assert_eq!(parts[0].text_attributes.get("year"), Some(&s("1884")));
}

#[test]
fn set_values_split_at_pipes() {
    let attrs = map(vec![("tags", Json::Object(JsonMap::new()))]);
    let mut events = vec![start("text", &[("tags", "|a|b|")])];
    events.extend(token("w", ""));
    events.push(end("text"));
    let parts = run(parser(attrs, false, false), events);
    assert_eq!(
        parts[0].text_attributes.get("tags"),
        Some(&Json::Array(vec![s(""), s("a"), s("b"), s("")]))
    );
}

#[test]
fn each_split_element_adds_a_part_and_starts_afresh() {
    let attrs = map(vec![("title", Json::Object(JsonMap::new()))]);
    let mut events = vec![start("text", &[("title", "one")])];
    events.extend(token("a", "\\n"));
    events.push(text(""));
    events.push(end("text"));
    events.push(start("text", &[("title", "two")]));
    events.extend(token("b", ""));
    events.push(end("text"));
    let parts = run(parser(attrs, false, false), events);
    assert_eq!(parts.len(), 2);
    assert_eq!(parts[0].text_attributes.get("title"), Some(&s("one")));
    assert_eq!(parts[1].text_attributes.get("title"), Some(&s("two")));
    assert_eq!(parts[1].dump, vec!["b".to_string()]);
    assert_eq!(parts[1].lines, vec![vec![0i64, 0]]);
    assert_eq!(parts[1].token_lookup[0].position, 0);
    for p in &parts {
        assert_eq!(p.word_count, p.token_lookup.len());
        assert!(p.token_lookup.iter().enumerate().all(|(i, t)| t.position == i));
    }
}

#[test]
fn without_text_attributes_a_part_has_none() {
    let mut events = vec![start("text", &[("title", "x")])];
    events.extend(token("w", ""));
    events.push(end("text"));
    let parts = run(parser(JsonMap::new(), false, false), events);
    assert_eq!(parts.len(), 1);
    assert_eq!(parts[0].text_attributes.len(), 0);
    assert_eq!(parts[0].extra.len(), 0);
}

#[test]
fn whitespace_is_kept_per_token_when_asked() {
    let mut events = vec![start("text", &[])];
    events.extend(token("a", "\\s"));
    events.push(text(" "));
    events.push(end("text"));
    let parts = run(parser(JsonMap::new(), false, true), events);
    assert_eq!(parts[0].token_lookup[0].whitespace, Some(' '));
    assert_eq!(parts[0].dump, vec!["a ".to_string()]);
}

#[test]
fn most_common_words_are_counted() {
    let mut events = vec![start("text", &[])];
    for w in ["huset", "huset", "bilen", "katten", "hus"] {
        events.push(start("token", &[("pos", "NN")]));
        events.push(text(w));
        events.push(end("token"));
    }
    events.push(end("text"));
    let mut pos = JsonMap::new();
    pos.insert("name".to_string(), s("pos"));
    let word_annotations = map(vec![("token", Json::Array(vec![Json::Object(pos)]))]);
    let p = StrixParser::new(
        "text".to_string(),
        word_annotations,
        JsonMap::new(),
        false,
        JsonMap::new(),
        true,
        false,
        Vec::new(),
        Vec::new(),
    );
    let parts = run(p, events);
    assert_eq!(parts[0].most_common_words, "huset (2), bilen (1), katten (1)");
    assert_eq!(parts[0].word_count, 5);
}

#[test]
fn eof_ends_the_walk() {
    let mut d = XmlDriver::new(parser(JsonMap::new(), false, false));
    assert!(!d.step(XmlEvent::Eof).ok().unwrap());
    assert!(d.step(XmlEvent::Other).ok().unwrap());
}

#[test]
fn unreadable_events_fail_the_walk() {
    let mut d = XmlDriver::new(parser(JsonMap::new(), false, false));
    assert!(matches!(d.step(XmlEvent::Text(None)), Err(IterParseError::Failure)));
    let bad = XmlEvent::Start { name: b"text".to_vec(), attributes: Some(vec![(vec![0xff], b"v".to_vec())]) };
    assert!(d.step(bad).is_err());
}

#[test]
fn attributes_keep_the_last_value() {
    let m: StrMap = attributes_to_map(vec![
        (b"a".to_vec(), b"1".to_vec()),
        (b"b".to_vec(), b"2".to_vec()),
        (b"a".to_vec(), b"3".to_vec()),
    ])
    .ok()
    .unwrap();
    assert_eq!(m.value_of("a"), Some("3".to_string()));
    assert_eq!(m.value_of("b"), Some("2".to_string()));
    assert!(attributes_to_map(vec![(b"a".to_vec(), vec![0xc3])]).is_err());
}

fn title_options() -> ParsePipelineXmlOptions {
    let mut o = ParsePipelineXmlOptions::default();
    o.text_attributes = map(vec![("title", Json::Object(JsonMap::new()))]);
    o.text_tags = vec!["text".to_string()];
    o
}

#[test]
fn parse_pipeline_xml_reads_the_bytes_of_a_file() {
    let xml = b"<corpus><text title=\"Hello\"><token _tail=\"\\n\">Hej</token>\n<token> du </token></text></corpus>";
    let parts = parse_pipeline_xml("f.xml", xml, "text".to_string(), JsonMap::new(), title_options()).ok().unwrap();
    assert_eq!(parts.len(), 1);
    let p = &parts[0];
    assert_eq!(p.text_attributes, map(vec![("title", s("Hello")), ("year", s("2050"))]));
    assert_eq!(p.dump, vec!["Hej\n".to_string(), "du".to_string()]);
    assert_eq!(p.lines, vec![vec![0i64, 0], vec![1, 1]]);
    assert_eq!(p.word_count, 2);
    assert_eq!(p.text, "Hej\u{241E}du");
}

#[test]
fn parse_pipeline_xml_fails_on_malformed_xml() {
    let r = parse_pipeline_xml("f.xml", b"<text><token>a</x></text>", "text".to_string(), JsonMap::new(), title_options());
    assert!(r.is_err());
}

#[test]
fn iterparse_parser_reports_where_the_reader_fails() {
    let mut d = XmlDriver::new(parser(JsonMap::new(), false, false));
    match iterparse_parser("dir/f.xml", b"<a>x</b>", &mut d) {
        Err(IterParseError::XmlError { path, pos }) => {
            assert_eq!(path, "dir/f.xml");
            assert!(pos > 0);
        }
        _ => panic!("expected a reader error"),
    }
    assert_eq!(d.tags, vec![b"a".to_vec()]);
    let mut d = XmlDriver::new(parser(JsonMap::new(), false, false));
    assert!(iterparse_parser("f.xml", b"", &mut d).is_ok());
    assert_eq!(d.tags.len(), 0);
}

#[test]
fn try_step_refuses_what_the_parser_cannot_take() {
    let p = StrixParser::new(
        "text".to_string(),
        JsonMap::new(),
        map(vec![("ne", Json::Object(JsonMap::new()))]),
        false,
        JsonMap::new(),
        false,
        false,
        Vec::new(),
        Vec::new(),
    );
    let mut d = XmlDriver::new(p);
    assert!(matches!(d.try_step(start("ne", &[])), Err(IterParseError::Failure)));
    assert_eq!(d.tags.len(), 0);
    assert!(d.try_step(start("text", &[])).ok().unwrap());
    assert_eq!(d.tags.len(), 1);
}

#[test]
fn token_data_is_logged_per_token() {
    let mut pos = JsonMap::new();
    pos.insert("name".to_string(), s("pos"));
    let word_annotations = map(vec![("token", Json::Array(vec![Json::Object(pos)]))]);
    let xml = "<text><token pos=\"NN\">hus</token><token pos=\"VB\">går</token><token pos=\"XX\"> </token></text><token pos=\"AB\">ute</token><text><token pos=\"JJ\">röd</token>";
    let mut o = ParsePipelineXmlOptions::default();
    o.text_tags = vec!["text".to_string()];
    let p = StrixParser::new(
        "text".to_string(),
        word_annotations,
        o.struct_annotations,
        o.token_count_id,
        o.text_attributes,
        o.add_most_common_words,
        o.save_whitespace_per_token,
        o.pos_index_attributes,
        o.text_tags,
    );
    let mut d = XmlDriver::new(p);
    assert!(iterparse_parser("f.xml", xml.as_bytes(), &mut d).is_ok());
    // tokens outside the split element and in the unfinished last part are logged too
    let log = &d.parser.token_log;
    assert_eq!(log.len(), 4);
    assert_eq!(log[0], map(vec![("pos", s("NN"))]));
    assert_eq!(log[1], map(vec![("pos", s("VB"))]));
    assert_eq!(log[2], map(vec![("pos", s("AB"))]));
    assert_eq!(log[3], map(vec![("pos", s("JJ"))]));
    assert_eq!(d.parser.current_parts.len(), 1);
    assert_eq!(d.parser.current_parts[0].token_lookup[1].attrs, log[1]);
    assert_eq!(d.parser.current_token_lookup.last().unwrap().attrs, log[3]);
}

