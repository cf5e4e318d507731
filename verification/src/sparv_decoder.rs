//! Converting the Sparv export configuration of a corpus into a Strix
//! corpus configuration.

use vstd::prelude::*;
use crate::text::{copy_strings, views, replace, replace_str, capitalized, capitalize, split_on, split_char, before_first, contains_seq, contains_str, contains_char, str_eq, owned, contains_string};
use crate::json::{Json, JsonMap, JsonV, obj_get, obj_insert, field, json_wf, lemma_entries_view, lemma_array_view, array_view, copy_json, copy_map, lemma_insert_wf};
use crate::hashed::{StrMap, JsonHashMap, str_map_contents, json_hash_map_contents};
use crate::config::{StrixConfig, path_join, join_path};

verus! {

/// The Sparv configuration could not be decoded.
pub struct DecodeSparvError;

/// The configuration could not be converted.
pub struct ConvertConfigError;

/// A text in several languages.
pub struct LangValue {
    pub values: StrMap,
}

/// The attributes a corpus is analysed by.
pub struct AnalyzeConfig {
    pub struct_attributes: JsonHashMap,
    pub word_attributes: Vec<JsonHashMap>,
    pub text_attributes: Vec<JsonHashMap>,
}

/// A Strix corpus configuration.
pub struct CorpusConfig {
    pub analyze_config: AnalyzeConfig,
    pub text_tags: Vec<String>,
    pub mode_id: String,
    pub mode_name: StrMap,
    pub folder_name: String,
    pub split: String,
    pub corpus_name: LangValue,
    pub corpus_description: LangValue,
    pub title: String,
    pub document_id: String,
    pub updated_at: i64,
    pub corpus_id: String,
    pub extra: JsonHashMap,
}

// ---------------------------------------------------------------- small builders

/// A translation: the name in Swedish and in English.
pub open spec fn translation(swe: Seq<char>, eng: Seq<char>) -> JsonV {
    JsonV::Object(seq![("eng"@, JsonV::Str(eng)), ("swe"@, JsonV::Str(swe))])
}

/// A label made readable: `_` as space, then capitalized.
pub open spec fn readable(s: Seq<char>) -> Seq<char> {
    capitalized(replace(s, "_"@, " "@))
}

/// The description of an attribute that has none: its name, and its name
/// made readable as its translation.
pub open spec fn dict_of(item_name: Seq<char>) -> JsonV {
    JsonV::Object(seq![("name"@, JsonV::Str(item_name)), ("translation_name"@, translation(readable(item_name), readable(item_name)))])
}

/// A one-entry map.
pub open spec fn single(k: Seq<char>, v: JsonV) -> Map<Seq<char>, JsonV> {
    Map::<Seq<char>, JsonV>::empty().insert(k, v)
}

proof fn lemma_key_order()
    ensures
        crate::text::seq_lt("eng"@, "swe"@),
        crate::text::seq_lt("name"@, "translation_name"@),
{
    reveal_strlit("eng");
    reveal_strlit("swe");
    reveal_strlit("name");
    reveal_strlit("translation_name");
}

/// A translation object.
fn make_translation(swe: String, eng: String) -> (r: Json)
    ensures
        r@ == translation(swe@, eng@),
        json_wf(r@),
{
    let mut m = JsonMap::new();
    proof {
        lemma_key_order();
        crate::text::lemma_lt_total("eng"@, "swe"@);
        crate::text::lemma_lt_irreflexive("eng"@);
        lemma_translation_wf(swe@, eng@);
    }
    let ghost sv = swe@;
    let ghost ev = eng@;
    m.insert(String::from_str("swe"), Json::Str(swe));
    assert(m@ =~= seq![("swe"@, JsonV::Str(sv))]);
    let ghost one = seq![("swe"@, JsonV::Str(sv))];
    assert(one.drop_last() =~= Seq::<(Seq<char>, JsonV)>::empty());
    assert("swe"@ != "eng"@);
    assert(!crate::text::seq_lt("swe"@, "eng"@));
    assert(obj_insert(one, "eng"@, JsonV::Str(ev)) == obj_insert(one.drop_last(), "eng"@, JsonV::Str(ev)).push(one.last()));
    m.insert(String::from_str("eng"), Json::Str(eng));
    assert(m@ =~= seq![("eng"@, JsonV::Str(ev)), ("swe"@, JsonV::Str(sv))]);
    let r = Json::Object(m);
    r
}

/// `dict_of`, built.
pub fn create_dict(item_name: &str) -> (r: Json)
    ensures
        r@ == dict_of(item_name@),
        json_wf(r@),
{
    proof { reveal_strlit("_"); }
    let name = replace_str(item_name, "_", " ");
    let t = make_translation(capitalize(name.as_str()), capitalize(name.as_str()));
    let mut m = JsonMap::new();
    proof {
        lemma_key_order();
        crate::text::lemma_lt_total("name"@, "translation_name"@);
        crate::text::lemma_lt_irreflexive("name"@);
    }
    let ghost tv = t@;
    m.insert(String::from_str("translation_name"), t);
    assert(m@ =~= seq![("translation_name"@, tv)]);
    let ghost one = seq![("translation_name"@, tv)];
    assert(one.drop_last() =~= Seq::<(Seq<char>, JsonV)>::empty());
    assert("translation_name"@ != "name"@);
    assert(!crate::text::seq_lt("translation_name"@, "name"@));
    assert(obj_insert(one, "name"@, JsonV::Str(item_name@)) == obj_insert(one.drop_last(), "name"@, JsonV::Str(item_name@)).push(one.last()));
    m.insert(String::from_str("name"), Json::Str(owned(item_name)));
    assert(m@ =~= seq![("name"@, JsonV::Str(item_name@)), ("translation_name"@, tv)]);
    let r = Json::Object(m);
    proof {
        if let JsonV::Object(e) = r@ {
            assert forall|i: int| 0 <= i < e.len() implies json_wf(#[trigger] e[i].1) by {}
        }
    }
    r
}

/// A one-entry map (`make_map`).
pub fn make_map(s: String, t: Json) -> (r: JsonHashMap)
    ensures
        json_hash_map_contents(r) == single(s@, t@),
{
    let mut r = JsonHashMap::new();
    r.insert(s, t);
    assert(json_hash_map_contents(r) =~= single(s@, t@));
    r
}

// ---------------------------------------------------------------- replace_key

/// A key naming the label of an attribute.
pub open spec fn is_label_key(k: Seq<char>) -> bool {
    k == "label"@ || k == "preset"@
}

/// One entry of an attribute's description, as the converted description
/// takes it: a label becomes a readable translation.
pub open spec fn described_step(acc: Seq<(Seq<char>, JsonV)>, key: Seq<char>, value: JsonV) -> Seq<(Seq<char>, JsonV)> {
    if is_label_key(key) {
        match value {
            JsonV::Str(v) => obj_insert(acc, "translation_name"@, translation(readable(v), readable(v))),
            JsonV::Object(d) => obj_insert(acc, "translation_name"@, translation(
                capitalized(crate::xmlparser::opt_str(obj_get(d, "swe"@))),
                capitalized(crate::xmlparser::opt_str(obj_get(d, "eng"@))),
            )),
            _ => obj_insert(acc, key, value),
        }
    } else {
        obj_insert(acc, key, value)
    }
}

/// A label given per language lacks a Swedish or an English string.
pub open spec fn described_step_fails(key: Seq<char>, value: JsonV) -> bool {
    is_label_key(key) && match value {
        JsonV::Object(d) => !crate::xmlparser::is_opt_str(obj_get(d, "swe"@)) || !crate::xmlparser::is_opt_str(obj_get(d, "eng"@)),
        _ => false,
    }
}

pub open spec fn described_entries(e: Seq<(Seq<char>, JsonV)>) -> Seq<(Seq<char>, JsonV)>
    decreases e.len(),
{
    if e.len() == 0 {
        Seq::<(Seq<char>, JsonV)>::empty()
    } else {
        described_step(described_entries(e.drop_last()), e.last().0, e.last().1)
    }
}

/// An attribute's description as the configuration takes it: its entries,
/// labels as translations, and its name.
pub open spec fn replaced_key(item: JsonV, item_name: Seq<char>) -> JsonV {
    let base = match item {
        JsonV::Object(e) => described_entries(e),
        _ => Seq::<(Seq<char>, JsonV)>::empty(),
    };
    JsonV::Object(obj_insert(base, "name"@, JsonV::Str(item_name)))
}

/// `replaced_key` cannot be computed.
pub open spec fn replace_key_fails(item: JsonV) -> bool {
    match item {
        JsonV::Object(e) => exists|i: int| 0 <= i < e.len() && #[trigger] described_step_fails(e[i].0, e[i].1),
        _ => false,
    }
}

pub proof fn lemma_translation_wf(swe: Seq<char>, eng: Seq<char>)
    ensures
        json_wf(translation(swe, eng)),
{
    lemma_key_order();
    let t = translation(swe, eng);
    if let JsonV::Object(e) = t {
        assert(crate::json::keys_sorted(e));
        assert forall|i: int| 0 <= i < e.len() implies json_wf(#[trigger] e[i].1) by {
        }
    }
}

/// `replaced_key`, or `None` where `replace_key_fails`.
pub fn replace_key(item: &Json, item_name: &str) -> (r: Option<Json>)
    requires
        json_wf(item@),
    ensures
        r is None <==> replace_key_fails(item@),
        r matches Some(j) ==> j@ == replaced_key(item@, item_name@) && json_wf(j@),
{
    let mut acc = JsonMap::new();
    match item.as_object() {
        Some(obj) => {
            let ghost e = obj@;
            proof { lemma_entries_view(obj.entries@); }
            let mut i: usize = 0;
            assert(e.take(0) =~= Seq::<(Seq<char>, JsonV)>::empty());
            while i < obj.entries.len()
                invariant
                    i <= obj.entries.len(),
                    e == obj@,
                    item@ == JsonV::Object(e),
                    json_wf(JsonV::Object(e)),
                    e.len() == obj.entries@.len(),
                    forall|k: int| 0 <= k < obj.entries@.len() ==> #[trigger] e[k] == (obj.entries@[k].0@, obj.entries@[k].1@),
                    acc.wf(),
                    acc@ == described_entries(e.take(i as int)),
                    forall|k: int| 0 <= k < i ==> !#[trigger] described_step_fails(e[k].0, e[k].1),
                decreases obj.entries.len() - i,
            {
                assert(e.take(i + 1).drop_last() =~= e.take(i as int));
                assert(e.take(i + 1).last() == e[i as int]);
                assert(json_wf(e[i as int].1));
                let key = &obj.entries[i].0;
                let value = &obj.entries[i].1;
                let label = str_eq(key.as_str(), "label") || str_eq(key.as_str(), "preset");
                let mut plain = true;
                if label {
                    match value {
                        Json::Str(v) => {
                            proof { reveal_strlit("_"); }
                            let r1 = replace_str(v.as_str(), "_", " ");
                            let c = capitalize(r1.as_str());
                            let t = make_translation(c.clone(), c);
                            acc.insert(String::from_str("translation_name"), t);
                            plain = false;
                        },
                        Json::Object(d) => {
                            let swe = match d.get("swe") {
                                Some(x) => match x.as_str() {
                                    Some(s) => capitalize(s.as_str()),
                                    None => {
                                        assert(described_step_fails(e[i as int].0, e[i as int].1));
                                        return None;
                                    },
                                },
                                None => {
                                    assert(described_step_fails(e[i as int].0, e[i as int].1));
                                    return None;
                                },
                            };
                            let eng = match d.get("eng") {
                                Some(x) => match x.as_str() {
                                    Some(s) => capitalize(s.as_str()),
                                    None => {
                                        assert(described_step_fails(e[i as int].0, e[i as int].1));
                                        return None;
                                    },
                                },
                                None => {
                                    assert(described_step_fails(e[i as int].0, e[i as int].1));
                                    return None;
                                },
                            };
                            let t = make_translation(swe, eng);
                            acc.insert(String::from_str("translation_name"), t);
                            plain = false;
                        },
                        _ => {},
                    }
                }
                if plain {
                    acc.insert(key.clone(), copy_json(value));
                }
                i = i + 1;
            }
            assert(e.take(obj.entries.len() as int) =~= e);
        },
        None => {},
    }
    acc.insert(String::from_str("name"), Json::Str(owned(item_name)));
    Some(Json::Object(acc))
}

/// The second `_` piece of a structural attribute's name.
pub open spec fn struct_item_name(item_name: Seq<char>) -> Seq<char> {
    split_on(item_name, '_')[1]
}

/// `replace_key` of a structural attribute, named by the second `_` piece
/// of its name; `None` where its name has no `_` or `replace_key` fails.
pub fn replace_key_struct(item: &Json, item_name: &str) -> (r: Option<Json>)
    requires
        json_wf(item@),
    ensures
        r is None <==> (split_on(item_name@, '_').len() < 2 || replace_key_fails(item@)),
        r matches Some(j) ==> j@ == replaced_key(item@, struct_item_name(item_name@)) && json_wf(j@),
{
    let parts = split_char(item_name, '_');
    if parts.len() < 2 {
        return None;
    }
    assert(parts@[1]@ == split_on(item_name@, '_')[1]);
    replace_key(item, parts[1].as_str())
}

// ---------------------------------------------------------------- LangValue

/// The texts of an object by language.
pub open spec fn lang_entries(e: Seq<(Seq<char>, JsonV)>) -> Map<Seq<char>, Seq<char>>
    decreases e.len(),
{
    if e.len() == 0 {
        Map::<Seq<char>, Seq<char>>::empty()
    } else {
        lang_entries(e.drop_last()).insert(e.last().0, crate::xmlparser::opt_str(Some(e.last().1)))
    }
}

/// The texts of a value by language, each of Swedish and English standing
/// in for the other where only one is given.
pub open spec fn lang_value_of(v: JsonV) -> Map<Seq<char>, Seq<char>> {
    let m = match v {
        JsonV::Object(e) => lang_entries(e),
        _ => Map::<Seq<char>, Seq<char>>::empty(),
    };
    if m.contains_key("swe"@) && !m.contains_key("eng"@) {
        m.insert("eng"@, m["swe"@])
    } else if m.contains_key("eng"@) && !m.contains_key("swe"@) {
        m.insert("swe"@, m["eng"@])
    } else {
        m
    }
}

/// Some text of the object is no string.
pub open spec fn lang_value_fails(v: JsonV) -> bool {
    match v {
        JsonV::Object(e) => exists|i: int| 0 <= i < e.len() && !((#[trigger] e[i]).1 is Str),
        _ => false,
    }
}

impl LangValue {
    /// No texts.
    pub fn new() -> (r: LangValue)
        ensures
            str_map_contents(r.values).dom() == Set::<Seq<char>>::empty(),
    {
        LangValue { values: StrMap::new() }
    }

    /// Sets the text in `lang`.
    pub fn add(&mut self, lang: String, value: String)
        ensures
            str_map_contents(final(self).values) == str_map_contents(old(self).values).insert(lang@, value@),
    {
        self.values.insert(lang, value);
    }

    /// The texts of a value by language (`lang_value_of`), or `None` where
    /// `lang_value_fails`.
    pub fn from_value(value: &Json) -> (r: Option<LangValue>)
        ensures
            r is None <==> lang_value_fails(value@),
            r matches Some(l) ==> str_map_contents(l.values) == lang_value_of(value@),
    {
        let mut out = LangValue::new();
        assert(str_map_contents(out.values) =~= Map::<Seq<char>, Seq<char>>::empty());
        match value.as_object() {
            Some(obj) => {
                let ghost e = obj@;
                proof { lemma_entries_view(obj.entries@); }
                let mut i: usize = 0;
                assert(e.take(0) =~= Seq::<(Seq<char>, JsonV)>::empty());
                while i < obj.entries.len()
                    invariant
                        i <= obj.entries.len(),
                        e == obj@,
                        value@ == JsonV::Object(e),
                        e.len() == obj.entries@.len(),
                        forall|k: int| 0 <= k < obj.entries@.len() ==> #[trigger] e[k] == (obj.entries@[k].0@, obj.entries@[k].1@),
                        str_map_contents(out.values) == lang_entries(e.take(i as int)),
                        forall|k: int| 0 <= k < i ==> (#[trigger] e[k]).1 is Str,
                    decreases obj.entries.len() - i,
                {
                    assert(e.take(i + 1).drop_last() =~= e.take(i as int));
                    assert(e.take(i + 1).last() == e[i as int]);
                    match obj.entries[i].1.as_str() {
                        Some(s) => {
                            out.add(obj.entries[i].0.clone(), s.clone());
                        },
                        None => {
                            assert(!(e[i as int].1 is Str));
                            return None;
                        },
                    }
                    i = i + 1;
                }
                assert(e.take(obj.entries.len() as int) =~= e);
            },
            None => {},
        }
        let swe = match out.values.get("swe") {
            Some(v) => Some(v.clone()),
            None => None,
        };
        let eng = match out.values.get("eng") {
            Some(v) => Some(v.clone()),
            None => None,
        };
        match (swe, eng) {
            (Some(s), None) => out.add(String::from_str("eng"), s),
            (None, Some(e)) => out.add(String::from_str("swe"), e),
            _ => {},
        }
        Some(out)
    }
}


// ---------------------------------------------------------------- restructure

/// The elements of the text and the structural attributes grouped by
/// element, as the attributes of one entry `key: value` leave them.
pub open spec fn restructure_step(sk: Seq<(Seq<char>, JsonV)>, st: (Seq<Seq<char>>, Seq<(Seq<char>, JsonV)>), key: Seq<char>, value: JsonV) -> Option<(Seq<Seq<char>>, Seq<(Seq<char>, JsonV)>)> {
    if key.contains(':') {
        let p0 = before_first(key, ':');
        let item = JsonV::Object(seq![(replace(key, ":"@, "_"@), value)]);
        let re = match obj_get(st.1, p0) {
            Some(JsonV::Array(a)) => Some(obj_insert(st.1, p0, JsonV::Array(a.push(item)))),
            Some(_) => None,
            None => Some(obj_insert(st.1, p0, JsonV::Array(seq![item]))),
        };
        match re {
            Some(r) => Some((
                if obj_get(sk, p0) is None && !st.0.contains(p0) { st.0.push(p0) } else { st.0 },
                r,
            )),
            None => None,
        }
    } else {
        Some((st.0, obj_insert(st.1, key, value)))
    }
}

pub open spec fn restructure_entries(sk: Seq<(Seq<char>, JsonV)>, st: (Seq<Seq<char>>, Seq<(Seq<char>, JsonV)>), e: Seq<(Seq<char>, JsonV)>) -> Option<(Seq<Seq<char>>, Seq<(Seq<char>, JsonV)>)>
    decreases e.len(),
{
    if e.len() == 0 {
        Some(st)
    } else {
        match restructure_entries(sk, st, e.drop_last()) {
            Some(s2) => restructure_step(sk, s2, e.last().0, e.last().1),
            None => None,
        }
    }
}

pub open spec fn restructure_items(sk: Seq<(Seq<char>, JsonV)>, items: Seq<JsonV>) -> Option<(Seq<Seq<char>>, Seq<(Seq<char>, JsonV)>)>
    decreases items.len(),
{
    if items.len() == 0 {
        Some((Seq::<Seq<char>>::empty(), Seq::<(Seq<char>, JsonV)>::empty()))
    } else {
        match restructure_items(sk, items.drop_last()) {
            Some(s2) => match items.last() {
                JsonV::Object(e) => restructure_entries(sk, s2, e),
                _ => Some(s2),
            },
            None => None,
        }
    }
}

/// The structural attributes of a Sparv configuration grouped by element
/// (`element:attribute` keys under `element`, as `element_attribute`),
/// with the elements that are no structural keys; `None` where an element
/// is both a group and a plain key.
pub open spec fn restructured(data: JsonV, sk: Seq<(Seq<char>, JsonV)>) -> Option<(Seq<Seq<char>>, Seq<(Seq<char>, JsonV)>)> {
    match data {
        JsonV::Array(items) => restructure_items(sk, items),
        _ => Some((Seq::<Seq<char>>::empty(), Seq::<(Seq<char>, JsonV)>::empty())),
    }
}

pub proof fn lemma_item_wf(key: Seq<char>, value: JsonV)
    requires
        json_wf(value),
    ensures
        json_wf(JsonV::Object(seq![(key, value)])),
{
    let e = seq![(key, value)];
    assert(crate::json::keys_sorted(e));
    assert forall|i: int| 0 <= i < e.len() implies json_wf(#[trigger] e[i].1) by {}
}

/// One entry of an item of the structural attributes, into `st`.
fn restructure_entry(sk: &JsonMap, elements: &mut Vec<String>, re: &mut JsonMap, key: &String, value: &Json) -> (r: bool)
    requires
        old(re).wf(),
        json_wf(value@),
    ensures
        r == restructure_step(sk@, (views(old(elements)@), old(re)@), key@, value@) is Some,
        r ==> restructure_step(sk@, (views(old(elements)@), old(re)@), key@, value@) == Some((views(final(elements)@), final(re)@)),
        final(re).wf(),
{
    if !contains_char(key.as_str(), ':') {
        re.insert(key.clone(), copy_json(value));
        return true;
    }
    let parts = split_char(key.as_str(), ':');
    let p0 = parts[0].clone();
    assert(p0@ == before_first(key@, ':'));
    proof {
        reveal_strlit(":");
        reveal_strlit("_");
    }
    let item_key = replace_str(key.as_str(), ":", "_");
    let mut item_map = JsonMap::new();
    proof { lemma_item_wf(item_key@, value@); }
    item_map.insert(item_key, copy_json(value));
    let item = Json::Object(item_map);
    let ghost iv = item@;
    let existing: Option<Vec<Json>> = match re.get(p0.as_str()) {
        Some(j) => match j.as_array() {
            Some(a) => {
                proof {
                    crate::json::lemma_get_some(re@, p0@);
                    let k = choose|k: int| 0 <= k < re@.len() && (#[trigger] re@[k]) == (p0@, j@);
                    assert(json_wf(re@[k].1));
                }
                Some(copy_array(a))
            },
            None => {
                return false;
            },
        },
        None => None,
    };
    match existing {
        Some(a) => {
            let mut a = a;
            let ghost av = array_view(a@);
            let ghost a0 = a@;
            a.push(item);
            proof {
                assert(a@.drop_last() =~= a0);
                assert(array_view(a@) == av.push(iv));
                lemma_array_view(a@);
                assert(json_wf(JsonV::Array(av)));
                assert forall|k: int| 0 <= k < array_view(a@).len() implies json_wf(#[trigger] array_view(a@)[k]) by {
                    if k < av.len() {
                        assert(array_view(a@)[k] == av[k]);
                    }
                }
            }
            re.insert(p0.clone(), Json::Array(a));
        },
        None => {
            let mut a: Vec<Json> = Vec::new();
            a.push(item);
            proof {
                lemma_array_view(a@);
                assert(array_view(a@) =~= seq![iv]);
            }
            re.insert(p0.clone(), Json::Array(a));
        },
    }
    if !sk.contains_key(p0.as_str()) && !contains_string(elements, p0.as_str()) {
        let ghost before = elements@;
        elements.push(p0);
        assert(views(elements@) =~= views(before).push(before_first(key@, ':')));
    }
    true
}

/// A copy of an array's elements.
fn copy_array(a: &Vec<Json>) -> (r: Vec<Json>)
    ensures
        array_view(r@) == array_view(a@),
{
    let mut r: Vec<Json> = Vec::new();
    let mut i: usize = 0;
    proof { lemma_array_view(a@); }
    while i < a.len()
        invariant
            i <= a.len(),
            array_view(a@).len() == a@.len(),
            forall|k: int| 0 <= k < a@.len() ==> #[trigger] array_view(a@)[k] == a@[k]@,
            array_view(r@) == array_view(a@).take(i as int),
        decreases a.len() - i,
    {
        let c = copy_json(&a[i]);
        let ghost before = r@;
        r.push(c);
        proof {
            assert(r@.drop_last() =~= before);
            assert(array_view(r@) =~= array_view(a@).take(i + 1));
        }
        i = i + 1;
    }
    assert(array_view(a@).take(a.len() as int) =~= array_view(a@));
    r
}

/// `restructured`: the elements of the text, the structural attributes
/// grouped by element, and the elements again; `None` where it fails.
pub fn restructure(data: &Json, struct_keys: &JsonMap) -> (r: Option<(Vec<String>, JsonMap, Vec<String>)>)
    requires
        json_wf(data@),
    ensures
        r is None <==> restructured(data@, struct_keys@) is None,
        r matches Some(t) ==> restructured(data@, struct_keys@) == Some((views(t.0@), t.1@)) && t.2@ == t.0@ && t.1.wf(),
{
    let mut elements: Vec<String> = Vec::new();
    let mut re = JsonMap::new();
    match data.as_array() {
        Some(items) => {
            let ghost iv = array_view(items@);
            proof { lemma_array_view(items@); }
            let mut i: usize = 0;
            assert(iv.take(0) =~= Seq::<JsonV>::empty());
            assert(views(elements@) =~= Seq::<Seq<char>>::empty());
            while i < items.len()
                invariant
                    i <= items.len(),
                    data@ == JsonV::Array(iv),
                    json_wf(data@),
                    iv.len() == items@.len(),
                    forall|k: int| 0 <= k < items@.len() ==> #[trigger] iv[k] == items@[k]@,
                    re.wf(),
                    restructure_items(struct_keys@, iv.take(i as int)) == Some((views(elements@), re@)),
                decreases items.len() - i,
            {
                assert(iv.take(i + 1).drop_last() =~= iv.take(i as int));
                assert(iv.take(i + 1).last() == iv[i as int]);
                assert(json_wf(JsonV::Array(iv)));
                proof { crate::json::lemma_wf_element(iv, i as int); }
                match items[i].as_object() {
                    Some(obj) => {
                        let ghost e = obj@;
                        let ghost st0 = (views(elements@), re@);
                        proof { lemma_entries_view(obj.entries@); }
                        let mut j: usize = 0;
                        assert(e.take(0) =~= Seq::<(Seq<char>, JsonV)>::empty());
                        while j < obj.entries.len()
                            invariant
                                j <= obj.entries.len(),
                                e == obj@,
                                i < iv.len(),
                                data@ == JsonV::Array(iv),
                                iv[i as int] == JsonV::Object(e),
                                restructure_items(struct_keys@, iv.take(i as int)) == Some(st0),
                                json_wf(JsonV::Object(e)),
                                e.len() == obj.entries@.len(),
                                forall|k: int| 0 <= k < obj.entries@.len() ==> #[trigger] e[k] == (obj.entries@[k].0@, obj.entries@[k].1@),
                                re.wf(),
                                restructure_entries(struct_keys@, st0, e.take(j as int)) == Some((views(elements@), re@)),
                            decreases obj.entries.len() - j,
                        {
                            assert(e.take(j + 1).drop_last() =~= e.take(j as int));
                            assert(e.take(j + 1).last() == e[j as int]);
                            assert(json_wf(e[j as int].1));
                            if !restructure_entry(struct_keys, &mut elements, &mut re, &obj.entries[j].0, &obj.entries[j].1) {
                                proof { lemma_restructure_stays_none(struct_keys@, st0, e, j as int, iv, i as int); }
                                return None;
                            }
                            j = j + 1;
                        }
                        assert(e.take(obj.entries.len() as int) =~= e);
                    },
                    None => {},
                }
                i = i + 1;
            }
            assert(iv.take(items.len() as int) =~= iv);
        },
        None => {
            assert(views(elements@) =~= Seq::<Seq<char>>::empty());
        },
    }
    let copy = copy_strings(&elements);
    Some((elements, re, copy))
}

/// Once an entry fails, the whole walk fails.
proof fn lemma_restructure_stays_none(sk: Seq<(Seq<char>, JsonV)>, st0: (Seq<Seq<char>>, Seq<(Seq<char>, JsonV)>), e: Seq<(Seq<char>, JsonV)>, j: int, iv: Seq<JsonV>, i: int)
    requires
        0 <= j < e.len(),
        0 <= i < iv.len(),
        iv[i] == JsonV::Object(e),
        restructure_items(sk, iv.take(i)) == Some(st0),
        restructure_entries(sk, st0, e.take(j + 1)) is None,
    ensures
        restructure_items(sk, iv) is None,
{
    lemma_entries_none_grows(sk, st0, e, j + 1);
    assert(e.take(e.len() as int) =~= e);
    assert(iv.take(i + 1).drop_last() =~= iv.take(i));
    assert(iv.take(i + 1).last() == iv[i]);
    lemma_items_none_grows(sk, iv, i + 1);
    assert(iv.take(iv.len() as int) =~= iv);
}

proof fn lemma_entries_none_grows(sk: Seq<(Seq<char>, JsonV)>, st0: (Seq<Seq<char>>, Seq<(Seq<char>, JsonV)>), e: Seq<(Seq<char>, JsonV)>, n: int)
    requires
        0 <= n <= e.len(),
        restructure_entries(sk, st0, e.take(n)) is None,
    ensures
        restructure_entries(sk, st0, e) is None,
    decreases e.len() - n,
{
    if n < e.len() {
        assert(e.take(n + 1).drop_last() =~= e.take(n));
        lemma_entries_none_grows(sk, st0, e, n + 1);
    } else {
        assert(e.take(n) =~= e);
    }
}

proof fn lemma_items_none_grows(sk: Seq<(Seq<char>, JsonV)>, iv: Seq<JsonV>, n: int)
    requires
        0 <= n <= iv.len(),
        restructure_items(sk, iv.take(n)) is None,
    ensures
        restructure_items(sk, iv) is None,
    decreases iv.len() - n,
{
    if n < iv.len() {
        assert(iv.take(n + 1).drop_last() =~= iv.take(n));
        lemma_items_none_grows(sk, iv, n + 1);
    } else {
        assert(iv.take(n) =~= iv);
    }
}

// ---------------------------------------------------------------- the conversion, stated

/// The mathematical value of a corpus configuration.
pub struct ConfigV {
    pub struct_attributes: Map<Seq<char>, JsonV>,
    pub word_attributes: Seq<Map<Seq<char>, JsonV>>,
    pub text_attributes: Seq<Map<Seq<char>, JsonV>>,
    pub text_tags: Seq<Seq<char>>,
    pub mode_id: Seq<char>,
    pub mode_name: Map<Seq<char>, Seq<char>>,
    pub folder_name: Seq<char>,
    pub split: Seq<char>,
    pub corpus_name: Map<Seq<char>, Seq<char>>,
    pub corpus_description: Map<Seq<char>, Seq<char>>,
    pub title: Seq<char>,
    pub document_id: Seq<char>,
    pub updated_at: int,
    pub corpus_id: Seq<char>,
    pub extra: Map<Seq<char>, JsonV>,
}

/// The contents of some hash maps.
pub open spec fn maps_view(v: Seq<JsonHashMap>) -> Seq<Map<Seq<char>, JsonV>> {
    v.map_values(|m: JsonHashMap| json_hash_map_contents(m))
}

impl View for CorpusConfig {
    type V = ConfigV;

    open spec fn view(&self) -> ConfigV {
        ConfigV {
            struct_attributes: json_hash_map_contents(self.analyze_config.struct_attributes),
            word_attributes: maps_view(self.analyze_config.word_attributes@),
            text_attributes: maps_view(self.analyze_config.text_attributes@),
            text_tags: views(self.text_tags@),
            mode_id: self.mode_id@,
            mode_name: str_map_contents(self.mode_name),
            folder_name: self.folder_name@,
            split: self.split@,
            corpus_name: str_map_contents(self.corpus_name.values),
            corpus_description: str_map_contents(self.corpus_description.values),
            title: self.title@,
            document_id: self.document_id@,
            updated_at: self.updated_at as int,
            corpus_id: self.corpus_id@,
            extra: json_hash_map_contents(self.extra),
        }
    }
}

/// An empty configuration.
pub open spec fn empty_config() -> ConfigV {
    ConfigV {
        struct_attributes: Map::<Seq<char>, JsonV>::empty(),
        word_attributes: Seq::<Map<Seq<char>, JsonV>>::empty(),
        text_attributes: Seq::<Map<Seq<char>, JsonV>>::empty(),
        text_tags: Seq::<Seq<char>>::empty(),
        mode_id: Seq::<char>::empty(),
        mode_name: Map::<Seq<char>, Seq<char>>::empty(),
        folder_name: Seq::<char>::empty(),
        split: Seq::<char>::empty(),
        corpus_name: Map::<Seq<char>, Seq<char>>::empty(),
        corpus_description: Map::<Seq<char>, Seq<char>>::empty(),
        title: Seq::<char>::empty(),
        document_id: Seq::<char>::empty(),
        updated_at: 0,
        corpus_id: Seq::<char>::empty(),
        extra: Map::<Seq<char>, JsonV>::empty(),
    }
}

/// The state of the conversion between two keys of the Sparv configuration.
pub struct ConvState {
    pub cfg: ConfigV,
    pub year_exist: bool,
    pub text_list: Seq<Map<Seq<char>, JsonV>>,
    pub text_list_x: Seq<Seq<char>>,
    pub temp_list_struct: Seq<Map<Seq<char>, JsonV>>,
}

/// The start of the conversion.
pub open spec fn start_state() -> ConvState {
    ConvState {
        cfg: empty_config(),
        year_exist: false,
        text_list: Seq::<Map<Seq<char>, JsonV>>::empty(),
        text_list_x: Seq::<Seq<char>>::empty(),
        temp_list_struct: Seq::<Map<Seq<char>, JsonV>>::empty(),
    }
}

/// How far a conversion gets: the configuration's shape does not allow it,
/// a settings file it needs could not be loaded, or it gets through.
pub enum ConvOutcome {
    Fails,
    LoadError,
    Done(ConvState),
}

// text attributes

/// A text attribute `element:name` of the Sparv configuration, as a
/// one-entry map under `name`; `None` where the key has no `:` or the
/// description cannot be converted.
pub open spec fn text_attr_entry(k1: Seq<char>, v1: JsonV) -> Option<(Seq<char>, Map<Seq<char>, JsonV>)> {
    let parts = split_on(k1, ':');
    if parts.len() < 2 {
        None
    } else {
        let p1 = parts[1];
        match v1 {
            JsonV::Str(sv) => Some((p1, single(p1, JsonV::Str(replace(sv, "text_"@, Seq::<char>::empty()))))),
            _ => if replace_key_fails(v1) {
                None
            } else {
                Some((p1, single(p1, replaced_key(v1, p1))))
            },
        }
    }
}

pub open spec fn text_attr_entries(st: ConvState, e: Seq<(Seq<char>, JsonV)>) -> Option<ConvState>
    decreases e.len(),
{
    if e.len() == 0 {
        Some(st)
    } else {
        match text_attr_entries(st, e.drop_last()) {
            Some(s2) => match text_attr_entry(e.last().0, e.last().1) {
                Some(p) => Some(ConvState {
                    year_exist: s2.year_exist || e.last().0 == "text:year"@,
                    text_list: s2.text_list.push(p.1),
                    text_list_x: s2.text_list_x.push(p.0),
                    ..s2
                }),
                None => None,
            },
            None => None,
        }
    }
}

pub open spec fn text_attr_items(st: ConvState, xs: Seq<JsonV>) -> Option<ConvState>
    decreases xs.len(),
{
    if xs.len() == 0 {
        Some(st)
    } else {
        match text_attr_items(st, xs.drop_last()) {
            Some(s2) => match xs.last() {
                JsonV::Object(e) => text_attr_entries(s2, e),
                _ => None,
            },
            None => None,
        }
    }
}

// structural attributes

/// The attributes of a structural key, each converted under its name.
pub open spec fn struct_item_entries(e: Seq<(Seq<char>, JsonV)>, acc: Seq<JsonV>) -> Option<Seq<JsonV>>
    decreases e.len(),
{
    if e.len() == 0 {
        Some(acc)
    } else {
        match struct_item_entries(e.drop_last(), acc) {
            Some(a2) => {
                let k1 = e.last().0;
                let v1 = e.last().1;
                if v1 is Str {
                    Some(a2.push(JsonV::Object(seq![(k1, v1)])))
                } else if split_on(k1, '_').len() < 2 || replace_key_fails(v1) {
                    None
                } else {
                    Some(a2.push(JsonV::Object(seq![(k1, replaced_key(v1, struct_item_name(k1)))])))
                }
            },
            None => None,
        }
    }
}

pub open spec fn struct_items(xs: Seq<JsonV>, acc: Seq<JsonV>) -> Option<Seq<JsonV>>
    decreases xs.len(),
{
    if xs.len() == 0 {
        Some(acc)
    } else {
        match struct_items(xs.drop_last(), acc) {
            Some(a2) => match xs.last() {
                JsonV::Object(e) => struct_item_entries(e, a2),
                _ => None,
            },
            None => None,
        }
    }
}

/// The attributes of an element that is no structural key, as text
/// attributes: one-entry maps, described.
pub open spec fn plain_struct_entries(e: Seq<(Seq<char>, JsonV)>, acc: Seq<Map<Seq<char>, JsonV>>) -> Option<Seq<Map<Seq<char>, JsonV>>>
    decreases e.len(),
{
    if e.len() == 0 {
        Some(acc)
    } else {
        match plain_struct_entries(e.drop_last(), acc) {
            Some(a2) => {
                let k1 = e.last().0;
                let v1 = e.last().1;
                if v1 is Str {
                    Some(a2.push(single(k1, dict_of(k1))))
                } else if replace_key_fails(v1) {
                    None
                } else {
                    Some(a2.push(single(k1, replaced_key(v1, k1))))
                }
            },
            None => None,
        }
    }
}

pub open spec fn plain_struct_items(xs: Seq<JsonV>, acc: Seq<Map<Seq<char>, JsonV>>) -> Option<Seq<Map<Seq<char>, JsonV>>>
    decreases xs.len(),
{
    if xs.len() == 0 {
        Some(acc)
    } else {
        match plain_struct_items(xs.drop_last(), acc) {
            Some(a2) => match xs.last() {
                JsonV::Object(e) => plain_struct_entries(e, a2),
                _ => None,
            },
            None => None,
        }
    }
}

/// The grouped structural attributes: those of structural keys as
/// structural attributes, the others as text attributes.
pub open spec fn struct_groups(sk: Seq<(Seq<char>, JsonV)>, groups: Seq<(Seq<char>, JsonV)>, acc: (Map<Seq<char>, JsonV>, Seq<Map<Seq<char>, JsonV>>)) -> Option<(Map<Seq<char>, JsonV>, Seq<Map<Seq<char>, JsonV>>)>
    decreases groups.len(),
{
    if groups.len() == 0 {
        Some(acc)
    } else {
        match struct_groups(sk, groups.drop_last(), acc) {
            Some(a2) => match groups.last().1 {
                JsonV::Array(xs) => if obj_get(sk, groups.last().0) is Some {
                    match struct_items(xs, Seq::<JsonV>::empty()) {
                        Some(items) => Some((a2.0.insert(groups.last().0, JsonV::Array(items)), a2.1)),
                        None => None,
                    }
                } else {
                    match plain_struct_items(xs, a2.1) {
                        Some(t) => Some((a2.0, t)),
                        None => None,
                    }
                },
                _ => None,
            },
            None => None,
        }
    }
}

/// The structural attributes of the Sparv configuration taken into `st`.
pub open spec fn struct_attributes_step(st: ConvState, value: JsonV, sk: Seq<(Seq<char>, JsonV)>) -> Option<ConvState> {
    match restructured(value, sk) {
        Some(r) => match struct_groups(sk, r.1, (Map::<Seq<char>, JsonV>::empty(), st.temp_list_struct)) {
            Some(g) => Some(ConvState {
                cfg: ConfigV { text_tags: r.0.push("text"@), struct_attributes: g.0, ..st.cfg },
                text_list_x: st.text_list_x + r.0,
                temp_list_struct: g.1,
                ..st
            }),
            None => None,
        },
        None => None,
    }
}

// word attributes

/// A word attribute the configuration leaves out.
pub open spec fn excluded_word_key(k: Seq<char>) -> bool {
    k == "ufeats"@ || k == "lex"@ || k == "_tail"@ || k == "_head"@
}

pub open spec fn word_entries(e: Seq<(Seq<char>, JsonV)>, acc: Seq<Map<Seq<char>, JsonV>>) -> Option<Seq<Map<Seq<char>, JsonV>>>
    decreases e.len(),
{
    if e.len() == 0 {
        Some(acc)
    } else {
        match word_entries(e.drop_last(), acc) {
            Some(a2) => {
                let k1 = e.last().0;
                let v1 = e.last().1;
                if excluded_word_key(k1) {
                    Some(a2)
                } else if v1 is Str {
                    Some(a2.push(single(k1, v1)))
                } else if replace_key_fails(v1) {
                    None
                } else {
                    Some(a2.push(single(k1, replaced_key(v1, k1))))
                }
            },
            None => None,
        }
    }
}

pub open spec fn word_items(xs: Seq<JsonV>, acc: Seq<Map<Seq<char>, JsonV>>) -> Option<Seq<Map<Seq<char>, JsonV>>>
    decreases xs.len(),
{
    if xs.len() == 0 {
        Some(acc)
    } else {
        match word_items(xs.drop_last(), acc) {
            Some(a2) => match xs.last() {
                JsonV::Object(e) => word_entries(e, a2),
                _ => None,
            },
            None => None,
        }
    }
}

/// The word attributes: `lemgram`, then the configured ones.
pub open spec fn word_attributes_of(value: JsonV) -> Option<Seq<Map<Seq<char>, JsonV>>> {
    match value {
        JsonV::Array(xs) => word_items(xs, seq![single("lemgram"@, JsonV::Str("lemgram"@))]),
        _ => None,
    }
}

/// The name of the mode: that of the first entry.
pub open spec fn mode_name_of(value: JsonV) -> Option<Seq<char>> {
    match value {
        JsonV::Array(a) => if a.len() > 0 {
            match a[0] {
                JsonV::Object(e) => match obj_get(e, "name"@) {
                    Some(JsonV::Str(n)) => Some(n),
                    _ => None,
                },
                _ => None,
            }
        } else {
            None
        },
        _ => None,
    }
}

/// One key of the Sparv configuration taken into `st`; the structural keys
/// and the mode translations are given where they could be loaded.
pub open spec fn conv_step(st: ConvState, key: Seq<char>, value: JsonV, sk: Option<Seq<(Seq<char>, JsonV)>>, mode: Option<Map<Seq<char>, Seq<char>>>) -> ConvOutcome {
    if key == "text_attributes"@ {
        match value {
            JsonV::Array(xs) => match text_attr_items(st, xs) {
                Some(s2) => ConvOutcome::Done(s2),
                None => ConvOutcome::Fails,
            },
            _ => ConvOutcome::Fails,
        }
    } else if key == "struct_attributes"@ {
        match sk {
            Some(k) => match struct_attributes_step(st, value, k) {
                Some(s2) => ConvOutcome::Done(s2),
                None => ConvOutcome::Fails,
            },
            None => ConvOutcome::LoadError,
        }
    } else if key == "word_attributes"@ {
        match word_attributes_of(value) {
            Some(w) => ConvOutcome::Done(ConvState { cfg: ConfigV { word_attributes: w, ..st.cfg }, ..st }),
            None => ConvOutcome::Fails,
        }
    } else if key == "mode"@ {
        match mode_name_of(value) {
            Some(n) => match mode {
                Some(m) => ConvOutcome::Done(ConvState { cfg: ConfigV { mode_id: n, mode_name: m, folder_name: Seq::<char>::empty(), ..st.cfg }, ..st }),
                None => ConvOutcome::LoadError,
            },
            None => ConvOutcome::Fails,
        }
    } else if key == "text_annotation"@ {
        match value {
            JsonV::Str(v) => ConvOutcome::Done(ConvState { cfg: ConfigV { split: v, ..st.cfg }, ..st }),
            _ => ConvOutcome::Fails,
        }
    } else if key == "corpus_name"@ {
        if lang_value_fails(value) {
            ConvOutcome::Fails
        } else {
            ConvOutcome::Done(ConvState { cfg: ConfigV { corpus_name: lang_value_of(value), ..st.cfg }, ..st })
        }
    } else if key == "corpus_description"@ {
        if lang_value_fails(value) {
            ConvOutcome::Fails
        } else {
            ConvOutcome::Done(ConvState { cfg: ConfigV { corpus_description: lang_value_of(value), ..st.cfg }, ..st })
        }
    } else if key == "corpus_id"@ {
        match value {
            JsonV::Str(v) => ConvOutcome::Done(ConvState { cfg: ConfigV { corpus_id: v, ..st.cfg }, ..st }),
            _ => ConvOutcome::Fails,
        }
    } else {
        ConvOutcome::Done(ConvState { cfg: ConfigV { extra: st.cfg.extra.insert(key, value), ..st.cfg }, ..st })
    }
}

/// The keys of the Sparv configuration taken in turn, up to the first that
/// fails or needs a file that could not be loaded.
pub open spec fn conv_walk(e: Seq<(Seq<char>, JsonV)>, sk: Option<Seq<(Seq<char>, JsonV)>>, mode: Option<Map<Seq<char>, Seq<char>>>) -> ConvOutcome
    decreases e.len(),
{
    if e.len() == 0 {
        ConvOutcome::Done(start_state())
    } else {
        match conv_walk(e.drop_last(), sk, mode) {
            ConvOutcome::Done(s) => conv_step(s, e.last().0, e.last().1, sk, mode),
            other => other,
        }
    }
}

/// The title and the document id the text attribute names give: `_id`
/// is the document id, a name like a title the title, the last one of each.
pub open spec fn title_and_id(xs: Seq<Seq<char>>, cfg: ConfigV) -> ConfigV
    decreases xs.len(),
{
    if xs.len() == 0 {
        cfg
    } else {
        let c = title_and_id(xs.drop_last(), cfg);
        let x = xs.last();
        if x == "_id"@ {
            ConfigV { document_id: x, ..c }
        } else if x == "title"@ || x == "titel"@ || contains_seq(x, "title"@) || contains_seq(x, "name"@) {
            ConfigV { title: x, ..c }
        } else {
            c
        }
    }
}

/// A text attribute name that can serve as the title: `title`, `titel`, or
/// one that holds `title` or `name`.
pub open spec fn names_a_title(x: Seq<char>) -> bool {
    x == "title"@ || x == "titel"@ || contains_seq(x, "title"@) || contains_seq(x, "name"@)
}

/// The title is the last text attribute name that can serve as one (a name
/// other than `_id`); with none, the title stays as it was.
pub proof fn law_title_is_last_title_name(xs: Seq<Seq<char>>, cfg: ConfigV, i: int)
    requires
        0 <= i < xs.len(),
        names_a_title(xs[i]),
        xs[i] != "_id"@,
        forall|j: int| i < j < xs.len() ==> !names_a_title(#[trigger] xs[j]) || xs[j] == "_id"@,
    ensures
        title_and_id(xs, cfg).title == xs[i],
    decreases xs.len(),
{
    if i < xs.len() - 1 {
        let d = xs.drop_last();
        assert forall|j: int| i < j < d.len() implies !names_a_title(#[trigger] d[j]) || d[j] == "_id"@ by {
            assert(d[j] == xs[j]);
        }
        assert(d[i] == xs[i]);
        law_title_is_last_title_name(d, cfg, i);
        assert(xs.last() == xs[xs.len() - 1]);
    } else {
        assert(xs.last() == xs[i]);
    }
}

/// Without a text attribute name that can serve as the title, the title
/// stays as it was.
pub proof fn law_title_kept_without_title_name(xs: Seq<Seq<char>>, cfg: ConfigV)
    requires
        forall|j: int| 0 <= j < xs.len() ==> !names_a_title(#[trigger] xs[j]) || xs[j] == "_id"@,
    ensures
        title_and_id(xs, cfg).title == cfg.title,
    decreases xs.len(),
{
    if xs.len() > 0 {
        let d = xs.drop_last();
        assert forall|j: int| 0 <= j < d.len() implies !names_a_title(#[trigger] d[j]) || d[j] == "_id"@ by {
            assert(d[j] == xs[j]);
        }
        law_title_kept_without_title_name(d, cfg);
        assert(xs.last() == xs[xs.len() - 1]);
    }
}

/// The configuration when all keys are taken: the text attributes, those
/// of the elements that are no structural keys, and a `year` where none is
/// given; then the title and the document id.
pub open spec fn finished(s: ConvState) -> ConfigV {
    let year = if s.year_exist {
        Seq::<Map<Seq<char>, JsonV>>::empty()
    } else {
        seq![single("year"@, JsonV::Str("year"@))]
    };
    title_and_id(s.text_list_x, ConfigV { text_attributes: s.text_list + s.temp_list_struct + year, ..s.cfg })
}

/// The result of converting a Sparv configuration.
pub enum ConvResult {
    Fails,
    LoadError,
    Done(ConfigV),
}

/// What converting the Sparv configuration `data` gives.
pub open spec fn converted(data: JsonV, sk: Option<Seq<(Seq<char>, JsonV)>>, mode: Option<Map<Seq<char>, Seq<char>>>) -> ConvResult {
    match data {
        JsonV::Object(e) => match conv_walk(e, sk, mode) {
            ConvOutcome::Done(s) => ConvResult::Done(finished(s)),
            ConvOutcome::LoadError => ConvResult::LoadError,
            ConvOutcome::Fails => ConvResult::Fails,
        },
        _ => ConvResult::Fails,
    }
}


// ---------------------------------------------------------------- the conversion, computed

impl Default for CorpusConfig {
    fn default() -> (r: CorpusConfig)
        ensures
            r@ == empty_config(),
    {
        let r = CorpusConfig {
            analyze_config: AnalyzeConfig {
                struct_attributes: JsonHashMap::new(),
                word_attributes: Vec::new(),
                text_attributes: Vec::new(),
            },
            text_tags: Vec::new(),
            mode_id: String::new(),
            mode_name: StrMap::new(),
            folder_name: String::new(),
            split: String::new(),
            corpus_name: LangValue::new(),
            corpus_description: LangValue::new(),
            title: String::new(),
            document_id: String::new(),
            updated_at: 0,
            corpus_id: String::new(),
            extra: JsonHashMap::new(),
        };
        assert(r@.struct_attributes =~= Map::<Seq<char>, JsonV>::empty());
        assert(r@.mode_name =~= Map::<Seq<char>, Seq<char>>::empty());
        assert(r@.corpus_name =~= Map::<Seq<char>, Seq<char>>::empty());
        assert(r@.corpus_description =~= Map::<Seq<char>, Seq<char>>::empty());
        assert(r@.extra =~= Map::<Seq<char>, JsonV>::empty());
        assert(r@.word_attributes =~= Seq::<Map<Seq<char>, JsonV>>::empty());
        assert(r@.text_attributes =~= Seq::<Map<Seq<char>, JsonV>>::empty());
        assert(r@.text_tags =~= Seq::<Seq<char>>::empty());
        r
    }
}

/// The conversion in progress.
struct ConvWork {
    cfg: CorpusConfig,
    year_exist: bool,
    text_list: Vec<JsonHashMap>,
    text_list_x: Vec<String>,
    temp_list_struct: Vec<JsonHashMap>,
}

impl ConvWork {
    spec fn state(&self) -> ConvState {
        ConvState {
            cfg: self.cfg@,
            year_exist: self.year_exist,
            text_list: maps_view(self.text_list@),
            text_list_x: views(self.text_list_x@),
            temp_list_struct: maps_view(self.temp_list_struct@),
        }
    }
}

/// Appends a map to a list of maps.
fn push_map(v: &mut Vec<JsonHashMap>, m: JsonHashMap)
    ensures
        maps_view(final(v)@) == maps_view(old(v)@).push(json_hash_map_contents(m)),
{
    let ghost before = v@;
    let ghost mv = json_hash_map_contents(m);
    v.push(m);
    assert(maps_view(v@) =~= maps_view(before).push(mv));
}

/// Appends a string to a list of strings.
fn push_string(v: &mut Vec<String>, x: String)
    ensures
        views(final(v)@) == views(old(v)@).push(x@),
{
    let ghost before = v@;
    let ghost xv = x@;
    v.push(x);
    assert(views(v@) =~= views(before).push(xv));
}

/// `text_attr_entry`, computed.
fn compute_text_attr_entry(k1: &String, v1: &Json) -> (r: Option<(String, JsonHashMap)>)
    requires
        json_wf(v1@),
    ensures
        r is None <==> text_attr_entry(k1@, v1@) is None,
        r matches Some(p) ==> text_attr_entry(k1@, v1@) == Some((p.0@, json_hash_map_contents(p.1))),
{
    let parts = split_char(k1.as_str(), ':');
    if parts.len() < 2 {
        return None;
    }
    let p1 = parts[1].clone();
    let value = match v1.as_str() {
        Some(sv) => {
            proof { reveal_strlit("text_"); }
            let e = String::new();
            Json::Str(replace_str(sv.as_str(), "text_", e.as_str()))
        },
        None => match replace_key(v1, p1.as_str()) {
            Some(j) => j,
            None => {
                return None;
            },
        },
    };
    let m = make_map(p1.clone(), value);
    Some((p1, m))
}

/// The text attributes of the Sparv configuration taken into `w`
/// (`text_attr_items`); `false` where they fail.
fn take_text_attributes(w: &mut ConvWork, xs: &Vec<Json>) -> (r: bool)
    requires
        json_wf(JsonV::Array(array_view(xs@))),
    ensures
        r == text_attr_items(old(w).state(), array_view(xs@)) is Some,
        r ==> text_attr_items(old(w).state(), array_view(xs@)) == Some(final(w).state()),
{
    let ghost xv = array_view(xs@);
    let ghost s0 = w.state();
    proof { lemma_array_view(xs@); }
    let mut i: usize = 0;
    assert(xv.take(0) =~= Seq::<JsonV>::empty());
    while i < xs.len()
        invariant
            i <= xs.len(),
            xv == array_view(xs@),
            json_wf(JsonV::Array(xv)),
            xv.len() == xs@.len(),
            forall|k: int| 0 <= k < xs@.len() ==> #[trigger] xv[k] == xs@[k]@,
            text_attr_items(s0, xv.take(i as int)) == Some(w.state()),
            s0 == old(w).state(),
        decreases xs.len() - i,
    {
        assert(xv.take(i + 1).drop_last() =~= xv.take(i as int));
        assert(xv.take(i + 1).last() == xv[i as int]);
        proof { crate::json::lemma_wf_element(xv, i as int); }
        let obj = match xs[i].as_object() {
            Some(o) => o,
            None => {
                proof {
                    assert(text_attr_items(s0, xv.take(i + 1)) is None);
                    lemma_text_items_none(s0, xv, i as int + 1);
                }
                return false;
            },
        };
        let ghost e = obj@;
        let ghost s1 = w.state();
        proof { lemma_entries_view(obj.entries@); }
        let mut j: usize = 0;
        assert(e.take(0) =~= Seq::<(Seq<char>, JsonV)>::empty());
        while j < obj.entries.len()
            invariant
                j <= obj.entries.len(),
                e == obj@,
                xv == array_view(xs@),
                i < xv.len(),
                xv[i as int] == JsonV::Object(e),
                text_attr_items(s0, xv.take(i as int)) == Some(s1),
                s0 == old(w).state(),
                json_wf(JsonV::Object(e)),
                e.len() == obj.entries@.len(),
                forall|k: int| 0 <= k < obj.entries@.len() ==> #[trigger] e[k] == (obj.entries@[k].0@, obj.entries@[k].1@),
                text_attr_entries(s1, e.take(j as int)) == Some(w.state()),
            decreases obj.entries.len() - j,
        {
            assert(e.take(j + 1).drop_last() =~= e.take(j as int));
            assert(e.take(j + 1).last() == e[j as int]);
            proof { crate::json::lemma_wf_entry(e, j as int); }
            let k1 = &obj.entries[j].0;
            match compute_text_attr_entry(k1, &obj.entries[j].1) {
                Some(p) => {
                    if str_eq(k1.as_str(), "text:year") {
                        w.year_exist = true;
                    }
                    push_map(&mut w.text_list, p.1);
                    push_string(&mut w.text_list_x, p.0);
                },
                None => {
                    proof {
                        assert(text_attr_entries(s1, e.take(j + 1)) is None);
                        lemma_text_entries_none(s1, e, j as int + 1);
                        assert(xv.take(i + 1).drop_last() =~= xv.take(i as int));
                        assert(xv.take(i + 1).last() == xv[i as int]);
                        assert(text_attr_items(s0, xv.take(i + 1)) is None);
                        lemma_text_items_none(s0, xv, i as int + 1);
                    }
                    return false;
                },
            }
            j = j + 1;
        }
        assert(e.take(obj.entries.len() as int) =~= e);
        i = i + 1;
    }
    assert(xv.take(xs.len() as int) =~= xv);
    true
}

proof fn lemma_text_entries_none(s1: ConvState, e: Seq<(Seq<char>, JsonV)>, n: int)
    requires
        0 <= n <= e.len(),
        text_attr_entries(s1, e.take(n)) is None,
    ensures
        text_attr_entries(s1, e) is None,
    decreases e.len() - n,
{
    if n < e.len() {
        assert(e.take(n + 1).drop_last() =~= e.take(n));
        lemma_text_entries_none(s1, e, n + 1);
    } else {
        assert(e.take(n) =~= e);
    }
}

proof fn lemma_text_items_none(s0: ConvState, xv: Seq<JsonV>, n: int)
    requires
        0 <= n <= xv.len(),
        text_attr_items(s0, xv.take(n)) is None,
    ensures
        text_attr_items(s0, xv) is None,
    decreases xv.len() - n,
{
    if n < xv.len() {
        assert(xv.take(n + 1).drop_last() =~= xv.take(n));
        lemma_text_items_none(s0, xv, n + 1);
    } else {
        assert(xv.take(n) =~= xv);
    }
}


// structural attributes, computed

/// `{k: v}`, built.
fn single_object(k: String, v: Json) -> (r: Json)
    requires
        json_wf(v@),
    ensures
        r@ == JsonV::Object(seq![(k@, v@)]),
        json_wf(r@),
{
    let ghost kv = k@;
    let ghost vv = v@;
    let mut m = JsonMap::new();
    proof { lemma_item_wf(kv, vv); }
    m.insert(k, v);
    assert(m@ =~= seq![(kv, vv)]);
    Json::Object(m)
}

/// Appends a value to an array, keeping its view.
fn push_json(v: &mut Vec<Json>, j: Json)
    ensures
        array_view(final(v)@) == array_view(old(v)@).push(j@),
{
    let ghost before = v@;
    let ghost jv = j@;
    v.push(j);
    assert(v@.drop_last() =~= before);
    assert(v@.last() == j);
}

/// `struct_items` of `xs` from nothing, computed: the attributes of a
/// structural key.
fn compute_struct_items(xs: &Vec<Json>) -> (r: Option<Vec<Json>>)
    requires
        json_wf(JsonV::Array(array_view(xs@))),
    ensures
        r is None <==> struct_items(array_view(xs@), Seq::<JsonV>::empty()) is None,
        r matches Some(v) ==> struct_items(array_view(xs@), Seq::<JsonV>::empty()) == Some(array_view(v@)),
{
    let ghost xv = array_view(xs@);
    let ghost a0 = Seq::<JsonV>::empty();
    proof { lemma_array_view(xs@); }
    let mut out: Vec<Json> = Vec::new();
    let mut i: usize = 0;
    assert(xv.take(0) =~= Seq::<JsonV>::empty());
    assert(array_view(out@) =~= a0);
    while i < xs.len()
        invariant
            i <= xs.len(),
            xv == array_view(xs@),
            json_wf(JsonV::Array(xv)),
            xv.len() == xs@.len(),
            forall|k: int| 0 <= k < xs@.len() ==> #[trigger] xv[k] == xs@[k]@,
            a0 == Seq::<JsonV>::empty(),
            struct_items(xv.take(i as int), a0) == Some(array_view(out@)),
        decreases xs.len() - i,
    {
        assert(xv.take(i + 1).drop_last() =~= xv.take(i as int));
        assert(xv.take(i + 1).last() == xv[i as int]);
        proof { crate::json::lemma_wf_element(xv, i as int); }
        let obj = match xs[i].as_object() {
            Some(o) => o,
            None => {
                proof {
                    assert(struct_items(xv.take(i + 1), a0) is None);
                    lemma_struct_items_none(xv, a0, i as int + 1);
                }
                return None;
            },
        };
        let ghost e = obj@;
        let ghost a1 = array_view(out@);
        proof { lemma_entries_view(obj.entries@); }
        let mut j: usize = 0;
        assert(e.take(0) =~= Seq::<(Seq<char>, JsonV)>::empty());
        while j < obj.entries.len()
            invariant
                j <= obj.entries.len(),
                e == obj@,
                xv == array_view(xs@),
                i < xv.len(),
                xv[i as int] == JsonV::Object(e),
                a0 == Seq::<JsonV>::empty(),
                struct_items(xv.take(i as int), a0) == Some(a1),
                json_wf(JsonV::Object(e)),
                e.len() == obj.entries@.len(),
                forall|k: int| 0 <= k < obj.entries@.len() ==> #[trigger] e[k] == (obj.entries@[k].0@, obj.entries@[k].1@),
                struct_item_entries(e.take(j as int), a1) == Some(array_view(out@)),
            decreases obj.entries.len() - j,
        {
            assert(e.take(j + 1).drop_last() =~= e.take(j as int));
            assert(e.take(j + 1).last() == e[j as int]);
            proof { crate::json::lemma_wf_entry(e, j as int); }
            let k1 = &obj.entries[j].0;
            let v1 = &obj.entries[j].1;
            let item = match v1.as_str() {
                Some(_) => single_object(k1.clone(), copy_json(v1)),
                None => match replace_key_struct(v1, k1.as_str()) {
                    Some(d) => single_object(k1.clone(), d),
                    None => {
                        proof {
                            assert(struct_item_entries(e.take(j + 1), a1) is None);
                            lemma_struct_entries_none(e, a1, j as int + 1);
                            assert(xv.take(i + 1).drop_last() =~= xv.take(i as int));
                            assert(xv.take(i + 1).last() == xv[i as int]);
                            assert(struct_items(xv.take(i + 1), a0) is None);
                            lemma_struct_items_none(xv, a0, i as int + 1);
                        }
                        return None;
                    },
                },
            };
            push_json(&mut out, item);
            j = j + 1;
        }
        assert(e.take(obj.entries.len() as int) =~= e);
        i = i + 1;
    }
    assert(xv.take(xs.len() as int) =~= xv);
    Some(out)
}

/// `plain_struct_items` of `xs` appended to `acc`; `false` where it fails.
fn take_plain_struct_items(acc: &mut Vec<JsonHashMap>, xs: &Vec<Json>) -> (r: bool)
    requires
        json_wf(JsonV::Array(array_view(xs@))),
    ensures
        r == plain_struct_items(array_view(xs@), maps_view(old(acc)@)) is Some,
        r ==> plain_struct_items(array_view(xs@), maps_view(old(acc)@)) == Some(maps_view(final(acc)@)),
{
    let ghost xv = array_view(xs@);
    let ghost a0 = maps_view(acc@);
    proof { lemma_array_view(xs@); }
    let mut i: usize = 0;
    assert(xv.take(0) =~= Seq::<JsonV>::empty());
    while i < xs.len()
        invariant
            i <= xs.len(),
            xv == array_view(xs@),
            json_wf(JsonV::Array(xv)),
            xv.len() == xs@.len(),
            forall|k: int| 0 <= k < xs@.len() ==> #[trigger] xv[k] == xs@[k]@,
            a0 == maps_view(old(acc)@),
            plain_struct_items(xv.take(i as int), a0) == Some(maps_view(acc@)),
        decreases xs.len() - i,
    {
        assert(xv.take(i + 1).drop_last() =~= xv.take(i as int));
        assert(xv.take(i + 1).last() == xv[i as int]);
        proof { crate::json::lemma_wf_element(xv, i as int); }
        let obj = match xs[i].as_object() {
            Some(o) => o,
            None => {
                proof {
                    assert(plain_struct_items(xv.take(i + 1), a0) is None);
                    lemma_plain_items_none(xv, a0, i as int + 1);
                }
                return false;
            },
        };
        let ghost e = obj@;
        let ghost a1 = maps_view(acc@);
        proof { lemma_entries_view(obj.entries@); }
        let mut j: usize = 0;
        assert(e.take(0) =~= Seq::<(Seq<char>, JsonV)>::empty());
        while j < obj.entries.len()
            invariant
                j <= obj.entries.len(),
                e == obj@,
                xv == array_view(xs@),
                i < xv.len(),
                xv[i as int] == JsonV::Object(e),
                a0 == maps_view(old(acc)@),
                plain_struct_items(xv.take(i as int), a0) == Some(a1),
                json_wf(JsonV::Object(e)),
                e.len() == obj.entries@.len(),
                forall|k: int| 0 <= k < obj.entries@.len() ==> #[trigger] e[k] == (obj.entries@[k].0@, obj.entries@[k].1@),
                plain_struct_entries(e.take(j as int), a1) == Some(maps_view(acc@)),
            decreases obj.entries.len() - j,
        {
            assert(e.take(j + 1).drop_last() =~= e.take(j as int));
            assert(e.take(j + 1).last() == e[j as int]);
            proof { crate::json::lemma_wf_entry(e, j as int); }
            let k1 = &obj.entries[j].0;
            let v1 = &obj.entries[j].1;
            let d = match v1.as_str() {
                Some(_) => create_dict(k1.as_str()),
                None => match replace_key(v1, k1.as_str()) {
                    Some(d) => d,
                    None => {
                        proof {
                            assert(plain_struct_entries(e.take(j + 1), a1) is None);
                            lemma_plain_entries_none(e, a1, j as int + 1);
                            assert(xv.take(i + 1).drop_last() =~= xv.take(i as int));
                            assert(xv.take(i + 1).last() == xv[i as int]);
                            assert(plain_struct_items(xv.take(i + 1), a0) is None);
                            lemma_plain_items_none(xv, a0, i as int + 1);
                        }
                        return false;
                    },
                },
            };
            push_map(acc, make_map(k1.clone(), d));
            j = j + 1;
        }
        assert(e.take(obj.entries.len() as int) =~= e);
        i = i + 1;
    }
    assert(xv.take(xs.len() as int) =~= xv);
    true
}

proof fn lemma_struct_entries_none(e: Seq<(Seq<char>, JsonV)>, a: Seq<JsonV>, n: int)
    requires
        0 <= n <= e.len(),
        struct_item_entries(e.take(n), a) is None,
    ensures
        struct_item_entries(e, a) is None,
    decreases e.len() - n,
{
    if n < e.len() {
        assert(e.take(n + 1).drop_last() =~= e.take(n));
        lemma_struct_entries_none(e, a, n + 1);
    } else {
        assert(e.take(n) =~= e);
    }
}

proof fn lemma_struct_items_none(xv: Seq<JsonV>, a: Seq<JsonV>, n: int)
    requires
        0 <= n <= xv.len(),
        struct_items(xv.take(n), a) is None,
    ensures
        struct_items(xv, a) is None,
    decreases xv.len() - n,
{
    if n < xv.len() {
        assert(xv.take(n + 1).drop_last() =~= xv.take(n));
        lemma_struct_items_none(xv, a, n + 1);
    } else {
        assert(xv.take(n) =~= xv);
    }
}

proof fn lemma_plain_entries_none(e: Seq<(Seq<char>, JsonV)>, a: Seq<Map<Seq<char>, JsonV>>, n: int)
    requires
        0 <= n <= e.len(),
        plain_struct_entries(e.take(n), a) is None,
    ensures
        plain_struct_entries(e, a) is None,
    decreases e.len() - n,
{
    if n < e.len() {
        assert(e.take(n + 1).drop_last() =~= e.take(n));
        lemma_plain_entries_none(e, a, n + 1);
    } else {
        assert(e.take(n) =~= e);
    }
}

proof fn lemma_plain_items_none(xv: Seq<JsonV>, a: Seq<Map<Seq<char>, JsonV>>, n: int)
    requires
        0 <= n <= xv.len(),
        plain_struct_items(xv.take(n), a) is None,
    ensures
        plain_struct_items(xv, a) is None,
    decreases xv.len() - n,
{
    if n < xv.len() {
        assert(xv.take(n + 1).drop_last() =~= xv.take(n));
        lemma_plain_items_none(xv, a, n + 1);
    } else {
        assert(xv.take(n) =~= xv);
    }
}


/// Appends copies of `xs` to `v`.
fn extend_strings(v: &mut Vec<String>, xs: &Vec<String>)
    ensures
        views(final(v)@) == views(old(v)@) + views(xs@),
{
    let ghost v0 = views(v@);
    let mut i: usize = 0;
    assert(views(xs@).take(0) =~= Seq::<Seq<char>>::empty());
    assert(v0 + views(xs@).take(0) =~= v0);
    while i < xs.len()
        invariant
            i <= xs.len(),
            v0 == views(old(v)@),
            views(v@) == v0 + views(xs@).take(i as int),
        decreases xs.len() - i,
    {
        push_string(v, xs[i].clone());
        assert(views(xs@).take(i + 1) =~= views(xs@).take(i as int).push(xs@[i as int]@));
        assert(v0 + views(xs@).take(i + 1) =~= (v0 + views(xs@).take(i as int)).push(xs@[i as int]@));
        i = i + 1;
    }
    assert(views(xs@).take(xs.len() as int) =~= views(xs@));
}

/// The structural attributes of the Sparv configuration taken into `w`
/// (`struct_attributes_step`); `false` where they fail.
fn take_struct_attributes(w: &mut ConvWork, value: &Json, sk: &JsonMap) -> (r: bool)
    requires
        json_wf(value@),
    ensures
        r == struct_attributes_step(old(w).state(), value@, sk@) is Some,
        r ==> struct_attributes_step(old(w).state(), value@, sk@) == Some(final(w).state()),
{
    let ghost s0 = w.state();
    let (elements, groups, attr) = match restructure(value, sk) {
        Some(t) => t,
        None => {
            return false;
        },
    };
    let ghost rv = restructured(value@, sk@)->Some_0;
    let ghost gv = groups@;
    let ghost t0 = s0.temp_list_struct;
    let ghost acc0 = (Map::<Seq<char>, JsonV>::empty(), t0);
    let mut sa = JsonHashMap::new();
    assert(json_hash_map_contents(sa) =~= Map::<Seq<char>, JsonV>::empty());
    proof { lemma_entries_view(groups.entries@); }
    let mut i: usize = 0;
    assert(gv.take(0) =~= Seq::<(Seq<char>, JsonV)>::empty());
    while i < groups.entries.len()
        invariant
            i <= groups.entries.len(),
            gv == groups@,
            rv.1 == gv,
            restructured(value@, sk@) == Some(rv),
            json_wf(JsonV::Object(gv)),
            gv.len() == groups.entries@.len(),
            forall|k: int| 0 <= k < groups.entries@.len() ==> #[trigger] gv[k] == (groups.entries@[k].0@, groups.entries@[k].1@),
            acc0 == (Map::<Seq<char>, JsonV>::empty(), t0),
            struct_groups(sk@, gv.take(i as int), acc0) == Some((json_hash_map_contents(sa), maps_view(w.temp_list_struct@))),
            s0 == old(w).state(),
            t0 == s0.temp_list_struct,
            w.cfg@ == s0.cfg,
            w.year_exist == s0.year_exist,
            maps_view(w.text_list@) == s0.text_list,
            views(w.text_list_x@) == s0.text_list_x,
        decreases groups.entries.len() - i,
    {
        assert(gv.take(i + 1).drop_last() =~= gv.take(i as int));
        assert(gv.take(i + 1).last() == gv[i as int]);
        proof { crate::json::lemma_wf_entry(gv, i as int); }
        let key1 = &groups.entries[i].0;
        let xs = match groups.entries[i].1.as_array() {
            Some(a) => a,
            None => {
                proof {
                    assert(struct_groups(sk@, gv.take(i + 1), acc0) is None);
                    lemma_groups_none(sk@, gv, acc0, i as int + 1);
                }
                return false;
            },
        };
        if sk.contains_key(key1.as_str()) {
            match compute_struct_items(xs) {
                Some(items) => {
                    sa.insert(key1.clone(), Json::Array(items));
                },
                None => {
                    proof {
                        assert(struct_groups(sk@, gv.take(i + 1), acc0) is None);
                        lemma_groups_none(sk@, gv, acc0, i as int + 1);
                    }
                    return false;
                },
            }
        } else {
            if !take_plain_struct_items(&mut w.temp_list_struct, xs) {
                proof {
                    assert(struct_groups(sk@, gv.take(i + 1), acc0) is None);
                    lemma_groups_none(sk@, gv, acc0, i as int + 1);
                }
                return false;
            }
        }
        i = i + 1;
    }
    assert(gv.take(groups.entries.len() as int) =~= gv);
    w.cfg.analyze_config.struct_attributes = sa;
    let mut tags = elements;
    push_string(&mut tags, String::from_str("text"));
    w.cfg.text_tags = tags;
    extend_strings(&mut w.text_list_x, &attr);
    true
}

proof fn lemma_groups_none(
    sk: Seq<(Seq<char>, JsonV)>,
    g: Seq<(Seq<char>, JsonV)>,
    a: (Map<Seq<char>, JsonV>, Seq<Map<Seq<char>, JsonV>>),
    n: int,
)
    requires
        0 <= n <= g.len(),
        struct_groups(sk, g.take(n), a) is None,
    ensures
        struct_groups(sk, g, a) is None,
    decreases g.len() - n,
{
    if n < g.len() {
        assert(g.take(n + 1).drop_last() =~= g.take(n));
        lemma_groups_none(sk, g, a, n + 1);
    } else {
        assert(g.take(n) =~= g);
    }
}


// word attributes, computed

/// Whether the configuration leaves out a word attribute (`excluded_word_key`).
fn is_excluded_word_key(k: &str) -> (r: bool)
    ensures
        r == excluded_word_key(k@),
{
    str_eq(k, "ufeats") || str_eq(k, "lex") || str_eq(k, "_tail") || str_eq(k, "_head")
}

/// `word_items` of `xs` appended to `acc`; `false` where it fails.
fn take_word_items(acc: &mut Vec<JsonHashMap>, xs: &Vec<Json>) -> (r: bool)
    requires
        json_wf(JsonV::Array(array_view(xs@))),
    ensures
        r == word_items(array_view(xs@), maps_view(old(acc)@)) is Some,
        r ==> word_items(array_view(xs@), maps_view(old(acc)@)) == Some(maps_view(final(acc)@)),
{
    let ghost xv = array_view(xs@);
    let ghost a0 = maps_view(acc@);
    proof { lemma_array_view(xs@); }
    let mut i: usize = 0;
    assert(xv.take(0) =~= Seq::<JsonV>::empty());
    while i < xs.len()
        invariant
            i <= xs.len(),
            xv == array_view(xs@),
            json_wf(JsonV::Array(xv)),
            xv.len() == xs@.len(),
            forall|k: int| 0 <= k < xs@.len() ==> #[trigger] xv[k] == xs@[k]@,
            a0 == maps_view(old(acc)@),
            word_items(xv.take(i as int), a0) == Some(maps_view(acc@)),
        decreases xs.len() - i,
    {
        assert(xv.take(i + 1).drop_last() =~= xv.take(i as int));
        assert(xv.take(i + 1).last() == xv[i as int]);
        proof { crate::json::lemma_wf_element(xv, i as int); }
        let obj = match xs[i].as_object() {
            Some(o) => o,
            None => {
                proof {
                    assert(word_items(xv.take(i + 1), a0) is None);
                    lemma_word_items_none(xv, a0, i as int + 1);
                }
                return false;
            },
        };
        let ghost e = obj@;
        let ghost a1 = maps_view(acc@);
        proof { lemma_entries_view(obj.entries@); }
        let mut j: usize = 0;
        assert(e.take(0) =~= Seq::<(Seq<char>, JsonV)>::empty());
        while j < obj.entries.len()
            invariant
                j <= obj.entries.len(),
                e == obj@,
                xv == array_view(xs@),
                i < xv.len(),
                xv[i as int] == JsonV::Object(e),
                a0 == maps_view(old(acc)@),
                word_items(xv.take(i as int), a0) == Some(a1),
                json_wf(JsonV::Object(e)),
                e.len() == obj.entries@.len(),
                forall|k: int| 0 <= k < obj.entries@.len() ==> #[trigger] e[k] == (obj.entries@[k].0@, obj.entries@[k].1@),
                word_entries(e.take(j as int), a1) == Some(maps_view(acc@)),
            decreases obj.entries.len() - j,
        {
            assert(e.take(j + 1).drop_last() =~= e.take(j as int));
            assert(e.take(j + 1).last() == e[j as int]);
            proof { crate::json::lemma_wf_entry(e, j as int); }
            let k1 = &obj.entries[j].0;
            let v1 = &obj.entries[j].1;
            if !is_excluded_word_key(k1.as_str()) {
                let d = match v1.as_str() {
                    Some(_) => copy_json(v1),
                    None => match replace_key(v1, k1.as_str()) {
                        Some(d) => d,
                        None => {
                            proof {
                                assert(word_entries(e.take(j + 1), a1) is None);
                                lemma_word_entries_none(e, a1, j as int + 1);
                                assert(xv.take(i + 1).drop_last() =~= xv.take(i as int));
                                assert(xv.take(i + 1).last() == xv[i as int]);
                                assert(word_items(xv.take(i + 1), a0) is None);
                                lemma_word_items_none(xv, a0, i as int + 1);
                            }
                            return false;
                        },
                    },
                };
                push_map(acc, make_map(k1.clone(), d));
            }
            j = j + 1;
        }
        assert(e.take(obj.entries.len() as int) =~= e);
        i = i + 1;
    }
    assert(xv.take(xs.len() as int) =~= xv);
    true
}

/// `word_attributes_of`, computed.
fn compute_word_attributes(value: &Json) -> (r: Option<Vec<JsonHashMap>>)
    requires
        json_wf(value@),
    ensures
        r is None <==> word_attributes_of(value@) is None,
        r matches Some(v) ==> word_attributes_of(value@) == Some(maps_view(v@)),
{
    match value.as_array() {
        Some(xs) => {
            let mut acc: Vec<JsonHashMap> = Vec::new();
            assert(maps_view(acc@) =~= Seq::<Map<Seq<char>, JsonV>>::empty());
            push_map(&mut acc, make_map(String::from_str("lemgram"), Json::Str(String::from_str("lemgram"))));
            assert(maps_view(acc@) =~= seq![single("lemgram"@, JsonV::Str("lemgram"@))]);
            if take_word_items(&mut acc, xs) {
                Some(acc)
            } else {
                None
            }
        },
        None => None,
    }
}

proof fn lemma_word_entries_none(e: Seq<(Seq<char>, JsonV)>, a: Seq<Map<Seq<char>, JsonV>>, n: int)
    requires
        0 <= n <= e.len(),
        word_entries(e.take(n), a) is None,
    ensures
        word_entries(e, a) is None,
    decreases e.len() - n,
{
    if n < e.len() {
        assert(e.take(n + 1).drop_last() =~= e.take(n));
        lemma_word_entries_none(e, a, n + 1);
    } else {
        assert(e.take(n) =~= e);
    }
}

proof fn lemma_word_items_none(xv: Seq<JsonV>, a: Seq<Map<Seq<char>, JsonV>>, n: int)
    requires
        0 <= n <= xv.len(),
        word_items(xv.take(n), a) is None,
    ensures
        word_items(xv, a) is None,
    decreases xv.len() - n,
{
    if n < xv.len() {
        assert(xv.take(n + 1).drop_last() =~= xv.take(n));
        lemma_word_items_none(xv, a, n + 1);
    } else {
        assert(xv.take(n) =~= xv);
    }
}

// the mode

/// The name of the mode the Sparv configuration's `mode` value names
/// (`mode_name_of`): that of its first entry.
pub fn mode_name(value: &Json) -> (r: Option<String>)
    ensures
        r is None <==> mode_name_of(value@) is None,
        r matches Some(n) ==> mode_name_of(value@) == Some(n@),
{
    match value.as_array() {
        Some(a) => {
            proof { lemma_array_view(a@); }
            if a.len() == 0 {
                return None;
            }
            match a[0].as_object() {
                Some(o) => match o.get("name") {
                    Some(n) => match n.as_str() {
                        Some(s) => Some(s.clone()),
                        None => None,
                    },
                    None => None,
                },
                None => None,
            }
        },
        None => None,
    }
}


// the keys in turn

/// The structural keys as the conversion reads them, where they could be
/// loaded.
pub open spec fn keys_view(sk: Option<&JsonMap>) -> Option<Seq<(Seq<char>, JsonV)>> {
    match sk {
        Some(m) => Some(m@),
        None => None,
    }
}

/// The translations of the mode's name, where they could be loaded.
pub open spec fn mode_view(m: Option<StrMap>) -> Option<Map<Seq<char>, Seq<char>>> {
    match m {
        Some(t) => Some(str_map_contents(t)),
        None => None,
    }
}

/// How far one key gets.
enum Step {
    Fails,
    LoadError,
    Done,
}

/// One key of the Sparv configuration taken into `w` (`conv_step`). The
/// mode's translations are taken out of `mode` when the key is `mode`.
fn take_key(w: &mut ConvWork, key: &String, value: &Json, sk: Option<&JsonMap>, mode: &mut Option<StrMap>) -> (r: Step)
    requires
        json_wf(value@),
    ensures
        key@ != "mode"@ ==> *final(mode) == *old(mode),
        *final(mode) is None || *final(mode) == *old(mode),
        match r {
            Step::Fails => conv_step(old(w).state(), key@, value@, keys_view(sk), mode_view(*old(mode))) is Fails,
            Step::LoadError => conv_step(old(w).state(), key@, value@, keys_view(sk), mode_view(*old(mode))) is LoadError,
            Step::Done => conv_step(old(w).state(), key@, value@, keys_view(sk), mode_view(*old(mode))) == ConvOutcome::Done(final(w).state()),
        },
{
    if str_eq(key.as_str(), "text_attributes") {
        match value.as_array() {
            Some(xs) => {
                if take_text_attributes(w, xs) {
                    Step::Done
                } else {
                    Step::Fails
                }
            },
            None => Step::Fails,
        }
    } else if str_eq(key.as_str(), "struct_attributes") {
        match sk {
            Some(k) => {
                if take_struct_attributes(w, value, k) {
                    Step::Done
                } else {
                    Step::Fails
                }
            },
            None => Step::LoadError,
        }
    } else if str_eq(key.as_str(), "word_attributes") {
        match compute_word_attributes(value) {
            Some(wl) => {
                w.cfg.analyze_config.word_attributes = wl;
                Step::Done
            },
            None => Step::Fails,
        }
    } else if str_eq(key.as_str(), "mode") {
        match mode_name(value) {
            Some(n) => match mode.take() {
                Some(m) => {
                    w.cfg.mode_id = n;
                    w.cfg.mode_name = m;
                    w.cfg.folder_name = String::new();
                    Step::Done
                },
                None => Step::LoadError,
            },
            None => Step::Fails,
        }
    } else if str_eq(key.as_str(), "text_annotation") {
        match value.as_str() {
            Some(v) => {
                w.cfg.split = v.clone();
                Step::Done
            },
            None => Step::Fails,
        }
    } else if str_eq(key.as_str(), "corpus_name") {
        match LangValue::from_value(value) {
            Some(l) => {
                w.cfg.corpus_name = l;
                Step::Done
            },
            None => Step::Fails,
        }
    } else if str_eq(key.as_str(), "corpus_description") {
        match LangValue::from_value(value) {
            Some(l) => {
                w.cfg.corpus_description = l;
                Step::Done
            },
            None => Step::Fails,
        }
    } else if str_eq(key.as_str(), "corpus_id") {
        match value.as_str() {
            Some(v) => {
                w.cfg.corpus_id = v.clone();
                Step::Done
            },
            None => Step::Fails,
        }
    } else {
        w.cfg.extra.insert(key.clone(), copy_json(value));
        Step::Done
    }
}

proof fn lemma_walk_stops(
    e: Seq<(Seq<char>, JsonV)>,
    sk: Option<Seq<(Seq<char>, JsonV)>>,
    mode: Option<Map<Seq<char>, Seq<char>>>,
    n: int,
)
    requires
        0 <= n <= e.len(),
        !(conv_walk(e.take(n), sk, mode) is Done),
    ensures
        conv_walk(e, sk, mode) == conv_walk(e.take(n), sk, mode),
    decreases e.len() - n,
{
    if n < e.len() {
        assert(e.take(n + 1).drop_last() =~= e.take(n));
        lemma_walk_stops(e, sk, mode, n + 1);
    } else {
        assert(e.take(n) =~= e);
    }
}


// finishing

/// The title and the document id taken from the text attribute names
/// (`title_and_id`).
fn set_title_and_id(cfg: &mut CorpusConfig, xs: &Vec<String>)
    ensures
        final(cfg)@ == title_and_id(views(xs@), old(cfg)@),
{
    let ghost xv = views(xs@);
    let ghost c0 = cfg@;
    let mut i: usize = 0;
    assert(xv.take(0) =~= Seq::<Seq<char>>::empty());
    proof {
        reveal_strlit("title");
        reveal_strlit("name");
    }
    while i < xs.len()
        invariant
            i <= xs.len(),
            xv == views(xs@),
            c0 == old(cfg)@,
            cfg@ == title_and_id(xv.take(i as int), c0),
        decreases xs.len() - i,
    {
        assert(xv.take(i + 1).drop_last() =~= xv.take(i as int));
        assert(xv.take(i + 1).last() == xs@[i as int]@);
        let x = &xs[i];
        if str_eq(x.as_str(), "_id") {
            cfg.document_id = x.clone();
        } else if str_eq(x.as_str(), "title") || str_eq(x.as_str(), "titel") || contains_str(x.as_str(), "title")
            || contains_str(x.as_str(), "name") {
            cfg.title = x.clone();
        }
        i = i + 1;
    }
    assert(xv.take(xs.len() as int) =~= xv);
}

/// What converting a Sparv configuration gives, computed.
enum Conversion {
    Fails,
    LoadError,
    Done(CorpusConfig),
}

/// `converted`, computed.
fn run_conversion(data: &Json, struct_keys: Option<&JsonMap>, mode: Option<StrMap>) -> (r: Conversion)
    requires
        json_wf(data@),
    ensures
        match r {
            Conversion::Fails => converted(data@, keys_view(struct_keys), mode_view(mode)) is Fails,
            Conversion::LoadError => converted(data@, keys_view(struct_keys), mode_view(mode)) is LoadError,
            Conversion::Done(c) => converted(data@, keys_view(struct_keys), mode_view(mode)) == ConvResult::Done(c@),
        },
{
    let obj = match data.as_object() {
        Some(o) => o,
        None => {
            return Conversion::Fails;
        },
    };
    let ghost e = obj@;
    let ghost skv = keys_view(struct_keys);
    let ghost mv = mode_view(mode);
    let mut mode_left = mode;
    let mut w = ConvWork {
        cfg: CorpusConfig::default(),
        year_exist: false,
        text_list: Vec::new(),
        text_list_x: Vec::new(),
        temp_list_struct: Vec::new(),
    };
    assert(maps_view(w.text_list@) =~= Seq::<Map<Seq<char>, JsonV>>::empty());
    assert(maps_view(w.temp_list_struct@) =~= Seq::<Map<Seq<char>, JsonV>>::empty());
    assert(views(w.text_list_x@) =~= Seq::<Seq<char>>::empty());
    assert(w.state() == start_state());
    proof { lemma_entries_view(obj.entries@); }
    let mut i: usize = 0;
    assert(e.take(0) =~= Seq::<(Seq<char>, JsonV)>::empty());
    while i < obj.entries.len()
        invariant
            i <= obj.entries.len(),
            e == obj@,
            data@ == JsonV::Object(e),
            json_wf(JsonV::Object(e)),
            e.len() == obj.entries@.len(),
            forall|k: int| 0 <= k < obj.entries@.len() ==> #[trigger] e[k] == (obj.entries@[k].0@, obj.entries@[k].1@),
            skv == keys_view(struct_keys),
            mv == mode_view(mode),
            conv_walk(e.take(i as int), skv, mv) == ConvOutcome::Done(w.state()),
            mode_left is Some ==> mode_view(mode_left) == mv,
            mode_left is None ==> (mv is None || exists|j: int| 0 <= j < i && (#[trigger] e[j]).0 == "mode"@),
        decreases obj.entries.len() - i,
    {
        assert(e.take(i + 1).drop_last() =~= e.take(i as int));
        assert(e.take(i + 1).last() == e[i as int]);
        proof { crate::json::lemma_wf_entry(e, i as int); }
        let ghost ml = mode_view(mode_left);
        let ghost st = w.state();
        proof {
            if e[i as int].0 == "mode"@ {
                if mode_left is None && mv is Some {
                    let j = choose|j: int| 0 <= j < i && (#[trigger] e[j]).0 == "mode"@;
                    assert(crate::text::seq_lt(e[j].0, e[i as int].0));
                    crate::text::lemma_lt_irreflexive("mode"@);
                }
                assert(ml == mv);
            }
            assert(conv_step(st, e[i as int].0, e[i as int].1, skv, ml) == conv_step(st, e[i as int].0, e[i as int].1, skv, mv));
        }
        match take_key(&mut w, &obj.entries[i].0, &obj.entries[i].1, struct_keys, &mut mode_left) {
            Step::Fails => {
                proof { lemma_walk_stops(e, skv, mv, i as int + 1); }
                return Conversion::Fails;
            },
            Step::LoadError => {
                proof { lemma_walk_stops(e, skv, mv, i as int + 1); }
                return Conversion::LoadError;
            },
            Step::Done => {},
        }
        proof {
            if mode_left is None && mv is Some {
                if e[i as int].0 != "mode"@ {
                    let j = choose|j: int| 0 <= j < i && (#[trigger] e[j]).0 == "mode"@;
                    assert(0 <= j < i + 1 && e[j].0 == "mode"@);
                } else {
                    assert(e[i as int].0 == "mode"@);
                }
            }
        }
        i = i + 1;
    }
    assert(e.take(obj.entries.len() as int) =~= e);
    let ghost s = w.state();
    let ConvWork { cfg, year_exist, text_list, text_list_x, temp_list_struct } = w;
    let mut cfg = cfg;
    let mut tl = text_list;
    let mut rest = temp_list_struct;
    let ghost a = tl@;
    let ghost b = rest@;
    tl.append(&mut rest);
    assert(maps_view(tl@) =~= maps_view(a) + maps_view(b));
    if !year_exist {
        push_map(&mut tl, make_map(String::from_str("year"), Json::Str(String::from_str("year"))));
    } else {
        assert(maps_view(tl@) =~= maps_view(a) + maps_view(b) + Seq::<Map<Seq<char>, JsonV>>::empty());
    }
    cfg.analyze_config.text_attributes = tl;
    let ghost c1 = cfg@;
    assert(c1 == ConfigV { text_attributes: c1.text_attributes, ..s.cfg });
    assert(c1.text_attributes == s.text_list + s.temp_list_struct + (if s.year_exist {
        Seq::<Map<Seq<char>, JsonV>>::empty()
    } else {
        seq![single("year"@, JsonV::Str("year"@))]
    }));
    set_title_and_id(&mut cfg, &text_list_x);
    assert(cfg@ == finished(s));
    assert(conv_walk(e, skv, mv) == ConvOutcome::Done(s));
    Conversion::Done(cfg)
}

/// Converts the Sparv configuration `data` into a corpus configuration
/// (`converted`). The structural keys and the translations of the mode's
/// name are what the settings files hold, where they could be loaded; the
/// conversion reads them only when it meets `struct_attributes` and `mode`.
/// An `Err` comes exactly where it needs one that could not be loaded.
pub fn convert_config(data: &Json, struct_keys: Option<&JsonMap>, mode: Option<StrMap>) -> (r: Result<CorpusConfig, ConvertConfigError>)
    requires
        json_wf(data@),
        !(converted(data@, keys_view(struct_keys), mode_view(mode)) is Fails),
    ensures
        r is Err <==> converted(data@, keys_view(struct_keys), mode_view(mode)) is LoadError,
        r matches Ok(c) ==> converted(data@, keys_view(struct_keys), mode_view(mode)) == ConvResult::Done(c@),
{
    match run_conversion(data, struct_keys, mode) {
        Conversion::Done(c) => Ok(c),
        Conversion::LoadError => Err(ConvertConfigError),
        Conversion::Fails => Err(ConvertConfigError),
    }
}

/// Whether `data` has the shape `convert_config` needs: well-formed, and
/// not failing (`converted` is no `Fails`) with these settings.
pub fn convert_config_supported(data: &Json, struct_keys: Option<&JsonMap>, mode: Option<StrMap>) -> (b: bool)
    ensures
        b == (json_wf(data@) && !(converted(data@, keys_view(struct_keys), mode_view(mode)) is Fails)),
{
    if !crate::json::is_wf(data) {
        return false;
    }
    match run_conversion(data, struct_keys, mode) {
        Conversion::Fails => false,
        _ => true,
    }
}


// ---------------------------------------------------------------- the finished configuration

/// A converted configuration made ready to write: a title and a document id
/// where it has none, and the time of the update.
pub open spec fn completed(c: ConfigV, updated_at: int) -> ConfigV {
    ConfigV {
        title: if c.title.len() == 0 { "n/a"@ } else { c.title },
        document_id: if c.document_id.len() == 0 { "generated"@ } else { c.document_id },
        updated_at: updated_at,
        ..c
    }
}

/// `completed`, with `updated_at` as the time of the update.
pub fn complete_config(c: CorpusConfig, updated_at: i64) -> (r: CorpusConfig)
    ensures
        r@ == completed(c@, updated_at as int),
{
    let mut c = c;
    if c.title.as_str().is_empty() {
        c.title = String::from_str("n/a");
    }
    if c.document_id.as_str().is_empty() {
        c.document_id = String::from_str("generated");
    }
    c.updated_at = updated_at;
    c
}

/// `time::UtcDateTime::now().unix_timestamp()`: the current time in seconds
/// since the Unix epoch. Nothing is claimed of it; like the `time` crate,
/// it panics only where the system clock lies outside the years it can
/// represent.
#[verifier::external_body]
fn now_unix_timestamp() -> (t: i64) {
    time::UtcDateTime::now().unix_timestamp()
}

/// `completed`, stamped with the current time.
pub fn complete_config_now(c: CorpusConfig) -> (r: CorpusConfig)
    ensures
        r@ == completed(c@, r@.updated_at),
{
    complete_config(c, now_unix_timestamp())
}

// ---------------------------------------------------------------- settings files

/// The Sparv configuration of `corpus_name`: `sparv2strix/<name>.yaml` in the
/// settings directory.
pub fn sparv_config_path(config: &StrixConfig, corpus_name: &str) -> (r: String)
    ensures
        r@ == path_join(config.core.settings_dir@, "sparv2strix/"@ + corpus_name@ + ".yaml"@),
{
    let mut p = String::from_str("sparv2strix/");
    p.append(corpus_name);
    p.append(".yaml");
    join_path(config.settings_dir().as_str(), p.as_str())
}

/// The structural keys: `attributes/struct_elems.yaml` in the settings
/// directory.
pub fn struct_elems_path(config: &StrixConfig) -> (r: String)
    ensures
        r@ == path_join(config.core.settings_dir@, "attributes/struct_elems.yaml"@),
{
    join_path(config.settings_dir().as_str(), "attributes/struct_elems.yaml")
}

/// Where the configuration of `corpus_id` is written:
/// `corpora/<corpus_id>.yaml` in the settings directory.
pub fn corpus_config_path(config: &StrixConfig, corpus_id: &str) -> (r: String)
    ensures
        r@ == path_join(config.core.settings_dir@, "corpora/"@ + corpus_id@ + ".yaml"@),
{
    let mut p = String::from_str("corpora/");
    p.append(corpus_id);
    p.append(".yaml");
    join_path(config.settings_dir().as_str(), p.as_str())
}

// ---------------------------------------------------------------- getters

impl CorpusConfig {
    /// The directory of the corpus: none is configured.
    pub fn corpus_dir(&self) -> (r: Option<&str>)
        ensures
            r is None,
    {
        None
    }

    /// The id of the corpus.
    pub fn corpus_id(&self) -> (r: &String)
        ensures
            r@ == self@.corpus_id,
    {
        &self.corpus_id
    }

    /// The element the texts are split at.
    pub fn split(&self) -> (r: &String)
        ensures
            r@ == self@.split,
    {
        &self.split
    }

    /// The elements whose attributes describe a text.
    pub fn text_tags(&self) -> (r: &Vec<String>)
        ensures
            views(r@) == self@.text_tags,
    {
        &self.text_tags
    }
}


// ---------------------------------------------------------------- laws

/// A text in several languages has Swedish exactly where it has English:
/// each stands in for the other where only one is given.
pub proof fn law_lang_value_both(v: JsonV)
    ensures
        lang_value_of(v).contains_key("swe"@) <==> lang_value_of(v).contains_key("eng"@),
{
    reveal_strlit("swe");
    reveal_strlit("eng");
    assert("swe"@ != "eng"@) by {
        assert("swe"@[0] != "eng"@[0]);
    }
}

/// The shape of the word attributes: `lemgram` first, then maps of one
/// entry each, none of an attribute the configuration leaves out.
pub open spec fn word_list_shaped(w: Seq<Map<Seq<char>, JsonV>>) -> bool {
    &&& w.len() >= 1
    &&& w[0] == single("lemgram"@, JsonV::Str("lemgram"@))
    &&& forall|i: int, k: Seq<char>| 1 <= i < w.len() && #[trigger] w[i].contains_key(k) ==> !excluded_word_key(k)
}

proof fn lemma_word_entries_shaped(e: Seq<(Seq<char>, JsonV)>, a: Seq<Map<Seq<char>, JsonV>>)
    requires
        word_list_shaped(a),
        word_entries(e, a) is Some,
    ensures
        word_list_shaped(word_entries(e, a)->Some_0),
    decreases e.len(),
{
    if e.len() > 0 {
        lemma_word_entries_shaped(e.drop_last(), a);
        let a2 = word_entries(e.drop_last(), a)->Some_0;
        let k1 = e.last().0;
        let r = word_entries(e, a)->Some_0;
        if !excluded_word_key(k1) {
            assert forall|i: int, k: Seq<char>| 1 <= i < r.len() && #[trigger] r[i].contains_key(k) implies !excluded_word_key(k) by {
                if i < a2.len() {
                    assert(r[i] == a2[i]);
                } else {
                    assert(k == k1);
                }
            }
        }
    }
}

proof fn lemma_word_items_shaped(xs: Seq<JsonV>, a: Seq<Map<Seq<char>, JsonV>>)
    requires
        word_list_shaped(a),
        word_items(xs, a) is Some,
    ensures
        word_list_shaped(word_items(xs, a)->Some_0),
    decreases xs.len(),
{
    if xs.len() > 0 {
        lemma_word_items_shaped(xs.drop_last(), a);
        let a2 = word_items(xs.drop_last(), a)->Some_0;
        if let JsonV::Object(e) = xs.last() {
            lemma_word_entries_shaped(e, a2);
        }
    }
}

/// The word attributes begin with `lemgram`, and none of them is one the
/// configuration leaves out (`ufeats`, `lex`, `_tail`, `_head`).
pub proof fn law_word_attributes(value: JsonV)
    requires
        word_attributes_of(value) is Some,
    ensures
        word_list_shaped(word_attributes_of(value)->Some_0),
{
    if let JsonV::Array(xs) = value {
        let start = seq![single("lemgram"@, JsonV::Str("lemgram"@))];
        lemma_word_items_shaped(xs, start);
    }
}

/// A configuration in progress has a `year` text attribute wherever it has
/// seen `text:year`.
pub open spec fn year_kept(s: ConvState) -> bool {
    s.year_exist ==> exists|i: int| 0 <= i < s.text_list.len() && (#[trigger] s.text_list[i]).contains_key("year"@)
}

proof fn lemma_text_year_key()
    ensures
        split_on("text:year"@, ':').len() >= 2,
        split_on("text:year"@, ':')[1] == "year"@,
{
    reveal_strlit("text:year");
    reveal_strlit("year");
    reveal_strlit("text");
    let s = "text:year"@;
    assert(s.len() == 9);
    assert(s.take(4) =~= "text"@);
    assert(s[4] == ':');
    lemma_split_prefix(s, ':', 4);
    assert(split_on(s.take(5), ':') =~= seq!["text"@, Seq::<char>::empty()]) by {
        assert(s.take(5).drop_last() =~= s.take(4));
    }
    lemma_split_plain_suffix(s, ':', 5);
    assert(s.subrange(5, 9) =~= "year"@);
    assert(s.take(9) =~= s);
}

/// The pieces of a prefix without the separator: one piece.
proof fn lemma_split_prefix(s: Seq<char>, c: char, n: int)
    requires
        0 <= n <= s.len(),
        forall|i: int| 0 <= i < n ==> s[i] != c,
    ensures
        split_on(s.take(n), c) =~= seq![s.take(n)],
    decreases n,
{
    if n > 0 {
        lemma_split_prefix(s, c, n - 1);
        assert(s.take(n).drop_last() =~= s.take(n - 1));
        assert(s.take(n).last() == s[n - 1]);
        assert(s.take(n - 1).push(s[n - 1]) =~= s.take(n));
    } else {
        assert(s.take(0) =~= Seq::<char>::empty());
    }
}

/// Characters without the separator extend the last piece.
proof fn lemma_split_plain_suffix(s: Seq<char>, c: char, m: int)
    requires
        0 <= m <= s.len(),
        forall|i: int| m <= i < s.len() ==> s[i] != c,
        split_on(s.take(m), c).len() >= 1,
    ensures
        split_on(s, c).len() == split_on(s.take(m), c).len(),
        split_on(s, c).drop_last() == split_on(s.take(m), c).drop_last(),
        split_on(s, c).last() == split_on(s.take(m), c).last() + s.subrange(m, s.len() as int),
    decreases s.len() - m,
{
    lemma_split_suffix_from(s, c, m, s.len() as int);
    assert(s.take(s.len() as int) =~= s);
}

proof fn lemma_split_suffix_from(s: Seq<char>, c: char, m: int, n: int)
    requires
        0 <= m <= n <= s.len(),
        forall|i: int| m <= i < n ==> s[i] != c,
        split_on(s.take(m), c).len() >= 1,
    ensures
        split_on(s.take(n), c).len() == split_on(s.take(m), c).len(),
        split_on(s.take(n), c).drop_last() == split_on(s.take(m), c).drop_last(),
        split_on(s.take(n), c).last() == split_on(s.take(m), c).last() + s.subrange(m, n),
    decreases n - m,
{
    if n > m {
        lemma_split_suffix_from(s, c, m, n - 1);
        assert(s.take(n).drop_last() =~= s.take(n - 1));
        assert(s.take(n).last() == s[n - 1]);
        let p = split_on(s.take(n - 1), c);
        let q = split_on(s.take(n), c);
        assert(q == p.update(p.len() - 1, p.last().push(s[n - 1])));
        assert(q.drop_last() =~= p.drop_last());
        assert(s.subrange(m, n) =~= s.subrange(m, n - 1).push(s[n - 1]));
        assert(q.last() =~= split_on(s.take(m), c).last() + s.subrange(m, n));
    } else {
        assert(s.subrange(m, m) =~= Seq::<char>::empty());
        assert(split_on(s.take(m), c).last() + Seq::<char>::empty() =~= split_on(s.take(m), c).last());
    }
}

proof fn lemma_text_entries_year(s: ConvState, e: Seq<(Seq<char>, JsonV)>)
    requires
        year_kept(s),
        text_attr_entries(s, e) is Some,
    ensures
        year_kept(text_attr_entries(s, e)->Some_0),
        text_attr_entries(s, e)->Some_0.text_list.len() >= s.text_list.len(),
    decreases e.len(),
{
    if e.len() > 0 {
        lemma_text_entries_year(s, e.drop_last());
        let s2 = text_attr_entries(s, e.drop_last())->Some_0;
        let r = text_attr_entries(s, e)->Some_0;
        let p = text_attr_entry(e.last().0, e.last().1)->Some_0;
        if r.year_exist {
            if e.last().0 == "text:year"@ {
                lemma_text_year_key();
                assert(p.0 == "year"@);
                assert(r.text_list[r.text_list.len() - 1] == p.1);
                assert(p.1.contains_key("year"@));
            } else {
                let i = choose|i: int| 0 <= i < s2.text_list.len() && (#[trigger] s2.text_list[i]).contains_key("year"@);
                assert(r.text_list[i] == s2.text_list[i]);
            }
        }
    }
}

proof fn lemma_text_items_year(s: ConvState, xs: Seq<JsonV>)
    requires
        year_kept(s),
        text_attr_items(s, xs) is Some,
    ensures
        year_kept(text_attr_items(s, xs)->Some_0),
    decreases xs.len(),
{
    if xs.len() > 0 {
        lemma_text_items_year(s, xs.drop_last());
        let s2 = text_attr_items(s, xs.drop_last())->Some_0;
        if let JsonV::Object(e) = xs.last() {
            lemma_text_entries_year(s2, e);
        }
    }
}

proof fn lemma_walk_year(e: Seq<(Seq<char>, JsonV)>, sk: Option<Seq<(Seq<char>, JsonV)>>, mode: Option<Map<Seq<char>, Seq<char>>>)
    requires
        conv_walk(e, sk, mode) is Done,
    ensures
        year_kept(conv_walk(e, sk, mode)->Done_0),
    decreases e.len(),
{
    if e.len() > 0 {
        lemma_walk_year(e.drop_last(), sk, mode);
        let s = conv_walk(e.drop_last(), sk, mode)->Done_0;
        let key = e.last().0;
        let value = e.last().1;
        if key == "text_attributes"@ {
            if let JsonV::Array(xs) = value {
                lemma_text_items_year(s, xs);
            }
        } else {
            let r = conv_walk(e, sk, mode)->Done_0;
            assert(conv_step(s, key, value, sk, mode) == ConvOutcome::Done(r));
            if key == "struct_attributes"@ {
                let st = struct_attributes_step(s, value, sk->Some_0)->Some_0;
                assert(r == st);
            }
            assert(r.year_exist == s.year_exist && r.text_list == s.text_list);
            if r.year_exist {
                let i = choose|i: int| 0 <= i < s.text_list.len() && (#[trigger] s.text_list[i]).contains_key("year"@);
                assert(r.text_list[i] == s.text_list[i]);
            }
        }
    }
}

proof fn lemma_title_keeps_attributes(xs: Seq<Seq<char>>, cfg: ConfigV)
    ensures
        title_and_id(xs, cfg).text_attributes == cfg.text_attributes,
    decreases xs.len(),
{
    if xs.len() > 0 {
        lemma_title_keeps_attributes(xs.drop_last(), cfg);
    }
}

/// Every converted configuration has a `year` text attribute: the one the
/// Sparv configuration gives as `text:year`, or one added at the end.
pub proof fn law_year_attribute(data: JsonV, sk: Option<Seq<(Seq<char>, JsonV)>>, mode: Option<Map<Seq<char>, Seq<char>>>)
    requires
        converted(data, sk, mode) is Done,
    ensures
        exists|i: int| 0 <= i < (converted(data, sk, mode)->Done_0).text_attributes.len()
            && (#[trigger] (converted(data, sk, mode)->Done_0).text_attributes[i]).contains_key("year"@),
{
    if let JsonV::Object(e) = data {
        lemma_walk_year(e, sk, mode);
        let s = conv_walk(e, sk, mode)->Done_0;
        let year = if s.year_exist {
            Seq::<Map<Seq<char>, JsonV>>::empty()
        } else {
            seq![single("year"@, JsonV::Str("year"@))]
        };
        let ta = s.text_list + s.temp_list_struct + year;
        lemma_title_keeps_attributes(s.text_list_x, ConfigV { text_attributes: ta, ..s.cfg });
        let c = converted(data, sk, mode)->Done_0;
        assert(c.text_attributes == ta);
        if s.year_exist {
            let i = choose|i: int| 0 <= i < s.text_list.len() && (#[trigger] s.text_list[i]).contains_key("year"@);
            assert(ta[i] == s.text_list[i]);
        } else {
            assert(ta[ta.len() - 1] == single("year"@, JsonV::Str("year"@)));
        }
    }
}

/// A completed configuration always has a title and a document id, and
/// keeps those it had.
pub proof fn law_completed_named(c: ConfigV, updated_at: int)
    ensures
        completed(c, updated_at).title.len() > 0,
        completed(c, updated_at).document_id.len() > 0,
        c.title.len() > 0 ==> completed(c, updated_at).title == c.title,
        c.document_id.len() > 0 ==> completed(c, updated_at).document_id == c.document_id,
{
    reveal_strlit("n/a");
    reveal_strlit("generated");
}


/// Text elements listed once each, none of them a structural key.
pub open spec fn elements_distinct(sk: Seq<(Seq<char>, JsonV)>, xs: Seq<Seq<char>>) -> bool {
    &&& xs.no_duplicates()
    &&& forall|i: int| 0 <= i < xs.len() ==> obj_get(sk, #[trigger] xs[i]) is None
}

proof fn lemma_step_elements(sk: Seq<(Seq<char>, JsonV)>, st: (Seq<Seq<char>>, Seq<(Seq<char>, JsonV)>), key: Seq<char>, value: JsonV)
    requires
        elements_distinct(sk, st.0),
        restructure_step(sk, st, key, value) is Some,
    ensures
        elements_distinct(sk, (restructure_step(sk, st, key, value)->Some_0).0),
{
    let r = (restructure_step(sk, st, key, value)->Some_0).0;
    if key.contains(':') {
        let p0 = before_first(key, ':');
        if obj_get(sk, p0) is None && !st.0.contains(p0) {
            assert(r == st.0.push(p0));
            assert forall|i: int, j: int| 0 <= i < r.len() && 0 <= j < r.len() && i != j implies r[i] != r[j] by {
                if i < st.0.len() && j < st.0.len() {
                    assert(r[i] == st.0[i] && r[j] == st.0[j]);
                } else if i < st.0.len() {
                    assert(r[i] == st.0[i]);
                } else if j < st.0.len() {
                    assert(r[j] == st.0[j]);
                }
            }
            assert forall|i: int| 0 <= i < r.len() implies obj_get(sk, #[trigger] r[i]) is None by {
                if i < st.0.len() {
                    assert(r[i] == st.0[i]);
                }
            }
        }
    }
}

proof fn lemma_entries_elements(sk: Seq<(Seq<char>, JsonV)>, st: (Seq<Seq<char>>, Seq<(Seq<char>, JsonV)>), e: Seq<(Seq<char>, JsonV)>)
    requires
        elements_distinct(sk, st.0),
        restructure_entries(sk, st, e) is Some,
    ensures
        elements_distinct(sk, (restructure_entries(sk, st, e)->Some_0).0),
    decreases e.len(),
{
    if e.len() > 0 {
        lemma_entries_elements(sk, st, e.drop_last());
        let s2 = restructure_entries(sk, st, e.drop_last())->Some_0;
        lemma_step_elements(sk, s2, e.last().0, e.last().1);
    }
}

proof fn lemma_items_elements(sk: Seq<(Seq<char>, JsonV)>, items: Seq<JsonV>)
    requires
        restructure_items(sk, items) is Some,
    ensures
        elements_distinct(sk, (restructure_items(sk, items)->Some_0).0),
    decreases items.len(),
{
    if items.len() > 0 {
        lemma_items_elements(sk, items.drop_last());
        let s2 = restructure_items(sk, items.drop_last())->Some_0;
        if let JsonV::Object(e) = items.last() {
            lemma_entries_elements(sk, s2, e);
        }
    }
}

/// The text elements the structural attributes name are listed once each,
/// and none of them is a structural key.
pub proof fn law_text_elements(data: JsonV, sk: Seq<(Seq<char>, JsonV)>)
    requires
        restructured(data, sk) is Some,
    ensures
        elements_distinct(sk, (restructured(data, sk)->Some_0).0),
{
    if let JsonV::Array(items) = data {
        lemma_items_elements(sk, items);
    }
}

} // verus!
