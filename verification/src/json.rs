//! A JSON value model: the values the pipeline reads from its configuration
//! and writes into its parts. Objects keep their keys in ascending order, as
//! `serde_json`'s default map does, so walking an object visits keys sorted.

use vstd::prelude::*;
use crate::text::{seq_lt, str_eq, str_lt, lemma_lt_irreflexive, lemma_lt_total, lemma_lt_transitive};

verus! {

/// A JSON value.
#[derive(Debug, PartialEq)]
pub enum Json {
    Null,
    Bool(bool),
    /// A number that is an integer in range of `i64`.
    Int(i64),
    /// Any other number, by its decimal text.
    Number(String),
    Str(String),
    Array(Vec<Json>),
    Object(JsonMap),
}

/// A JSON object: its entries, which well-formed objects keep in strictly
/// ascending key order (`JsonMap::wf`).
#[derive(Debug, PartialEq)]
pub struct JsonMap {
    pub entries: Vec<(String, Json)>,
}

/// The mathematical value of a JSON value.
pub enum JsonV {
    Null,
    Bool(bool),
    Int(int),
    Number(Seq<char>),
    Str(Seq<char>),
    Array(Seq<JsonV>),
    Object(Seq<(Seq<char>, JsonV)>),
}

pub open spec fn json_view(j: Json) -> JsonV
    decreases j,
{
    match j {
        Json::Null => JsonV::Null,
        Json::Bool(b) => JsonV::Bool(b),
        Json::Int(i) => JsonV::Int(i as int),
        Json::Number(s) => JsonV::Number(s@),
        Json::Str(s) => JsonV::Str(s@),
        Json::Array(v) => JsonV::Array(array_view(v@)),
        Json::Object(m) => JsonV::Object(entries_view(m.entries@)),
    }
}

pub open spec fn array_view(s: Seq<Json>) -> Seq<JsonV>
    decreases s,
{
    if s.len() == 0 {
        Seq::<JsonV>::empty()
    } else {
        array_view(s.drop_last()).push(json_view(s.last()))
    }
}

pub open spec fn entries_view(s: Seq<(String, Json)>) -> Seq<(Seq<char>, JsonV)>
    decreases s,
{
    if s.len() == 0 {
        Seq::<(Seq<char>, JsonV)>::empty()
    } else {
        entries_view(s.drop_last()).push((s.last().0@, json_view(s.last().1)))
    }
}


/// Keys strictly ascending, hence distinct.
pub open spec fn keys_sorted(e: Seq<(Seq<char>, JsonV)>) -> bool {
    forall|i: int, j: int| 0 <= i < j < e.len() ==> seq_lt(#[trigger] e[i].0, #[trigger] e[j].0)
}

/// Every object inside the value keeps its keys sorted.
pub open spec fn json_wf(v: JsonV) -> bool
    decreases v,
{
    match v {
        JsonV::Array(s) => forall|i: int| 0 <= i < s.len() ==> json_wf(#[trigger] s[i]),
        JsonV::Object(e) => keys_sorted(e) && forall|i: int| 0 <= i < e.len() ==> json_wf(#[trigger] e[i].1),
        _ => true,
    }
}

pub proof fn lemma_wf_element(s: Seq<JsonV>, i: int)
    requires
        json_wf(JsonV::Array(s)),
        0 <= i < s.len(),
    ensures
        json_wf(s[i]),
{
    let v = JsonV::Array(s);
    assert(v->Array_0 == s);
    assert(decreases_to!(v => v->Array_0));
    assert(decreases_to!(v->Array_0 => s[i]));
}

pub proof fn lemma_wf_entry(e: Seq<(Seq<char>, JsonV)>, i: int)
    requires
        json_wf(JsonV::Object(e)),
        0 <= i < e.len(),
    ensures
        json_wf(e[i].1),
        crate::json::keys_sorted(e),
{
}

impl View for Json {
    type V = JsonV;

    open spec fn view(&self) -> JsonV {
        json_view(*self)
    }
}

impl View for JsonMap {
    type V = Seq<(Seq<char>, JsonV)>;

    open spec fn view(&self) -> Seq<(Seq<char>, JsonV)> {
        entries_view(self.entries@)
    }
}

impl JsonMap {
    /// Sorted keys, and every value well-formed.
    pub open spec fn wf(&self) -> bool {
        json_wf(JsonV::Object(self@))
    }
}


// ---------------------------------------------------------------- views

pub proof fn lemma_entries_view(s: Seq<(String, Json)>)
    ensures
        entries_view(s).len() == s.len(),
        forall|i: int| 0 <= i < s.len() ==> #[trigger] entries_view(s)[i] == (s[i].0@, json_view(s[i].1)),
    decreases s.len(),
{
    if s.len() > 0 {
        lemma_entries_view(s.drop_last());
    }
}

pub proof fn lemma_array_view(s: Seq<Json>)
    ensures
        array_view(s).len() == s.len(),
        forall|i: int| 0 <= i < s.len() ==> #[trigger] array_view(s)[i] == json_view(s[i]),
    decreases s.len(),
{
    if s.len() > 0 {
        lemma_array_view(s.drop_last());
    }
}

// ---------------------------------------------------------------- objects as sequences

/// The value under `k`.
pub open spec fn obj_get(e: Seq<(Seq<char>, JsonV)>, k: Seq<char>) -> Option<JsonV>
    decreases e.len(),
{
    if e.len() == 0 {
        None
    } else if e.last().0 == k {
        Some(e.last().1)
    } else {
        obj_get(e.drop_last(), k)
    }
}

/// `e` with `k` bound to `v`: the entry for `k` replaced in place, or a new
/// entry added at its place in key order.
pub open spec fn obj_insert(e: Seq<(Seq<char>, JsonV)>, k: Seq<char>, v: JsonV) -> Seq<(Seq<char>, JsonV)>
    decreases e.len(),
{
    if e.len() == 0 {
        seq![(k, v)]
    } else if e.last().0 == k {
        e.drop_last().push((k, v))
    } else if seq_lt(e.last().0, k) {
        e.push((k, v))
    } else {
        obj_insert(e.drop_last(), k, v).push(e.last())
    }
}

pub proof fn lemma_get_some(e: Seq<(Seq<char>, JsonV)>, k: Seq<char>)
    ensures
        obj_get(e, k) is Some <==> exists|i: int| 0 <= i < e.len() && (#[trigger] e[i]).0 == k,
        obj_get(e, k) matches Some(v) ==> exists|i: int| 0 <= i < e.len() && (#[trigger] e[i]) == (k, v),
    decreases e.len(),
{
    if e.len() > 0 {
        lemma_get_some(e.drop_last(), k);
        if obj_get(e.drop_last(), k) is Some {
            let i = choose|i: int| 0 <= i < e.drop_last().len() && (#[trigger] e.drop_last()[i]).0 == k;
            assert(e[i] == e.drop_last()[i]);
        }
        if let Some(v) = obj_get(e.drop_last(), k) {
            let i = choose|i: int| 0 <= i < e.drop_last().len() && (#[trigger] e.drop_last()[i]) == (k, v);
            assert(e[i] == e.drop_last()[i]);
        }
        if exists|i: int| 0 <= i < e.len() && (#[trigger] e[i]).0 == k {
            let i = choose|i: int| 0 <= i < e.len() && (#[trigger] e[i]).0 == k;
            if i < e.len() - 1 {
                assert(e.drop_last()[i] == e[i]);
            }
        }
    }
}

/// In a sorted object the entry at `i` is what `obj_get` finds for its key.
pub proof fn lemma_get_at(e: Seq<(Seq<char>, JsonV)>, i: int)
    requires
        keys_sorted(e),
        0 <= i < e.len(),
    ensures
        obj_get(e, e[i].0) == Some(e[i].1),
    decreases e.len(),
{
    if i < e.len() - 1 {
        lemma_lt_irreflexive(e[i].0);
        assert(seq_lt(e[i].0, e.last().0));
        assert(e.drop_last()[i] == e[i]);
        assert(keys_sorted(e.drop_last())) by {
            assert forall|a: int, b: int| 0 <= a < b < e.drop_last().len() implies seq_lt(#[trigger] e.drop_last()[a].0, #[trigger] e.drop_last()[b].0) by {
                assert(e.drop_last()[a] == e[a]);
                assert(e.drop_last()[b] == e[b]);
            }
        }
        lemma_get_at(e.drop_last(), i);
    }
}

pub proof fn lemma_insert_keys(e: Seq<(Seq<char>, JsonV)>, k: Seq<char>, v: JsonV)
    ensures
        forall|i: int| 0 <= i < obj_insert(e, k, v).len() ==> (#[trigger] obj_insert(e, k, v)[i] == (k, v)
            || exists|j: int| 0 <= j < e.len() && e[j] == obj_insert(e, k, v)[i]),
        obj_get(obj_insert(e, k, v), k) == Some(v),
        forall|k2: Seq<char>| k2 != k ==> obj_get(obj_insert(e, k, v), k2) == #[trigger] obj_get(e, k2),
    decreases e.len(),
{
    let r = obj_insert(e, k, v);
    if e.len() == 0 {
        assert(r.drop_last() =~= e);
    } else {
        let d = e.drop_last();
        lemma_insert_keys(d, k, v);
        if e.last().0 == k {
            assert forall|i: int| 0 <= i < r.len() implies (#[trigger] r[i] == (k, v) || exists|j: int| 0 <= j < e.len() && e[j] == r[i]) by {
                if i < r.len() - 1 {
                    assert(e[i] == r[i]);
                }
            }
            assert forall|k2: Seq<char>| k2 != k implies obj_get(r, k2) == #[trigger] obj_get(e, k2) by {
                assert(r.drop_last() =~= d);
            }
        } else if seq_lt(e.last().0, k) {
            assert forall|i: int| 0 <= i < r.len() implies (#[trigger] r[i] == (k, v) || exists|j: int| 0 <= j < e.len() && e[j] == r[i]) by {
                if i < r.len() - 1 {
                    assert(e[i] == r[i]);
                }
            }
            assert(r.drop_last() =~= e);
            assert forall|k2: Seq<char>| k2 != k implies obj_get(r, k2) == #[trigger] obj_get(e, k2) by {
                assert(r.drop_last() =~= e);
            }
        } else {
            let r2 = obj_insert(d, k, v);
            assert(r.drop_last() =~= r2);
            assert forall|k2: Seq<char>| k2 != k implies obj_get(r, k2) == #[trigger] obj_get(e, k2) by {
                assert(r.drop_last() =~= r2);
                assert(obj_get(r2, k2) == obj_get(d, k2));
            }
            assert forall|i: int| 0 <= i < r.len() implies (#[trigger] r[i] == (k, v) || exists|j: int| 0 <= j < e.len() && e[j] == r[i]) by {
                if i < r.len() - 1 {
                    assert(r[i] == r2[i]);
                    if r2[i] != (k, v) {
                        let j = choose|j: int| 0 <= j < d.len() && d[j] == r2[i];
                        assert(e[j] == d[j]);
                    }
                } else {
                    assert(e[e.len() - 1] == r[i]);
                }
            }
        }
    }
}

pub proof fn lemma_insert_sorted(e: Seq<(Seq<char>, JsonV)>, k: Seq<char>, v: JsonV)
    requires
        keys_sorted(e),
    ensures
        keys_sorted(obj_insert(e, k, v)),
    decreases e.len(),
{
    let r = obj_insert(e, k, v);
    if e.len() > 0 {
        let d = e.drop_last();
        assert(keys_sorted(d)) by {
            assert forall|a: int, b: int| 0 <= a < b < d.len() implies seq_lt(#[trigger] d[a].0, #[trigger] d[b].0) by {
                assert(d[a] == e[a]);
                assert(d[b] == e[b]);
            }
        }
        if e.last().0 == k {
            assert forall|a: int, b: int| 0 <= a < b < r.len() implies seq_lt(#[trigger] r[a].0, #[trigger] r[b].0) by {
                assert(e[a].0 == r[a].0);
                assert(e[b].0 == r[b].0);
            }
        } else if seq_lt(e.last().0, k) {
            assert forall|a: int, b: int| 0 <= a < b < r.len() implies seq_lt(#[trigger] r[a].0, #[trigger] r[b].0) by {
                if b == r.len() - 1 {
                    if a < e.len() - 1 {
                        lemma_lt_transitive(e[a].0, e.last().0, k);
                    }
                } else {
                    assert(r[a] == e[a]);
                    assert(r[b] == e[b]);
                }
            }
        } else {
            lemma_lt_total(e.last().0, k);
            lemma_insert_sorted(d, k, v);
            lemma_insert_keys(d, k, v);
            let r2 = obj_insert(d, k, v);
            assert forall|a: int, b: int| 0 <= a < b < r.len() implies seq_lt(#[trigger] r[a].0, #[trigger] r[b].0) by {
                if b == r.len() - 1 {
                    assert(r[a] == r2[a]);
                    assert(r[b] == e.last());
                    if r2[a] != (k, v) {
                        let j = choose|j: int| 0 <= j < d.len() && d[j] == r2[a];
                        assert(d[j] == e[j]);
                    }
                } else {
                    assert(r[a] == r2[a]);
                    assert(r[b] == r2[b]);
                }
            }
        }
    }
}

/// Binding a key keeps an object well-formed, its keys sorted.
pub proof fn lemma_insert_wf(e: Seq<(Seq<char>, JsonV)>, k: Seq<char>, v: JsonV)
    requires
        json_wf(JsonV::Object(e)),
        json_wf(v),
    ensures
        json_wf(JsonV::Object(obj_insert(e, k, v))),
{
    lemma_insert_sorted(e, k, v);
    lemma_insert_keys(e, k, v);
    let r = obj_insert(e, k, v);
    assert forall|i: int| 0 <= i < r.len() implies json_wf(#[trigger] r[i].1) by {
        if r[i] != (k, v) {
            let j = choose|j: int| 0 <= j < e.len() && e[j] == r[i];
            assert(json_wf(e[j].1));
        }
    }
}

// ---------------------------------------------------------------- operations

impl JsonMap {
    /// An empty object.
    pub fn new() -> (m: JsonMap)
        ensures
            m@ == Seq::<(Seq<char>, JsonV)>::empty(),
            m.wf(),
    {
        JsonMap { entries: Vec::new() }
    }

    /// Number of entries.
    pub fn len(&self) -> (n: usize)
        ensures
            n == self@.len(),
    {
        proof { lemma_entries_view(self.entries@); }
        self.entries.len()
    }

    /// The value under `k` (`Map::get`).
    pub fn get(&self, k: &str) -> (r: Option<&Json>)
        ensures
            match r {
                Some(j) => obj_get(self@, k@) == Some(j@),
                None => obj_get(self@, k@) is None,
            },
    {
        let mut i = self.entries.len();
        proof { lemma_entries_view(self.entries@); }
        assert(self.entries@.take(i as int) =~= self.entries@);
        while i > 0
            invariant
                i <= self.entries.len(),
                obj_get(self@, k@) == obj_get(entries_view(self.entries@.take(i as int)), k@),
            decreases i,
        {
            proof {
                lemma_entries_view(self.entries@.take(i as int));
                lemma_entries_view(self.entries@.take(i - 1));
                assert(entries_view(self.entries@.take(i as int)).drop_last() =~= entries_view(self.entries@.take(i - 1)));
            }
            if str_eq(self.entries[i - 1].0.as_str(), k) {
                return Some(&self.entries[i - 1].1);
            }
            i = i - 1;
        }
        None
    }

    /// Whether `k` has an entry.
    pub fn contains_key(&self, k: &str) -> (b: bool)
        ensures
            b == obj_get(self@, k@) is Some,
    {
        self.get(k).is_some()
    }

    /// Binds `k` to `v` (`Map::insert`).
    pub fn insert(&mut self, k: String, v: Json)
        requires
            old(self).wf(),
            json_wf(v@),
        ensures
            final(self)@ == obj_insert(old(self)@, k@, v@),
            final(self).wf(),
    {
        let ghost e = self@;
        proof {
            lemma_entries_view(self.entries@);
            lemma_insert_wf(e, k@, v@);
        }
        let mut j = self.entries.len();
        assert(e.take(j as int) =~= e);
        assert(e.skip(j as int) =~= Seq::<(Seq<char>, JsonV)>::empty());
        while j > 0 && str_lt(k.as_str(), self.entries[j - 1].0.as_str())
            invariant
                j <= self.entries.len(),
                self@ == e,
                entries_view(self.entries@) == e,
                e.len() == self.entries.len(),
                obj_insert(e, k@, v@) == obj_insert(e.take(j as int), k@, v@) + e.skip(j as int),
            decreases j,
        {
            proof {
                let t = e.take(j as int);
                lemma_entries_view(self.entries@);
                lemma_lt_irreflexive(k@);
                lemma_lt_total(k@, t.last().0);
                assert(t.last() == e[j - 1]);
                assert(t.drop_last() =~= e.take(j - 1));
                assert(e.skip(j - 1) =~= seq![e[j - 1]] + e.skip(j as int));
                assert(obj_insert(t, k@, v@) == obj_insert(e.take(j - 1), k@, v@).push(e[j - 1]));
                assert(obj_insert(e.take(j - 1), k@, v@).push(e[j - 1]) + e.skip(j as int)
                    =~= obj_insert(e.take(j - 1), k@, v@) + e.skip(j - 1));
            }
            j = j - 1;
        }
        if j > 0 && str_eq(self.entries[j - 1].0.as_str(), k.as_str()) {
            let ghost t = e.take(j as int);
            assert(t.last() == e[j - 1]);
            assert(t.drop_last() =~= e.take(j - 1));
            let ghost kv = k@;
            let ghost vv = v@;
            self.entries.set(j - 1, (k, v));
            proof {
                lemma_entries_view(self.entries@);
                assert(self@ =~= obj_insert(e, kv, vv));
            }
        } else {
            let ghost kv = k@;
            let ghost vv = v@;
            proof {
                if j > 0 {
                    let t = e.take(j as int);
                    assert(t.last() == e[j - 1]);
                    lemma_lt_total(k@, t.last().0);
                    assert(obj_insert(t, k@, v@) == t.push((k@, v@)));
                } else {
                    assert(e.take(0) =~= Seq::<(Seq<char>, JsonV)>::empty());
                }
            }
            self.entries.insert(j, (k, v));
            proof {
                lemma_entries_view(self.entries@);
                assert(self@ =~= obj_insert(e, kv, vv));
            }
        }
    }
}


/// Number of nodes in a value.
pub open spec fn json_size(v: JsonV) -> nat
    decreases v,
{
    match v {
        JsonV::Array(s) => 1 + arr_size(s),
        JsonV::Object(e) => 1 + ent_size(e),
        _ => 1,
    }
}

pub open spec fn arr_size(s: Seq<JsonV>) -> nat
    decreases s,
{
    if s.len() == 0 {
        0
    } else {
        arr_size(s.drop_last()) + json_size(s.last())
    }
}

pub open spec fn ent_size(e: Seq<(Seq<char>, JsonV)>) -> nat
    decreases e,
{
    if e.len() == 0 {
        0
    } else {
        ent_size(e.drop_last()) + json_size(e.last().1)
    }
}

proof fn lemma_arr_size(s: Seq<JsonV>, i: int)
    requires
        0 <= i < s.len(),
    ensures
        json_size(s[i]) <= arr_size(s),
    decreases s.len(),
{
    if i < s.len() - 1 {
        lemma_arr_size(s.drop_last(), i);
    }
}

proof fn lemma_ent_size(e: Seq<(Seq<char>, JsonV)>, i: int)
    requires
        0 <= i < e.len(),
    ensures
        json_size(e[i].1) <= ent_size(e),
    decreases e.len(),
{
    if i < e.len() - 1 {
        lemma_ent_size(e.drop_last(), i);
    }
}

/// Copies a value, keeping its view.
pub fn copy_json(j: &Json) -> (r: Json)
    ensures
        r@ == j@,
    decreases json_size(j@),
{
    match j {
        Json::Null => Json::Null,
        Json::Bool(b) => Json::Bool(*b),
        Json::Int(i) => Json::Int(*i),
        Json::Number(s) => Json::Number(s.clone()),
        Json::Str(s) => Json::Str(s.clone()),
        Json::Array(v) => {
            let mut out: Vec<Json> = Vec::new();
            let mut i: usize = 0;
            while i < v.len()
                invariant
                    *j == Json::Array(*v),
                    i <= v.len(),
                    array_view(out@) == array_view(v@.take(i as int)),
                decreases v.len() - i,
            {
                proof {
                    lemma_array_view(v@);
                    lemma_arr_size(array_view(v@), i as int);
                }
                let c = copy_json(&v[i]);
                proof {
                    assert(v@.take(i + 1).drop_last() =~= v@.take(i as int));
                }
                let ghost before = out@;
                out.push(c);
                assert(out@.drop_last() =~= before);
                i = i + 1;
            }
            assert(v@.take(v.len() as int) =~= v@);
            Json::Array(out)
        },
        Json::Object(m) => {
            let mut out: Vec<(String, Json)> = Vec::new();
            let mut i: usize = 0;
            while i < m.entries.len()
                invariant
                    *j == Json::Object(*m),
                    i <= m.entries.len(),
                    entries_view(out@) == entries_view(m.entries@.take(i as int)),
                decreases m.entries.len() - i,
            {
                proof {
                    lemma_entries_view(m.entries@);
                    lemma_ent_size(entries_view(m.entries@), i as int);
                }
                let c = copy_json(&m.entries[i].1);
                let k = m.entries[i].0.clone();
                proof {
                    assert(m.entries@.take(i + 1).drop_last() =~= m.entries@.take(i as int));
                }
                let ghost before = out@;
                out.push((k, c));
                assert(out@.drop_last() =~= before);
                i = i + 1;
            }
            assert(m.entries@.take(m.entries.len() as int) =~= m.entries@);
            Json::Object(JsonMap { entries: out })
        },
    }
}

/// Whether every object inside `j` keeps its keys in strictly ascending
/// order (`json_wf`).
pub fn is_wf(j: &Json) -> (b: bool)
    ensures
        b == json_wf(j@),
    decreases json_size(j@), 1nat,
{
    match j {
        Json::Array(v) => {
            proof { lemma_array_view(v@); }
            let mut i: usize = 0;
            while i < v.len()
                invariant
                    *j == Json::Array(*v),
                    i <= v.len(),
                    array_view(v@).len() == v@.len(),
                    forall|k: int| 0 <= k < v@.len() ==> #[trigger] array_view(v@)[k] == json_view(v@[k]),
                    forall|k: int| 0 <= k < i ==> json_wf(#[trigger] array_view(v@)[k]),
                decreases v.len() - i,
            {
                proof { lemma_arr_size(array_view(v@), i as int); }
                if !is_wf(&v[i]) {
                    assert(!json_wf(array_view(v@)[i as int]));
                    return false;
                }
                i = i + 1;
            }
            true
        },
        Json::Object(m) => m.is_wf(),
        _ => true,
    }
}

impl JsonMap {
    /// Whether the keys are strictly ascending and every value is
    /// well-formed (`wf`).
    pub fn is_wf(&self) -> (b: bool)
        ensures
            b == self.wf(),
        decreases json_size(JsonV::Object(self@)), 0nat,
    {
        let ghost e = self@;
        proof { lemma_entries_view(self.entries@); }
        let mut i: usize = 0;
        while i < self.entries.len()
            invariant
                e == self@,
                i <= self.entries.len(),
                e.len() == self.entries@.len(),
                forall|k: int| 0 <= k < self.entries@.len() ==> #[trigger] e[k] == (self.entries@[k].0@, json_view(self.entries@[k].1)),
                forall|k: int| 0 <= k < i ==> json_wf(#[trigger] e[k].1),
                forall|a: int, b: int| 0 <= a < b < i ==> seq_lt(#[trigger] e[a].0, #[trigger] e[b].0),
            decreases self.entries.len() - i,
        {
            proof { lemma_ent_size(e, i as int); }
            if !is_wf(&self.entries[i].1) {
                assert(!json_wf(e[i as int].1));
                return false;
            }
            if i > 0 && !str_lt(self.entries[i - 1].0.as_str(), self.entries[i].0.as_str()) {
                assert(!seq_lt(e[i - 1].0, e[i as int].0));
                assert(!keys_sorted(e));
                return false;
            }
            proof {
                assert forall|a: int, b: int| 0 <= a < b < i + 1 implies seq_lt(#[trigger] e[a].0, #[trigger] e[b].0) by {
                    if b == i && a < i - 1 {
                        lemma_lt_transitive(e[a].0, e[i - 1].0, e[b].0);
                    }
                }
            }
            i = i + 1;
        }
        true
    }
}

/// Copies an object, keeping its view.
pub fn copy_map(m: &JsonMap) -> (r: JsonMap)
    ensures
        r@ == m@,
{
    let mut out: Vec<(String, Json)> = Vec::new();
    let mut i: usize = 0;
    while i < m.entries.len()
        invariant
            i <= m.entries.len(),
            entries_view(out@) == entries_view(m.entries@.take(i as int)),
        decreases m.entries.len() - i,
    {
        let c = copy_json(&m.entries[i].1);
        let k = m.entries[i].0.clone();
        proof {
            assert(m.entries@.take(i + 1).drop_last() =~= m.entries@.take(i as int));
        }
        let ghost before = out@;
        out.push((k, c));
        assert(out@.drop_last() =~= before);
        i = i + 1;
    }
    assert(m.entries@.take(m.entries.len() as int) =~= m.entries@);
    JsonMap { entries: out }
}

impl Json {
    /// The string inside a string value (`Value::as_str`).
    pub fn as_str(&self) -> (r: Option<&String>)
        ensures
            match r {
                Some(s) => self@ == JsonV::Str(s@),
                None => !(self@ is Str),
            },
    {
        match self {
            Json::Str(s) => Some(s),
            _ => None,
        }
    }

    /// The boolean inside a boolean value (`Value::as_bool`).
    pub fn as_bool(&self) -> (r: Option<bool>)
        ensures
            match r {
                Some(b) => self@ == JsonV::Bool(b),
                None => !(self@ is Bool),
            },
    {
        match self {
            Json::Bool(b) => Some(*b),
            _ => None,
        }
    }

    /// The elements of an array value (`Value::as_array`).
    pub fn as_array(&self) -> (r: Option<&Vec<Json>>)
        ensures
            match r {
                Some(v) => self@ == JsonV::Array(array_view(v@)),
                None => !(self@ is Array),
            },
    {
        match self {
            Json::Array(v) => Some(v),
            _ => None,
        }
    }

    /// The object inside an object value (`Value::as_object`).
    pub fn as_object(&self) -> (r: Option<&JsonMap>)
        ensures
            match r {
                Some(m) => self@ == JsonV::Object(m@),
                None => !(self@ is Object),
            },
    {
        match self {
            Json::Object(m) => Some(m),
            _ => None,
        }
    }

    /// The value under `k` when this is an object (`Value::get` with a key).
    pub fn get(&self, k: &str) -> (r: Option<&Json>)
        ensures
            match r {
                Some(j) => field(self@, k@) == Some(j@),
                None => field(self@, k@) is None,
            },
    {
        match self {
            Json::Object(m) => m.get(k),
            _ => None,
        }
    }
}

/// The value under `k` when `v` is an object.
pub open spec fn field(v: JsonV, k: Seq<char>) -> Option<JsonV> {
    match v {
        JsonV::Object(e) => obj_get(e, k),
        _ => None,
    }
}

/// A JSON string per text.
pub open spec fn str_values(s: Seq<Seq<char>>) -> Seq<JsonV> {
    s.map_values(|t: Seq<char>| JsonV::Str(t))
}

/// An array of strings from owned texts (`Value::from_iter` over strings).
pub fn string_array(v: Vec<String>) -> (r: Json)
    ensures
        r@ == JsonV::Array(str_values(crate::text::views(v@))),
        json_wf(r@),
{
    let mut out: Vec<Json> = Vec::new();
    let mut v = v;
    let ghost orig = v@;
    while v.len() > 0
        invariant
            out@.len() + v@.len() == orig.len(),
            v@ == orig.subrange(out@.len() as int, orig.len() as int),
            array_view(out@) == str_values(crate::text::views(orig.take(out@.len() as int))),
        decreases v.len(),
    {
        let s = v.remove(0);
        let ghost n: int = out@.len() as int;
        let ghost before = out@;
        let ghost sv = s;
        assert(s == orig[n]);
        out.push(Json::Str(s));
        assert(out@.drop_last() =~= before);
        assert(out@.last() == Json::Str(sv));
        assert(orig.take(n + 1) =~= orig.take(n).push(sv));
        assert(str_values(crate::text::views(orig.take(n + 1))) =~= str_values(crate::text::views(orig.take(n))).push(JsonV::Str(sv@)));
        assert(out@.len() > 0);
        assert(array_view(out@) == array_view(out@.drop_last()).push(json_view(out@.last())));
        assert(array_view(out@) == array_view(before).push(JsonV::Str(sv@)));
        assert(out@.len() == n + 1);
        assert(v@ =~= orig.subrange(n + 1, orig.len() as int));
    }
    assert(orig.take(orig.len() as int) =~= orig);
    let r = Json::Array(out);
    proof {
        lemma_array_view(out@);
        let a = array_view(out@);
        assert forall|i: int| 0 <= i < a.len() implies json_wf(#[trigger] a[i]) by {
            assert(a[i] == JsonV::Str(orig[i]@));
        }
    }
    r
}

// ---------------------------------------------------------------- laws

/// Reading an object after binding `k` gives the new value under `k` and
/// the old value under every other key.
pub proof fn law_get_after_insert(e: Seq<(Seq<char>, JsonV)>, k: Seq<char>, v: JsonV, k2: Seq<char>)
    ensures
        obj_get(obj_insert(e, k, v), k2) == if k2 == k { Some(v) } else { obj_get(e, k2) },
{
    lemma_insert_keys(e, k, v);
    if k2 != k {
        assert(obj_get(obj_insert(e, k, v), k2) == obj_get(e, k2));
    }
}

} // verus!
