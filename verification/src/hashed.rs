//! Hash maps and sets of `hashbrown`, behind trusted wrappers. The
//! `hashbrown` types carry an allocator parameter bounded by a trait that
//! the crate does not export, so each is held in a private field of a struct
//! of ours, and its contents are named by an uninterpreted function.

use vstd::prelude::*;
use crate::json::{Json, JsonV};

verus! {

// ---------------------------------------------------------------- String -> String

/// A `hashbrown::HashMap<String, String>`.
#[verifier::external_body]
pub struct StrMap {
    inner: hashbrown::HashMap<String, String>,
}

/// The key-value pairs a `StrMap` holds, by the characters of each.
pub uninterp spec fn str_map_contents(m: StrMap) -> Map<Seq<char>, Seq<char>>;

/// Whether `r` lists each pair of `c` exactly once, in some order.
pub open spec fn lists_str_pairs(r: Seq<(&String, &String)>, c: Map<Seq<char>, Seq<char>>) -> bool {
    &&& forall|i: int, j: int| 0 <= i < j < r.len() ==> (#[trigger] r[i]).0@ != (#[trigger] r[j]).0@
    &&& forall|i: int| 0 <= i < r.len() ==> c.contains_key((#[trigger] r[i]).0@) && c[r[i].0@] == r[i].1@
    &&& forall|k: Seq<char>| #[trigger] c.contains_key(k) ==> exists|i: int| 0 <= i < r.len() && (#[trigger] r[i]).0@ == k
}

impl StrMap {
    /// `HashMap::new`: an empty map.
    #[verifier::external_body]
    pub(crate) fn new() -> (r: StrMap)
        ensures
            str_map_contents(r).dom() == Set::<Seq<char>>::empty(),
    {
        StrMap { inner: hashbrown::HashMap::new() }
    }

    /// `HashMap::insert`: binds `k` to `v`, replacing an earlier value of `k`.
    #[verifier::external_body]
    pub(crate) fn insert(&mut self, k: String, v: String)
        ensures
            str_map_contents(*final(self)) == str_map_contents(*old(self)).insert(k@, v@),
    {
        self.inner.insert(k, v);
    }

    /// `HashMap::get`: the value of `k`, if any.
    #[verifier::external_body]
    pub(crate) fn get(&self, k: &str) -> (r: Option<&String>)
        ensures
            match r {
                Some(v) => str_map_contents(*self).contains_key(k@) && str_map_contents(*self)[k@] == v@,
                None => !str_map_contents(*self).contains_key(k@),
            },
    {
        self.inner.get(k)
    }

    /// `HashMap::iter`: every pair once, in the map's own order.
    #[verifier::external_body]
    pub(crate) fn pairs(&self) -> (r: Vec<(&String, &String)>)
        ensures
            lists_str_pairs(r@, str_map_contents(*self)),
    {
        self.inner.iter().collect()
    }
}

// ---------------------------------------------------------------- set of String

/// A `hashbrown::HashSet<String>`.
#[verifier::external_body]
pub struct StrSet {
    inner: hashbrown::HashSet<String>,
}

/// The strings a `StrSet` holds, by their characters.
pub uninterp spec fn str_set_contents(s: StrSet) -> Set<Seq<char>>;

/// Whether `r` lists each member of `c` exactly once, in some order.
pub open spec fn lists_strs(r: Seq<&String>, c: Set<Seq<char>>) -> bool {
    &&& forall|i: int, j: int| 0 <= i < j < r.len() ==> (#[trigger] r[i])@ != (#[trigger] r[j])@
    &&& forall|i: int| 0 <= i < r.len() ==> c.contains((#[trigger] r[i])@)
    &&& forall|k: Seq<char>| #[trigger] c.contains(k) ==> exists|i: int| 0 <= i < r.len() && (#[trigger] r[i])@ == k
}

impl StrSet {
    /// `HashSet::new`: an empty set.
    #[verifier::external_body]
    pub(crate) fn new() -> (s: StrSet)
        ensures
            str_set_contents(s) == Set::<Seq<char>>::empty(),
    {
        StrSet { inner: hashbrown::HashSet::new() }
    }

    /// `HashSet::insert`: adds `k`.
    #[verifier::external_body]
    pub(crate) fn insert(&mut self, k: String)
        ensures
            str_set_contents(*final(self)) == str_set_contents(*old(self)).insert(k@),
    {
        self.inner.insert(k);
    }

    /// `HashSet::clear`: removes every member.
    #[verifier::external_body]
    pub(crate) fn clear(&mut self)
        ensures
            str_set_contents(*final(self)) == Set::<Seq<char>>::empty(),
    {
        self.inner.clear();
    }

    /// `HashSet::iter`: every member once, in the set's own order.
    #[verifier::external_body]
    pub(crate) fn members(&self) -> (r: Vec<&String>)
        ensures
            lists_strs(r@, str_set_contents(*self)),
    {
        self.inner.iter().collect()
    }
}

// ---------------------------------------------------------------- String -> Json

/// A `hashbrown::HashMap<String, Json>`.
#[verifier::external_body]
pub struct JsonHashMap {
    inner: hashbrown::HashMap<String, Json>,
}

/// The key-value pairs a `JsonHashMap` holds, by their views.
pub uninterp spec fn json_hash_map_contents(m: JsonHashMap) -> Map<Seq<char>, JsonV>;

/// Whether `r` lists each pair of `c` exactly once, in some order.
pub open spec fn lists_json_pairs(r: Seq<(&String, &Json)>, c: Map<Seq<char>, JsonV>) -> bool {
    &&& forall|i: int, j: int| 0 <= i < j < r.len() ==> (#[trigger] r[i]).0@ != (#[trigger] r[j]).0@
    &&& forall|i: int| 0 <= i < r.len() ==> c.contains_key((#[trigger] r[i]).0@) && c[r[i].0@] == r[i].1@
    &&& forall|k: Seq<char>| #[trigger] c.contains_key(k) ==> exists|i: int| 0 <= i < r.len() && (#[trigger] r[i]).0@ == k
}

impl JsonHashMap {
    /// `HashMap::new`: an empty map.
    #[verifier::external_body]
    pub(crate) fn new() -> (r: JsonHashMap)
        ensures
            json_hash_map_contents(r).dom() == Set::<Seq<char>>::empty(),
    {
        JsonHashMap { inner: hashbrown::HashMap::new() }
    }

    /// `HashMap::insert`: binds `k` to `v`, replacing an earlier value of `k`.
    #[verifier::external_body]
    pub(crate) fn insert(&mut self, k: String, v: Json)
        ensures
            json_hash_map_contents(*final(self)) == json_hash_map_contents(*old(self)).insert(k@, v@),
    {
        self.inner.insert(k, v);
    }

    /// `HashMap::iter`: every pair once, in the map's own order.
    #[verifier::external_body]
    pub(crate) fn pairs(&self) -> (r: Vec<(&String, &Json)>)
        ensures
            lists_json_pairs(r@, json_hash_map_contents(*self)),
    {
        self.inner.iter().collect()
    }
}

// ---------------------------------------------------------------- built and read by value

/// The map that binding each pair in turn gives: of a key given twice, the
/// later value.
pub open spec fn str_pairs_map(s: Seq<(Seq<char>, Seq<char>)>) -> Map<Seq<char>, Seq<char>>
    decreases s.len(),
{
    if s.len() == 0 {
        Map::<Seq<char>, Seq<char>>::empty()
    } else {
        str_pairs_map(s.drop_last()).insert(s.last().0, s.last().1)
    }
}

/// The pairs of strings by their characters.
pub open spec fn str_pairs_view(v: Seq<(String, String)>) -> Seq<(Seq<char>, Seq<char>)> {
    v.map_values(|p: (String, String)| (p.0@, p.1@))
}

/// Whether `r` lists each pair of `c` exactly once, in some order.
pub open spec fn lists_owned_str_pairs(r: Seq<(String, String)>, c: Map<Seq<char>, Seq<char>>) -> bool {
    &&& forall|i: int, j: int| 0 <= i < j < r.len() ==> (#[trigger] r[i]).0@ != (#[trigger] r[j]).0@
    &&& forall|i: int| 0 <= i < r.len() ==> c.contains_key((#[trigger] r[i]).0@) && c[r[i].0@] == r[i].1@
    &&& forall|k: Seq<char>| #[trigger] c.contains_key(k) ==> exists|i: int| 0 <= i < r.len() && (#[trigger] r[i]).0@ == k
}

impl StrMap {
    /// The map of the pairs, bound in turn (`str_pairs_map`).
    pub fn from_pairs(pairs: Vec<(String, String)>) -> (r: StrMap)
        ensures
            str_map_contents(r) == str_pairs_map(str_pairs_view(pairs@)),
    {
        let ghost pv = str_pairs_view(pairs@);
        let mut r = StrMap::new();
        assert(str_map_contents(r) =~= Map::<Seq<char>, Seq<char>>::empty());
        let mut pairs = pairs;
        let ghost orig = pairs@;
        let n = pairs.len();
        let mut i: usize = 0;
        assert(pv.take(0) =~= Seq::<(Seq<char>, Seq<char>)>::empty());
        while pairs.len() > 0
            invariant
                i + pairs@.len() == orig.len(),
                orig.len() == n,
                pv.len() == orig.len(),
                forall|k: int| 0 <= k < orig.len() ==> (#[trigger] orig[k]).0@ == pv[k].0 && orig[k].1@ == pv[k].1,
                pairs@ == orig.subrange(i as int, orig.len() as int),
                str_map_contents(r) == str_pairs_map(pv.take(i as int)),
            decreases pairs.len(),
        {
            let (k, v) = pairs.remove(0);
            assert(orig[i as int] == (k, v));
            assert(pv.take(i + 1).drop_last() =~= pv.take(i as int));
            assert(pv.take(i + 1).last() == pv[i as int]);
            assert(pv[i as int] == (k@, v@));
            r.insert(k, v);
            assert(pairs@ =~= orig.subrange(i + 1, orig.len() as int));
            i = i + 1;
        }
        assert(pv.take(i as int) =~= pv);
        r
    }

    /// The value of `k`, if any.
    pub fn value_of(&self, k: &str) -> (r: Option<String>)
        ensures
            match r {
                Some(v) => str_map_contents(*self).contains_key(k@) && str_map_contents(*self)[k@] == v@,
                None => !str_map_contents(*self).contains_key(k@),
            },
    {
        match self.get(k) {
            Some(v) => Some(v.clone()),
            None => None,
        }
    }

    /// Every pair once, in the map's own order.
    pub fn to_pairs(&self) -> (r: Vec<(String, String)>)
        ensures
            lists_owned_str_pairs(r@, str_map_contents(*self)),
    {
        let p = self.pairs();
        let mut out: Vec<(String, String)> = Vec::new();
        let mut i: usize = 0;
        while i < p.len()
            invariant
                i <= p.len(),
                lists_str_pairs(p@, str_map_contents(*self)),
                out@.len() == i,
                forall|k: int| 0 <= k < i ==> (#[trigger] out@[k]).0@ == p@[k].0@ && out@[k].1@ == p@[k].1@,
            decreases p.len() - i,
        {
            out.push((p[i].0.clone(), p[i].1.clone()));
            i = i + 1;
        }
        let ghost c = str_map_contents(*self);
        assert forall|k: Seq<char>| #[trigger] c.contains_key(k) implies exists|j: int| 0 <= j < out@.len() && (#[trigger] out@[j]).0@ == k by {
            let j = choose|j: int| 0 <= j < p@.len() && (#[trigger] p@[j]).0@ == k;
            assert(out@[j].0@ == k);
        }
        assert forall|a: int, b: int| 0 <= a < b < out@.len() implies (#[trigger] out@[a]).0@ != (#[trigger] out@[b]).0@ by {
            assert(p@[a].0@ != p@[b].0@);
        }
        assert forall|a: int| 0 <= a < out@.len() implies c.contains_key((#[trigger] out@[a]).0@) && c[out@[a].0@] == out@[a].1@ by {
            assert(c.contains_key(p@[a].0@));
        }
        out
    }
}

/// The map that binding each pair in turn gives.
pub open spec fn json_pairs_map(s: Seq<(Seq<char>, JsonV)>) -> Map<Seq<char>, JsonV>
    decreases s.len(),
{
    if s.len() == 0 {
        Map::<Seq<char>, JsonV>::empty()
    } else {
        json_pairs_map(s.drop_last()).insert(s.last().0, s.last().1)
    }
}

/// Whether `r` lists each pair of `c` exactly once, in some order.
pub open spec fn lists_owned_json_pairs(r: Seq<(String, Json)>, c: Map<Seq<char>, JsonV>) -> bool {
    &&& forall|i: int, j: int| 0 <= i < j < r.len() ==> (#[trigger] r[i]).0@ != (#[trigger] r[j]).0@
    &&& forall|i: int| 0 <= i < r.len() ==> c.contains_key((#[trigger] r[i]).0@) && c[r[i].0@] == r[i].1@
    &&& forall|k: Seq<char>| #[trigger] c.contains_key(k) ==> exists|i: int| 0 <= i < r.len() && (#[trigger] r[i]).0@ == k
}

impl JsonHashMap {
    /// The map of the pairs, bound in turn (`json_pairs_map`).
    pub fn from_pairs(pairs: Vec<(String, Json)>) -> (r: JsonHashMap)
        ensures
            json_hash_map_contents(r) == json_pairs_map(crate::json::entries_view(pairs@)),
    {
        let ghost pv = crate::json::entries_view(pairs@);
        proof { crate::json::lemma_entries_view(pairs@); }
        let mut r = JsonHashMap::new();
        assert(json_hash_map_contents(r) =~= Map::<Seq<char>, JsonV>::empty());
        let mut pairs = pairs;
        let ghost orig = pairs@;
        let n = pairs.len();
        let mut i: usize = 0;
        assert(pv.take(0) =~= Seq::<(Seq<char>, JsonV)>::empty());
        while pairs.len() > 0
            invariant
                i + pairs@.len() == orig.len(),
                orig.len() == n,
                pv.len() == orig.len(),
                forall|k: int| 0 <= k < orig.len() ==> (#[trigger] orig[k]).0@ == pv[k].0 && orig[k].1@ == pv[k].1,
                pairs@ == orig.subrange(i as int, orig.len() as int),
                json_hash_map_contents(r) == json_pairs_map(pv.take(i as int)),
            decreases pairs.len(),
        {
            let (k, v) = pairs.remove(0);
            assert(orig[i as int] == (k, v));
            assert(pv.take(i + 1).drop_last() =~= pv.take(i as int));
            assert(pv.take(i + 1).last() == pv[i as int]);
            assert(pv[i as int] == (k@, v@));
            r.insert(k, v);
            assert(pairs@ =~= orig.subrange(i + 1, orig.len() as int));
            i = i + 1;
        }
        assert(pv.take(i as int) =~= pv);
        r
    }

    /// Every pair once, in the map's own order.
    pub fn to_pairs(&self) -> (r: Vec<(String, Json)>)
        ensures
            lists_owned_json_pairs(r@, json_hash_map_contents(*self)),
    {
        let p = self.pairs();
        let mut out: Vec<(String, Json)> = Vec::new();
        let mut i: usize = 0;
        while i < p.len()
            invariant
                i <= p.len(),
                lists_json_pairs(p@, json_hash_map_contents(*self)),
                out@.len() == i,
                forall|k: int| 0 <= k < i ==> (#[trigger] out@[k]).0@ == p@[k].0@ && out@[k].1@ == p@[k].1@,
            decreases p.len() - i,
        {
            out.push((p[i].0.clone(), crate::json::copy_json(p[i].1)));
            i = i + 1;
        }
        let ghost c = json_hash_map_contents(*self);
        assert forall|k: Seq<char>| #[trigger] c.contains_key(k) implies exists|j: int| 0 <= j < out@.len() && (#[trigger] out@[j]).0@ == k by {
            let j = choose|j: int| 0 <= j < p@.len() && (#[trigger] p@[j]).0@ == k;
            assert(out@[j].0@ == k);
        }
        assert forall|a: int, b: int| 0 <= a < b < out@.len() implies (#[trigger] out@[a]).0@ != (#[trigger] out@[b]).0@ by {
            assert(p@[a].0@ != p@[b].0@);
        }
        assert forall|a: int| 0 <= a < out@.len() implies c.contains_key((#[trigger] out@[a]).0@) && c[out@[a].0@] == out@[a].1@ by {
            assert(c.contains_key(p@[a].0@));
        }
        out
    }
}

} // verus!
