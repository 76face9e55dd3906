//! A JSON document model: the values a manifest, a configuration file or an
//! HTTP body holds, with object keys kept in insertion order.

use vstd::prelude::*;

verus! {

/// Compare two string slices by their characters.
pub(crate) fn str_eq(a: &str, b: &str) -> (r: bool)
    ensures
        r == (a@ == b@),
{
    let x = crate::text::chars_of(a);
    let y = crate::text::chars_of(b);
    if x.len() != y.len() {
        return false;
    }
    let mut i: usize = 0;
    while i < x.len()
        invariant
            i <= x@.len() == y@.len(),
            x@ == a@,
            y@ == b@,
            forall|j: int| 0 <= j < i ==> x@[j] == y@[j],
        decreases x@.len() - i,
    {
        if x[i] != y[i] {
            return false;
        }
        i = i + 1;
    }
    assert(x@ =~= y@);
    true
}

/// One JSON value. Numbers keep the text that the serializer printed for
/// them, so that a document read and written back is unchanged.
#[derive(Debug, PartialEq)]
pub enum Json {
    Null,
    Bool(bool),
    Num(String),
    Str(String),
    Arr(Vec<Json>),
    Obj(Vec<(String, Json)>),
}

/// The mathematical value of a [`Json`].
pub enum JsonV {
    Null,
    Bool(bool),
    Num(Seq<char>),
    Str(Seq<char>),
    Arr(Seq<JsonV>),
    Obj(Seq<(Seq<char>, JsonV)>),
}

pub open spec fn view_json(j: Json) -> JsonV
    decreases j, 0int,
{
    match j {
        Json::Null => JsonV::Null,
        Json::Bool(b) => JsonV::Bool(b),
        Json::Num(t) => JsonV::Num(t@),
        Json::Str(s) => JsonV::Str(s@),
        Json::Arr(a) => JsonV::Arr(view_items(a@)),
        Json::Obj(es) => JsonV::Obj(view_entries(es@)),
    }
}

pub open spec fn view_items(a: Seq<Json>) -> Seq<JsonV>
    decreases a, 1int,
{
    if a.len() == 0 {
        Seq::empty()
    } else {
        view_items(a.subrange(0, a.len() - 1)).push(view_json(a[a.len() - 1]))
    }
}

pub open spec fn view_entry(e: (String, Json)) -> (Seq<char>, JsonV) {
    (e.0@, view_json(e.1))
}

pub open spec fn view_entries(es: Seq<(String, Json)>) -> Seq<(Seq<char>, JsonV)>
    decreases es, 1int,
{
    if es.len() == 0 {
        Seq::empty()
    } else {
        view_entries(es.subrange(0, es.len() - 1)).push(
            (es[es.len() - 1].0@, view_json(es[es.len() - 1].1)),
        )
    }
}

impl View for Json {
    type V = JsonV;

    open spec fn view(&self) -> JsonV {
        view_json(*self)
    }
}

pub proof fn lemma_view_items(a: Seq<Json>)
    ensures
        view_items(a).len() == a.len(),
        forall|i: int| 0 <= i < a.len() ==> #[trigger] view_items(a)[i] == view_json(a[i]),
    decreases a.len(),
{
    if a.len() > 0 {
        let p = a.subrange(0, a.len() - 1);
        lemma_view_items(p);
        assert forall|i: int| 0 <= i < a.len() implies #[trigger] view_items(a)[i] == view_json(
            a[i],
        ) by {
            if i < a.len() - 1 {
                assert(p[i] == a[i]);
            }
        }
    }
}

pub proof fn lemma_view_entries(es: Seq<(String, Json)>)
    ensures
        view_entries(es).len() == es.len(),
        forall|i: int|
            0 <= i < es.len() ==> #[trigger] view_entries(es)[i] == view_entry(es[i]),
    decreases es.len(),
{
    if es.len() > 0 {
        let p = es.subrange(0, es.len() - 1);
        lemma_view_entries(p);
        assert forall|i: int| 0 <= i < es.len() implies #[trigger] view_entries(es)[i]
            == view_entry(es[i]) by {
            if i < es.len() - 1 {
                assert(p[i] == es[i]);
            }
        }
    }
}

/// Two lists whose elements view alike view alike.
pub proof fn lemma_view_items_ext(a: Seq<Json>, b: Seq<JsonV>)
    requires
        a.len() == b.len(),
        forall|i: int| 0 <= i < a.len() ==> view_json(#[trigger] a[i]) == b[i],
    ensures
        view_items(a) == b,
{
    lemma_view_items(a);
    assert(view_items(a) =~= b);
}

pub proof fn lemma_view_entries_ext(es: Seq<(String, Json)>, b: Seq<(Seq<char>, JsonV)>)
    requires
        es.len() == b.len(),
        forall|i: int| 0 <= i < es.len() ==> view_entry(#[trigger] es[i]) == b[i],
    ensures
        view_entries(es) == b,
{
    lemma_view_entries(es);
    assert(view_entries(es) =~= b);
}

/// Index of the first entry whose key is `key`, or -1.
pub open spec fn entry_index(es: Seq<(Seq<char>, JsonV)>, key: Seq<char>) -> int
    decreases es.len(),
{
    if es.len() == 0 {
        -1
    } else if es[0].0 == key {
        0
    } else {
        let r = entry_index(es.drop_first(), key);
        if r < 0 {
            -1
        } else {
            r + 1
        }
    }
}

/// Whether some entry has key `key`.
pub open spec fn entries_has(es: Seq<(Seq<char>, JsonV)>, key: Seq<char>) -> bool {
    exists|j: int| 0 <= j < es.len() && #[trigger] es[j].0 == key
}

/// The value stored under `key` in an entry list (the first such entry).
pub open spec fn entries_get(es: Seq<(Seq<char>, JsonV)>, key: Seq<char>) -> Option<JsonV> {
    let i = entry_index(es, key);
    if i < 0 {
        None
    } else {
        Some(es[i].1)
    }
}

pub proof fn lemma_entry_index(es: Seq<(Seq<char>, JsonV)>, key: Seq<char>)
    ensures
        -1 <= entry_index(es, key) < es.len(),
        entry_index(es, key) == -1 <==> !entries_has(es, key),
        entry_index(es, key) >= 0 ==> es[entry_index(es, key)].0 == key,
        forall|j: int| 0 <= j < entry_index(es, key) ==> #[trigger] es[j].0 != key,
        entry_index(es, key) == -1 ==> forall|j: int|
            0 <= j < es.len() ==> #[trigger] es[j].0 != key,
    decreases es.len(),
{
    if es.len() > 0 {
        let t = es.drop_first();
        lemma_entry_index(t, key);
        assert forall|j: int| 1 <= j < es.len() implies es[j] == #[trigger] t[j - 1] by {}
        if es[0].0 != key {
            if entries_has(es, key) {
                let j = choose|j: int| 0 <= j < es.len() && #[trigger] es[j].0 == key;
                assert(t[j - 1].0 == key);
            }
            if entries_has(t, key) {
                let j = choose|j: int| 0 <= j < t.len() && #[trigger] t[j].0 == key;
                assert(es[j + 1].0 == key);
            }
            assert forall|j: int| 0 <= j < entry_index(es, key) implies #[trigger] es[j].0
                != key by {
                if j > 0 {
                    assert(t[j - 1].0 != key);
                }
            }
        } else {
            assert(es[0].0 == key);
        }
    }
}

/// A first-match index found by a scan is the spec index.
pub proof fn lemma_entry_index_at(es: Seq<(Seq<char>, JsonV)>, key: Seq<char>, i: int)
    requires
        0 <= i < es.len(),
        es[i].0 == key,
        forall|j: int| 0 <= j < i ==> #[trigger] es[j].0 != key,
    ensures
        entry_index(es, key) == i,
{
    lemma_entry_index(es, key);
    assert(entries_has(es, key));
}

impl JsonV {
    /// The value under `key` when this is an object holding it.
    pub open spec fn get(self, key: Seq<char>) -> Option<JsonV> {
        match self {
            JsonV::Obj(es) => entries_get(es, key),
            _ => None,
        }
    }

    /// `self[key]`: the value under `key`, or null.
    pub open spec fn at(self, key: Seq<char>) -> JsonV {
        match self.get(key) {
            Some(v) => v,
            None => JsonV::Null,
        }
    }

    pub open spec fn as_str(self) -> Option<Seq<char>> {
        match self {
            JsonV::Str(s) => Some(s),
            _ => None,
        }
    }

    pub open spec fn as_arr(self) -> Option<Seq<JsonV>> {
        match self {
            JsonV::Arr(a) => Some(a),
            _ => None,
        }
    }

    pub open spec fn as_obj(self) -> Option<Seq<(Seq<char>, JsonV)>> {
        match self {
            JsonV::Obj(es) => Some(es),
            _ => None,
        }
    }

    pub open spec fn as_bool(self) -> Option<bool> {
        match self {
            JsonV::Bool(b) => Some(b),
            _ => None,
        }
    }

    pub open spec fn as_num_text(self) -> Option<Seq<char>> {
        match self {
            JsonV::Num(t) => Some(t),
            _ => None,
        }
    }
}

/// Position of the first entry with key `key`.
pub fn find_entry(es: &Vec<(String, Json)>, key: &str) -> (r: Option<usize>)
    ensures
        r == (if entry_index(view_entries(es@), key@) < 0 {
            None::<usize>
        } else {
            Some(entry_index(view_entries(es@), key@) as usize)
        }),
{
    proof {
        lemma_view_entries(es@);
    }
    let ghost v = view_entries(es@);
    let mut i: usize = 0;
    while i < es.len()
        invariant
            i <= es.len(),
            v == view_entries(es@),
            v.len() == es@.len(),
            forall|j: int| 0 <= j < es@.len() ==> #[trigger] v[j] == view_entry(es@[j]),
            forall|j: int| 0 <= j < i ==> #[trigger] v[j].0 != key@,
        decreases es.len() - i,
    {
        if str_eq(es[i].0.as_str(), key) {
            proof {
                lemma_entry_index_at(v, key@, i as int);
            }
            return Some(i);
        }
        i = i + 1;
    }
    proof {
        lemma_entry_index(v, key@);
        if entries_has(v, key@) {
            let j = choose|j: int| 0 <= j < v.len() && #[trigger] v[j].0 == key@;
            assert(v[j].0 != key@);
        }
    }
    None
}

/// Copies of the items of an array.
fn clone_items(items: &Vec<Json>) -> (r: Vec<Json>)
    ensures
        view_items(r@) == view_items(items@),
    decreases *items, 1int,
{
    let mut out: Vec<Json> = Vec::new();
    let mut i: usize = 0;
    while i < items.len()
        invariant
            i <= items.len(),
            out@.len() == i,
            forall|j: int| 0 <= j < i ==> view_json(#[trigger] out@[j]) == view_json(items@[j]),
        decreases items.len() - i,
    {
        proof {
            assert(decreases_to!(*items => items@[i as int]));
        }
        let c = items[i].deep_clone();
        out.push(c);
        i = i + 1;
    }
    proof {
        lemma_view_items(items@);
        lemma_view_items_ext(out@, view_items(items@));
    }
    out
}

/// Copies of the entries of an object.
fn clone_entries(es: &Vec<(String, Json)>) -> (r: Vec<(String, Json)>)
    ensures
        view_entries(r@) == view_entries(es@),
    decreases *es, 1int,
{
    let mut out: Vec<(String, Json)> = Vec::new();
    let mut i: usize = 0;
    while i < es.len()
        invariant
            i <= es.len(),
            out@.len() == i,
            forall|j: int| 0 <= j < i ==> view_entry(#[trigger] out@[j]) == view_entry(es@[j]),
        decreases es.len() - i,
    {
        proof {
            assert(decreases_to!(*es => es@[i as int]));
            assert(decreases_to!(es@[i as int] => es@[i as int].1));
        }
        let v = es[i].1.deep_clone();
        let k = es[i].0.clone();
        out.push((k, v));
        i = i + 1;
    }
    proof {
        lemma_view_entries(es@);
        lemma_view_entries_ext(out@, view_entries(es@));
    }
    out
}

impl Json {
    /// A copy whose value is that of `self`.
    pub fn deep_clone(&self) -> (r: Json)
        ensures
            r@ == self@,
        decreases *self, 0int,
    {
        match self {
            Json::Null => Json::Null,
            Json::Bool(b) => Json::Bool(*b),
            Json::Num(t) => Json::Num(t.clone()),
            Json::Str(s) => Json::Str(s.clone()),
            Json::Arr(items) => Json::Arr(clone_items(items)),
            Json::Obj(es) => Json::Obj(clone_entries(es)),
        }
    }

    /// `self.get(key)`.
    pub fn get(&self, key: &str) -> (r: Option<&Json>)
        ensures
            r is Some == self@.get(key@) is Some,
            r is Some ==> r->0@ == self@.get(key@)->0,
    {
        match self {
            Json::Obj(es) => {
                let found = find_entry(es, key);
                match found {
                Some(i) => {
                    proof {
                        let x = entry_index(view_entries(es@), key@);
                        assert(es@.len() == es.len());
                        if x < 0 {
                            assert(found is None);
                        }
                        assert(found == Some(x as usize));
                        lemma_view_entries(es@);
                        lemma_entry_index(view_entries(es@), key@);
                        assert(view_entries(es@)[i as int] == view_entry(es@[i as int]));
                        assert(self@ == JsonV::Obj(view_entries(es@)));
                        assert(self@.get(key@) == entries_get(view_entries(es@), key@));
                        assert(entry_index(view_entries(es@), key@) == i as int);
                        assert(es@[i as int].1@ == self@.get(key@)->0);
                    }
                    Some(&es[i].1)
                },
                None => None,
                }
            },
            _ => None,
        }
    }

    pub fn as_str(&self) -> (r: Option<&str>)
        ensures
            r is Some == self@.as_str() is Some,
            r is Some ==> r->0@ == self@.as_str()->0,
    {
        match self {
            Json::Str(s) => Some(s.as_str()),
            _ => None,
        }
    }

    pub fn as_array(&self) -> (r: Option<&Vec<Json>>)
        ensures
            r is Some == self@.as_arr() is Some,
            r is Some ==> view_items(r->0@) == self@.as_arr()->0,
    {
        match self {
            Json::Arr(a) => Some(a),
            _ => None,
        }
    }

    pub fn as_object(&self) -> (r: Option<&Vec<(String, Json)>>)
        ensures
            r is Some == self@.as_obj() is Some,
            r is Some ==> view_entries(r->0@) == self@.as_obj()->0,
    {
        match self {
            Json::Obj(es) => Some(es),
            _ => None,
        }
    }

    pub fn as_bool(&self) -> (r: Option<bool>)
        ensures
            r == self@.as_bool(),
    {
        match self {
            Json::Bool(b) => Some(*b),
            _ => None,
        }
    }

    pub fn as_num_text(&self) -> (r: Option<&str>)
        ensures
            r is Some == self@.as_num_text() is Some,
            r is Some ==> r->0@ == self@.as_num_text()->0,
    {
        match self {
            Json::Num(t) => Some(t.as_str()),
            _ => None,
        }
    }
}


/// The entries after `key` is set to `v`: the value is replaced where the
/// key already stands, or a new entry is appended.
pub open spec fn entries_set(es: Seq<(Seq<char>, JsonV)>, key: Seq<char>, v: JsonV) -> Seq<
    (Seq<char>, JsonV),
> {
    let i = entry_index(es, key);
    if i < 0 {
        es.push((key, v))
    } else {
        es.update(i, (key, v))
    }
}

/// The entries after `key` is removed: its place is taken by the last
/// entry, as an order-keeping map's `swap_remove` does.
pub open spec fn entries_remove(es: Seq<(Seq<char>, JsonV)>, key: Seq<char>) -> Seq<
    (Seq<char>, JsonV),
> {
    let i = entry_index(es, key);
    if i < 0 {
        es
    } else {
        es.update(i, es.last()).drop_last()
    }
}

impl JsonV {
    /// `self[key] = v`: an object gets the key set, null becomes an object
    /// holding only that key.
    pub open spec fn with_key(self, key: Seq<char>, v: JsonV) -> JsonV {
        match self {
            JsonV::Obj(es) => JsonV::Obj(entries_set(es, key, v)),
            _ => JsonV::Obj(seq![(key, v)]),
        }
    }

    /// The object without `key`; any other value is unchanged.
    pub open spec fn without_key(self, key: Seq<char>) -> JsonV {
        match self {
            JsonV::Obj(es) => JsonV::Obj(entries_remove(es, key)),
            _ => self,
        }
    }

    /// Whether `self[key] = ..` is defined: objects and null.
    pub open spec fn is_keyable(self) -> bool {
        self is Obj || self is Null
    }
}

proof fn lemma_view_entries_update(es: Seq<(String, Json)>, i: int, e: (String, Json))
    requires
        0 <= i < es.len(),
    ensures
        view_entries(es.update(i, e)) == view_entries(es).update(i, view_entry(e)),
{
    lemma_view_entries(es);
    lemma_view_entries(es.update(i, e));
    assert(view_entries(es.update(i, e)) =~= view_entries(es).update(i, view_entry(e)));
}

proof fn lemma_view_entries_push(es: Seq<(String, Json)>, e: (String, Json))
    ensures
        view_entries(es.push(e)) == view_entries(es).push(view_entry(e)),
{
    lemma_view_entries(es);
    lemma_view_entries(es.push(e));
    assert(view_entries(es.push(e)) =~= view_entries(es).push(view_entry(e)));
}

proof fn lemma_view_entries_swap_remove(es: Seq<(String, Json)>, i: int)
    requires
        0 <= i < es.len(),
    ensures
        view_entries(es.update(i, es.last()).drop_last()) == view_entries(es).update(
            i,
            view_entries(es).last(),
        ).drop_last(),
{
    let t = es.update(i, es.last()).drop_last();
    lemma_view_entries(es);
    lemma_view_entries(t);
    assert(view_entries(t) =~= view_entries(es).update(i, view_entries(es).last()).drop_last());
}

/// Set `key` to `val` in an entry list.
pub fn entries_insert(es: &mut Vec<(String, Json)>, key: &str, val: Json)
    ensures
        view_entries(final(es)@) == entries_set(view_entries(old(es)@), key@, val@),
{
    let k = key.to_string();
    assert(k@ == key@);
    proof {
        lemma_view_entries(old(es)@);
        lemma_entry_index(view_entries(old(es)@), key@);
    }
    let found = find_entry(es, key);
    assert(es@ == old(es)@);
    match found {
        Some(i) => {
            proof {
                assert(i < es@.len());
                lemma_view_entries_update(es@, i as int, (k, val));
            }
            es.set(i, (k, val));
        },
        None => {
            proof {
                lemma_view_entries_push(es@, (k, val));
            }
            es.push((k, val));
        },
    }
}

/// Remove `key` from an entry list, returning its value.
pub fn entries_take(es: &mut Vec<(String, Json)>, key: &str) -> (r: Option<Json>)
    ensures
        view_entries(final(es)@) == entries_remove(view_entries(old(es)@), key@),
        r is Some == (entries_get(view_entries(old(es)@), key@) is Some),
        r is Some ==> r->0@ == entries_get(view_entries(old(es)@), key@)->0,
{
    proof {
        lemma_view_entries(old(es)@);
        lemma_entry_index(view_entries(old(es)@), key@);
    }
    let n = es.len();
    let found = find_entry(es, key);
    match found {
        Some(i) => {
            proof {
                lemma_view_entries_swap_remove(es@, i as int);
                assert(view_entries(es@)[i as int] == view_entry(es@[i as int]));
            }
            let (_, v) = es.swap_remove(i);
            Some(v)
        },
        None => None,
    }
}

impl Json {
    /// `self[key] = val`, as JSON documents index by key: an object gets the
    /// key set in place or appended, and null first becomes an empty object.
    pub fn set_key(&mut self, key: &str, val: Json)
        requires
            old(self)@.is_keyable(),
        ensures
            final(self)@ == old(self)@.with_key(key@, val@),
    {
        match self {
            Json::Obj(es) => {
                entries_insert(es, key, val);
            },
            _ => {
                let mut es: Vec<(String, Json)> = Vec::new();
                entries_insert(&mut es, key, val);
                proof {
                    assert(view_entries(Seq::<(String, Json)>::empty()) =~= Seq::empty());
                    lemma_entry_index(Seq::<(Seq<char>, JsonV)>::empty(), key@);
                    assert(Seq::<(Seq<char>, JsonV)>::empty().push((key@, val@)) =~= seq![(key@, val@)]);
                }
                *self = Json::Obj(es);
            },
        }
    }

    /// Remove `key` from an object; other values are left alone.
    pub fn remove_key(&mut self, key: &str) -> (r: Option<Json>)
        ensures
            final(self)@ == old(self)@.without_key(key@),
            r is Some == (old(self)@.get(key@) is Some),
            r is Some ==> r->0@ == old(self)@.get(key@)->0,
    {
        match self {
            Json::Obj(es) => entries_take(es, key),
            _ => None,
        }
    }

    pub fn is_null(&self) -> (r: bool)
        ensures
            r == (self@ is Null),
    {
        match self {
            Json::Null => true,
            _ => false,
        }
    }

    /// A string value.
    pub fn string(s: &str) -> (r: Json)
        ensures
            r@ == JsonV::Str(s@),
    {
        Json::Str(s.to_string())
    }
}


/// The value under `key` in an entry list (the first such entry).
pub fn lookup<'a>(es: &'a Vec<(String, Json)>, key: &str) -> (r: Option<&'a Json>)
    ensures
        r is Some == entries_get(view_entries(es@), key@) is Some,
        r is Some ==> r->0@ == entries_get(view_entries(es@), key@)->0,
{
    let _n = es.len();
    proof {
        lemma_view_entries(es@);
        lemma_entry_index(view_entries(es@), key@);
    }
    match find_entry(es, key) {
        Some(i) => {
            proof {
                assert(view_entries(es@)[i as int] == view_entry(es@[i as int]));
            }
            Some(&es[i].1)
        },
        None => None,
    }
}


pub proof fn lemma_view_items_push(a: Seq<Json>, x: Json)
    ensures
        view_items(a.push(x)) == view_items(a).push(view_json(x)),
{
    lemma_view_items(a);
    lemma_view_items(a.push(x));
    assert(view_items(a.push(x)) =~= view_items(a).push(view_json(x)));
}

/// Entry lists with the same keys in the same places find a key at the
/// same place.
pub proof fn lemma_entry_index_same_keys(a: Seq<(Seq<char>, JsonV)>, b: Seq<(Seq<char>, JsonV)>, k: Seq<char>)
    requires
        a.len() == b.len(),
        forall|j: int| 0 <= j < a.len() ==> (#[trigger] a[j]).0 == b[j].0,
    ensures
        entry_index(a, k) == entry_index(b, k),
    decreases a.len(),
{
    if a.len() > 0 {
        assert(a[0].0 == b[0].0);
        let ta = a.drop_first();
        let tb = b.drop_first();
        assert forall|j: int| 0 <= j < ta.len() implies (#[trigger] ta[j]).0 == tb[j].0 by {
            assert(ta[j] == a[j + 1]);
            assert(tb[j] == b[j + 1]);
        }
        lemma_entry_index_same_keys(ta, tb, k);
    }
}

/// After `k` is set to `v`, `k` holds `v` and every other key holds what
/// it held.
pub proof fn lemma_with_key_get(c: JsonV, k: Seq<char>, v: JsonV, k2: Seq<char>)
    requires
        c.is_keyable(),
    ensures
        c.with_key(k, v).get(k) == Some(v),
        k2 != k ==> c.with_key(k, v).get(k2) == c.get(k2),
        c.with_key(k, v) is Obj,
{
    let es: Seq<(Seq<char>, JsonV)> = match c {
        JsonV::Obj(es) => es,
        _ => Seq::empty(),
    };
    if c is Null {
        assert(c.with_key(k, v) == JsonV::Obj(entries_set(es, k, v))) by {
            lemma_entry_index(es, k);
            assert(es.push((k, v)) =~= seq![(k, v)]);
        }
    }
    assert(c.with_key(k, v) == JsonV::Obj(entries_set(es, k, v)));
    assert(c.get(k2) == entries_get(es, k2)) by {
        if c is Null {
            lemma_entry_index(es, k2);
        }
    }
    let n = entries_set(es, k, v);
    lemma_entry_index(es, k);
    lemma_entry_index(es, k2);
    let i = entry_index(es, k);
    if i < 0 {
        lemma_entry_index_at(n, k, es.len() as int);
        if k2 != k {
            lemma_entry_index(n, k2);
            let x = entry_index(es, k2);
            if x >= 0 {
                assert(n[x] == es[x]);
                assert forall|j: int| 0 <= j < x implies #[trigger] n[j].0 != k2 by {
                    assert(n[j] == es[j]);
                }
                lemma_entry_index_at(n, k2, x);
            } else {
                assert forall|j: int| 0 <= j < n.len() implies #[trigger] n[j].0 != k2 by {
                    if j < es.len() {
                        assert(n[j] == es[j]);
                    }
                }
                assert(!entries_has(n, k2));
            }
        }
    } else {
        assert forall|j: int| 0 <= j < i implies #[trigger] n[j].0 != k by {
            assert(n[j] == es[j]);
        }
        lemma_entry_index_at(n, k, i);
        assert forall|j: int| 0 <= j < es.len() implies (#[trigger] es[j]).0 == n[j].0 by {}
        lemma_entry_index_same_keys(es, n, k2);
        if k2 != k && entry_index(es, k2) >= 0 {
            assert(entry_index(es, k2) != i);
        }
    }
}


/// Setting a key twice leaves only the second value.
pub proof fn lemma_with_key_twice(c: JsonV, k: Seq<char>, v: JsonV, w: JsonV)
    requires
        c.is_keyable(),
    ensures
        c.with_key(k, v).with_key(k, w) == c.with_key(k, w),
{
    match c {
        JsonV::Obj(es) => {
            lemma_entry_index(es, k);
            let i = entry_index(es, k);
            if i < 0 {
                let n = es.push((k, v));
                assert forall|j: int| 0 <= j < es.len() implies #[trigger] n[j].0 != k by {
                    assert(n[j] == es[j]);
                }
                lemma_entry_index_at(n, k, es.len() as int);
                assert(n.update(es.len() as int, (k, w)) =~= es.push((k, w)));
            } else {
                let n = es.update(i, (k, v));
                assert forall|j: int| 0 <= j < es.len() implies (#[trigger] es[j]).0 == n[j].0 by {}
                lemma_entry_index_same_keys(es, n, k);
                assert(n.update(i, (k, w)) =~= es.update(i, (k, w)));
            }
        },
        _ => {
            let n = seq![(k, v)];
            lemma_entry_index_at(n, k, 0);
            assert(n.update(0, (k, w)) =~= seq![(k, w)]);
        },
    }
}

/// Setting a key of an object to the value it holds changes nothing.
pub proof fn lemma_with_key_same(c: JsonV, k: Seq<char>, v: JsonV)
    requires
        c is Obj,
        c.get(k) == Some(v),
    ensures
        c.with_key(k, v) == c,
{
    if let JsonV::Obj(es) = c {
        lemma_entry_index(es, k);
        let i = entry_index(es, k);
        assert(es.update(i, (k, v)) =~= es);
    }
}

} // verus!
