//! JSON values as webhook payloads use them.

use vstd::prelude::*;
use vstd::string::StringExecFns;

use crate::provider::{steps, PathSegment, PathStep, MAX_PROVIDER_ARRAY_INDEX};
use crate::text::same_text;

verus! {

/// A JSON value, as a mathematical value. Objects list their entries.
#[verifier::ext_equal]
pub enum Json {
    Null,
    Str(Seq<char>),
    Array(Seq<Json>),
    Object(Seq<(Seq<char>, Json)>),
}

/// A JSON value holding what payload rendering reads and writes.
#[derive(Debug, PartialEq, Eq)]
pub enum JsonValue {
    Null,
    String(String),
    Array(Vec<JsonValue>),
    Object(Vec<(String, JsonValue)>),
}

/// The mathematical value of a JSON value.
pub open spec fn json_of(v: JsonValue) -> Json
    decreases v,
{
    match v {
        JsonValue::Null => Json::Null,
        JsonValue::String(s) => Json::Str(s@),
        JsonValue::Array(items) => Json::Array(json_items(items@)),
        JsonValue::Object(entries) => Json::Object(json_entries(entries@)),
    }
}

/// The models of a sequence of values (recursive form).
pub open spec fn json_items(s: Seq<JsonValue>) -> Seq<Json>
    decreases s,
{
    if s.len() == 0 {
        Seq::empty()
    } else {
        json_items(s.drop_last()).push(json_of(s.last()))
    }
}

/// The models of a sequence of object entries (recursive form).
pub open spec fn json_entries(s: Seq<(String, JsonValue)>) -> Seq<(Seq<char>, Json)>
    decreases s,
{
    if s.len() == 0 {
        Seq::empty()
    } else {
        json_entries(s.drop_last()).push((s.last().0@, json_of(s.last().1)))
    }
}

/// The models of a sequence of values.
pub open spec fn items_json(items: Seq<JsonValue>) -> Seq<Json> {
    Seq::new(items.len(), |i: int| json_of(items[i]))
}

/// The models of a sequence of object entries.
pub open spec fn entries_json(entries: Seq<(String, JsonValue)>) -> Seq<(Seq<char>, Json)> {
    Seq::new(entries.len(), |i: int| (entries[i].0@, json_of(entries[i].1)))
}

proof fn lemma_items(s: Seq<JsonValue>)
    ensures
        json_items(s) == items_json(s),
    decreases s.len(),
{
    if s.len() > 0 {
        lemma_items(s.drop_last());
        assert(json_items(s) =~= items_json(s));
    } else {
        assert(json_items(s) =~= items_json(s));
    }
}

proof fn lemma_entries(s: Seq<(String, JsonValue)>)
    ensures
        json_entries(s) == entries_json(s),
    decreases s.len(),
{
    if s.len() > 0 {
        lemma_entries(s.drop_last());
        assert(json_entries(s) =~= entries_json(s));
    } else {
        assert(json_entries(s) =~= entries_json(s));
    }
}

pub(crate) proof fn lemma_array_json(items: Vec<JsonValue>)
    ensures
        json_of(JsonValue::Array(items)) == Json::Array(items_json(items@)),
{
    lemma_items(items@);
}

pub(crate) proof fn lemma_object_json(entries: Vec<(String, JsonValue)>)
    ensures
        json_of(JsonValue::Object(entries)) == Json::Object(entries_json(entries@)),
{
    lemma_entries(entries@);
}

proof fn lemma_key_index_same_key(
    es: Seq<(Seq<char>, Json)>,
    k: Seq<char>,
    j: int,
    v: Json,
    i: int,
)
    requires
        0 <= j < es.len(),
        es[j].0 == k,
        0 <= i,
    ensures
        key_index(es.update(j, (k, v)), k, i) == key_index(es, k, i),
    decreases es.len() - i,
{
    if i < es.len() {
        lemma_key_index_same_key(es, k, j, v, i + 1);
    }
}

/// Error text when a path needs an object where another value is.
pub open spec fn not_object_text() -> Seq<char> {
    "path collides with non-object value"@
}

/// Error text when a path needs an array where another value is.
pub open spec fn not_array_text() -> Seq<char> {
    "path collides with non-array value"@
}

/// Error text for an index above the cap.
pub open spec fn index_bound_text() -> Seq<char> {
    "webhook provider path array index out of bounds"@
}

/// Error text for an empty path.
pub open spec fn missing_segment_text() -> Seq<char> {
    "missing segment"@
}

/// The items of an array, where `null` counts as an empty array.
pub open spec fn as_array(v: Json) -> Option<Seq<Json>> {
    match v {
        Json::Null => Some(Seq::empty()),
        Json::Array(items) => Some(items),
        _ => None,
    }
}

/// The entries of an object, where `null` counts as an empty object.
pub open spec fn as_object(v: Json) -> Option<Seq<(Seq<char>, Json)>> {
    match v {
        Json::Null => Some(Seq::empty()),
        Json::Object(entries) => Some(entries),
        _ => None,
    }
}

/// The container the next step needs, made from `v`.
pub open spec fn container_for(v: Json, next: PathStep) -> Result<Json, Seq<char>> {
    match next {
        PathStep::Index(_) => match as_array(v) {
            Some(items) => Ok(Json::Array(items)),
            None => Err(not_array_text()),
        },
        PathStep::Key(_) => match as_object(v) {
            Some(entries) => Ok(Json::Object(entries)),
            None => Err(not_object_text()),
        },
    }
}

/// Index of the first entry with key `k`, at or after `i`.
pub open spec fn key_index(entries: Seq<(Seq<char>, Json)>, k: Seq<char>, i: int) -> Option<int>
    decreases entries.len() - i,
{
    if i < 0 || i >= entries.len() {
        None
    } else if entries[i].0 == k {
        Some(i)
    } else {
        key_index(entries, k, i + 1)
    }
}

/// `Map::insert`: the entry for `k` now holds `v`; a new key goes last.
pub open spec fn with_entry(entries: Seq<(Seq<char>, Json)>, k: Seq<char>, v: Json) -> Seq<
    (Seq<char>, Json),
> {
    match key_index(entries, k, 0) {
        Some(i) => entries.update(i, (k, v)),
        None => entries.push((k, v)),
    }
}

/// The array grown with `null`s so that index `i` exists.
pub open spec fn padded(items: Seq<Json>, i: nat) -> Seq<Json> {
    if items.len() <= i {
        items + Seq::new((i + 1 - items.len()) as nat, |k: int| Json::Null)
    } else {
        items
    }
}

/// Writes `value` at `path` inside `current`, creating objects and arrays on the
/// way. When the last step is the key `value` and a label key is given, the
/// object also gets `label_key: label` unless it has that key already.
pub open spec fn insert_at(
    current: Json,
    path: Seq<PathStep>,
    value: Json,
    label_key: Option<Seq<char>>,
    label: Seq<char>,
) -> Result<Json, Seq<char>>
    decreases path.len(),
{
    if path.len() == 0 {
        Err(missing_segment_text())
    } else {
        let rest = path.drop_first();
        match path[0] {
            PathStep::Index(i) => if i > MAX_PROVIDER_ARRAY_INDEX {
                Err(index_bound_text())
            } else {
                match as_array(current) {
                    None => Err(not_array_text()),
                    Some(found) => {
                        let items = padded(found, i);
                        if rest.len() == 0 {
                            Ok(Json::Array(items.update(i as int, value)))
                        } else {
                            match container_for(items[i as int], rest[0]) {
                                Err(e) => Err(e),
                                Ok(child) => match insert_at(child, rest, value, label_key, label) {
                                    Err(e) => Err(e),
                                    Ok(c) => Ok(Json::Array(items.update(i as int, c))),
                                },
                            }
                        }
                    },
                }
            },
            PathStep::Key(k) => match as_object(current) {
                None => Err(not_object_text()),
                Some(entries) => if rest.len() == 0 {
                    let written = with_entry(entries, k, value);
                    if k == "value"@ && label_key is Some && key_index(written, label_key->0, 0) is None {
                        Ok(Json::Object(written.push((label_key->0, Json::Str(label)))))
                    } else {
                        Ok(Json::Object(written))
                    }
                } else {
                    let existing = match key_index(entries, k, 0) {
                        Some(j) => entries[j].1,
                        None => Json::Null,
                    };
                    match container_for(existing, rest[0]) {
                        Err(e) => Err(e),
                        Ok(child) => match insert_at(child, rest, value, label_key, label) {
                            Err(e) => Err(e),
                            Ok(c) => Ok(Json::Object(with_entry(entries, k, c))),
                        },
                    }
                },
            },
        }
    }
}

/// The value reached by following `path` from `v`, if every step exists.
pub open spec fn json_at(v: Json, path: Seq<PathStep>) -> Option<Json>
    decreases path.len(),
{
    if path.len() == 0 {
        Some(v)
    } else {
        match path[0] {
            PathStep::Index(i) => match v {
                Json::Array(items) => if i < items.len() {
                    json_at(items[i as int], path.drop_first())
                } else {
                    None
                },
                _ => None,
            },
            PathStep::Key(k) => match v {
                Json::Object(entries) => match key_index(entries, k, 0) {
                    Some(j) => json_at(entries[j].1, path.drop_first()),
                    None => None,
                },
                _ => None,
            },
        }
    }
}

/// `p` is `q` or a path that leads into `q`.
pub open spec fn is_step_prefix(p: Seq<PathStep>, q: Seq<PathStep>) -> bool {
    p.len() <= q.len() && q.take(p.len() as int) == p
}

/// Neither path is the other or leads into it.
pub open spec fn independent_paths(p: Seq<PathStep>, q: Seq<PathStep>) -> bool {
    !is_step_prefix(p, q) && !is_step_prefix(q, p)
}

/// The first entry with key `k` at or after `i` is the one `key_index` gives.
proof fn lemma_key_index_first(es: Seq<(Seq<char>, Json)>, k: Seq<char>, i: int)
    requires
        0 <= i,
    ensures
        match key_index(es, k, i) {
            Some(j) => i <= j < es.len() && es[j].0 == k && forall|m: int| i <= m < j ==> es[m].0 != k,
            None => forall|m: int| i <= m < es.len() ==> es[m].0 != k,
        },
    decreases es.len() - i,
{
    if i < es.len() && es[i].0 != k {
        lemma_key_index_first(es, k, i + 1);
    }
}

/// `key_index` is determined by where `k` first occurs.
proof fn lemma_key_index_is_first(es: Seq<(Seq<char>, Json)>, k: Seq<char>, j: int)
    requires
        0 <= j < es.len(),
        es[j].0 == k,
        forall|m: int| 0 <= m < j ==> es[m].0 != k,
    ensures
        key_index(es, k, 0) == Some(j),
{
    lemma_key_index_first(es, k, 0);
    match key_index(es, k, 0) {
        Some(x) => {
            if x < j {
                assert(es[x].0 != k);
            } else if x > j {
                assert(es[j].0 != k);
            }
        },
        None => {
            assert(es[j].0 != k);
        },
    }
}

/// `key_index` is `None` when no entry has key `k`.
proof fn lemma_key_index_absent(es: Seq<(Seq<char>, Json)>, k: Seq<char>)
    requires
        forall|m: int| 0 <= m < es.len() ==> es[m].0 != k,
    ensures
        key_index(es, k, 0) is None,
{
    lemma_key_index_first(es, k, 0);
    if let Some(x) = key_index(es, k, 0) {
        assert(es[x].0 != k);
    }
}

/// Writing key `k` keeps where every other key is found and what it holds,
/// and makes `k` hold the new value.
proof fn lemma_with_entry_lookup(es: Seq<(Seq<char>, Json)>, k: Seq<char>, v: Json, k2: Seq<char>)
    ensures
        k2 == k ==> (key_index(with_entry(es, k, v), k, 0) matches Some(j) && with_entry(es, k, v)[j].1 == v),
        k2 != k ==> key_index(with_entry(es, k, v), k2, 0) == key_index(es, k2, 0),
        k2 != k ==> (key_index(es, k2, 0) matches Some(j) ==> with_entry(es, k, v)[j] == es[j]),
{
    lemma_key_index_first(es, k, 0);
    lemma_key_index_first(es, k2, 0);
    let w = with_entry(es, k, v);
    match key_index(es, k, 0) {
        Some(u) => {
            assert(w == es.update(u, (k, v)));
            if k2 == k {
                lemma_key_index_is_first(w, k, u);
            } else {
                match key_index(es, k2, 0) {
                    Some(j) => {
                        assert(j != u);
                        lemma_key_index_is_first(w, k2, j);
                    },
                    None => {
                        lemma_key_index_absent(w, k2);
                    },
                }
            }
        },
        None => {
            assert(w == es.push((k, v)));
            if k2 == k {
                lemma_key_index_is_first(w, k, es.len() as int);
            } else {
                match key_index(es, k2, 0) {
                    Some(j) => {
                        lemma_key_index_is_first(w, k2, j);
                    },
                    None => {
                        lemma_key_index_absent(w, k2);
                    },
                }
            }
        },
    }
}

/// Appending an entry keeps where every key already present is found.
proof fn lemma_push_lookup(es: Seq<(Seq<char>, Json)>, e: (Seq<char>, Json), k2: Seq<char>)
    requires
        key_index(es, k2, 0) is Some,
    ensures
        key_index(es.push(e), k2, 0) == key_index(es, k2, 0),
{
    lemma_key_index_first(es, k2, 0);
    let j = key_index(es, k2, 0)->0;
    lemma_key_index_is_first(es.push(e), k2, j);
}

proof fn lemma_padded_len(items: Seq<Json>, i: nat)
    ensures
        padded(items, i).len() > i,
        padded(items, i).len() >= items.len(),
        forall|m: int| 0 <= m < items.len() ==> #[trigger] padded(items, i)[m] == items[m],
        forall|m: int| items.len() <= m < padded(items, i).len() ==> #[trigger] padded(items, i)[m] is Null,
{
}

/// A successful write can be read back at its path.
pub proof fn lemma_insert_reads_back(
    cur: Json,
    path: Seq<PathStep>,
    value: Json,
    label_key: Option<Seq<char>>,
    label: Seq<char>,
)
    requires
        insert_at(cur, path, value, label_key, label) is Ok,
    ensures
        json_at(insert_at(cur, path, value, label_key, label)->Ok_0, path) == Some(value),
    decreases path.len(),
{
    let out = insert_at(cur, path, value, label_key, label)->Ok_0;
    let rest = path.drop_first();
    match path[0] {
        PathStep::Index(i) => {
            let found = as_array(cur)->0;
            let items = padded(found, i);
            lemma_padded_len(found, i);
            if rest.len() == 0 {
                assert(out == Json::Array(items.update(i as int, value)));
                assert(json_at(value, rest) == Some(value));
            } else {
                let child = container_for(items[i as int], rest[0])->Ok_0;
                let c = insert_at(child, rest, value, label_key, label)->Ok_0;
                lemma_insert_reads_back(child, rest, value, label_key, label);
                assert(out == Json::Array(items.update(i as int, c)));
            }
        },
        PathStep::Key(k) => {
            let entries = as_object(cur)->0;
            if rest.len() == 0 {
                let written = with_entry(entries, k, value);
                lemma_with_entry_lookup(entries, k, value, k);
                lemma_key_index_first(written, k, 0);
                let j = key_index(written, k, 0)->0;
                assert(json_at(value, rest) == Some(value));
                if k == "value"@ && label_key is Some && key_index(written, label_key->0, 0) is None {
                    let pushed = written.push((label_key->0, Json::Str(label)));
                    lemma_push_lookup(written, (label_key->0, Json::Str(label)), k);
                    assert(pushed[j] == written[j]);
                    assert(out == Json::Object(pushed));
                } else {
                    assert(out == Json::Object(written));
                }
            } else {
                let existing = match key_index(entries, k, 0) {
                    Some(j) => entries[j].1,
                    None => Json::Null,
                };
                let child = container_for(existing, rest[0])->Ok_0;
                let c = insert_at(child, rest, value, label_key, label)->Ok_0;
                lemma_insert_reads_back(child, rest, value, label_key, label);
                lemma_with_entry_lookup(entries, k, c, k);
                assert(out == Json::Object(with_entry(entries, k, c)));
            }
        },
    }
}

proof fn lemma_independent_tails(p: Seq<PathStep>, q: Seq<PathStep>)
    requires
        independent_paths(p, q),
    ensures
        p.len() > 0,
        q.len() > 0,
        p[0] == q[0] ==> independent_paths(p.drop_first(), q.drop_first()),
{
    if p.len() == 0 {
        assert(q.take(0) =~= p);
    }
    if q.len() == 0 {
        assert(p.take(0) =~= q);
    }
    if p.len() > 0 && q.len() > 0 && p[0] == q[0] {
        let p1 = p.drop_first();
        let q1 = q.drop_first();
        if is_step_prefix(p1, q1) {
            assert(q.take(p.len() as int) =~= seq![q[0]] + q1.take(p1.len() as int));
            assert(p =~= seq![p[0]] + p1);
        }
        if is_step_prefix(q1, p1) {
            assert(p.take(q.len() as int) =~= seq![p[0]] + p1.take(q1.len() as int));
            assert(q =~= seq![q[0]] + q1);
        }
    }
}

/// A successful write leaves in place every value whose path is independent
/// of the written one: neither path leads into the other.
pub proof fn lemma_insert_keeps_independent(
    cur: Json,
    q: Seq<PathStep>,
    value: Json,
    label_key: Option<Seq<char>>,
    label: Seq<char>,
    p: Seq<PathStep>,
    x: Json,
)
    requires
        insert_at(cur, q, value, label_key, label) is Ok,
        json_at(cur, p) == Some(x),
        independent_paths(p, q),
    ensures
        json_at(insert_at(cur, q, value, label_key, label)->Ok_0, p) == Some(x),
    decreases q.len(),
{
    lemma_independent_tails(p, q);
    let out = insert_at(cur, q, value, label_key, label)->Ok_0;
    let q1 = q.drop_first();
    let p1 = p.drop_first();
    match (q[0], p[0]) {
        (PathStep::Index(i), PathStep::Index(i2)) => {
            let found = as_array(cur)->0;
            assert(cur == Json::Array(found));
            assert(i2 < found.len());
            let items = padded(found, i);
            lemma_padded_len(found, i);
            assert(items[i2 as int] == found[i2 as int]);
            if i == i2 {
                assert(q1.len() > 0) by {
                    if q1.len() == 0 {
                        assert(p.take(q.len() as int) =~= q);
                    }
                }
                assert(p1.len() > 0) by {
                    if p1.len() == 0 {
                        assert(q.take(p.len() as int) =~= p);
                    }
                }
                let e = items[i as int];
                let child = container_for(e, q1[0])->Ok_0;
                assert(json_at(e, p1) == Some(x));
                assert(child == e);
                let c = insert_at(child, q1, value, label_key, label)->Ok_0;
                lemma_insert_keeps_independent(child, q1, value, label_key, label, p1, x);
                assert(out == Json::Array(items.update(i as int, c)));
            } else if q1.len() == 0 {
                assert(out == Json::Array(items.update(i as int, value)));
            } else {
                let child = container_for(items[i as int], q1[0])->Ok_0;
                let c = insert_at(child, q1, value, label_key, label)->Ok_0;
                assert(out == Json::Array(items.update(i as int, c)));
            }
        },
        (PathStep::Key(k), PathStep::Key(k2)) => {
            let entries = as_object(cur)->0;
            assert(cur == Json::Object(entries));
            lemma_key_index_first(entries, k2, 0);
            let j2 = key_index(entries, k2, 0)->0;
            assert(json_at(entries[j2].1, p1) == Some(x));
            if k == k2 {
                assert(q1.len() > 0) by {
                    if q1.len() == 0 {
                        assert(p.take(q.len() as int) =~= q);
                    }
                }
                assert(p1.len() > 0) by {
                    if p1.len() == 0 {
                        assert(q.take(p.len() as int) =~= p);
                    }
                }
                let e = entries[j2].1;
                let child = container_for(e, q1[0])->Ok_0;
                assert(child == e);
                let c = insert_at(child, q1, value, label_key, label)->Ok_0;
                lemma_insert_keeps_independent(child, q1, value, label_key, label, p1, x);
                lemma_with_entry_lookup(entries, k, c, k);
                assert(out == Json::Object(with_entry(entries, k, c)));
            } else if q1.len() == 0 {
                let written = with_entry(entries, k, value);
                lemma_with_entry_lookup(entries, k, value, k2);
                lemma_key_index_first(written, k2, 0);
                if k == "value"@ && label_key is Some && key_index(written, label_key->0, 0) is None {
                    let pushed = written.push((label_key->0, Json::Str(label)));
                    lemma_push_lookup(written, (label_key->0, Json::Str(label)), k2);
                    assert(pushed[j2] == written[j2]);
                    assert(out == Json::Object(pushed));
                } else {
                    assert(out == Json::Object(written));
                }
            } else {
                let existing = match key_index(entries, k, 0) {
                    Some(j) => entries[j].1,
                    None => Json::Null,
                };
                let child = container_for(existing, q1[0])->Ok_0;
                let c = insert_at(child, q1, value, label_key, label)->Ok_0;
                lemma_with_entry_lookup(entries, k, c, k2);
                assert(out == Json::Object(with_entry(entries, k, c)));
            }
        },
        (PathStep::Index(_), PathStep::Key(_)) => {
            assert(as_array(cur) is None);
        },
        (PathStep::Key(_), PathStep::Index(_)) => {
            assert(as_object(cur) is None);
        },
    }
}

/// `v` is the container a step needs: an array for an index, an object for a key.
pub open spec fn fits_step(v: Json, s: PathStep) -> bool {
    match s {
        PathStep::Index(_) => v is Array,
        PathStep::Key(_) => v is Object,
    }
}

/// An index step is at most `MAX_PROVIDER_ARRAY_INDEX`.
pub open spec fn index_in_bounds(s: PathStep) -> bool {
    match s {
        PathStep::Index(n) => n <= MAX_PROVIDER_ARRAY_INDEX,
        PathStep::Key(_) => true,
    }
}

/// `r` is where a write at `q` puts the label: beside the key `value` that ends `q`.
pub open spec fn label_slot(q: Seq<PathStep>, r: Seq<PathStep>, label_key: Option<Seq<char>>) -> bool {
    &&& label_key is Some
    &&& q.len() > 0
    &&& q.last() == PathStep::Key("value"@)
    &&& r.len() == q.len()
    &&& r.take(q.len() - 1) == q.take(q.len() - 1)
    &&& r.last() == PathStep::Key(label_key->0)
}

/// What a write at `q` can leave at `r`: a container on the way that fits the
/// next step, the written value itself, or the label beside it.
pub open spec fn left_by_write(q: Seq<PathStep>, r: Seq<PathStep>, v: Json, label_key: Option<Seq<char>>) -> bool {
    ||| (r.len() < q.len() && q.take(r.len() as int) == r && fits_step(v, q[r.len() as int]))
    ||| r == q
    ||| label_slot(q, r, label_key)
}

/// What `container_for` makes: a container that fits the step, `v` itself
/// unless `v` is `null`, and an empty one for `null`.
proof fn lemma_container_for(v: Json, next: PathStep, s: Seq<PathStep>)
    requires
        container_for(v, next) is Ok,
    ensures
        fits_step(container_for(v, next)->Ok_0, next),
        !(v is Null) ==> container_for(v, next)->Ok_0 == v,
        v is Null && s.len() > 0 ==> json_at(container_for(v, next)->Ok_0, s) is None,
{
}

/// Both paths begin with the same step: what a write along the tail leaves
/// is what a write along the whole path leaves.
proof fn lemma_left_by_write_cons(q: Seq<PathStep>, r: Seq<PathStep>, v: Json, label_key: Option<Seq<char>>)
    requires
        q.len() > 0,
        r.len() > 0,
        q[0] == r[0],
        left_by_write(q.drop_first(), r.drop_first(), v, label_key),
    ensures
        left_by_write(q, r, v, label_key),
{
    let q1 = q.drop_first();
    let r1 = r.drop_first();
    assert(q =~= seq![q[0]] + q1);
    assert(r =~= seq![r[0]] + r1);
    if r1.len() < q1.len() && q1.take(r1.len() as int) == r1 && fits_step(v, q1[r1.len() as int]) {
        assert(q.take(r.len() as int) =~= seq![q[0]] + q1.take(r1.len() as int));
        assert(q[r.len() as int] == q1[r1.len() as int]);
    } else if r1 == q1 {
        assert(r =~= q);
    } else {
        assert(label_slot(q1, r1, label_key));
        assert(q.last() == q1.last());
        assert(r.last() == r1.last());
        assert(r.take(q.len() - 1) =~= seq![r[0]] + r1.take(q1.len() - 1));
        assert(q.take(q.len() - 1) =~= seq![q[0]] + q1.take(q1.len() - 1));
    }
}

/// Every value found after a write was there before, is a `null` the write
/// padded an array with, or is one that the write leaves (`left_by_write`).
pub proof fn lemma_insert_leaves(
    cur: Json,
    q: Seq<PathStep>,
    value: Json,
    label_key: Option<Seq<char>>,
    label: Seq<char>,
    r: Seq<PathStep>,
)
    requires
        insert_at(cur, q, value, label_key, label) is Ok,
        value is Str,
        json_at(insert_at(cur, q, value, label_key, label)->Ok_0, r) is Some,
    ensures
        ({
            let v = json_at(insert_at(cur, q, value, label_key, label)->Ok_0, r)->Some_0;
            json_at(cur, r) == Some(v) || v is Null || left_by_write(q, r, v, label_key)
        }),
    decreases q.len(),
{
    let out = insert_at(cur, q, value, label_key, label)->Ok_0;
    let v = json_at(out, r)->Some_0;
    let rest = q.drop_first();
    if r.len() == 0 {
        assert(q.take(0) =~= r);
        assert(v == out);
        return;
    }
    let r1 = r.drop_first();
    match q[0] {
        PathStep::Index(i) => {
            let found = as_array(cur)->0;
            let items = padded(found, i);
            lemma_padded_len(found, i);
            if rest.len() == 0 {
                assert(out == Json::Array(items.update(i as int, value)));
            }
            let x = if rest.len() == 0 {
                value
            } else {
                insert_at(container_for(items[i as int], rest[0])->Ok_0, rest, value, label_key, label)->Ok_0
            };
            let upd = items.update(i as int, x);
            assert(out == Json::Array(upd));
            match r[0] {
                PathStep::Key(_) => {
                    assert(json_at(out, r) is None);
                },
                PathStep::Index(m) => {
                    assert(m < upd.len());
                    assert(json_at(out, r) == json_at(upd[m as int], r1));
                    if m == i {
                        if rest.len() == 0 {
                            if r1.len() > 0 {
                                assert(json_at(value, r1) is None);
                            }
                            assert(r =~= q);
                        } else {
                            let existing = items[i as int];
                            let child = container_for(existing, rest[0])->Ok_0;
                            lemma_container_for(existing, rest[0], r1);
                            lemma_insert_leaves(child, rest, value, label_key, label, r1);
                            if json_at(child, r1) == Some(v) {
                                if existing is Null {
                                    assert(r1.len() == 0);
                                    assert(v == child);
                                    assert(q.take(1) =~= r);
                                } else {
                                    assert(i < found.len());
                                    assert(cur == Json::Array(found));
                                    assert(json_at(cur, r) == json_at(found[i as int], r1));
                                }
                            } else if !(v is Null) {
                                lemma_left_by_write_cons(q, r, v, label_key);
                            }
                        }
                    } else {
                        assert(upd[m as int] == items[m as int]);
                        if m < found.len() {
                            assert(cur == Json::Array(found));
                            assert(json_at(cur, r) == json_at(found[m as int], r1));
                        } else {
                            assert(items[m as int] is Null);
                            if r1.len() > 0 {
                                assert(json_at(items[m as int], r1) is None);
                            }
                        }
                    }
                },
            }
        },
        PathStep::Key(k) => {
            let entries = as_object(cur)->0;
            match r[0] {
                PathStep::Index(_) => {
                    if rest.len() == 0 {
                        let written = with_entry(entries, k, value);
                        if k == "value"@ && label_key is Some && key_index(written, label_key->0, 0) is None {
                            assert(out == Json::Object(written.push((label_key->0, Json::Str(label)))));
                        } else {
                            assert(out == Json::Object(written));
                        }
                    } else {
                        let existing = match key_index(entries, k, 0) {
                            Some(j) => entries[j].1,
                            None => Json::Null,
                        };
                        let child = container_for(existing, rest[0])->Ok_0;
                        let c = insert_at(child, rest, value, label_key, label)->Ok_0;
                        assert(out == Json::Object(with_entry(entries, k, c)));
                    }
                    assert(json_at(out, r) is None);
                },
                PathStep::Key(k2) => {
                    if rest.len() == 0 {
                        let written = with_entry(entries, k, value);
                        lemma_with_entry_lookup(entries, k, value, k2);
                        lemma_key_index_first(written, k2, 0);
                        lemma_key_index_first(entries, k2, 0);
                        let pushes = k == "value"@ && label_key is Some && key_index(written, label_key->0, 0) is None;
                        let lab = (label_key->0, Json::Str(label));
                        let es = if pushes { written.push(lab) } else { written };
                        assert(out == Json::Object(es));
                        if k2 == k {
                            let j0 = key_index(written, k, 0)->0;
                            if pushes {
                                lemma_push_lookup(written, lab, k);
                            }
                            assert(es[j0] == written[j0]);
                            assert(v == json_at(value, r1)->Some_0);
                            if r1.len() > 0 {
                                assert(json_at(value, r1) is None);
                            }
                            assert(r =~= q);
                        } else if pushes && k2 == label_key->0 {
                            lemma_key_index_first(written, label_key->0, 0);
                            lemma_key_index_is_first(es, k2, written.len() as int);
                            assert(es[written.len() as int] == lab);
                            if r1.len() > 0 {
                                assert(json_at(Json::Str(label), r1) is None);
                            }
                            assert(r.take(0) =~= q.take(0));
                            assert(label_slot(q, r, label_key));
                        } else {
                            match key_index(written, k2, 0) {
                                Some(j) => {
                                    if pushes {
                                        lemma_push_lookup(written, lab, k2);
                                    }
                                    assert(es[j] == written[j]);
                                    assert(written[j] == entries[j]);
                                    assert(cur == Json::Object(entries));
                                    assert(json_at(cur, r) == json_at(entries[j].1, r1));
                                },
                                None => {
                                    assert forall|m: int| 0 <= m < es.len() implies es[m].0 != k2 by {
                                        if m < written.len() {
                                            assert(es[m] == written[m]);
                                        }
                                    }
                                    lemma_key_index_absent(es, k2);
                                },
                            }
                        }
                    } else {
                        let existing = match key_index(entries, k, 0) {
                            Some(j) => entries[j].1,
                            None => Json::Null,
                        };
                        let child = container_for(existing, rest[0])->Ok_0;
                        let c = insert_at(child, rest, value, label_key, label)->Ok_0;
                        let w = with_entry(entries, k, c);
                        assert(out == Json::Object(w));
                        lemma_with_entry_lookup(entries, k, c, k2);
                        lemma_key_index_first(entries, k2, 0);
                        if k2 == k {
                            let j0 = key_index(w, k, 0)->0;
                            assert(json_at(out, r) == json_at(c, r1));
                            lemma_container_for(existing, rest[0], r1);
                            lemma_insert_leaves(child, rest, value, label_key, label, r1);
                            if json_at(child, r1) == Some(v) {
                                if existing is Null {
                                    assert(r1.len() == 0);
                                    assert(v == child);
                                    assert(q.take(1) =~= r);
                                } else {
                                    let j = key_index(entries, k, 0)->0;
                                    assert(cur == Json::Object(entries));
                                    assert(json_at(cur, r) == json_at(entries[j].1, r1));
                                }
                            } else if !(v is Null) {
                                lemma_left_by_write_cons(q, r, v, label_key);
                            }
                        } else {
                            let j = key_index(entries, k2, 0)->0;
                            assert(w[j] == entries[j]);
                            assert(cur == Json::Object(entries));
                            assert(json_at(cur, r) == json_at(entries[j].1, r1));
                        }
                    }
                },
            }
        },
    }
}

/// A write succeeds when every index is within bounds and every value already
/// on its way is `null` or the container the next step needs.
pub proof fn lemma_insert_ok(
    cur: Json,
    q: Seq<PathStep>,
    value: Json,
    label_key: Option<Seq<char>>,
    label: Seq<char>,
)
    requires
        q.len() > 0,
        forall|j: int| 0 <= j < q.len() ==> index_in_bounds(#[trigger] q[j]),
        cur is Null || fits_step(cur, q[0]),
        forall|j: int|
            1 <= j < q.len() && (#[trigger] json_at(cur, q.take(j))) is Some ==> (json_at(cur, q.take(j))->Some_0 is Null
                || fits_step(json_at(cur, q.take(j))->Some_0, q[j])),
    ensures
        insert_at(cur, q, value, label_key, label) is Ok,
    decreases q.len(),
{
    let rest = q.drop_first();
    assert(index_in_bounds(q[0]));
    if rest.len() == 0 {
        return;
    }
    assert forall|j: int| 0 <= j < rest.len() implies index_in_bounds(#[trigger] rest[j]) by {
        assert(rest[j] == q[j + 1]);
    }
    let existing = match q[0] {
        PathStep::Index(i) => padded(as_array(cur)->0, i)[i as int],
        PathStep::Key(k) => match key_index(as_object(cur)->0, k, 0) {
            Some(j) => (as_object(cur)->0)[j].1,
            None => Json::Null,
        },
    };
    if !(existing is Null) {
        let t1 = q.take(1);
        assert(t1.drop_first() =~= Seq::<PathStep>::empty());
        assert(t1[0] == q[0]);
        match q[0] {
            PathStep::Index(i) => {
                let found = as_array(cur)->0;
                lemma_padded_len(found, i);
                assert(i < found.len());
                assert(cur == Json::Array(found));
                assert(existing == found[i as int]);
                assert(json_at(existing, t1.drop_first()) == Some(existing));
                assert(json_at(cur, t1) == Some(existing));
            },
            PathStep::Key(k) => {
                let entries = as_object(cur)->0;
                assert(cur == Json::Object(entries));
                assert(json_at(existing, t1.drop_first()) == Some(existing));
                assert(json_at(cur, t1) == Some(existing));
            },
        }
        assert(json_at(cur, q.take(1)) is Some);
    }
    assert(rest[0] == q[1]);
    assert(container_for(existing, rest[0]) is Ok);
    let child = container_for(existing, rest[0])->Ok_0;
    assert forall|j: int|
        1 <= j < rest.len() && (#[trigger] json_at(child, rest.take(j))) is Some implies (json_at(
            child,
            rest.take(j),
        )->Some_0 is Null || fits_step(json_at(child, rest.take(j))->Some_0, rest[j])) by {
        lemma_container_for(existing, rest[0], rest.take(j));
        if !(existing is Null) {
            let tj = q.take(j + 1);
            assert(tj.drop_first() =~= rest.take(j));
            assert(tj[0] == q[0]);
            assert(rest[j] == q[j + 1]);
            match q[0] {
                PathStep::Index(i) => {
                    let found = as_array(cur)->0;
                    lemma_padded_len(found, i);
                    assert(i < found.len());
                    assert(cur == Json::Array(found));
                    assert(json_at(cur, tj) == json_at(existing, rest.take(j)));
                },
                PathStep::Key(k) => {
                    let entries = as_object(cur)->0;
                    assert(cur == Json::Object(entries));
                    assert(json_at(cur, tj) == json_at(existing, rest.take(j)));
                },
            }
        }
    }
    lemma_container_for(existing, rest[0], rest);
    lemma_insert_ok(child, rest, value, label_key, label);
}

/// The items of an array value (`null` gives none), or the non-array error.
fn into_array(v: JsonValue) -> (r: Result<Vec<JsonValue>, String>)
    ensures
        match r {
            Ok(items) => as_array(json_of(v)) == Some(items_json(items@)),
            Err(e) => as_array(json_of(v)) is None && e@ == not_array_text(),
        },
{
    match v {
        JsonValue::Null => {
            let items: Vec<JsonValue> = Vec::new();
            assert(items_json(items@) =~= Seq::<Json>::empty());
            Ok(items)
        },
        JsonValue::Array(items) => {
            proof {
                lemma_array_json(items);
            }
            Ok(items)
        },
        _ => Err("path collides with non-array value".to_owned()),
    }
}

/// The entries of an object value (`null` gives none), or the non-object error.
fn into_object(v: JsonValue) -> (r: Result<Vec<(String, JsonValue)>, String>)
    ensures
        match r {
            Ok(entries) => as_object(json_of(v)) == Some(entries_json(entries@)),
            Err(e) => as_object(json_of(v)) is None && e@ == not_object_text(),
        },
{
    match v {
        JsonValue::Null => {
            let entries: Vec<(String, JsonValue)> = Vec::new();
            assert(entries_json(entries@) =~= Seq::<(Seq<char>, Json)>::empty());
            Ok(entries)
        },
        JsonValue::Object(entries) => {
            proof {
                lemma_object_json(entries);
            }
            Ok(entries)
        },
        _ => Err("path collides with non-object value".to_owned()),
    }
}

/// The container the next segment needs.
fn container_value(v: JsonValue, next: &PathSegment) -> (r: Result<JsonValue, String>)
    ensures
        match r {
            Ok(c) => container_for(json_of(v), next@) == Ok::<Json, Seq<char>>(json_of(c)),
            Err(e) => container_for(json_of(v), next@) == Err::<Json, Seq<char>>(e@),
        },
{
    match next {
        PathSegment::Index(_) => {
            let items = into_array(v)?;
            proof {
                lemma_array_json(items);
            }
            Ok(JsonValue::Array(items))
        },
        PathSegment::Key(_) => {
            let entries = into_object(v)?;
            proof {
                lemma_object_json(entries);
            }
            Ok(JsonValue::Object(entries))
        },
    }
}

/// Position of the entry with key `k`, if any.
fn find_key(entries: &Vec<(String, JsonValue)>, k: &str) -> (r: Option<usize>)
    ensures
        match r {
            Some(i) => i < entries@.len() && entries@[i as int].0@ == k@ && key_index(entries_json(entries@), k@, 0) == Some(
                i as int,
            ),
            None => key_index(entries_json(entries@), k@, 0) is None,
        },
{
    let ghost es = entries_json(entries@);
    let mut i: usize = 0;
    while i < entries.len()
        invariant
            es == entries_json(entries@),
            i <= entries@.len(),
            key_index(es, k@, 0) == key_index(es, k@, i as int),
        decreases entries@.len() - i,
    {
        assert(es[i as int].0 == entries@[i as int].0@);
        if same_text(entries[i].0.as_str(), k) {
            return Some(i);
        }
        i = i + 1;
    }
    None
}

/// Replaces the `i`-th item.
fn replace_item(items: &mut Vec<JsonValue>, i: usize, v: JsonValue)
    requires
        i < old(items)@.len(),
    ensures
        items_json(final(items)@) == items_json(old(items)@).update(i as int, json_of(v)),
{
    let _ = items.remove(i);
    items.insert(i, v);
    assert(items_json(items@) =~= items_json(old(items)@).update(i as int, json_of(v)));
}

/// Sets the entry for `k` to `v`, as `Map::insert` does.
fn set_entry(entries: &mut Vec<(String, JsonValue)>, k: &str, v: JsonValue)
    ensures
        entries_json(final(entries)@) == with_entry(entries_json(old(entries)@), k@, json_of(v)),
{
    match find_key(entries, k) {
        Some(i) => {
            let _ = entries.remove(i);
            entries.insert(i, (k.to_owned(), v));
            assert(entries_json(entries@) =~= entries_json(old(entries)@).update(
                i as int,
                (k@, json_of(v)),
            ));
        },
        None => {
            entries.push((k.to_owned(), v));
            assert(entries_json(entries@) =~= entries_json(old(entries)@).push((k@, json_of(v))));
        },
    }
}

/// Executable `insert_at`.
pub fn insert_value(
    current: JsonValue,
    path: &[PathSegment],
    value: JsonValue,
    label_key: Option<&str>,
    label: &str,
) -> (r: Result<JsonValue, String>)
    ensures
        ({
            let lk = match label_key {
                Some(k) => Some(k@),
                None => None::<Seq<char>>,
            };
            match r {
                Ok(v) => insert_at(json_of(current), steps(path@), json_of(value), lk, label@)
                    == Ok::<Json, Seq<char>>(json_of(v)),
                Err(e) => insert_at(json_of(current), steps(path@), json_of(value), lk, label@)
                    == Err::<Json, Seq<char>>(e@),
            }
        }),
    decreases path@.len(),
{
    let ghost lk = match label_key {
        Some(k) => Some(k@),
        None => None::<Seq<char>>,
    };
    let ghost full = steps(path@);
    if path.len() == 0 {
        return Err("missing segment".to_owned());
    }
    let rest = &path[1..path.len()];
    assert(steps(rest@) =~= full.drop_first());
    match &path[0] {
        PathSegment::Index(index) => {
            let i: usize = *index;
            if i > MAX_PROVIDER_ARRAY_INDEX {
                return Err("webhook provider path array index out of bounds".to_owned());
            }
            let mut items = into_array(current)?;
            let ghost found = items_json(items@);
            if items.len() <= i {
            while items.len() <= i
                invariant
                    i <= MAX_PROVIDER_ARRAY_INDEX,
                    found.len() <= items@.len(),
                    items@.len() <= i + 1,
                    items_json(items@) =~= found + Seq::new(
                        (items@.len() - found.len()) as nat,
                        |k: int| Json::Null,
                    ),
                decreases i + 1 - items@.len(),
            {
                let ghost prev = items@;
                items.push(JsonValue::Null);
                assert(items_json(items@) =~= items_json(prev).push(Json::Null));
                assert(items_json(items@) =~= found + Seq::new(
                    (items@.len() - found.len()) as nat,
                    |k: int| Json::Null,
                ));
            }
            }
            assert(items_json(items@) =~= padded(found, i as nat));
            if rest.len() == 0 {
                replace_item(&mut items, i, value);
                proof {
                    lemma_array_json(items);
                }
                return Ok(JsonValue::Array(items));
            }
            let existing = items.remove(i);
            let ghost after_remove = items@;
            let child = container_value(existing, &rest[0])?;
            let c = insert_value(child, rest, value, label_key, label)?;
            let ghost cj = json_of(c);
            items.insert(i, c);
            assert(items_json(items@) =~= padded(found, i as nat).update(i as int, cj));
            proof {
                lemma_array_json(items);
            }
            Ok(JsonValue::Array(items))
        },
        PathSegment::Key(key) => {
            let mut entries = into_object(current)?;
            let ghost es = entries_json(entries@);
            if rest.len() == 0 {
                set_entry(&mut entries, key.as_str(), value);
                proof {
                    reveal_strlit("value");
                }
                if same_text(key.as_str(), "value") {
                    if let Some(lkey) = label_key {
                        if find_key(&entries, lkey).is_none() {
                            let ghost before = entries@;
                            entries.push((lkey.to_owned(), JsonValue::String(label.to_owned())));
                            assert(entries_json(entries@) =~= entries_json(before).push(
                                (lkey@, Json::Str(label@)),
                            ));
                        }
                    }
                }
                proof {
                    lemma_object_json(entries);
                }
                return Ok(JsonValue::Object(entries));
            }
            let existing = match find_key(&entries, key.as_str()) {
                Some(j) => {
                    let (_, v) = entries.remove(j);
                    let ghost removed = entries@;
                    entries.insert(j, (key.clone(), JsonValue::Null));
                    assert(entries_json(entries@) =~= es.update(j as int, (key@, Json::Null)));
                    proof {
                        lemma_key_index_same_key(es, key@, j as int, Json::Null, 0);
                    }
                    v
                },
                None => JsonValue::Null,
            };
            assert(json_of(existing) == match key_index(es, key@, 0) {
                Some(j) => es[j].1,
                None => Json::Null,
            });
            let ghost mid = entries_json(entries@);
            let child = container_value(existing, &rest[0])?;
            let c = insert_value(child, rest, value, label_key, label)?;
            let ghost cj = json_of(c);
            set_entry(&mut entries, key.as_str(), c);
            assert(with_entry(mid, key@, cj) =~= with_entry(es, key@, cj));
            proof {
                lemma_object_json(entries);
            }
            Ok(JsonValue::Object(entries))
        },
    }
}

} // verus!
