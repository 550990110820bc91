//! JSON values as the broker sees them: opaque payloads, except for the
//! top-level entries of an object, which `patch` merges.
use vstd::prelude::*;

verus! {

/// `serde_json::Value`, carried through the broker as an opaque value.
#[verifier::external_type_specification]
#[verifier::external_body]
pub struct ExValue(serde_json::Value);

/// What a JSON value holds at its top level when it is an object: each key
/// with its value. `None` for every other JSON value.
pub uninterp spec fn json_object_entries(v: serde_json::Value) -> Option<
    Map<Seq<char>, serde_json::Value>,
>;

/// Relies on `<serde_json::Value as Clone>::clone`: the copy is the same value.
pub assume_specification[ <serde_json::Value as Clone>::clone ](v: &serde_json::Value) -> (r:
    serde_json::Value)
    ensures
        r == *v,
;

/// A list of entries has each key at most once.
pub open spec fn keys_unique(f: Seq<(String, serde_json::Value)>) -> bool {
    forall|i: int, j: int|
        0 <= i < f.len() && 0 <= j < f.len() && i != j ==> #[trigger] f[i].0@ != #[trigger] f[j].0@
}

/// The key/value map that a list of entries spells out.
pub open spec fn fields_map(f: Seq<(String, serde_json::Value)>) -> Map<Seq<char>, serde_json::Value> {
    Map::new(
        |k: Seq<char>| exists|i: int| 0 <= i < f.len() && f[i].0@ == k,
        |k: Seq<char>| f[choose|i: int| 0 <= i < f.len() && f[i].0@ == k].1,
    )
}

/// The top-level entries of `old` with those of `new` written over them.
pub open spec fn shallow_merge(
    old: Map<Seq<char>, serde_json::Value>,
    new: Map<Seq<char>, serde_json::Value>,
) -> Map<Seq<char>, serde_json::Value> {
    old.union_prefer_right(new)
}

/// Relies on the `Object` variant of `serde_json::Value` and on
/// `serde_json::Map::into_iter`: an object is taken apart into its entries,
/// each key once; any other value is handed back unchanged.
#[verifier::external_body]
pub(crate) fn json_take_fields(v: serde_json::Value) -> (r: Result<
    Vec<(String, serde_json::Value)>,
    serde_json::Value,
>)
    ensures
        match r {
            Ok(f) => keys_unique(f@) && json_object_entries(v) == Some(fields_map(f@)),
            Err(w) => w == v && json_object_entries(v) is None,
        },
{
    match v {
        serde_json::Value::Object(m) => Ok(m.into_iter().collect()),
        other => Err(other),
    }
}

proof fn lemma_fields_push(f: Seq<(String, serde_json::Value)>, e: (String, serde_json::Value))
    requires
        keys_unique(f),
        !fields_map(f).contains_key(e.0@),
    ensures
        keys_unique(f.push(e)),
        fields_map(f.push(e)) =~= fields_map(f).insert(e.0@, e.1),
{
    let g = f.push(e);
    assert forall|i: int, j: int| 0 <= i < g.len() && 0 <= j < g.len() && i != j implies #[trigger] g[i].0@
        != #[trigger] g[j].0@ by {
        if i == f.len() as int {
            assert(f[j].0@ == g[j].0@);
        } else if j == f.len() as int {
            assert(f[i].0@ == g[i].0@);
        }
    }
    assert forall|k: Seq<char>| #[trigger] fields_map(g).contains_key(k) == fields_map(f).insert(
        e.0@,
        e.1,
    ).contains_key(k) by {
        if fields_map(f).contains_key(k) {
            let i = choose|i: int| 0 <= i < f.len() && f[i].0@ == k;
            assert(g[i].0@ == k);
        }
        if k == e.0@ {
            assert(g[f.len() as int].0@ == k);
        }
    }
    assert forall|k: Seq<char>| #[trigger] fields_map(g).contains_key(k) implies fields_map(g)[k]
        == fields_map(f).insert(e.0@, e.1)[k] by {
        let i = choose|i: int| 0 <= i < g.len() && g[i].0@ == k;
        if k == e.0@ {
            assert(i == f.len() as int);
        } else {
            assert(i < f.len());
            let i2 = choose|i: int| 0 <= i < f.len() && f[i].0@ == k;
            assert(i == i2);
        }
    }
}

proof fn lemma_fields_prefix(f: Seq<(String, serde_json::Value)>, n: int)
    requires
        keys_unique(f),
        0 <= n < f.len(),
    ensures
        keys_unique(f.take(n)),
        keys_unique(f.take(n + 1)),
        !fields_map(f.take(n)).contains_key(f[n].0@),
        f.take(n + 1) == f.take(n).push(f[n]),
        fields_map(f.take(n + 1)) =~= fields_map(f.take(n)).insert(f[n].0@, f[n].1),
{
    assert(f.take(n + 1) =~= f.take(n).push(f[n]));
    assert(keys_unique(f.take(n))) by {
        assert forall|a: int, b: int|
            0 <= a < n && 0 <= b < n && a != b implies #[trigger] f.take(n)[a].0@
            != #[trigger] f.take(n)[b].0@ by {
            assert(f.take(n)[a] == f[a]);
            assert(f.take(n)[b] == f[b]);
        }
    }
    if fields_map(f.take(n)).contains_key(f[n].0@) {
        let j = choose|j: int| 0 <= j < n && f.take(n)[j].0@ == f[n].0@;
        assert(f.take(n)[j] == f[j]);
    }
    lemma_fields_push(f.take(n), f[n]);
}

/// `serde_json::Map<String, Value>`, the entries of a JSON object.
#[verifier::external_type_specification]
#[verifier::external_body]
#[verifier::reject_recursive_types(K)]
#[verifier::reject_recursive_types(V)]
pub struct ExJsonMap<K, V>(serde_json::Map<K, V>);

/// What a JSON object's map holds: each key with its value.
pub uninterp spec fn map_entries(m: serde_json::Map<String, serde_json::Value>) -> Map<Seq<char>, serde_json::Value>;

/// Relies on the `Object` variant of `serde_json::Value`: an object hands out
/// its map; any other value is handed back unchanged.
#[verifier::external_body]
pub(crate) fn json_into_map(v: serde_json::Value) -> (r: Result<
    serde_json::Map<String, serde_json::Value>,
    serde_json::Value,
>)
    ensures
        match r {
            Ok(m) => json_object_entries(v) == Some(map_entries(m)),
            Err(w) => w == v && json_object_entries(v) is None,
        },
{
    match v {
        serde_json::Value::Object(m) => Ok(m),
        other => Err(other),
    }
}

/// Relies on the `Object` variant of `serde_json::Value`: the object holds
/// exactly the map's entries.
#[verifier::external_body]
pub(crate) fn json_from_map(m: serde_json::Map<String, serde_json::Value>) -> (r: serde_json::Value)
    ensures
        json_object_entries(r) == Some(map_entries(m)),
{
    serde_json::Value::Object(m)
}

/// Relies on `serde_json::Map::insert`: the key takes the new value, in place
/// of any value it had.
#[verifier::external_body]
pub(crate) fn map_insert(m: &mut serde_json::Map<String, serde_json::Value>, k: String, v: serde_json::Value)
    ensures
        map_entries(*final(m)) == map_entries(*old(m)).insert(k@, v),
{
    m.insert(k, v);
}

/// Writes each entry of `new` over the map `target`: a key that `target` has takes
/// the new value, any other is added.
pub fn merge_into_object(target: &mut serde_json::Map<String, serde_json::Value>, new: Vec<(String, serde_json::Value)>)
    requires
        keys_unique(new@),
    ensures
        map_entries(*final(target)) == shallow_merge(map_entries(*old(target)), fields_map(new@)),
{
    let ghost start = map_entries(*target);
    let mut new = new;
    let ghost all = new@;
    let mut j: usize = 0;
    let total = new.len();
    assert(all.take(0) =~= Seq::<(String, serde_json::Value)>::empty());
    assert(fields_map(all.take(0)) =~= Map::<Seq<char>, serde_json::Value>::empty());
    assert(shallow_merge(start, fields_map(all.take(0))) =~= start);
    while new.len() > 0
        invariant
            j + new@.len() == all.len(),
            total == all.len(),
            new@ == all.skip(j as int),
            keys_unique(all),
            map_entries(*target) == shallow_merge(start, fields_map(all.take(j as int))),
        decreases new@.len(),
    {
        proof {
            lemma_fields_prefix(all, j as int);
        }
        let (k, v) = new.remove(0);
        assert(all[j as int] == (k, v));
        map_insert(target, k, v);
        j = j + 1;
        assert(new@ =~= all.skip(j as int));
        assert(map_entries(*target) =~= shallow_merge(start, fields_map(all.take(j as int))));
    }
    assert(all.take(j as int) =~= all);
}

} // verus!
