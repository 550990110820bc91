//! Stored objects and the store's view as a map from names to objects.
use vstd::prelude::*;

verus! {

/// A named JSON value with the time of its last write, in microseconds since
/// the Unix epoch (UTC).
#[derive(Debug)]
pub struct Object {
    pub name: String,
    pub value: serde_json::Value,
    pub last_modified: i64,
}

impl Clone for Object {
    fn clone(&self) -> (r: Self)
        ensures
            r == *self,
    {
        Object { name: self.name.clone(), value: self.value.clone(), last_modified: self.last_modified }
    }
}

/// A write that a client leaves behind, to be carried out when it disconnects.
#[derive(Debug)]
pub enum Command {
    SetObject { name: String, value: serde_json::Value },
    PatchObject { name: String, value: serde_json::Value },
    RemoveObject { name: String },
    EmitEvent { object: String, event: String, data: serde_json::Value },
}

/// Whether clients may write the object `name`: it is not empty and does not start with `$`.
pub open spec fn valid_name(name: Seq<char>) -> bool {
    name.len() > 0 && name[0] != '$'
}

/// Each name stands at most once.
pub open spec fn names_unique(s: Seq<Object>) -> bool {
    forall|i: int, j: int|
        0 <= i < s.len() && 0 <= j < s.len() && i != j ==> #[trigger] s[i].name@ != #[trigger] s[j].name@
}

/// The objects as a map from name to object.
pub open spec fn store_of(s: Seq<Object>) -> Map<Seq<char>, Object> {
    Map::new(
        |n: Seq<char>| exists|i: int| 0 <= i < s.len() && s[i].name@ == n,
        |n: Seq<char>| s[choose|i: int| 0 <= i < s.len() && s[i].name@ == n],
    )
}

pub proof fn lemma_store_index(s: Seq<Object>, i: int)
    requires
        names_unique(s),
        0 <= i < s.len(),
    ensures
        store_of(s).contains_key(s[i].name@),
        store_of(s)[s[i].name@] == s[i],
{
    let j = choose|j: int| 0 <= j < s.len() && s[j].name@ == s[i].name@;
    assert(j == i);
}

pub proof fn lemma_store_absent(s: Seq<Object>, n: Seq<char>)
    requires
        forall|i: int| 0 <= i < s.len() ==> s[i].name@ != n,
    ensures
        !store_of(s).contains_key(n),
{
}

pub proof fn lemma_store_push(s: Seq<Object>, o: Object)
    requires
        names_unique(s),
        !store_of(s).contains_key(o.name@),
    ensures
        names_unique(s.push(o)),
        store_of(s.push(o)) =~= store_of(s).insert(o.name@, o),
{
    let g = s.push(o);
    assert forall|i: int, j: int| 0 <= i < g.len() && 0 <= j < g.len() && i != j implies #[trigger] g[i].name@
        != #[trigger] g[j].name@ by {
        if i == s.len() as int {
            assert(s[j].name@ == g[j].name@);
        } else if j == s.len() as int {
            assert(s[i].name@ == g[i].name@);
        }
    }
    assert forall|k: Seq<char>| #[trigger] store_of(g).contains_key(k) == store_of(s).insert(
        o.name@,
        o,
    ).contains_key(k) by {
        if store_of(s).contains_key(k) {
            let i = choose|i: int| 0 <= i < s.len() && s[i].name@ == k;
            assert(g[i].name@ == k);
        }
        if k == o.name@ {
            assert(g[s.len() as int].name@ == k);
        }
    }
    assert forall|k: Seq<char>| #[trigger] store_of(g).contains_key(k) implies store_of(g)[k]
        == store_of(s).insert(o.name@, o)[k] by {
        let i = choose|i: int| 0 <= i < g.len() && g[i].name@ == k;
        if k == o.name@ {
            assert(i == s.len() as int);
        } else {
            assert(i < s.len());
            let i2 = choose|i: int| 0 <= i < s.len() && s[i].name@ == k;
            assert(i == i2);
        }
    }
}

pub proof fn lemma_store_update(s: Seq<Object>, i: int, o: Object)
    requires
        names_unique(s),
        0 <= i < s.len(),
        s[i].name@ == o.name@,
    ensures
        names_unique(s.update(i, o)),
        store_of(s.update(i, o)) =~= store_of(s).insert(o.name@, o),
{
    let g = s.update(i, o);
    assert forall|a: int, b: int| 0 <= a < g.len() && 0 <= b < g.len() && a != b implies #[trigger] g[a].name@
        != #[trigger] g[b].name@ by {
        assert(g[a].name@ == s[a].name@);
        assert(g[b].name@ == s[b].name@);
    }
    assert forall|k: Seq<char>| #[trigger] store_of(g).contains_key(k) == store_of(s).insert(
        o.name@,
        o,
    ).contains_key(k) by {
        if store_of(s).contains_key(k) {
            let j = choose|j: int| 0 <= j < s.len() && s[j].name@ == k;
            assert(g[j].name@ == k);
        }
        if store_of(g).contains_key(k) {
            let j = choose|j: int| 0 <= j < g.len() && g[j].name@ == k;
            assert(s[j].name@ == k);
        }
    }
    assert forall|k: Seq<char>| #[trigger] store_of(g).contains_key(k) implies store_of(g)[k]
        == store_of(s).insert(o.name@, o)[k] by {
        let j = choose|j: int| 0 <= j < g.len() && g[j].name@ == k;
        if k == o.name@ {
            assert(j == i);
        } else {
            let j2 = choose|j: int| 0 <= j < s.len() && s[j].name@ == k;
            assert(j == j2);
        }
    }
}

pub proof fn lemma_store_remove(s: Seq<Object>, i: int)
    requires
        names_unique(s),
        0 <= i < s.len(),
    ensures
        names_unique(s.remove(i)),
        store_of(s.remove(i)) =~= store_of(s).remove(s[i].name@),
{
    let g = s.remove(i);
    let n = s[i].name@;
    assert forall|a: int, b: int| 0 <= a < g.len() && 0 <= b < g.len() && a != b implies #[trigger] g[a].name@
        != #[trigger] g[b].name@ by {
        let a2 = if a < i { a } else { a + 1 };
        let b2 = if b < i { b } else { b + 1 };
        assert(g[a] == s[a2]);
        assert(g[b] == s[b2]);
    }
    assert forall|k: Seq<char>| #[trigger] store_of(g).contains_key(k) == store_of(s).remove(n).contains_key(k) by {
        if store_of(s).contains_key(k) && k != n {
            let j = choose|j: int| 0 <= j < s.len() && s[j].name@ == k;
            assert(j != i);
            if j < i {
                assert(g[j] == s[j]);
            } else {
                assert(g[j - 1] == s[j]);
            }
        }
        if store_of(g).contains_key(k) {
            let j = choose|j: int| 0 <= j < g.len() && g[j].name@ == k;
            let j2 = if j < i { j } else { j + 1 };
            assert(g[j] == s[j2]);
        }
    }
    assert forall|k: Seq<char>| #[trigger] store_of(g).contains_key(k) implies store_of(g)[k] == store_of(s).remove(
        n,
    )[k] by {
        let j = choose|j: int| 0 <= j < g.len() && g[j].name@ == k;
        let j2 = if j < i { j } else { j + 1 };
        assert(g[j] == s[j2]);
        lemma_store_index(s, j2);
    }
}

} // verus!
