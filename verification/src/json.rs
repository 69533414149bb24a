//! JSON-like values and the deep merge that defines a patch.

use vstd::prelude::*;

verus! {

/// A JSON number: a non-negative integer, a negative integer, or a binary
/// floating-point number carried as the bit pattern of its IEEE 754 double.
#[derive(Copy, Clone, Debug, PartialEq, Eq, Structural)]
pub enum Number {
    PosInt(u64),
    NegInt(i64),
    Float(u64),
}

/// A tree-structured JSON-like value. An object keeps its members in the
/// order in which they were added; a key is looked up at its first member.
#[derive(Debug, PartialEq, Eq)]
pub enum Value {
    Null,
    Bool(bool),
    Number(Number),
    String(String),
    Array(Vec<Value>),
    Object(Vec<(String, Value)>),
}

/// The mathematical value that a [`Value`] stands for.
pub enum Json {
    Null,
    Bool(bool),
    Number(Number),
    String(Seq<char>),
    Array(Seq<Json>),
    Object(Seq<(Seq<char>, Json)>),
}

impl View for Value {
    type V = Json;

    open spec fn view(&self) -> Json {
        value_view(*self)
    }
}

/// The mathematical value of `v`.
pub open spec fn value_view(v: Value) -> Json
    decreases v, 0nat,
{
    match v {
        Value::Null => Json::Null,
        Value::Bool(b) => Json::Bool(b),
        Value::Number(n) => Json::Number(n),
        Value::String(s) => Json::String(s@),
        Value::Array(items) => Json::Array(items_view_to(items, items.len() as nat)),
        Value::Object(members) => Json::Object(members_view_to(members, members.len() as nat)),
    }
}

/// The values of the first `n` items of an array.
pub open spec fn items_view_to(items: Vec<Value>, n: nat) -> Seq<Json>
    decreases items, n,
{
    if n == 0 || n > items.len() {
        Seq::empty()
    } else {
        items_view_to(items, (n - 1) as nat).push(value_view(items[n - 1]))
    }
}

/// The keys and values of the first `n` members of an object.
pub open spec fn members_view_to(members: Vec<(String, Value)>, n: nat) -> Seq<(Seq<char>, Json)>
    decreases members, n,
{
    if n == 0 || n > members.len() {
        Seq::empty()
    } else {
        members_view_to(members, (n - 1) as nat).push(
            (members[n - 1].0@, value_view(members[n - 1].1)),
        )
    }
}

/// The values of an array's items.
pub open spec fn items_view(items: Seq<Value>) -> Seq<Json> {
    Seq::new(items.len(), |i: int| items[i]@)
}

/// The keys and values of an object's members.
pub open spec fn members_view(members: Seq<(String, Value)>) -> Seq<(Seq<char>, Json)> {
    Seq::new(members.len(), |i: int| (members[i].0@, members[i].1@))
}

proof fn lemma_items_view_to(items: Vec<Value>, n: nat)
    requires
        n <= items.len(),
    ensures
        items_view_to(items, n) == items_view(items@.take(n as int)),
    decreases n,
{
    if n > 0 {
        lemma_items_view_to(items, (n - 1) as nat);
    }
    assert(items_view_to(items, n) =~= items_view(items@.take(n as int)));
}

proof fn lemma_members_view_to(members: Vec<(String, Value)>, n: nat)
    requires
        n <= members.len(),
    ensures
        members_view_to(members, n) == members_view(members@.take(n as int)),
    decreases n,
{
    if n > 0 {
        lemma_members_view_to(members, (n - 1) as nat);
    }
    assert(members_view_to(members, n) =~= members_view(members@.take(n as int)));
}

/// An array's value is the sequence of its items' values, an object's that
/// of its members' keys and values.
pub proof fn lemma_view_unfold(v: Value)
    ensures
        v matches Value::Array(items) ==> v@ == Json::Array(items_view(items@)),
        v matches Value::Object(members) ==> v@ == Json::Object(members_view(members@)),
{
    match v {
        Value::Array(items) => {
            lemma_items_view_to(items, items.len() as nat);
            assert(items@.take(items.len() as int) =~= items@);
        },
        Value::Object(members) => {
            lemma_members_view_to(members, members.len() as nat);
            assert(members@.take(members.len() as int) =~= members@);
        },
        _ => {},
    }
}

/// Whether some member of `members` has the key `key`.
pub open spec fn has_key(members: Seq<(Seq<char>, Json)>, key: Seq<char>) -> bool {
    exists|i: int| 0 <= i < members.len() && (#[trigger] members[i]).0 == key
}

/// Whether `i` is the index of the first member of `members` with the key `key`.
pub open spec fn is_first_index(members: Seq<(Seq<char>, Json)>, key: Seq<char>, i: int) -> bool {
    &&& 0 <= i < members.len()
    &&& members[i].0 == key
    &&& forall|j: int| 0 <= j < i ==> (#[trigger] members[j]).0 != key
}

/// The index of the first member of `members` with the key `key`.
pub open spec fn first_index(members: Seq<(Seq<char>, Json)>, key: Seq<char>) -> int {
    choose|i: int| is_first_index(members, key, i)
}

/// The value under `key` in `members`, or null where no member has that key.
pub open spec fn member_or_null(members: Seq<(Seq<char>, Json)>, key: Seq<char>) -> Json {
    if has_key(members, key) {
        members[first_index(members, key)].1
    } else {
        Json::Null
    }
}

/// `members` with `value` under `key`: in place of the first member with that
/// key, or as a new last member.
pub open spec fn upsert(members: Seq<(Seq<char>, Json)>, key: Seq<char>, value: Json) -> Seq<
    (Seq<char>, Json),
> {
    if has_key(members, key) {
        members.update(first_index(members, key), (key, value))
    } else {
        members.push((key, value))
    }
}

/// The deep merge of `delta` into `target`. Where both are objects, each
/// member of `delta` is merged, in order, into the member of `target` with its
/// key, which starts as null where `target` has none. In every other case the
/// result is `delta`: scalars and arrays are replaced whole.
pub open spec fn merge(target: Json, delta: Json) -> Json
    decreases delta, 0nat,
{
    match (target, delta) {
        (Json::Object(t), Json::Object(d)) => Json::Object(merge_members(t, d, d.len())),
        (_, d) => d,
    }
}

/// `target` after the first `n` members of `delta` were merged into it.
pub open spec fn merge_members(
    target: Seq<(Seq<char>, Json)>,
    delta: Seq<(Seq<char>, Json)>,
    n: nat,
) -> Seq<(Seq<char>, Json)>
    decreases delta, n,
{
    if n == 0 || n > delta.len() {
        target
    } else {
        let merged = merge_members(target, delta, (n - 1) as nat);
        let key = delta[n - 1].0;
        upsert(merged, key, merge(member_or_null(merged, key), delta[n - 1].1))
    }
}

/// Where `i` is the index of a first member with `key`, it is the index that
/// `first_index` names.
pub proof fn lemma_first_index_unique(members: Seq<(Seq<char>, Json)>, key: Seq<char>, i: int)
    requires
        is_first_index(members, key, i),
    ensures
        has_key(members, key),
        first_index(members, key) == i,
{
    let j = first_index(members, key);
    assert(is_first_index(members, key, j));
    if j < i {
        assert(members[j].0 != key);
    }
    if i < j {
        assert(members[i].0 != key);
    }
}

/// Every key that occurs has a first member.
pub proof fn lemma_first_index_exists(members: Seq<(Seq<char>, Json)>, key: Seq<char>)
    requires
        has_key(members, key),
    ensures
        is_first_index(members, key, first_index(members, key)),
{
    let i = choose|i: int| 0 <= i < members.len() && (#[trigger] members[i]).0 == key;
    lemma_first_from(members, key, i);
}

proof fn lemma_first_from(members: Seq<(Seq<char>, Json)>, key: Seq<char>, i: int)
    requires
        0 <= i < members.len(),
        members[i].0 == key,
    ensures
        exists|f: int| is_first_index(members, key, f),
    decreases i,
{
    if exists|j: int| 0 <= j < i && (#[trigger] members[j]).0 == key {
        let j = choose|j: int| 0 <= j < i && (#[trigger] members[j]).0 == key;
        lemma_first_from(members, key, j);
    } else {
        assert(is_first_index(members, key, i));
    }
}

/// The keys of `members` after an upsert are those before it and the key
/// that was put; the value under that key is the one that was put, and every
/// other key keeps its value.
pub proof fn lemma_upsert(
    members: Seq<(Seq<char>, Json)>,
    key: Seq<char>,
    value: Json,
    other: Seq<char>,
)
    ensures
        has_key(upsert(members, key, value), other) <==> has_key(members, other) || other == key,
        member_or_null(upsert(members, key, value), other) == if other == key {
            value
        } else {
            member_or_null(members, other)
        },
{
    let after = upsert(members, key, value);
    if has_key(members, key) {
        lemma_first_index_exists(members, key);
        let i = first_index(members, key);
        assert(after.len() == members.len());
        assert forall|j: int| 0 <= j < after.len() implies (#[trigger] after[j]).0
            == members[j].0 by {}
        if has_key(members, other) {
            lemma_first_index_exists(members, other);
            let j = first_index(members, other);
            assert(after[j].0 == other);
            assert(is_first_index(after, other, j)) by {
                assert forall|x: int| 0 <= x < j implies (#[trigger] after[x]).0 != other by {
                    assert(members[x].0 != other);
                }
            }
            lemma_first_index_unique(after, other, j);
        }
        if has_key(after, other) {
            let j = choose|j: int| 0 <= j < after.len() && (#[trigger] after[j]).0 == other;
            assert(members[j].0 == other);
        }
    } else {
        let n = members.len() as int;
        assert(after[n].0 == key);
        if has_key(members, other) {
            lemma_first_index_exists(members, other);
            let j = first_index(members, other);
            assert(after[j] == members[j]);
            assert(is_first_index(after, other, j)) by {
                assert forall|x: int| 0 <= x < j implies (#[trigger] after[x]).0 != other by {
                    assert(after[x] == members[x]);
                    assert(members[x].0 != other);
                }
            }
            lemma_first_index_unique(after, other, j);
        } else if other == key {
            assert(is_first_index(after, other, n)) by {
                assert forall|x: int| 0 <= x < n implies (#[trigger] after[x]).0 != other by {
                    assert(after[x] == members[x]);
                    if members[x].0 == other {
                        assert(has_key(members, other));
                    }
                }
            }
            lemma_first_index_unique(after, other, n);
        }
        if has_key(after, other) && other != key {
            let j = choose|j: int| 0 <= j < after.len() && (#[trigger] after[j]).0 == other;
            assert(j < n);
            assert(members[j] == after[j]);
            assert(members[j].0 == other);
        }
    }
}

/// Whether no key occurs twice among the first `n` of `members`.
pub open spec fn distinct_keys(members: Seq<(Seq<char>, Json)>, n: int) -> bool {
    forall|i: int, j: int|
        0 <= i < j < n && j < members.len() ==> (#[trigger] members[i]).0 != (
        #[trigger] members[j]).0
}

/// Objects merge member by member. After the first `n` members of an object
/// `delta`, whose keys are distinct, were merged into the members `target`:
/// a key of those `n` holds the merge of the delta's value into the value
/// that `target` had under it (null where it had none); every other key
/// holds what it held; and no other key has appeared.
pub proof fn lemma_merge_members(
    target: Seq<(Seq<char>, Json)>,
    delta: Seq<(Seq<char>, Json)>,
    n: nat,
    key: Seq<char>,
)
    requires
        n <= delta.len(),
        distinct_keys(delta, n as int),
    ensures
        has_key(merge_members(target, delta, n), key) <==> has_key(target, key) || has_key(
            delta.take(n as int),
            key,
        ),
        member_or_null(merge_members(target, delta, n), key) == if has_key(
            delta.take(n as int),
            key,
        ) {
            merge(member_or_null(target, key), member_or_null(delta.take(n as int), key))
        } else {
            member_or_null(target, key)
        },
    decreases n,
{
    let now = delta.take(n as int);
    if n > 0 {
        let m = (n - 1) as nat;
        let before = delta.take(m as int);
        let merged = merge_members(target, delta, m);
        let k = delta[n - 1].0;
        let v = delta[n - 1].1;
        lemma_merge_members(target, delta, m, key);
        lemma_merge_members(target, delta, m, k);
        lemma_upsert(merged, k, merge(member_or_null(merged, k), v), key);
        // `k` is not among the keys before it.
        if has_key(before, k) {
            let j = choose|j: int| 0 <= j < before.len() && (#[trigger] before[j]).0 == k;
            assert(delta[j].0 != delta[n - 1].0);
        }
        assert(now[n - 1] == delta[n - 1]);
        if key == k {
            assert(is_first_index(now, key, n - 1)) by {
                assert forall|x: int| 0 <= x < n - 1 implies (#[trigger] now[x]).0 != key by {
                    assert(delta[x].0 != delta[n - 1].0);
                }
            }
            lemma_first_index_unique(now, key, n - 1);
        } else {
            if has_key(before, key) {
                lemma_first_index_exists(before, key);
                let j = first_index(before, key);
                assert(now[j] == before[j]);
                assert(is_first_index(now, key, j)) by {
                    assert forall|x: int| 0 <= x < j implies (#[trigger] now[x]).0 != key by {
                        assert(now[x] == before[x]);
                    }
                }
                lemma_first_index_unique(now, key, j);
            }
            if has_key(now, key) {
                let j = choose|j: int| 0 <= j < now.len() && (#[trigger] now[j]).0 == key;
                assert(j < n - 1);
                assert(before[j] == now[j]);
                assert(before[j].0 == key);
            }
        }
    }
}

/// Non-objects overwrite: where the target or the delta is no object, the
/// merge is the delta.
pub proof fn lemma_merge_overwrites(target: Json, delta: Json)
    requires
        !(target is Object) || !(delta is Object),
    ensures
        merge(target, delta) == delta,
{
}

/// Objects compose deeply. The merge of an object `delta` with distinct keys
/// into an object `target` is an object with the keys of both; under a key of
/// `delta` it holds the merge of the delta's value into the target's, and
/// under any other key what the target held.
pub proof fn lemma_merge_objects(target: Json, delta: Json, key: Seq<char>)
    requires
        target is Object,
        delta is Object,
        distinct_keys(delta->Object_0, delta->Object_0.len() as int),
    ensures
        merge(target, delta) is Object,
        has_key(merge(target, delta)->Object_0, key) <==> has_key(target->Object_0, key)
            || has_key(delta->Object_0, key),
        member_or_null(merge(target, delta)->Object_0, key) == if has_key(delta->Object_0, key) {
            merge(member_or_null(target->Object_0, key), member_or_null(delta->Object_0, key))
        } else {
            member_or_null(target->Object_0, key)
        },
{
    let d = delta->Object_0;
    lemma_merge_members(target->Object_0, d, d.len(), key);
    assert(d.take(d.len() as int) =~= d);
}

impl Clone for Value {
    fn clone(&self) -> (copy: Self)
        ensures
            copy@ == self@,
        decreases self,
    {
        match self {
            Value::Null => Value::Null,
            Value::Bool(b) => Value::Bool(*b),
            Value::Number(n) => Value::Number(*n),
            Value::String(s) => Value::String(s.clone()),
            Value::Array(items) => {
                let mut out: Vec<Value> = Vec::new();
                let mut i: usize = 0;
                while i < items.len()
                    invariant
                        *self == Value::Array(*items),
                        i <= items.len(),
                        out.len() == i,
                        forall|j: int| 0 <= j < i ==> (#[trigger] out[j])@ == items[j]@,
                    decreases items.len() - i,
                {
                    assert(decreases_to!(*self => self->Array_0));
                    assert(decreases_to!(items => items[i as int]));
                    out.push(items[i].clone());
                    i += 1;
                }
                let copy = Value::Array(out);
                proof {
                    lemma_view_unfold(copy);
                    lemma_view_unfold(*self);
                    assert(items_view(out@) =~= items_view(items@));
                }
                copy
            },
            Value::Object(members) => {
                let mut out: Vec<(String, Value)> = Vec::new();
                let mut i: usize = 0;
                while i < members.len()
                    invariant
                        *self == Value::Object(*members),
                        i <= members.len(),
                        out.len() == i,
                        forall|j: int|
                            0 <= j < i ==> (#[trigger] out[j]).0@ == members[j].0@ && out[j].1@
                                == members[j].1@,
                    decreases members.len() - i,
                {
                    assert(decreases_to!(*self => self->Object_0));
                    assert(decreases_to!(members => members[i as int]));
                    out.push((members[i].0.clone(), members[i].1.clone()));
                    i += 1;
                }
                let copy = Value::Object(out);
                proof {
                    lemma_view_unfold(copy);
                    lemma_view_unfold(*self);
                    assert(members_view(out@) =~= members_view(members@));
                }
                copy
            },
        }
    }
}

impl Value {
    /// Whether this is the null value.
    pub fn is_null(&self) -> (b: bool)
        ensures
            b == (self@ == Json::Null),
    {
        match self {
            Value::Null => true,
            _ => false,
        }
    }
}

/// The index of the first member of `members` with the key `key`.
pub fn find_member(members: &Vec<(String, Value)>, key: &String) -> (found: Option<usize>)
    ensures
        match found {
            Some(i) => is_first_index(members_view(members@), key@, i as int),
            None => !has_key(members_view(members@), key@),
        },
{
    let mut i: usize = 0;
    while i < members.len()
        invariant
            i <= members.len(),
            forall|j: int| 0 <= j < i ==> (#[trigger] members_view(members@)[j]).0 != key@,
        decreases members.len() - i,
    {
        if members[i].0 == *key {
            return Some(i);
        }
        i += 1;
    }
    None
}

/// Merges `delta` into `target`, deeply: see [`merge`].
pub fn merge_json(target: &mut Value, delta: &Value)
    ensures
        final(target)@ == merge(old(target)@, delta@),
    decreases delta,
{
    if let Value::Object(d) = delta {
        proof {
            lemma_view_unfold(*delta);
            lemma_view_unfold(*target);
        }
        if let Value::Object(t) = target {
            let ghost target_before = members_view(t@);
            let ghost delta_view = members_view(d@);
            let mut n: usize = 0;
            while n < d.len()
                invariant
                    *delta == Value::Object(*d),
                    n <= d.len(),
                    delta_view == members_view(d@),
                    members_view(t@) == merge_members(target_before, delta_view, n as nat),
                decreases d.len() - n,
            {
                let ghost merged = members_view(t@);
                assert(decreases_to!(*delta => delta->Object_0));
                assert(decreases_to!(d => d[n as int]));
                let key = &d[n].0;
                match find_member(t, key) {
                    Some(i) => {
                        proof {
                            lemma_first_index_unique(merged, key@, i as int);
                        }
                        merge_json(&mut t[i].1, &d[n].1);
                        assert(members_view(t@) =~= upsert(
                            merged,
                            key@,
                            merge(member_or_null(merged, key@), d[n as int].1@),
                        ));
                    },
                    None => {
                        let mut fresh = Value::Null;
                        merge_json(&mut fresh, &d[n].1);
                        t.push((key.clone(), fresh));
                        assert(members_view(t@) =~= upsert(
                            merged,
                            key@,
                            merge(member_or_null(merged, key@), d[n as int].1@),
                        ));
                    },
                }
                n += 1;
            }
            proof {
                lemma_view_unfold(*target);
            }
            return ;
        }
    }
    *target = delta.clone();
}

} // verus!
