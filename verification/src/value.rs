//! The value tree that a parse produces, and its mathematical model.

use crate::lexical::is_number_text;
use vstd::prelude::*;

verus! {

/// A JSON datum. A number holds its literal as written, so that no digit is
/// lost; an object holds its members in the order in which their keys first
/// appeared, each key once.
#[derive(Debug, PartialEq, Eq)]
pub enum Value {
    Null,
    Boolean(bool),
    Number(String),
    String(String),
    Array(Vec<Value>),
    Object(Vec<(String, Value)>),
}

/// The mathematical model of a [`Value`].
pub ghost enum Json {
    Null,
    Boolean(bool),
    Number(Seq<char>),
    String(Seq<char>),
    Array(Seq<Json>),
    Object(Seq<Member>),
}

/// The mathematical model of one member of an object.
pub ghost struct Member {
    pub key: Seq<char>,
    pub value: Json,
}

impl View for Value {
    type V = Json;

    open spec fn view(&self) -> Json
        decreases self,
    {
        match self {
            Value::Null => Json::Null,
            Value::Boolean(b) => Json::Boolean(*b),
            Value::Number(text) => Json::Number(text@),
            Value::String(text) => Json::String(text@),
            Value::Array(items) => Json::Array(
                Seq::new(
                    items.len() as nat,
                    |i: int|
                        if 0 <= i < items.len() {
                            items[i]@
                        } else {
                            Json::Null
                        },
                ),
            ),
            Value::Object(members) => Json::Object(
                Seq::new(
                    members.len() as nat,
                    |i: int|
                        if 0 <= i < members.len() {
                            Member { key: members[i].0@, value: members[i].1@ }
                        } else {
                            Member { key: Seq::empty(), value: Json::Null }
                        },
                ),
            ),
        }
    }
}

/// The models of the items of an array.
pub open spec fn items_view(items: Seq<Value>) -> Seq<Json> {
    Seq::new(items.len(), |i: int| items[i]@)
}

/// The models of the members of an object.
#[verifier::opaque]
pub open spec fn members_view(members: Seq<(String, Value)>) -> Seq<Member> {
    Seq::new(members.len(), |i: int| Member { key: members[i].0@, value: members[i].1@ })
}

/// The model of an array is the sequence of the models of its items.
pub proof fn lemma_array_view(items: Vec<Value>)
    ensures
        Value::Array(items)@ == Json::Array(items_view(items@)),
{
    assert(Value::Array(items)@->Array_0 =~= items_view(items@));
}

/// The model of an object is the sequence of the models of its members.
pub proof fn lemma_object_view(members: Vec<(String, Value)>)
    ensures
        Value::Object(members)@ == Json::Object(members_view(members@)),
{
    reveal(members_view);
    assert(Value::Object(members)@->Object_0 =~= members_view(members@));
}

/// An object without members has the empty model.
pub proof fn lemma_no_members(members: Vec<(String, Value)>)
    requires
        members@.len() == 0,
    ensures
        Value::Object(members)@ == Json::Object(Seq::empty()),
{
    reveal(members_view);
    lemma_object_view(members);
    assert(members_view(members@) =~= Seq::empty());
}

/// The first index from `from` on at which `members` holds `key`, or the
/// length of `members` where no member from `from` on has that key.
pub open spec fn find_key(members: Seq<Member>, key: Seq<char>, from: int) -> int
    decreases members.len() - from,
{
    if from >= members.len() {
        members.len() as int
    } else if from >= 0 && members[from].key == key {
        from
    } else {
        find_key(members, key, from + 1)
    }
}

/// An object's members after `key` is given `value`: the member with that key
/// gets the new value and keeps its place; a key not yet present comes last.
#[verifier::opaque]
pub open spec fn put_member(members: Seq<Member>, key: Seq<char>, value: Json) -> Seq<Member> {
    let at = find_key(members, key, 0);
    if at < members.len() {
        members.update(at, Member { key, value })
    } else {
        members.push(Member { key, value })
    }
}

/// No two members have the same key.
pub open spec fn distinct_keys(members: Seq<Member>) -> bool {
    forall|i: int, j: int|
        0 <= i < j < members.len() ==> (#[trigger] members[i]).key != (#[trigger] members[j]).key
}

impl Json {
    /// Every number in the tree is a number of the grammar, and no object
    /// holds a key twice.
    pub open spec fn well_formed(self) -> bool
        decreases self,
    {
        match self {
            Json::Number(text) => is_number_text(text),
            Json::Array(items) => forall|i: int|
                0 <= i < items.len() ==> (#[trigger] items[i]).well_formed(),
            Json::Object(members) => distinct_keys(members) && forall|i: int|
                0 <= i < members.len() ==> (#[trigger] members[i]).value.well_formed(),
            _ => true,
        }
    }

    /// Arrays and objects are nested at most `limit` deep in the tree.
    pub open spec fn depth_within(self, limit: nat) -> bool
        decreases self,
    {
        match self {
            Json::Array(items) => limit > 0 && forall|i: int|
                0 <= i < items.len() ==> (#[trigger] items[i]).depth_within((limit - 1) as nat),
            Json::Object(members) => limit > 0 && forall|i: int|
                0 <= i < members.len() ==> (#[trigger] members[i]).value.depth_within(
                    (limit - 1) as nat,
                ),
            _ => true,
        }
    }
}

impl Json {
    /// Every number in the tree is a number of the grammar.
    pub open spec fn numbers_well_formed(self) -> bool
        decreases self,
    {
        match self {
            Json::Number(text) => is_number_text(text),
            Json::Array(items) => forall|i: int|
                0 <= i < items.len() ==> (#[trigger] items[i]).numbers_well_formed(),
            Json::Object(members) => forall|i: int|
                0 <= i < members.len() ==> (#[trigger] members[i]).value.numbers_well_formed(),
            _ => true,
        }
    }
}

/// The value of a tree in which an object may hold a key more than once:
/// in every object each key is given its values in turn, so that it holds
/// the last of them, at the place of the first.
pub open spec fn merged(v: Json) -> Json
    decreases v, 0nat,
{
    match v {
        Json::Array(items) => Json::Array(
            Seq::new(
                items.len(),
                |k: int|
                    if 0 <= k < items.len() {
                        merged(items[k])
                    } else {
                        Json::Null
                    },
            ),
        ),
        Json::Object(members) => Json::Object(merged_members(Seq::empty(), members, 0)),
        _ => v,
    }
}

/// The members `acc` after the members of `members` from the `from`-th on
/// are given to them in turn, each with its value merged.
pub open spec fn merged_members(acc: Seq<Member>, members: Seq<Member>, from: nat) -> Seq<Member>
    decreases members, members.len() - from,
{
    if from >= members.len() {
        acc
    } else {
        merged_members(
            put_member(acc, members[from as int].key, merged(members[from as int].value)),
            members,
            from + 1,
        )
    }
}

/// `find_key` gives the least index at or after `from` that holds the key.
pub proof fn lemma_find_key(members: Seq<Member>, key: Seq<char>, from: int)
    requires
        0 <= from <= members.len(),
    ensures
        from <= find_key(members, key, from) <= members.len(),
        find_key(members, key, from) < members.len() ==> members[find_key(members, key, from)].key
            == key,
        forall|k: int|
            from <= k < find_key(members, key, from) ==> (#[trigger] members[k]).key != key,
    decreases members.len() - from,
{
    if from < members.len() && members[from].key != key {
        lemma_find_key(members, key, from + 1);
    }
}

/// Giving a key a value keeps the keys distinct, and afterwards the key
/// stands for the new value.
pub proof fn lemma_put_member(members: Seq<Member>, key: Seq<char>, value: Json)
    requires
        distinct_keys(members),
    ensures
        distinct_keys(put_member(members, key, value)),
        find_key(put_member(members, key, value), key, 0) < put_member(members, key, value).len(),
        put_member(members, key, value)[find_key(put_member(members, key, value), key, 0)]
            == (Member { key, value }),
{
    reveal(put_member);
    let after = put_member(members, key, value);
    let at = find_key(members, key, 0);
    lemma_find_key(members, key, 0);
    lemma_find_key(after, key, 0);
    assert(after[at] == (Member { key, value }));
    assert(after[at].key == key);
    assert forall|i: int, j: int| 0 <= i < j < after.len() implies (#[trigger] after[i]).key != (
    #[trigger] after[j]).key by {
        if at < members.len() {
            assert(members[i].key != members[j].key);
        } else if j < members.len() {
            assert(members[i].key != members[j].key);
        } else {
            assert(members[i].key != key);
        }
    }
}

/// After a key is given a value, every member is the new one or one that was
/// there before, and the new one is among them.
pub proof fn lemma_put_member_holds(members: Seq<Member>, key: Seq<char>, value: Json)
    ensures
        forall|k: int|
            0 <= k < put_member(members, key, value).len() ==> {
                ||| (#[trigger] put_member(members, key, value)[k]) == (Member { key, value })
                ||| members.contains(put_member(members, key, value)[k])
            },
        put_member(members, key, value).contains(Member { key, value }),
        members.len() <= put_member(members, key, value).len() <= members.len() + 1,
{
    reveal(put_member);
    let after = put_member(members, key, value);
    let at = find_key(members, key, 0);
    lemma_find_key(members, key, 0);
    assert forall|k: int| 0 <= k < after.len() implies {
        ||| (#[trigger] after[k]) == (Member { key, value })
        ||| members.contains(after[k])
    } by {
        if k != at {
            assert(members[k] == after[k]);
        }
    }
    assert(after[at] == (Member { key, value }));
}

/// Gives `key` the value `value` among the members of an object: a key that
/// is already present keeps its place and gets the new value (the last
/// write wins); a new key comes last.
pub fn insert_member(members: &mut Vec<(String, Value)>, key: String, value: Value)
    ensures
        members_view(final(members)@) == put_member(members_view(old(members)@), key@, value@),
{
    proof {
        reveal(members_view);
    }
    let ghost before = members_view(members@);
    let mut k: usize = 0;
    while k < members.len()
        invariant
            k <= members.len(),
            members@ == old(members)@,
            before == members_view(members@),
            find_key(before, key@, 0) == find_key(before, key@, k as int),
        decreases members.len() - k,
    {
        proof {
            reveal(members_view);
        }
        if members[k].0 == key {
            members.set(k, (key, value));
            proof {
                reveal(put_member);
                reveal(members_view);
                assert(members_view(members@) =~= before.update(
                    k as int,
                    Member { key: key@, value: value@ },
                ));
            }
            return ;
        }
        k = k + 1;
    }
    members.push((key, value));
    proof {
        reveal(put_member);
        reveal(members_view);
        assert(members_view(members@) =~= before.push(Member { key: key@, value: value@ }));
    }
}

/// Giving a value to a key that no member before it has appends the member.
pub proof fn lemma_put_new_key(members: Seq<Member>, from: int)
    requires
        distinct_keys(members),
        0 <= from < members.len(),
    ensures
        put_member(members.take(from), members[from].key, members[from].value) == members.take(
            from + 1,
        ),
{
    reveal(put_member);
    let before = members.take(from);
    let m = members[from];
    lemma_find_key(before, m.key, 0);
    let at = find_key(before, m.key, 0);
    if at < before.len() {
        assert(before[at] == members[at]);
        assert(members[at].key != members[from].key);
    }
    assert(before.push(Member { key: m.key, value: m.value }) =~= members.take(from + 1));
}

/// A well-formed value is its own merged value: nothing is left to merge
/// where no object holds a key twice.
pub proof fn lemma_merged_well_formed(v: Json)
    requires
        v.well_formed(),
    ensures
        merged(v) == v,
        v.numbers_well_formed(),
    decreases v, 0nat,
{
    match v {
        Json::Array(items) => {
            assert forall|k: int| 0 <= k < items.len() implies merged(#[trigger] items[k])
                == items[k] && items[k].numbers_well_formed() by {
                lemma_merged_well_formed(items[k]);
            }
            assert(merged(v)->Array_0 =~= items);
        },
        Json::Object(members) => {
            assert forall|k: int| 0 <= k < members.len() implies (
            #[trigger] members[k]).value.numbers_well_formed() by {
                lemma_merged_well_formed(members[k].value);
            }
            lemma_merged_members_well_formed(members, 0);
            assert(members.take(0) =~= Seq::<Member>::empty());
        },
        _ => {},
    }
}

proof fn lemma_merged_members_well_formed(members: Seq<Member>, from: nat)
    requires
        from <= members.len(),
        distinct_keys(members),
        forall|k: int| 0 <= k < members.len() ==> (#[trigger] members[k]).value.well_formed(),
    ensures
        merged_members(members.take(from as int), members, from) == members,
    decreases members, members.len() - from,
{
    if from < members.len() {
        lemma_merged_well_formed(members[from as int].value);
        lemma_put_new_key(members, from as int);
        lemma_merged_members_well_formed(members, from + 1);
    } else {
        assert(members.take(from as int) =~= members);
    }
}

} // verus!
