//! A JSON value as a tree of plain values.

use vstd::prelude::*;
use vstd::string::*;

verus! {

/// A JSON value. Objects keep their members in the order they were read.
#[derive(Debug, PartialEq)]
pub enum JsonValue {
    Null,
    Bool(bool),
    /// A number, held as its JSON text (`5`, `-2`, `1582213226.25`).
    Number(String),
    Str(String),
    Array(Vec<JsonValue>),
    Object(Vec<(String, JsonValue)>),
}


/// The members of an object with their names as character sequences.
pub open spec fn entries(members: Seq<(String, JsonValue)>) -> Seq<(Seq<char>, JsonValue)> {
    members.map_values(|p: (String, JsonValue)| (p.0@, p.1))
}

/// No name occurs twice among the members.
pub open spec fn keys_distinct(d: Seq<(Seq<char>, JsonValue)>) -> bool {
    forall|i: int, j: int| 0 <= i < d.len() && 0 <= j < d.len() && i != j ==> d[i].0 != d[j].0
}

/// Some member is named `k`.
pub open spec fn has_key(d: Seq<(Seq<char>, JsonValue)>, k: Seq<char>) -> bool {
    exists|i: int| 0 <= i < d.len() && d[i].0 == k
}

/// The value of the member named `k`, if there is one.
pub open spec fn lookup(d: Seq<(Seq<char>, JsonValue)>, k: Seq<char>) -> Option<JsonValue> {
    if has_key(d, k) {
        Some(d[choose|i: int| 0 <= i < d.len() && d[i].0 == k].1)
    } else {
        None
    }
}

/// With distinct names, the member at `i` is the one that `lookup` finds.
pub proof fn lemma_lookup_at(d: Seq<(Seq<char>, JsonValue)>, i: int)
    requires
        keys_distinct(d),
        0 <= i < d.len(),
    ensures
        lookup(d, d[i].0) == Some(d[i].1),
{
    assert(has_key(d, d[i].0));
}

/// Whether `k` and `name` are the same text.
pub fn same_key(k: &String, name: &str) -> (r: bool)
    ensures
        r == (k@ == name@),
{
    let n = String::from_str(name);
    *k == n
}

/// The value of the member named `name`.
pub fn find<'a>(members: &'a Vec<(String, JsonValue)>, name: &str) -> (r: Option<&'a JsonValue>)
    requires
        keys_distinct(entries(members@)),
    ensures
        r is None <==> lookup(entries(members@), name@) is None,
        r matches Some(v) ==> lookup(entries(members@), name@) == Some(*v),
{
    let ghost d = entries(members@);
    let mut i: usize = 0;
    while i < members.len()
        invariant
            i <= members.len(),
            d == entries(members@),
            keys_distinct(d),
            forall|j: int| 0 <= j < i ==> d[j].0 != name@,
        decreases members.len() - i,
    {
        if same_key(&members[i].0, name) {
            proof {
                lemma_lookup_at(d, i as int);
            }
            return Some(&members[i].1);
        }
        i = i + 1;
    }
    None
}

/// Whether no name occurs twice among the members.
pub fn distinct_keys(members: &Vec<(String, JsonValue)>) -> (r: bool)
    ensures
        r == keys_distinct(entries(members@)),
{
    let ghost d = entries(members@);
    let mut i: usize = 0;
    while i < members.len()
        invariant
            i <= members.len(),
            d == entries(members@),
            forall|a: int, b: int| 0 <= a < i && 0 <= b < d.len() && a != b ==> d[a].0 != d[b].0,
        decreases members.len() - i,
    {
        let mut j: usize = 0;
        while j < members.len()
            invariant
                i < members.len(),
                j <= members.len(),
                d == entries(members@),
                forall|a: int, b: int| 0 <= a < i && 0 <= b < d.len() && a != b ==> d[a].0 != d[b].0,
                forall|b: int| 0 <= b < j && b != i ==> d[i as int].0 != d[b].0,
            decreases members.len() - j,
        {
            if j != i && members[i].0 == members[j].0 {
                proof {
                    assert(d[i as int].0 == d[j as int].0);
                }
                return false;
            }
            j = j + 1;
        }
        i = i + 1;
    }
    true
}

} // verus!
