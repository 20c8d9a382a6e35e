//! The generic tree value that the decoder queries by key and by shape.

use vstd::prelude::*;

verus! {

/// One node of a parsed document.
#[derive(Debug, PartialEq, Eq)]
pub enum TreeValue {
    Str(String),
    Int(i64),
    Array(Vec<TreeValue>),
    Table(Vec<Entry>),
    /// Any other kind of node (float, boolean, date-time).
    Other,
}

/// One key of a table with its value.
#[derive(Debug, PartialEq, Eq)]
pub struct Entry {
    pub key: String,
    pub value: TreeValue,
}

/// The value of the first entry at or after position `i` whose key is `key`.
pub open spec fn find_from(entries: Seq<Entry>, key: Seq<char>, i: int) -> Option<TreeValue>
    decreases entries.len() - i,
{
    if i < 0 || i >= entries.len() {
        None
    } else if entries[i].key@ == key {
        Some(entries[i].value)
    } else {
        find_from(entries, key, i + 1)
    }
}

/// The value stored under `key` in a table, if any.
pub open spec fn lookup(entries: Seq<Entry>, key: Seq<char>) -> Option<TreeValue> {
    find_from(entries, key, 0)
}

/// Looks up `key` in the entries of a table.
pub fn get<'a>(entries: &'a Vec<Entry>, key: &str) -> (r: Option<&'a TreeValue>)
    ensures
        match r {
            Some(v) => lookup(entries@, key@) == Some(*v),
            None => lookup(entries@, key@) is None,
        },
{
    let wanted = String::from_str(key);
    let mut i: usize = 0;
    while i < entries.len()
        invariant
            i <= entries@.len(),
            wanted@ == key@,
            lookup(entries@, key@) == find_from(entries@, key@, i as int),
        decreases entries@.len() - i,
    {
        if entries[i].key == wanted {
            return Some(&entries[i].value);
        }
        i = i + 1;
    }
    None
}

} // verus!
