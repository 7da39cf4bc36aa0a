//! The in-memory tree of one database snapshot.
use vstd::prelude::*;

verus! {

/// One named value of an entry. A field that is not in an entry's list is
/// absent, which is not the same as a field holding the empty string.
pub struct Field {
    pub name: String,
    pub value: String,
}

/// A recorded earlier state of an entry.
pub struct HistoryEntry {
    pub modified_at: i64,
    pub fields: Vec<Field>,
}

/// A record of field values with the history of its earlier versions,
/// oldest first.
pub struct Entry {
    pub id: u128,
    pub fields: Vec<Field>,
    pub history: Vec<HistoryEntry>,
}

/// A named container of entries and nested groups.
pub struct Group {
    pub id: u128,
    pub name: String,
    pub entries: Vec<Entry>,
    pub subgroups: Vec<Group>,
}

/// The value that a field list gives to `name`, or `None` where it has no
/// such field.
pub open spec fn field_value(fs: Seq<Field>, name: Seq<char>) -> Option<Seq<char>>
    decreases fs.len(),
{
    if fs.len() == 0 {
        None
    } else {
        match field_value(fs.drop_last(), name) {
            Some(v) => Some(v),
            None => if fs.last().name@ == name {
                Some(fs.last().value@)
            } else {
                None
            },
        }
    }
}

/// No two fields of the list share a name.
pub open spec fn fields_wf(fs: Seq<Field>) -> bool {
    forall|i: int, j: int|
        0 <= i < fs.len() && 0 <= j < fs.len() && i != j ==> fs[i].name@ != fs[j].name@
}

/// Looks up the value of the field called `name`.
pub fn get_field<'a>(fs: &'a Vec<Field>, name: &String) -> (r: Option<&'a String>)
    ensures
        match r {
            Some(v) => field_value(fs@, name@) == Some(v@),
            None => field_value(fs@, name@) is None,
        },
{
    let mut i: usize = 0;
    while i < fs.len()
        invariant
            i <= fs@.len(),
            field_value(fs@.take(i as int), name@) is None,
        decreases fs@.len() - i,
    {
        assert(fs@.take(i as int + 1).drop_last() =~= fs@.take(i as int));
        if fs[i].name == *name {
            proof {
                lemma_field_value_prefix(fs@, i as int + 1, name@);
            }
            return Some(&fs[i].value);
        }
        i = i + 1;
    }
    assert(fs@.take(i as int) =~= fs@);
    None
}

/// Once a prefix of the list gives a field its value, the whole list does.
pub proof fn lemma_field_value_prefix(fs: Seq<Field>, n: int, name: Seq<char>)
    requires
        0 <= n <= fs.len(),
        field_value(fs.take(n), name) is Some,
    ensures
        field_value(fs, name) == field_value(fs.take(n), name),
    decreases fs.len(),
{
    if n < fs.len() {
        assert(fs.drop_last().take(n) =~= fs.take(n));
        lemma_field_value_prefix(fs.drop_last(), n, name);
    } else {
        assert(fs.take(n) =~= fs);
    }
}

/// Field names are unique in the entry and in each of its earlier versions.
pub open spec fn entry_wf(e: Entry) -> bool {
    &&& fields_wf(e.fields@)
    &&& forall|h: int| 0 <= h < e.history@.len() ==> fields_wf(#[trigger] e.history@[h].fields@)
}

/// Within each group of the tree, no two entries and no two subgroups share
/// an identifier, and every entry is well formed.
pub open spec fn group_wf(g: Group) -> bool
    decreases g,
{
    &&& forall|i: int, j: int|
        0 <= i < g.entries@.len() && 0 <= j < g.entries@.len() && i != j
            ==> g.entries@[i].id != g.entries@[j].id
    &&& forall|i: int, j: int|
        0 <= i < g.subgroups@.len() && 0 <= j < g.subgroups@.len() && i != j
            ==> g.subgroups@[i].id != g.subgroups@[j].id
    &&& forall|i: int| 0 <= i < g.entries@.len() ==> entry_wf(#[trigger] g.entries@[i])
    &&& forall|j: int| 0 <= j < g.subgroups@.len() ==> group_wf(#[trigger] g.subgroups@[j])
}

} // verus!
