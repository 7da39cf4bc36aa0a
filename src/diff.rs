//! The diff engine: aligns two trees by identifier and classifies each node.
use vstd::prelude::*;
use vstd::string::StringExecFns;
use crate::model::{Entry, Field, Group, HistoryEntry, entry_wf, field_value, fields_wf, group_wf};
use crate::fields::{FieldChange, FieldDelta, change_views, diff_fields, field_changes, lemma_field_changes_complete};

verus! {

/// How one position of an entry's history changed.
pub enum HistoryDelta<'a> {
    Added(&'a HistoryEntry),
    Removed(&'a HistoryEntry),
    Unchanged(&'a HistoryEntry),
    Modified(&'a HistoryEntry, Vec<FieldDelta>),
}

/// How one entry changed. Matched entries carry the newer entry.
pub enum EntryDelta<'a> {
    Added(&'a Entry),
    Removed(&'a Entry),
    Unchanged(&'a Entry),
    Modified { entry: &'a Entry, fields: Vec<FieldDelta>, history: Vec<HistoryDelta<'a>> },
}

/// How one group changed. Matched groups carry the newer group.
pub enum GroupDelta<'a> {
    Added(&'a Group),
    Removed(&'a Group),
    Unchanged(&'a Group),
    Modified {
        group: &'a Group,
        name_change: Option<FieldDelta>,
        entries: Vec<EntryDelta<'a>>,
        subgroups: Vec<GroupDelta<'a>>,
    },
}

/// The delta at position `i` of two histories compared position by position.
pub open spec fn history_item_ok(a: Seq<HistoryEntry>, b: Seq<HistoryEntry>, i: int, d: HistoryDelta) -> bool {
    if i < a.len() && i < b.len() {
        let fc = field_changes(a[i].fields@, b[i].fields@);
        match d {
            HistoryDelta::Unchanged(h) => fc.len() == 0 && *h == b[i],
            HistoryDelta::Modified(h, fs) => fc.len() != 0 && *h == b[i] && change_views(fs@) == fc,
            _ => false,
        }
    } else if i < b.len() {
        d == HistoryDelta::Added(&b[i])
    } else {
        d == HistoryDelta::Removed(&a[i])
    }
}

pub open spec fn max_len(x: int, y: int) -> int {
    if x < y { y } else { x }
}

/// `d` is the positional comparison of history `a` with history `b`.
pub open spec fn history_delta_ok(a: Seq<HistoryEntry>, b: Seq<HistoryEntry>, d: Seq<HistoryDelta>) -> bool {
    &&& d.len() == max_len(a.len() as int, b.len() as int)
    &&& forall|i: int| 0 <= i < d.len() ==> history_item_ok(a, b, i, #[trigger] d[i])
}

/// Two histories of equal length whose entries pairwise hold equal fields.
pub open spec fn history_same(a: Seq<HistoryEntry>, b: Seq<HistoryEntry>) -> bool {
    &&& a.len() == b.len()
    &&& forall|i: int| 0 <= i < a.len() ==> (#[trigger] field_changes(a[i].fields@, b[i].fields@)).len() == 0
}

/// Two matched entries with equal fields and equal history.
pub open spec fn entry_same(a: Entry, b: Entry) -> bool {
    &&& field_changes(a.fields@, b.fields@).len() == 0
    &&& history_same(a.history@, b.history@)
}

/// `d` is the comparison of the matched entries `a` and `b`.
pub open spec fn entry_delta_ok(a: Entry, b: Entry, d: EntryDelta) -> bool {
    if entry_same(a, b) {
        d == EntryDelta::Unchanged(&b)
    } else {
        match d {
            EntryDelta::Modified { entry, fields, history } => {
                &&& *entry == b
                &&& change_views(fields@) == field_changes(a.fields@, b.fields@)
                &&& history_delta_ok(a.history@, b.history@, history@)
            },
            _ => false,
        }
    }
}

/// Compares two histories position by position, oldest first.
pub fn diff_history<'a>(a: &'a Vec<HistoryEntry>, b: &'a Vec<HistoryEntry>) -> (r: Vec<HistoryDelta<'a>>)
    ensures
        history_delta_ok(a@, b@, r@),
        (forall|i: int| 0 <= i < r@.len() ==> r@[i] is Unchanged) <==> history_same(a@, b@),
{
    let mut r: Vec<HistoryDelta<'a>> = Vec::new();
    let mut same: bool = a.len() == b.len();
    let mut i: usize = 0;
    while i < a.len() || i < b.len()
        invariant
            i <= max_len(a@.len() as int, b@.len() as int),
            r@.len() == i,
            forall|k: int| 0 <= k < i ==> history_item_ok(a@, b@, k, #[trigger] r@[k]),
            same == (a@.len() == b@.len() && forall|k: int| 0 <= k < i ==> r@[k] is Unchanged),
        decreases a@.len() + b@.len() - i,
    {
        let ghost before = r@;
        if i < a.len() && i < b.len() {
            let fs = diff_fields(&a[i].fields, &b[i].fields);
            if fs.len() == 0 {
                r.push(HistoryDelta::Unchanged(&b[i]));
                assert(r@[i as int] is Unchanged);
            } else {
                r.push(HistoryDelta::Modified(&b[i], fs));
                same = false;
            }
        } else if i < b.len() {
            r.push(HistoryDelta::Added(&b[i]));
            same = false;
        } else {
            r.push(HistoryDelta::Removed(&a[i]));
            same = false;
        }
        assert(forall|k: int| 0 <= k < i ==> r@[k] == before[k]);
        assert(!same ==> !(a@.len() == b@.len() && forall|k: int| 0 <= k < i + 1 ==> r@[k] is Unchanged)) by {
            if !same && a@.len() == b@.len() && i > 0 {
                if !(forall|k: int| 0 <= k < i ==> before[k] is Unchanged) {
                    let k = choose|k: int| 0 <= k < i && !(before[k] is Unchanged);
                    assert(r@[k] == before[k]);
                }
            }
        }
        i = i + 1;
    }
    proof {
        if same {
            assert(r@.len() == a@.len());
            assert forall|k: int| 0 <= k < a@.len() implies (#[trigger] field_changes(a@[k].fields@, b@[k].fields@)).len() == 0 by {
                assert(history_item_ok(a@, b@, k, r@[k]));
            }
        }
        if history_same(a@, b@) {
            assert forall|k: int| 0 <= k < r@.len() implies r@[k] is Unchanged by {
                assert(history_item_ok(a@, b@, k, r@[k]));
                assert(field_changes(a@[k].fields@, b@[k].fields@).len() == 0);
            }
        }
        if a@.len() != b@.len() {
            let k = r@.len() - 1;
            assert(history_item_ok(a@, b@, k, r@[k]));
        }
    }
    r
}

/// Compares two matched entries: their fields, then their histories.
pub fn diff_entry<'a>(a: &'a Entry, b: &'a Entry) -> (r: EntryDelta<'a>)
    ensures
        entry_delta_ok(*a, *b, r),
{
    let fields = diff_fields(&a.fields, &b.fields);
    let history = diff_history(&a.history, &b.history);
    let mut unchanged: bool = fields.len() == 0;
    let mut i: usize = 0;
    while i < history.len()
        invariant
            i <= history@.len(),
            unchanged == (fields@.len() == 0 && forall|k: int| 0 <= k < i ==> history@[k] is Unchanged),
        decreases history@.len() - i,
    {
        if !matches!(history[i], HistoryDelta::Unchanged(_)) {
            unchanged = false;
        }
        i = i + 1;
    }
    if unchanged {
        EntryDelta::Unchanged(b)
    } else {
        EntryDelta::Modified { entry: b, fields, history }
    }
}

/// The first position of `id` in `ids`.
pub open spec fn find_id(ids: Seq<u128>, id: u128) -> Option<int>
    decreases ids.len(),
{
    if ids.len() == 0 {
        None
    } else {
        match find_id(ids.drop_last(), id) {
            Some(j) => Some(j),
            None => if ids.last() == id {
                Some(ids.len() - 1)
            } else {
                None
            },
        }
    }
}

pub open spec fn entry_ids(v: Seq<Entry>) -> Seq<u128> {
    v.map_values(|e: Entry| e.id)
}

pub open spec fn group_ids(v: Seq<Group>) -> Seq<u128> {
    v.map_values(|g: Group| g.id)
}

/// `find_id` gives the first position holding the identifier, if any.
pub proof fn lemma_find_id(ids: Seq<u128>, id: u128)
    ensures
        match find_id(ids, id) {
            None => forall|k: int| 0 <= k < ids.len() ==> ids[k] != id,
            Some(j) => 0 <= j < ids.len() && ids[j] == id && forall|k: int| 0 <= k < j ==> ids[k] != id,
        },
    decreases ids.len(),
{
    if ids.len() > 0 {
        lemma_find_id(ids.drop_last(), id);
        assert(forall|k: int| 0 <= k < ids.len() - 1 ==> ids[k] == ids.drop_last()[k]);
    }
}

/// The entries of `a`, in `a`'s order, whose identifier `b` lacks.
pub open spec fn removed_entries(a: Seq<Entry>, b: Seq<Entry>) -> Seq<Entry>
    decreases a.len(),
{
    if a.len() == 0 {
        seq![]
    } else {
        let prev = removed_entries(a.drop_last(), b);
        if find_id(entry_ids(b), a.last().id) is None {
            prev.push(a.last())
        } else {
            prev
        }
    }
}

/// The groups of `a`, in `a`'s order, whose identifier `b` lacks.
pub open spec fn removed_groups(a: Seq<Group>, b: Seq<Group>) -> Seq<Group>
    decreases a.len(),
{
    if a.len() == 0 {
        seq![]
    } else {
        let prev = removed_groups(a.drop_last(), b);
        if find_id(group_ids(b), a.last().id) is None {
            prev.push(a.last())
        } else {
            prev
        }
    }
}

/// `d` is the comparison of the entry lists `a` and `b`: one delta per
/// entry of `b` in `b`'s order (added, or compared with the entry of `a`
/// that has its identifier), then the entries that only `a` has, removed.
pub open spec fn entries_delta_ok(a: Seq<Entry>, b: Seq<Entry>, d: Seq<EntryDelta>) -> bool {
    &&& d.len() == b.len() + removed_entries(a, b).len()
    &&& forall|i: int| 0 <= i < b.len() ==> match find_id(entry_ids(a), b[i].id) {
        None => #[trigger] d[i] == EntryDelta::Added(&b[i]),
        Some(j) => entry_delta_ok(a[j], b[i], d[i]),
    }
    &&& forall|k: int| 0 <= k < removed_entries(a, b).len()
        ==> #[trigger] d[b.len() + k] == EntryDelta::Removed(&removed_entries(a, b)[k])
}

/// Two entry lists holding the same identifiers, matched entries unchanged.
pub open spec fn entries_same(a: Seq<Entry>, b: Seq<Entry>) -> bool {
    &&& removed_entries(a, b).len() == 0
    &&& forall|i: int| 0 <= i < b.len() ==> match #[trigger] find_id(entry_ids(a), b[i].id) {
        None => false,
        Some(j) => entry_same(a[j], b[i]),
    }
}

fn find_entry(v: &Vec<Entry>, id: u128) -> (r: Option<usize>)
    ensures
        match r {
            Some(j) => find_id(entry_ids(v@), id) == Some(j as int) && j < v@.len(),
            None => find_id(entry_ids(v@), id) is None,
        },
{
    let ghost ids = entry_ids(v@);
    let mut i: usize = 0;
    while i < v.len()
        invariant
            i <= v@.len(),
            ids == entry_ids(v@),
            forall|k: int| 0 <= k < i ==> ids[k] != id,
            ids.len() == v@.len(),
        decreases v@.len() - i,
    {
        if v[i].id == id {
            assert(ids[i as int] == id);
            proof {
                lemma_find_id(ids, id);
            }
            return Some(i);
        }
        i = i + 1;
    }
    proof {
        lemma_find_id(ids, id);
    }
    None
}

fn find_group(v: &Vec<Group>, id: u128) -> (r: Option<usize>)
    ensures
        match r {
            Some(j) => find_id(group_ids(v@), id) == Some(j as int) && j < v@.len(),
            None => find_id(group_ids(v@), id) is None,
        },
{
    let ghost ids = group_ids(v@);
    let mut i: usize = 0;
    while i < v.len()
        invariant
            i <= v@.len(),
            ids == group_ids(v@),
            forall|k: int| 0 <= k < i ==> ids[k] != id,
            ids.len() == v@.len(),
        decreases v@.len() - i,
    {
        if v[i].id == id {
            assert(ids[i as int] == id);
            proof {
                lemma_find_id(ids, id);
            }
            return Some(i);
        }
        i = i + 1;
    }
    proof {
        lemma_find_id(ids, id);
    }
    None
}

/// Compares two entry lists, matching entries by identifier only.
pub fn diff_entries<'a>(a: &'a Vec<Entry>, b: &'a Vec<Entry>) -> (r: Vec<EntryDelta<'a>>)
    ensures
        entries_delta_ok(a@, b@, r@),
        (forall|k: int| 0 <= k < r@.len() ==> r@[k] is Unchanged) <==> entries_same(a@, b@),
{
    let mut r: Vec<EntryDelta<'a>> = Vec::new();
    let mut same: bool = true;
    let mut i: usize = 0;
    while i < b.len()
        invariant
            i <= b@.len(),
            r@.len() == i,
            forall|k: int| 0 <= k < i ==> match find_id(entry_ids(a@), b@[k].id) {
                None => #[trigger] r@[k] == EntryDelta::Added(&b@[k]),
                Some(j) => entry_delta_ok(a@[j], b@[k], r@[k]),
            },
            same == forall|k: int| 0 <= k < i ==> r@[k] is Unchanged,
        decreases b@.len() - i,
    {
        let ghost before = r@;
        match find_entry(a, b[i].id) {
            Some(j) => {
                let d = diff_entry(&a[j], &b[i]);
                if !matches!(d, EntryDelta::Unchanged(_)) {
                    same = false;
                }
                r.push(d);
            },
            None => {
                r.push(EntryDelta::Added(&b[i]));
                same = false;
            },
        }
        assert(forall|k: int| 0 <= k < i ==> r@[k] == before[k]);
        assert(!same ==> !(forall|k: int| 0 <= k < i + 1 ==> r@[k] is Unchanged)) by {
            if !same && !(r@[i as int] is Unchanged) {
            } else if !same {
                let k = choose|k: int| 0 <= k < i && !(before[k] is Unchanged);
                assert(r@[k] == before[k]);
            }
        }
        i = i + 1;
    }
    let ghost nb = b@.len() as int;
    let mut j: usize = 0;
    while j < a.len()
        invariant
            j <= a@.len(),
            nb == b@.len(),
            r@.len() == nb + removed_entries(a@.take(j as int), b@).len(),
            forall|k: int| 0 <= k < nb ==> match find_id(entry_ids(a@), b@[k].id) {
                None => #[trigger] r@[k] == EntryDelta::Added(&b@[k]),
                Some(j) => entry_delta_ok(a@[j], b@[k], r@[k]),
            },
            forall|k: int| 0 <= k < removed_entries(a@.take(j as int), b@).len()
                ==> #[trigger] r@[nb + k] == EntryDelta::Removed(&removed_entries(a@.take(j as int), b@)[k]),
            same == ((forall|k: int| 0 <= k < nb ==> r@[k] is Unchanged) && removed_entries(a@.take(j as int), b@).len() == 0),
        decreases a@.len() - j,
    {
        assert(a@.take(j as int + 1).drop_last() =~= a@.take(j as int));
        assert(a@.take(j as int + 1).last() == a@[j as int]);
        let ghost before = r@;
        if find_entry(b, a[j].id).is_none() {
            r.push(EntryDelta::Removed(&a[j]));
            same = false;
            assert(forall|k: int| 0 <= k < before.len() ==> r@[k] == before[k]);
        }
        j = j + 1;
    }
    assert(a@.take(j as int) =~= a@);
    proof {
        if same {
            assert forall|k: int| 0 <= k < b@.len() implies match #[trigger] find_id(entry_ids(a@), b@[k].id) {
                None => false,
                Some(j) => entry_same(a@[j], b@[k]),
            } by {
                assert(r@[k] is Unchanged);
            }
        }
        if entries_same(a@, b@) {
            assert forall|k: int| 0 <= k < r@.len() implies r@[k] is Unchanged by {
                assert(find_id(entry_ids(a@), b@[k].id) is Some);
            }
        }
        if !same && (forall|k: int| 0 <= k < r@.len() ==> r@[k] is Unchanged) {
            if removed_entries(a@, b@).len() > 0 {
                assert(r@[nb + 0] == EntryDelta::Removed(&removed_entries(a@, b@)[0]));
            }
        }
    }
    r
}

/// The change of a group's own name, reported as a field called `name`.
pub open spec fn name_change_ok(a: Group, b: Group, c: Option<FieldDelta>) -> bool {
    if a.name@ == b.name@ {
        c is None
    } else {
        c is Some && c->0@ == (FieldChange { name: "name"@, old: Some(a.name@), new: Some(b.name@) })
    }
}

/// Two matched groups with equal names, the same entries and the same
/// subgroups, all the way down.
pub open spec fn group_same(a: Group, b: Group) -> bool
    decreases a,
{
    &&& a.name@ == b.name@
    &&& entries_same(a.entries@, b.entries@)
    &&& removed_groups(a.subgroups@, b.subgroups@).len() == 0
    &&& forall|i: int| 0 <= i < b.subgroups@.len() ==> match #[trigger] find_id(group_ids(a.subgroups@), b.subgroups@[i].id) {
        None => false,
        Some(j) => 0 <= j < a.subgroups@.len() && group_same(a.subgroups@[j], b.subgroups@[i]),
    }
}

/// `d` is the comparison of the matched groups `a` and `b`: unchanged when
/// they are the same, else their name change, their entries compared, and
/// one delta per subgroup of `b` in `b`'s order (added, or compared with the
/// subgroup of `a` that has its identifier), then the subgroups that only
/// `a` has, removed.
pub open spec fn group_delta_ok(a: Group, b: Group, d: GroupDelta) -> bool
    decreases a,
{
    if group_same(a, b) {
        d == GroupDelta::Unchanged(&b)
    } else {
        match d {
            GroupDelta::Modified { group, name_change, entries, subgroups } => {
                let rm = removed_groups(a.subgroups@, b.subgroups@);
                let n = b.subgroups@.len();
                &&& *group == b
                &&& name_change_ok(a, b, name_change)
                &&& entries_delta_ok(a.entries@, b.entries@, entries@)
                &&& subgroups@.len() == n + rm.len()
                &&& forall|i: int| 0 <= i < n ==> match find_id(group_ids(a.subgroups@), b.subgroups@[i].id) {
                    None => #[trigger] subgroups@[i] == GroupDelta::Added(&b.subgroups@[i]),
                    Some(j) => 0 <= j < a.subgroups@.len() && group_delta_ok(a.subgroups@[j], b.subgroups@[i], subgroups@[i]),
                }
                &&& forall|k: int| 0 <= k < rm.len() ==> #[trigger] subgroups@[n + k] == GroupDelta::Removed(&rm[k])
            },
            _ => false,
        }
    }
}

fn all_entries_unchanged(d: &Vec<EntryDelta>) -> (r: bool)
    ensures
        r == forall|k: int| 0 <= k < d@.len() ==> d@[k] is Unchanged,
{
    let mut i: usize = 0;
    while i < d.len()
        invariant
            i <= d@.len(),
            forall|k: int| 0 <= k < i ==> d@[k] is Unchanged,
        decreases d@.len() - i,
    {
        if !matches!(d[i], EntryDelta::Unchanged(_)) {
            return false;
        }
        i = i + 1;
    }
    true
}

fn all_groups_unchanged(d: &Vec<GroupDelta>) -> (r: bool)
    ensures
        r == forall|k: int| 0 <= k < d@.len() ==> d@[k] is Unchanged,
{
    let mut i: usize = 0;
    while i < d.len()
        invariant
            i <= d@.len(),
            forall|k: int| 0 <= k < i ==> d@[k] is Unchanged,
        decreases d@.len() - i,
    {
        if !matches!(d[i], GroupDelta::Unchanged(_)) {
            return false;
        }
        i = i + 1;
    }
    true
}

/// Compares two database trees whose roots are taken as matched: entries
/// and subgroups are matched by identifier at every level, never by name.
pub fn diff<'a>(a: &'a Group, b: &'a Group) -> (r: GroupDelta<'a>)
    ensures
        group_delta_ok(*a, *b, r),
    decreases a,
{
    let entries = diff_entries(&a.entries, &b.entries);
    let ghost n = b.subgroups@.len() as int;
    let ghost asg = a.subgroups@;
    let ghost bsg = b.subgroups@;
    let mut subgroups: Vec<GroupDelta<'a>> = Vec::new();
    let mut i: usize = 0;
    while i < b.subgroups.len()
        invariant
            i <= n,
            n == b.subgroups@.len(),
            asg == a.subgroups@,
            bsg == b.subgroups@,
            subgroups@.len() == i,
            forall|k: int| 0 <= k < i ==> match find_id(group_ids(asg), bsg[k].id) {
                None => #[trigger] subgroups@[k] == GroupDelta::Added(&bsg[k]),
                Some(j) => 0 <= j < asg.len() && group_delta_ok(asg[j], bsg[k], subgroups@[k]),
            },
        decreases n - i,
    {
        let ghost before = subgroups@;
        match find_group(&a.subgroups, b.subgroups[i].id) {
            Some(j) => {
                let d = diff(&a.subgroups[j], &b.subgroups[i]);
                subgroups.push(d);
            },
            None => {
                subgroups.push(GroupDelta::Added(&b.subgroups[i]));
            },
        }
        assert(forall|k: int| 0 <= k < i ==> subgroups@[k] == before[k]);
        i = i + 1;
    }
    let mut j: usize = 0;
    while j < a.subgroups.len()
        invariant
            j <= asg.len(),
            n == b.subgroups@.len(),
            asg == a.subgroups@,
            bsg == b.subgroups@,
            subgroups@.len() == n + removed_groups(asg.take(j as int), bsg).len(),
            forall|k: int| 0 <= k < n ==> match find_id(group_ids(asg), bsg[k].id) {
                None => #[trigger] subgroups@[k] == GroupDelta::Added(&bsg[k]),
                Some(j) => 0 <= j < asg.len() && group_delta_ok(asg[j], bsg[k], subgroups@[k]),
            },
            forall|k: int| 0 <= k < removed_groups(asg.take(j as int), bsg).len()
                ==> #[trigger] subgroups@[n + k] == GroupDelta::Removed(&removed_groups(asg.take(j as int), bsg)[k]),
        decreases asg.len() - j,
    {
        assert(asg.take(j as int + 1).drop_last() =~= asg.take(j as int));
        assert(asg.take(j as int + 1).last() == asg[j as int]);
        let ghost before = subgroups@;
        if find_group(&b.subgroups, a.subgroups[j].id).is_none() {
            subgroups.push(GroupDelta::Removed(&a.subgroups[j]));
            assert(forall|k: int| 0 <= k < before.len() ==> subgroups@[k] == before[k]);
        }
        j = j + 1;
    }
    assert(asg.take(j as int) =~= asg);
    let entries_same = all_entries_unchanged(&entries);
    let subgroups_same = all_groups_unchanged(&subgroups);
    let names_same = a.name == b.name;
    proof {
        let rm = removed_groups(asg, bsg);
        if subgroups_same {
            assert forall|k: int| 0 <= k < n implies match #[trigger] find_id(group_ids(asg), bsg[k].id) {
                None => false,
                Some(j) => 0 <= j < asg.len() && group_same(asg[j], bsg[k]),
            } by {
                assert(subgroups@[k] is Unchanged);
            }
            if rm.len() > 0 {
                assert(subgroups@[n + 0] == GroupDelta::Removed(&rm[0]));
            }
        }
        if group_same(*a, *b) {
            assert forall|k: int| 0 <= k < subgroups@.len() implies subgroups@[k] is Unchanged by {
                assert(find_id(group_ids(asg), bsg[k].id) is Some);
            }
        }
    }
    if names_same && entries_same && subgroups_same {
        GroupDelta::Unchanged(b)
    } else {
        let name_change = if names_same {
            None
        } else {
            proof {
                reveal_strlit("name");
            }
            Some(FieldDelta {
                name: String::from_str("name"),
                old_value: Some(a.name.clone()),
                new_value: Some(b.name.clone()),
            })
        };
        GroupDelta::Modified { group: b, name_change, entries, subgroups }
    }
}

proof fn lemma_field_changes_self(f: Seq<Field>)
    requires
        fields_wf(f),
    ensures
        field_changes(f, f).len() == 0,
{
    if field_changes(f, f).len() > 0 {
        lemma_field_changes_complete(f, f, field_changes(f, f)[0].name);
    }
}

proof fn lemma_entry_same_self(e: Entry)
    requires
        entry_wf(e),
    ensures
        entry_same(e, e),
{
    lemma_field_changes_self(e.fields@);
    assert forall|i: int| 0 <= i < e.history@.len() implies (#[trigger] field_changes(e.history@[i].fields@, e.history@[i].fields@)).len() == 0 by {
        lemma_field_changes_self(e.history@[i].fields@);
    }
}

proof fn lemma_find_unique(ids: Seq<u128>, i: int)
    requires
        0 <= i < ids.len(),
        forall|x: int, y: int| 0 <= x < ids.len() && 0 <= y < ids.len() && x != y ==> ids[x] != ids[y],
    ensures
        find_id(ids, ids[i]) == Some(i),
{
    lemma_find_id(ids, ids[i]);
}

proof fn lemma_no_removed_entries(a: Seq<Entry>, b: Seq<Entry>)
    requires
        forall|k: int| 0 <= k < a.len() ==> (#[trigger] find_id(entry_ids(b), a[k].id)) is Some,
    ensures
        removed_entries(a, b).len() == 0,
    decreases a.len(),
{
    if a.len() > 0 {
        let p = a.drop_last();
        assert forall|k: int| 0 <= k < p.len() implies (#[trigger] find_id(entry_ids(b), p[k].id)) is Some by {
            assert(p[k] == a[k]);
        }
        lemma_no_removed_entries(p, b);
        assert(a[a.len() - 1] == a.last());
    }
}

proof fn lemma_no_removed_groups(a: Seq<Group>, b: Seq<Group>)
    requires
        forall|k: int| 0 <= k < a.len() ==> (#[trigger] find_id(group_ids(b), a[k].id)) is Some,
    ensures
        removed_groups(a, b).len() == 0,
    decreases a.len(),
{
    if a.len() > 0 {
        let p = a.drop_last();
        assert forall|k: int| 0 <= k < p.len() implies (#[trigger] find_id(group_ids(b), p[k].id)) is Some by {
            assert(p[k] == a[k]);
        }
        lemma_no_removed_groups(p, b);
        assert(a[a.len() - 1] == a.last());
    }
}

proof fn lemma_group_same_self(g: Group)
    requires
        group_wf(g),
    ensures
        group_same(g, g),
    decreases g,
{
    let es = g.entries@;
    let gs = g.subgroups@;
    assert forall|k: int| 0 <= k < es.len() implies (#[trigger] find_id(entry_ids(es), es[k].id)) is Some by {
        assert(entry_ids(es)[k] == es[k].id);
        lemma_find_unique(entry_ids(es), k);
    }
    lemma_no_removed_entries(es, es);
    assert forall|i: int| 0 <= i < es.len() implies match #[trigger] find_id(entry_ids(es), es[i].id) {
        None => false,
        Some(j) => entry_same(es[j], es[i]),
    } by {
        assert(entry_ids(es)[i] == es[i].id);
        lemma_find_unique(entry_ids(es), i);
        lemma_entry_same_self(es[i]);
    }
    assert forall|k: int| 0 <= k < gs.len() implies (#[trigger] find_id(group_ids(gs), gs[k].id)) is Some by {
        assert(group_ids(gs)[k] == gs[k].id);
        lemma_find_unique(group_ids(gs), k);
    }
    lemma_no_removed_groups(gs, gs);
    assert forall|i: int| 0 <= i < gs.len() implies match #[trigger] find_id(group_ids(gs), gs[i].id) {
        None => false,
        Some(j) => 0 <= j < gs.len() && group_same(gs[j], gs[i]),
    } by {
        assert(group_ids(gs)[i] == gs[i].id);
        lemma_find_unique(group_ids(gs), i);
        lemma_group_same_self(gs[i]);
    }
}

/// Comparing a well-formed tree with itself reports it unchanged as a whole.
pub proof fn lemma_diff_identity(g: Group, d: GroupDelta)
    requires
        group_wf(g),
        group_delta_ok(g, g, d),
    ensures
        d == GroupDelta::Unchanged(&g),
{
    lemma_group_same_self(g);
}

proof fn lemma_removed_entries(a: Seq<Entry>, b: Seq<Entry>)
    ensures
        forall|k: int| 0 <= k < removed_entries(a, b).len() ==> {
            let x = #[trigger] removed_entries(a, b)[k];
            find_id(entry_ids(b), x.id) is None && a.contains(x)
        },
        forall|i: int| 0 <= i < a.len() && find_id(entry_ids(b), a[i].id) is None
            ==> removed_entries(a, b).contains(#[trigger] a[i]),
    decreases a.len(),
{
    if a.len() > 0 {
        let p = a.drop_last();
        lemma_removed_entries(p, b);
        let prev = removed_entries(p, b);
        let cur = removed_entries(a, b);
        assert(a[a.len() - 1] == a.last());
        assert forall|k: int| 0 <= k < cur.len() implies {
            let x = #[trigger] cur[k];
            find_id(entry_ids(b), x.id) is None && a.contains(x)
        } by {
            if k < prev.len() {
                assert(cur[k] == prev[k]);
                let i = choose|i: int| 0 <= i < p.len() && p[i] == prev[k];
                assert(a[i] == p[i]);
            }
        }
        assert forall|i: int| 0 <= i < a.len() && find_id(entry_ids(b), a[i].id) is None
            implies cur.contains(#[trigger] a[i]) by {
            if i < p.len() {
                assert(a[i] == p[i]);
                let k = choose|k: int| 0 <= k < prev.len() && prev[k] == p[i];
                assert(cur[k] == prev[k]);
            } else {
                assert(cur[cur.len() - 1] == a[i]);
            }
        }
    }
}

proof fn lemma_in_entries(v: Seq<Entry>, x: Entry)
    requires
        v.contains(x),
    ensures
        find_id(entry_ids(v), x.id) is Some,
{
    let i = choose|i: int| 0 <= i < v.len() && v[i] == x;
    assert(entry_ids(v)[i] == x.id);
    lemma_find_id(entry_ids(v), x.id);
}

proof fn lemma_removed_groups(a: Seq<Group>, b: Seq<Group>)
    ensures
        forall|k: int| 0 <= k < removed_groups(a, b).len() ==> {
            let x = #[trigger] removed_groups(a, b)[k];
            find_id(group_ids(b), x.id) is None && a.contains(x)
        },
        forall|i: int| 0 <= i < a.len() && find_id(group_ids(b), a[i].id) is None
            ==> removed_groups(a, b).contains(#[trigger] a[i]),
    decreases a.len(),
{
    if a.len() > 0 {
        let p = a.drop_last();
        lemma_removed_groups(p, b);
        let prev = removed_groups(p, b);
        let cur = removed_groups(a, b);
        assert(a[a.len() - 1] == a.last());
        assert forall|k: int| 0 <= k < cur.len() implies {
            let x = #[trigger] cur[k];
            find_id(group_ids(b), x.id) is None && a.contains(x)
        } by {
            if k < prev.len() {
                assert(cur[k] == prev[k]);
                let i = choose|i: int| 0 <= i < p.len() && p[i] == prev[k];
                assert(a[i] == p[i]);
            }
        }
        assert forall|i: int| 0 <= i < a.len() && find_id(group_ids(b), a[i].id) is None
            implies cur.contains(#[trigger] a[i]) by {
            if i < p.len() {
                assert(a[i] == p[i]);
                let k = choose|k: int| 0 <= k < prev.len() && prev[k] == p[i];
                assert(cur[k] == prev[k]);
            } else {
                assert(cur[cur.len() - 1] == a[i]);
            }
        }
    }
}

proof fn lemma_in_groups(v: Seq<Group>, x: Group)
    requires
        v.contains(x),
    ensures
        find_id(group_ids(v), x.id) is Some,
{
    let i = choose|i: int| 0 <= i < v.len() && v[i] == x;
    assert(group_ids(v)[i] == x.id);
    lemma_find_id(group_ids(v), x.id);
}

/// Comparing two entry lists, an entry is reported added exactly when its
/// identifier is only in the newer list and removed exactly when it is only
/// in the older one; so no identifier is reported both ways.
pub proof fn lemma_entries_classification(a: Seq<Entry>, b: Seq<Entry>, d: Seq<EntryDelta>)
    requires
        entries_delta_ok(a, b, d),
    ensures
        forall|k: int| 0 <= k < d.len() && d[k] is Added ==> {
            let x = #[trigger] d[k]->Added_0;
            b.contains(*x) && find_id(entry_ids(a), x.id) is None
        },
        forall|k: int| 0 <= k < d.len() && d[k] is Removed ==> {
            let x = #[trigger] d[k]->Removed_0;
            a.contains(*x) && find_id(entry_ids(a), x.id) is Some && find_id(entry_ids(b), x.id) is None
        },
        forall|i: int| 0 <= i < b.len() && find_id(entry_ids(a), b[i].id) is None
            ==> d.contains(EntryDelta::Added(&(#[trigger] b[i]))),
        forall|i: int| 0 <= i < a.len() && find_id(entry_ids(b), a[i].id) is None
            ==> d.contains(EntryDelta::Removed(&(#[trigger] a[i]))),
{
    let rm = removed_entries(a, b);
    lemma_removed_entries(a, b);
    assert forall|k: int| 0 <= k < d.len() && d[k] is Added implies {
        let x = #[trigger] d[k]->Added_0;
        b.contains(*x) && find_id(entry_ids(a), x.id) is None
    } by {
        if k < b.len() {
            match find_id(entry_ids(a), b[k].id) {
                None => {},
                Some(j) => assert(entry_delta_ok(a[j], b[k], d[k])),
            }
        } else {
            assert(d[b.len() + (k - b.len())] == EntryDelta::Removed(&rm[k - b.len()]));
        }
    }
    assert forall|k: int| 0 <= k < d.len() && d[k] is Removed implies {
        let x = #[trigger] d[k]->Removed_0;
        a.contains(*x) && find_id(entry_ids(a), x.id) is Some && find_id(entry_ids(b), x.id) is None
    } by {
        if k < b.len() {
            match find_id(entry_ids(a), b[k].id) {
                None => {},
                Some(j) => assert(entry_delta_ok(a[j], b[k], d[k])),
            }
        } else {
            assert(d[b.len() + (k - b.len())] == EntryDelta::Removed(&rm[k - b.len()]));
            let x = rm[k - b.len()];
            lemma_in_entries(a, x);
        }
    }
    assert forall|i: int| 0 <= i < b.len() && find_id(entry_ids(a), b[i].id) is None
        implies d.contains(EntryDelta::Added(&(#[trigger] b[i]))) by {
        assert(d[i] == EntryDelta::Added(&b[i]));
    }
    assert forall|i: int| 0 <= i < a.len() && find_id(entry_ids(b), a[i].id) is None
        implies d.contains(EntryDelta::Removed(&(#[trigger] a[i]))) by {
        let k = choose|k: int| 0 <= k < rm.len() && rm[k] == a[i];
        assert(d[b.len() + k] == EntryDelta::Removed(&rm[k]));
    }
}

/// Comparing two modified groups, a subgroup is reported added exactly when
/// its identifier is only in the newer group and removed exactly when it is
/// only in the older one; so no identifier is reported both ways.
pub proof fn lemma_subgroups_classification(a: Group, b: Group, d: GroupDelta)
    requires
        group_delta_ok(a, b, d),
        d is Modified,
    ensures
        ({
            let (sa, sb, sd) = (a.subgroups@, b.subgroups@, d->subgroups@);
            &&& forall|k: int| 0 <= k < sd.len() && sd[k] is Added ==> {
                let x = #[trigger] sd[k]->Added_0;
                sb.contains(*x) && find_id(group_ids(sa), x.id) is None
            }
            &&& forall|k: int| 0 <= k < sd.len() && sd[k] is Removed ==> {
                let x = #[trigger] sd[k]->Removed_0;
                sa.contains(*x) && find_id(group_ids(sa), x.id) is Some && find_id(group_ids(sb), x.id) is None
            }
            &&& forall|i: int| 0 <= i < sb.len() && find_id(group_ids(sa), sb[i].id) is None
                ==> sd.contains(GroupDelta::Added(&(#[trigger] sb[i])))
            &&& forall|i: int| 0 <= i < sa.len() && find_id(group_ids(sb), sa[i].id) is None
                ==> sd.contains(GroupDelta::Removed(&(#[trigger] sa[i])))
        }),
{
    let (sa, sb, sd) = (a.subgroups@, b.subgroups@, d->subgroups@);
    let rm = removed_groups(sa, sb);
    lemma_removed_groups(sa, sb);
    assert forall|k: int| 0 <= k < sd.len() && sd[k] is Added implies {
        let x = #[trigger] sd[k]->Added_0;
        sb.contains(*x) && find_id(group_ids(sa), x.id) is None
    } by {
        if k < sb.len() {
            match find_id(group_ids(sa), sb[k].id) {
                None => {},
                Some(j) => assert(group_delta_ok(sa[j], sb[k], sd[k])),
            }
        } else {
            assert(sd[sb.len() + (k - sb.len())] == GroupDelta::Removed(&rm[k - sb.len()]));
        }
    }
    assert forall|k: int| 0 <= k < sd.len() && sd[k] is Removed implies {
        let x = #[trigger] sd[k]->Removed_0;
        sa.contains(*x) && find_id(group_ids(sa), x.id) is Some && find_id(group_ids(sb), x.id) is None
    } by {
        if k < sb.len() {
            match find_id(group_ids(sa), sb[k].id) {
                None => {},
                Some(j) => assert(group_delta_ok(sa[j], sb[k], sd[k])),
            }
        } else {
            assert(sd[sb.len() + (k - sb.len())] == GroupDelta::Removed(&rm[k - sb.len()]));
            lemma_in_groups(sa, rm[k - sb.len()]);
        }
    }
    assert forall|i: int| 0 <= i < sb.len() && find_id(group_ids(sa), sb[i].id) is None
        implies sd.contains(GroupDelta::Added(&(#[trigger] sb[i]))) by {
        assert(sd[i] == GroupDelta::Added(&sb[i]));
    }
    assert forall|i: int| 0 <= i < sa.len() && find_id(group_ids(sb), sa[i].id) is None
        implies sd.contains(GroupDelta::Removed(&(#[trigger] sa[i]))) by {
        let k = choose|k: int| 0 <= k < rm.len() && rm[k] == sa[i];
        assert(sd[sb.len() + k] == GroupDelta::Removed(&rm[k]));
    }
}

/// For two matched entries with unique field names, the field deltas of
/// their comparison name exactly the fields whose values differ (an absent
/// field and an empty one count as different), each with both values, and
/// an unchanged entry has no such field.
pub proof fn lemma_entry_field_deltas(a: Entry, b: Entry, d: EntryDelta, k: Seq<char>)
    requires
        entry_wf(a),
        entry_wf(b),
        entry_delta_ok(a, b, d),
    ensures
        d is Unchanged ==> field_value(a.fields@, k) == field_value(b.fields@, k),
        d is Modified ==> {
            let cs = change_views(d->fields@);
            &&& (exists|i: int| 0 <= i < cs.len() && cs[i].name == k)
                <==> field_value(a.fields@, k) != field_value(b.fields@, k)
            &&& forall|i: int| 0 <= i < cs.len() ==> {
                let c = #[trigger] cs[i];
                c.old == field_value(a.fields@, c.name) && c.new == field_value(b.fields@, c.name)
            }
        },
{
    lemma_field_changes_complete(a.fields@, b.fields@, k);
    let fc = field_changes(a.fields@, b.fields@);
    if d is Unchanged && field_value(a.fields@, k) != field_value(b.fields@, k) {
        let i = choose|i: int| 0 <= i < fc.len() && fc[i].name == k;
    }
}

/// The order in which a group lists its entries does not matter: a
/// well-formed group compared with the same group whose entries are listed
/// in another order is reported unchanged.
pub proof fn lemma_entry_order_irrelevant(a: Group, b: Group, d: GroupDelta)
    requires
        group_wf(a),
        b.name@ == a.name@,
        b.subgroups@ == a.subgroups@,
        forall|i: int| 0 <= i < b.entries@.len() ==> a.entries@.contains(#[trigger] b.entries@[i]),
        forall|j: int| 0 <= j < a.entries@.len() ==> b.entries@.contains(#[trigger] a.entries@[j]),
        group_delta_ok(a, b, d),
    ensures
        d == GroupDelta::Unchanged(&b),
{
    let ea = a.entries@;
    let eb = b.entries@;
    lemma_group_same_self(a);
    assert forall|k: int| 0 <= k < ea.len() implies (#[trigger] find_id(entry_ids(eb), ea[k].id)) is Some by {
        lemma_in_entries(eb, ea[k]);
    }
    lemma_no_removed_entries(ea, eb);
    assert forall|i: int| 0 <= i < eb.len() implies match #[trigger] find_id(entry_ids(ea), eb[i].id) {
        None => false,
        Some(j) => entry_same(ea[j], eb[i]),
    } by {
        lemma_in_entries(ea, eb[i]);
        lemma_find_id(entry_ids(ea), eb[i].id);
        let j = find_id(entry_ids(ea), eb[i].id)->0;
        let k = choose|k: int| 0 <= k < ea.len() && ea[k] == eb[i];
        assert(entry_ids(ea)[j] == ea[j].id);
        assert(j == k);
        lemma_entry_same_self(ea[k]);
    }
    assert(group_same(a, b));
}

/// The identifier of the entry that a delta reports on.
pub open spec fn entry_delta_id(d: EntryDelta) -> u128 {
    match d {
        EntryDelta::Added(e) => e.id,
        EntryDelta::Removed(e) => e.id,
        EntryDelta::Unchanged(e) => e.id,
        EntryDelta::Modified { entry, .. } => entry.id,
    }
}

/// The identifier of the group that a delta reports on.
pub open spec fn group_delta_id(d: GroupDelta) -> u128 {
    match d {
        GroupDelta::Added(g) => g.id,
        GroupDelta::Removed(g) => g.id,
        GroupDelta::Unchanged(g) => g.id,
        GroupDelta::Modified { group, .. } => group.id,
    }
}

pub open spec fn ids_unique(ids: Seq<u128>) -> bool {
    forall|i: int, j: int| 0 <= i < ids.len() && 0 <= j < ids.len() && i != j ==> ids[i] != ids[j]
}

proof fn lemma_removed_entries_unique(a: Seq<Entry>, b: Seq<Entry>)
    requires
        ids_unique(entry_ids(a)),
    ensures
        ids_unique(entry_ids(removed_entries(a, b))),
    decreases a.len(),
{
    if a.len() > 0 {
        let p = a.drop_last();
        assert forall|i: int, j: int| 0 <= i < p.len() && 0 <= j < p.len() && i != j
            implies entry_ids(p)[i] != entry_ids(p)[j] by {
            assert(entry_ids(p)[i] == entry_ids(a)[i]);
            assert(entry_ids(p)[j] == entry_ids(a)[j]);
        }
        lemma_removed_entries_unique(p, b);
        lemma_removed_entries(p, b);
        let prev = removed_entries(p, b);
        let cur = removed_entries(a, b);
        if cur.len() > prev.len() {
            assert forall|i: int, j: int| 0 <= i < cur.len() && 0 <= j < cur.len() && i != j
                implies entry_ids(cur)[i] != entry_ids(cur)[j] by {
                if i < prev.len() && j < prev.len() {
                    assert(entry_ids(cur)[i] == entry_ids(prev)[i]);
                    assert(entry_ids(cur)[j] == entry_ids(prev)[j]);
                } else {
                    let x = if i < prev.len() { i } else { j };
                    let m = choose|m: int| 0 <= m < p.len() && p[m] == prev[x];
                    assert(entry_ids(a)[m] == p[m].id);
                    assert(entry_ids(a)[a.len() - 1] == a.last().id);
                    assert(cur[x] == prev[x]);
                }
            }
        }
    }
}

proof fn lemma_removed_groups_unique(a: Seq<Group>, b: Seq<Group>)
    requires
        ids_unique(group_ids(a)),
    ensures
        ids_unique(group_ids(removed_groups(a, b))),
    decreases a.len(),
{
    if a.len() > 0 {
        let p = a.drop_last();
        assert forall|i: int, j: int| 0 <= i < p.len() && 0 <= j < p.len() && i != j
            implies group_ids(p)[i] != group_ids(p)[j] by {
            assert(group_ids(p)[i] == group_ids(a)[i]);
            assert(group_ids(p)[j] == group_ids(a)[j]);
        }
        lemma_removed_groups_unique(p, b);
        lemma_removed_groups(p, b);
        let prev = removed_groups(p, b);
        let cur = removed_groups(a, b);
        if cur.len() > prev.len() {
            assert forall|i: int, j: int| 0 <= i < cur.len() && 0 <= j < cur.len() && i != j
                implies group_ids(cur)[i] != group_ids(cur)[j] by {
                if i < prev.len() && j < prev.len() {
                    assert(group_ids(cur)[i] == group_ids(prev)[i]);
                    assert(group_ids(cur)[j] == group_ids(prev)[j]);
                } else {
                    let x = if i < prev.len() { i } else { j };
                    let m = choose|m: int| 0 <= m < p.len() && p[m] == prev[x];
                    assert(group_ids(a)[m] == p[m].id);
                    assert(group_ids(a)[a.len() - 1] == a.last().id);
                    assert(cur[x] == prev[x]);
                }
            }
        }
    }
}

/// Comparing two entry lists whose identifiers are unique, every
/// identifier of either list is reported by exactly one delta.
pub proof fn lemma_entries_one_delta_per_id(a: Seq<Entry>, b: Seq<Entry>, d: Seq<EntryDelta>)
    requires
        entries_delta_ok(a, b, d),
        ids_unique(entry_ids(a)),
        ids_unique(entry_ids(b)),
    ensures
        forall|k1: int, k2: int| 0 <= k1 < d.len() && 0 <= k2 < d.len() && k1 != k2
            ==> entry_delta_id(#[trigger] d[k1]) != entry_delta_id(#[trigger] d[k2]),
        forall|i: int| 0 <= i < b.len() ==> exists|k: int| 0 <= k < d.len() && entry_delta_id(d[k]) == (#[trigger] b[i]).id,
        forall|j: int| 0 <= j < a.len() ==> exists|k: int| 0 <= k < d.len() && entry_delta_id(d[k]) == (#[trigger] a[j]).id,
{
    let n = b.len() as int;
    let rm = removed_entries(a, b);
    lemma_removed_entries(a, b);
    lemma_removed_entries_unique(a, b);
    lemma_entries_classification(a, b, d);
    assert forall|k: int| 0 <= k < n implies entry_delta_id(#[trigger] d[k]) == b[k].id by {
        match find_id(entry_ids(a), b[k].id) {
            None => {},
            Some(j) => assert(entry_delta_ok(a[j], b[k], d[k])),
        }
    }
    assert forall|k: int| n <= k < d.len() implies #[trigger] d[k] == EntryDelta::Removed(&rm[k - n]) by {
        assert(d[n + (k - n)] == EntryDelta::Removed(&rm[k - n]));
    }
    assert forall|k1: int, k2: int| 0 <= k1 < d.len() && 0 <= k2 < d.len() && k1 != k2
        implies entry_delta_id(#[trigger] d[k1]) != entry_delta_id(#[trigger] d[k2]) by {
        if k1 < n && k2 < n {
            assert(entry_ids(b)[k1] == b[k1].id && entry_ids(b)[k2] == b[k2].id);
        } else if k1 >= n && k2 >= n {
            assert(entry_ids(rm)[k1 - n] == rm[k1 - n].id && entry_ids(rm)[k2 - n] == rm[k2 - n].id);
        } else {
            let (kb, kr) = if k1 < n { (k1, k2) } else { (k2, k1) };
            let x = rm[kr - n];
            lemma_find_id(entry_ids(b), x.id);
            assert(entry_ids(b)[kb] == b[kb].id);
        }
    }
    assert forall|i: int| 0 <= i < b.len() implies exists|k: int| 0 <= k < d.len() && entry_delta_id(d[k]) == (#[trigger] b[i]).id by {
        assert(entry_delta_id(d[i]) == b[i].id);
    }
    assert forall|j: int| 0 <= j < a.len() implies exists|k: int| 0 <= k < d.len() && entry_delta_id(d[k]) == (#[trigger] a[j]).id by {
        lemma_find_id(entry_ids(b), a[j].id);
        match find_id(entry_ids(b), a[j].id) {
            Some(i) => {
                assert(entry_ids(b)[i] == b[i].id);
                assert(entry_delta_id(d[i]) == b[i].id);
            },
            None => {
                assert(d.contains(EntryDelta::Removed(&a[j])));
                let k = choose|k: int| 0 <= k < d.len() && d[k] == EntryDelta::Removed(&a[j]);
                assert(entry_delta_id(d[k]) == a[j].id);
            },
        }
    }
}

/// Comparing two modified groups whose subgroup identifiers are unique,
/// every subgroup identifier of either group is reported by exactly one
/// subgroup delta.
pub proof fn lemma_subgroups_one_delta_per_id(a: Group, b: Group, d: GroupDelta)
    requires
        group_delta_ok(a, b, d),
        d is Modified,
        ids_unique(group_ids(a.subgroups@)),
        ids_unique(group_ids(b.subgroups@)),
    ensures
        ({
            let (sa, sb, sd) = (a.subgroups@, b.subgroups@, d->subgroups@);
            &&& forall|k1: int, k2: int| 0 <= k1 < sd.len() && 0 <= k2 < sd.len() && k1 != k2
                ==> group_delta_id(#[trigger] sd[k1]) != group_delta_id(#[trigger] sd[k2])
            &&& forall|i: int| 0 <= i < sb.len() ==> exists|k: int| 0 <= k < sd.len() && group_delta_id(sd[k]) == (#[trigger] sb[i]).id
            &&& forall|j: int| 0 <= j < sa.len() ==> exists|k: int| 0 <= k < sd.len() && group_delta_id(sd[k]) == (#[trigger] sa[j]).id
        }),
{
    let (sa, sb, sd) = (a.subgroups@, b.subgroups@, d->subgroups@);
    let n = sb.len() as int;
    let rm = removed_groups(sa, sb);
    lemma_removed_groups(sa, sb);
    lemma_removed_groups_unique(sa, sb);
    lemma_subgroups_classification(a, b, d);
    assert forall|k: int| 0 <= k < n implies group_delta_id(#[trigger] sd[k]) == sb[k].id by {
        match find_id(group_ids(sa), sb[k].id) {
            None => {},
            Some(j) => assert(group_delta_ok(sa[j], sb[k], sd[k])),
        }
    }
    assert forall|k: int| n <= k < sd.len() implies #[trigger] sd[k] == GroupDelta::Removed(&rm[k - n]) by {
        assert(sd[n + (k - n)] == GroupDelta::Removed(&rm[k - n]));
    }
    assert forall|k1: int, k2: int| 0 <= k1 < sd.len() && 0 <= k2 < sd.len() && k1 != k2
        implies group_delta_id(#[trigger] sd[k1]) != group_delta_id(#[trigger] sd[k2]) by {
        if k1 < n && k2 < n {
            assert(group_ids(sb)[k1] == sb[k1].id && group_ids(sb)[k2] == sb[k2].id);
        } else if k1 >= n && k2 >= n {
            assert(group_ids(rm)[k1 - n] == rm[k1 - n].id && group_ids(rm)[k2 - n] == rm[k2 - n].id);
        } else {
            let (kb, kr) = if k1 < n { (k1, k2) } else { (k2, k1) };
            let x = rm[kr - n];
            lemma_find_id(group_ids(sb), x.id);
            assert(group_ids(sb)[kb] == sb[kb].id);
        }
    }
    assert forall|i: int| 0 <= i < sb.len() implies exists|k: int| 0 <= k < sd.len() && group_delta_id(sd[k]) == (#[trigger] sb[i]).id by {
        assert(group_delta_id(sd[i]) == sb[i].id);
    }
    assert forall|j: int| 0 <= j < sa.len() implies exists|k: int| 0 <= k < sd.len() && group_delta_id(sd[k]) == (#[trigger] sa[j]).id by {
        lemma_find_id(group_ids(sb), sa[j].id);
        match find_id(group_ids(sb), sa[j].id) {
            Some(i) => {
                assert(group_ids(sb)[i] == sb[i].id);
                assert(group_delta_id(sd[i]) == sb[i].id);
            },
            None => {
                assert(sd.contains(GroupDelta::Removed(&sa[j])));
                let k = choose|k: int| 0 <= k < sd.len() && sd[k] == GroupDelta::Removed(&sa[j]);
                assert(group_delta_id(sd[k]) == sa[j].id);
            },
        }
    }
}

} // verus!
