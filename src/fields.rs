//! Field-level comparison of two field lists.
use vstd::prelude::*;
use crate::model::{Field, field_value, fields_wf};

verus! {

/// One field whose value differs between the old and the new list. `None`
/// stands for an absent field.
pub struct FieldDelta {
    pub name: String,
    pub old_value: Option<String>,
    pub new_value: Option<String>,
}

/// What a [`FieldDelta`] states, over plain values.
pub struct FieldChange {
    pub name: Seq<char>,
    pub old: Option<Seq<char>>,
    pub new: Option<Seq<char>>,
}

pub open spec fn opt_view(o: Option<String>) -> Option<Seq<char>> {
    match o {
        Some(s) => Some(s@),
        None => None,
    }
}

impl View for FieldDelta {
    type V = FieldChange;

    open spec fn view(&self) -> FieldChange {
        FieldChange { name: self.name@, old: opt_view(self.old_value), new: opt_view(self.new_value) }
    }
}

pub open spec fn change_views(ds: Seq<FieldDelta>) -> Seq<FieldChange> {
    ds.map_values(|d: FieldDelta| d@)
}

/// The fields of `a`, in `a`'s order, that `b` lacks or holds with another
/// value.
pub open spec fn changed_or_removed(a: Seq<Field>, b: Seq<Field>) -> Seq<FieldChange>
    decreases a.len(),
{
    if a.len() == 0 {
        seq![]
    } else {
        let prev = changed_or_removed(a.drop_last(), b);
        let f = a.last();
        if field_value(b, f.name@) == Some(f.value@) {
            prev
        } else {
            prev.push(FieldChange { name: f.name@, old: Some(f.value@), new: field_value(b, f.name@) })
        }
    }
}

/// The fields of `b`, in `b`'s order, that `a` lacks.
pub open spec fn added_fields(a: Seq<Field>, b: Seq<Field>) -> Seq<FieldChange>
    decreases b.len(),
{
    if b.len() == 0 {
        seq![]
    } else {
        let prev = added_fields(a, b.drop_last());
        let f = b.last();
        if field_value(a, f.name@) is None {
            prev.push(FieldChange { name: f.name@, old: None, new: Some(f.value@) })
        } else {
            prev
        }
    }
}

/// Every field change from `a` to `b`: changed and removed fields in `a`'s
/// order, then added fields in `b`'s order.
pub open spec fn field_changes(a: Seq<Field>, b: Seq<Field>) -> Seq<FieldChange> {
    changed_or_removed(a, b) + added_fields(a, b)
}

fn clone_opt(o: Option<&String>) -> (r: Option<String>)
    ensures
        opt_view(r) == match o {
            Some(s) => Some(s@),
            None => None::<Seq<char>>,
        },
{
    match o {
        Some(s) => Some(s.clone()),
        None => None,
    }
}

/// Compares two field lists: one delta per field whose value differs,
/// where an absent field differs from an empty one.
pub fn diff_fields(a: &Vec<Field>, b: &Vec<Field>) -> (r: Vec<FieldDelta>)
    ensures
        change_views(r@) == field_changes(a@, b@),
{
    let mut r: Vec<FieldDelta> = Vec::new();
    let mut i: usize = 0;
    while i < a.len()
        invariant
            i <= a@.len(),
            change_views(r@) == changed_or_removed(a@.take(i as int), b@),
        decreases a@.len() - i,
    {
        assert(a@.take(i as int + 1).drop_last() =~= a@.take(i as int));
        let f = &a[i];
        let nv = crate::model::get_field(b, &f.name);
        let same = match nv {
            Some(v) => *v == f.value,
            None => false,
        };
        if !same {
            let d = FieldDelta { name: f.name.clone(), old_value: Some(f.value.clone()), new_value: clone_opt(nv) };
            let ghost before = r@;
            r.push(d);
            assert(change_views(r@) =~= change_views(before).push(d@));
        }
        i = i + 1;
    }
    assert(a@.take(i as int) =~= a@);
    let ghost first = r@;
    let mut j: usize = 0;
    while j < b.len()
        invariant
            j <= b@.len(),
            change_views(first) == changed_or_removed(a@, b@),
            r@.len() >= first.len(),
            r@.take(first.len() as int) == first,
            change_views(r@.skip(first.len() as int)) == added_fields(a@, b@.take(j as int)),
        decreases b@.len() - j,
    {
        assert(b@.take(j as int + 1).drop_last() =~= b@.take(j as int));
        let f = &b[j];
        if crate::model::get_field(a, &f.name).is_none() {
            let d = FieldDelta { name: f.name.clone(), old_value: None, new_value: Some(f.value.clone()) };
            let ghost before = r@;
            r.push(d);
            assert(r@.take(first.len() as int) =~= before.take(first.len() as int));
            assert(change_views(r@.skip(first.len() as int)) =~= change_views(before.skip(first.len() as int)).push(d@));
        }
        j = j + 1;
    }
    assert(b@.take(j as int) =~= b@);
    assert(r@ =~= r@.take(first.len() as int) + r@.skip(first.len() as int));
    assert(change_views(r@) =~= change_views(first) + change_views(r@.skip(first.len() as int)));
    r
}

/// What a field list gives to a name: nothing where no field carries it,
/// else the value of a field that carries it.
pub proof fn lemma_field_value_witness(fs: Seq<Field>, k: Seq<char>)
    ensures
        match field_value(fs, k) {
            None => forall|j: int| 0 <= j < fs.len() ==> fs[j].name@ != k,
            Some(v) => exists|j: int| 0 <= j < fs.len() && fs[j].name@ == k && fs[j].value@ == v,
        },
    decreases fs.len(),
{
    if fs.len() > 0 {
        let p = fs.drop_last();
        lemma_field_value_witness(p, k);
        match field_value(p, k) {
            Some(v) => {
                let j = choose|j: int| 0 <= j < p.len() && p[j].name@ == k && p[j].value@ == v;
                assert(fs[j] == p[j]);
            },
            None => {
                if fs.last().name@ == k {
                    assert(fs[fs.len() - 1] == fs.last());
                } else {
                    assert forall|j: int| 0 <= j < fs.len() implies fs[j].name@ != k by {
                        if j < fs.len() - 1 {
                            assert(fs[j] == p[j]);
                        }
                    }
                }
            },
        }
    }
}

/// In a list with unique names, each field's own value is the one found.
pub proof fn lemma_field_value_index(fs: Seq<Field>, j: int)
    requires
        fields_wf(fs),
        0 <= j < fs.len(),
    ensures
        field_value(fs, fs[j].name@) == Some(fs[j].value@),
{
    let k = fs[j].name@;
    lemma_field_value_witness(fs, k);
    match field_value(fs, k) {
        Some(v) => {
            let i = choose|i: int| 0 <= i < fs.len() && fs[i].name@ == k && fs[i].value@ == v;
            assert(i == j);
        },
        None => {},
    }
}

proof fn lemma_changed_or_removed(a: Seq<Field>, b: Seq<Field>, k: Seq<char>)
    ensures
        (exists|i: int| 0 <= i < changed_or_removed(a, b).len() && changed_or_removed(a, b)[i].name == k)
            <==> (exists|j: int| 0 <= j < a.len() && a[j].name@ == k && field_value(b, k) != Some(a[j].value@)),
        forall|i: int| 0 <= i < changed_or_removed(a, b).len() ==> {
            let c = #[trigger] changed_or_removed(a, b)[i];
            &&& c.new == field_value(b, c.name)
            &&& exists|j: int| 0 <= j < a.len() && a[j].name@ == c.name && c.old == Some(a[j].value@)
        },
    decreases a.len(),
{
    if a.len() > 0 {
        let p = a.drop_last();
        lemma_changed_or_removed(p, b, k);
        let prev = changed_or_removed(p, b);
        let cur = changed_or_removed(a, b);
        assert forall|j: int| 0 <= j < p.len() implies a[j] == p[j] by {}
        assert(a[a.len() - 1] == a.last());
        if exists|i: int| 0 <= i < cur.len() && cur[i].name == k {
            let i = choose|i: int| 0 <= i < cur.len() && cur[i].name == k;
            if i < prev.len() {
                assert(cur[i] == prev[i]);
            }
        }
        if exists|j: int| 0 <= j < a.len() && a[j].name@ == k && field_value(b, k) != Some(a[j].value@) {
            let j = choose|j: int| 0 <= j < a.len() && a[j].name@ == k && field_value(b, k) != Some(a[j].value@);
            if j < p.len() {
                let i = choose|i: int| 0 <= i < prev.len() && prev[i].name == k;
                assert(cur[i] == prev[i]);
            } else {
                assert(cur[cur.len() - 1].name == k);
            }
        }
        assert forall|i: int| 0 <= i < cur.len() implies {
            let c = #[trigger] cur[i];
            &&& c.new == field_value(b, c.name)
            &&& exists|j: int| 0 <= j < a.len() && a[j].name@ == c.name && c.old == Some(a[j].value@)
        } by {
            if i < prev.len() {
                assert(cur[i] == prev[i]);
                let c = prev[i];
                let j = choose|j: int| 0 <= j < p.len() && p[j].name@ == c.name && c.old == Some(p[j].value@);
                assert(a[j] == p[j]);
            } else {
                assert(a[a.len() - 1].name@ == cur[i].name);
            }
        }
    }
}

proof fn lemma_added_fields(a: Seq<Field>, b: Seq<Field>, k: Seq<char>)
    ensures
        (exists|i: int| 0 <= i < added_fields(a, b).len() && added_fields(a, b)[i].name == k)
            <==> (field_value(a, k) is None && exists|j: int| 0 <= j < b.len() && b[j].name@ == k),
        forall|i: int| 0 <= i < added_fields(a, b).len() ==> {
            let c = #[trigger] added_fields(a, b)[i];
            &&& c.old is None
            &&& field_value(a, c.name) is None
            &&& exists|j: int| 0 <= j < b.len() && b[j].name@ == c.name && c.new == Some(b[j].value@)
        },
    decreases b.len(),
{
    if b.len() > 0 {
        let p = b.drop_last();
        lemma_added_fields(a, p, k);
        let prev = added_fields(a, p);
        let cur = added_fields(a, b);
        assert forall|j: int| 0 <= j < p.len() implies b[j] == p[j] by {}
        assert(b[b.len() - 1] == b.last());
        if exists|i: int| 0 <= i < cur.len() && cur[i].name == k {
            let i = choose|i: int| 0 <= i < cur.len() && cur[i].name == k;
            if i < prev.len() {
                assert(cur[i] == prev[i]);
            }
        }
        if field_value(a, k) is None && exists|j: int| 0 <= j < b.len() && b[j].name@ == k {
            let j = choose|j: int| 0 <= j < b.len() && b[j].name@ == k;
            if j < p.len() {
                let i = choose|i: int| 0 <= i < prev.len() && prev[i].name == k;
                assert(cur[i] == prev[i]);
            } else {
                assert(cur[cur.len() - 1].name == k);
            }
        }
        assert forall|i: int| 0 <= i < cur.len() implies {
            let c = #[trigger] cur[i];
            &&& c.old is None
            &&& field_value(a, c.name) is None
            &&& exists|j: int| 0 <= j < b.len() && b[j].name@ == c.name && c.new == Some(b[j].value@)
        } by {
            if i < prev.len() {
                assert(cur[i] == prev[i]);
                let c = prev[i];
                let j = choose|j: int| 0 <= j < p.len() && p[j].name@ == c.name && c.new == Some(p[j].value@);
                assert(b[j] == p[j]);
            } else {
                assert(b[b.len() - 1].name@ == cur[i].name);
            }
        }
    }
}

/// Between two field lists with unique names, a name appears among the
/// field changes exactly when the two lists give it different values
/// (an absent field and an empty one count as different), and each change
/// carries the two values that the lists give.
pub proof fn lemma_field_changes_complete(a: Seq<Field>, b: Seq<Field>, k: Seq<char>)
    requires
        fields_wf(a),
        fields_wf(b),
    ensures
        (exists|i: int| 0 <= i < field_changes(a, b).len() && field_changes(a, b)[i].name == k)
            <==> field_value(a, k) != field_value(b, k),
        forall|i: int| 0 <= i < field_changes(a, b).len() ==> {
            let c = #[trigger] field_changes(a, b)[i];
            &&& c.old == field_value(a, c.name)
            &&& c.new == field_value(b, c.name)
            &&& c.old != c.new
        },
{
    let cr = changed_or_removed(a, b);
    let ad = added_fields(a, b);
    let fc = field_changes(a, b);
    lemma_changed_or_removed(a, b, k);
    lemma_added_fields(a, b, k);
    lemma_field_value_witness(a, k);
    lemma_field_value_witness(b, k);
    if exists|i: int| 0 <= i < fc.len() && fc[i].name == k {
        let i = choose|i: int| 0 <= i < fc.len() && fc[i].name == k;
        if i < cr.len() {
            assert(fc[i] == cr[i]);
            let j = choose|j: int| 0 <= j < a.len() && a[j].name@ == k && field_value(b, k) != Some(a[j].value@);
            lemma_field_value_index(a, j);
        } else {
            assert(fc[i] == ad[i - cr.len()]);
        }
    }
    if field_value(a, k) != field_value(b, k) {
        match field_value(a, k) {
            Some(v) => {
                let j = choose|j: int| 0 <= j < a.len() && a[j].name@ == k && a[j].value@ == v;
                let i = choose|i: int| 0 <= i < cr.len() && cr[i].name == k;
                assert(fc[i] == cr[i]);
            },
            None => {
                let v = field_value(b, k)->0;
                let j = choose|j: int| 0 <= j < b.len() && b[j].name@ == k && b[j].value@ == v;
                let i = choose|i: int| 0 <= i < ad.len() && ad[i].name == k;
                assert(fc[cr.len() + i] == ad[i]);
            },
        }
    }
    assert forall|i: int| 0 <= i < fc.len() implies {
        let c = #[trigger] fc[i];
        &&& c.old == field_value(a, c.name)
        &&& c.new == field_value(b, c.name)
        &&& c.old != c.new
    } by {
        if i < cr.len() {
            assert(fc[i] == cr[i]);
            let c = cr[i];
            let j = choose|j: int| 0 <= j < a.len() && a[j].name@ == c.name && c.old == Some(a[j].value@);
            lemma_field_value_index(a, j);
            lemma_changed_or_removed(a, b, c.name);
        } else {
            assert(fc[i] == ad[i - cr.len()]);
            let c = ad[i - cr.len()];
            let j = choose|j: int| 0 <= j < b.len() && b[j].name@ == c.name && c.new == Some(b[j].value@);
            lemma_field_value_index(b, j);
        }
    }
}

} // verus!
