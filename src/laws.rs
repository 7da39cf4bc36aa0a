//! Properties of the rendered output that hold for every delta tree.
use vstd::prelude::*;
use crate::model::{Field, Group};
use crate::fields::{FieldChange, change_views};
use crate::diff::{EntryDelta, GroupDelta, HistoryDelta};
use crate::render::{
    LineView, Options, Style, absent_text, change_lines, change_text, delta_lines, entries_lines, entry_lines,
    entry_name, header, history_item_lines, history_path, history_lines, is_password_name, mask_text, name_change_lines,
    payload_lines, shown, styled, subdeltas_lines, subgroup_count, subtrees_lines, tree_lines, value_lines,
    value_text,
};

verus! {

/// What a password field may show in place of its value.
pub open spec fn placeholder(x: Seq<char>) -> bool {
    x == mask_text() || x == absent_text()
}

/// The texts that a line showing password field `n` may have: its name
/// with one placeholder, or with two around an arrow.
pub open spec fn password_text(n: Seq<char>, t: Seq<char>) -> bool {
    let m = mask_text();
    let a = absent_text();
    let pre = "    "@ + n + ": "@;
    ||| t == pre + m
    ||| t == pre + a
    ||| t == pre + m + " → "@ + m
    ||| t == pre + m + " → "@ + a
    ||| t == pre + a + " → "@ + m
    ||| t == pre + a + " → "@ + a
}

/// A line that shows a password field holds only its name and placeholders.
pub open spec fn hides_password(l: LineView) -> bool {
    match l.field {
        Some(n) => is_password_name(n) ==> password_text(n, l.text),
        None => true,
    }
}

pub open spec fn all_hide(ls: Seq<LineView>) -> bool {
    forall|i: int| 0 <= i < ls.len() ==> hides_password(#[trigger] ls[i])
}

proof fn lemma_all_hide_concat(a: Seq<LineView>, b: Seq<LineView>)
    requires
        all_hide(a),
        all_hide(b),
    ensures
        all_hide(a + b),
{
    assert forall|i: int| 0 <= i < (a + b).len() implies hides_password(#[trigger] (a + b)[i]) by {
        if i < a.len() {
            assert((a + b)[i] == a[i]);
        } else {
            assert((a + b)[i] == b[i - a.len()]);
        }
    }
}

proof fn lemma_shown_placeholder(n: Seq<char>, v: Option<Seq<char>>)
    requires
        is_password_name(n),
    ensures
        placeholder(shown(n, v, true)),
{
}

proof fn lemma_header_hides(s: Style, prefix: Seq<char>, path: Seq<Seq<char>>, o: Options)
    ensures
        all_hide(seq![header(s, prefix, path, o)]),
{
    assert(seq![header(s, prefix, path, o)][0] == header(s, prefix, path, o));
}

proof fn lemma_value_lines_hide(fs: Seq<Field>, s: Style, o: Options)
    requires
        o.mask_passwords,
    ensures
        all_hide(value_lines(fs, s, o)),
    decreases fs.len(),
{
    if fs.len() > 0 {
        let f = fs.last();
        lemma_value_lines_hide(fs.drop_last(), s, o);
        let l = LineView { style: styled(s, o), text: value_text(f.name@, f.value@, true), field: Some(f.name@) };
        if is_password_name(f.name@) {
            assert(shown(f.name@, Some(f.value@), true) == mask_text());
        }
        assert(hides_password(l));
        assert(seq![l][0] == l);
        lemma_all_hide_concat(value_lines(fs.drop_last(), s, o), seq![l]);
        assert(value_lines(fs, s, o) =~= value_lines(fs.drop_last(), s, o) + seq![l]);
    }
}

proof fn lemma_change_lines_hide(cs: Seq<FieldChange>, o: Options)
    requires
        o.mask_passwords,
    ensures
        all_hide(change_lines(cs, o)),
    decreases cs.len(),
{
    if cs.len() > 0 {
        let c = cs.last();
        lemma_change_lines_hide(cs.drop_last(), o);
        let l = LineView { style: styled(Style::Changed, o), text: change_text(c, true), field: Some(c.name) };
        if is_password_name(c.name) {
            lemma_shown_placeholder(c.name, c.old);
            lemma_shown_placeholder(c.name, c.new);
        }
        assert(hides_password(l));
        assert(seq![l][0] == l);
        lemma_all_hide_concat(change_lines(cs.drop_last(), o), seq![l]);
        assert(change_lines(cs, o) =~= change_lines(cs.drop_last(), o) + seq![l]);
    }
}

proof fn lemma_history_lines_hide(ds: Seq<HistoryDelta>, path: Seq<Seq<char>>, o: Options)
    requires
        o.mask_passwords,
    ensures
        all_hide(history_lines(ds, path, o)),
    decreases ds.len(),
{
    if ds.len() > 0 {
        lemma_history_lines_hide(ds.drop_last(), path, o);
        let p = history_path(path, ds.len() - 1);
        let d = ds.last();
        match d {
            HistoryDelta::Added(h) => {
                lemma_header_hides(Style::Added, "+ "@, p, o);
                lemma_value_lines_hide(h.fields@, Style::Added, o);
                lemma_all_hide_concat(seq![header(Style::Added, "+ "@, p, o)], value_lines(h.fields@, Style::Added, o));
            },
            HistoryDelta::Removed(h) => {
                lemma_header_hides(Style::Removed, "- "@, p, o);
                lemma_value_lines_hide(h.fields@, Style::Removed, o);
                lemma_all_hide_concat(seq![header(Style::Removed, "- "@, p, o)], value_lines(h.fields@, Style::Removed, o));
            },
            HistoryDelta::Unchanged(_) => {
                lemma_header_hides(Style::Neutral, "  "@, p, o);
            },
            HistoryDelta::Modified(_, fs) => {
                lemma_header_hides(Style::Changed, "~ "@, p, o);
                lemma_change_lines_hide(change_views(fs@), o);
                lemma_all_hide_concat(seq![header(Style::Changed, "~ "@, p, o)], change_lines(change_views(fs@), o));
            },
        }
        lemma_all_hide_concat(history_lines(ds.drop_last(), path, o), history_item_lines(d, p, o));
    }
}

proof fn lemma_entry_lines_hide(d: EntryDelta, path: Seq<Seq<char>>, o: Options)
    requires
        o.mask_passwords,
    ensures
        all_hide(entry_lines(d, path, o)),
{
    match d {
        EntryDelta::Added(e) => {
            let p = path.push(entry_name(*e));
            lemma_header_hides(Style::Added, "+ "@, p, o);
            lemma_value_lines_hide(e.fields@, Style::Added, o);
            lemma_all_hide_concat(seq![header(Style::Added, "+ "@, p, o)], value_lines(e.fields@, Style::Added, o));
        },
        EntryDelta::Removed(e) => {
            let p = path.push(entry_name(*e));
            lemma_header_hides(Style::Removed, "- "@, p, o);
            lemma_value_lines_hide(e.fields@, Style::Removed, o);
            lemma_all_hide_concat(seq![header(Style::Removed, "- "@, p, o)], value_lines(e.fields@, Style::Removed, o));
        },
        EntryDelta::Unchanged(e) => {
            lemma_header_hides(Style::Neutral, "  "@, path.push(entry_name(*e)), o);
        },
        EntryDelta::Modified { entry, fields, history } => {
            let p = path.push(entry_name(*entry));
            let h = seq![header(Style::Changed, "~ "@, p, o)];
            lemma_header_hides(Style::Changed, "~ "@, p, o);
            lemma_change_lines_hide(change_views(fields@), o);
            lemma_history_lines_hide(history@, p, o);
            lemma_all_hide_concat(h, change_lines(change_views(fields@), o));
            lemma_all_hide_concat(h + change_lines(change_views(fields@), o), history_lines(history@, p, o));
        },
    }
}

proof fn lemma_entries_lines_hide(ds: Seq<EntryDelta>, path: Seq<Seq<char>>, o: Options)
    requires
        o.mask_passwords,
    ensures
        all_hide(entries_lines(ds, path, o)),
    decreases ds.len(),
{
    if ds.len() > 0 {
        lemma_entries_lines_hide(ds.drop_last(), path, o);
        lemma_entry_lines_hide(ds.last(), path, o);
        lemma_all_hide_concat(entries_lines(ds.drop_last(), path, o), entry_lines(ds.last(), path, o));
    }
}

proof fn lemma_payload_lines_hide(es: Seq<crate::model::Entry>, path: Seq<Seq<char>>, s: Style, prefix: Seq<char>, o: Options)
    requires
        o.mask_passwords,
    ensures
        all_hide(payload_lines(es, path, s, prefix, o)),
    decreases es.len(),
{
    if es.len() > 0 {
        let e = es.last();
        let h = seq![header(s, prefix, path.push(entry_name(e)), o)];
        lemma_payload_lines_hide(es.drop_last(), path, s, prefix, o);
        lemma_header_hides(s, prefix, path.push(entry_name(e)), o);
        lemma_value_lines_hide(e.fields@, s, o);
        lemma_all_hide_concat(h, value_lines(e.fields@, s, o));
        lemma_all_hide_concat(payload_lines(es.drop_last(), path, s, prefix, o), h + value_lines(e.fields@, s, o));
    }
}

proof fn lemma_tree_lines_hide(g: Group, path: Seq<Seq<char>>, s: Style, prefix: Seq<char>, o: Options)
    requires
        o.mask_passwords,
    ensures
        all_hide(tree_lines(g, path, s, prefix, o)),
    decreases g, g.subgroups@.len() + 1,
{
    let p = path.push(g.name@);
    let h = seq![header(s, prefix, p, o)];
    lemma_header_hides(s, prefix, p, o);
    lemma_payload_lines_hide(g.entries@, p, s, prefix, o);
    lemma_subtrees_lines_hide(g, g.subgroups@.len() as int, p, s, prefix, o);
    lemma_all_hide_concat(h, payload_lines(g.entries@, p, s, prefix, o));
    lemma_all_hide_concat(h + payload_lines(g.entries@, p, s, prefix, o), subtrees_lines(g, g.subgroups@.len() as int, p, s, prefix, o));
}

proof fn lemma_subtrees_lines_hide(g: Group, n: int, path: Seq<Seq<char>>, s: Style, prefix: Seq<char>, o: Options)
    requires
        o.mask_passwords,
    ensures
        all_hide(subtrees_lines(g, n, path, s, prefix, o)),
    decreases g, n,
{
    if n > 0 && n <= g.subgroups@.len() {
        lemma_subtrees_lines_hide(g, n - 1, path, s, prefix, o);
        lemma_tree_lines_hide(g.subgroups@[n - 1], path, s, prefix, o);
        lemma_all_hide_concat(subtrees_lines(g, n - 1, path, s, prefix, o), tree_lines(g.subgroups@[n - 1], path, s, prefix, o));
    }
}

proof fn lemma_delta_lines_hide(d: GroupDelta, path: Seq<Seq<char>>, o: Options)
    requires
        o.mask_passwords,
    ensures
        all_hide(delta_lines(d, path, o)),
    decreases d, subgroup_count(d) + 1,
{
    match d {
        GroupDelta::Added(g) => lemma_tree_lines_hide(*g, path, Style::Added, "+ "@, o),
        GroupDelta::Removed(g) => lemma_tree_lines_hide(*g, path, Style::Removed, "- "@, o),
        GroupDelta::Unchanged(g) => lemma_header_hides(Style::Neutral, "  "@, path.push(g.name@), o),
        GroupDelta::Modified { group, name_change, entries, subgroups } => {
            let p = path.push(group.name@);
            let h = seq![header(Style::Changed, "~ "@, p, o)];
            lemma_header_hides(Style::Changed, "~ "@, p, o);
            match name_change {
                Some(c) => lemma_change_lines_hide(seq![c@], o),
                None => {},
            }
            lemma_entries_lines_hide(entries@, p, o);
            lemma_subdeltas_lines_hide(d, subgroups@.len() as int, p, o);
            let nc = name_change_lines(name_change, o);
            lemma_all_hide_concat(h, nc);
            lemma_all_hide_concat(h + nc, entries_lines(entries@, p, o));
            lemma_all_hide_concat(h + nc + entries_lines(entries@, p, o), subdeltas_lines(d, subgroups@.len() as int, p, o));
        },
    }
}

proof fn lemma_subdeltas_lines_hide(d: GroupDelta, n: int, path: Seq<Seq<char>>, o: Options)
    requires
        o.mask_passwords,
    ensures
        all_hide(subdeltas_lines(d, n, path, o)),
    decreases d, n,
{
    match d {
        GroupDelta::Modified { subgroups, .. } => if n > 0 && n <= subgroups@.len() {
            lemma_subdeltas_lines_hide(d, n - 1, path, o);
            lemma_delta_lines_hide(subgroups@[n - 1], path, o);
            lemma_all_hide_concat(subdeltas_lines(d, n - 1, path, o), delta_lines(subgroups@[n - 1], path, o));
        },
        _ => {},
    }
}

/// With masking on, every rendered line that shows a field named
/// `password` (ASCII case ignored) holds the field's name and placeholders
/// only, never a value, whatever the other flags.
pub proof fn lemma_render_masks_passwords(d: GroupDelta, o: Options)
    requires
        o.mask_passwords,
    ensures
        forall|i: int| 0 <= i < delta_lines(d, seq![], o).len()
            ==> hides_password(#[trigger] delta_lines(d, seq![], o)[i]),
{
    lemma_delta_lines_hide(d, seq![], o);
}

/// `q` shows at most what `l` shows: the same colors and masking, and
/// verbose only where `l` is.
pub open spec fn less_verbose(q: Options, l: Options) -> bool {
    &&& q.use_color == l.use_color
    &&& q.mask_passwords == l.mask_passwords
    &&& q.use_verbose ==> l.use_verbose
}

/// Every line of `a` is also a line of `b`.
pub open spec fn contained(a: Seq<LineView>, b: Seq<LineView>) -> bool {
    forall|i: int| 0 <= i < a.len() ==> b.contains(#[trigger] a[i])
}

proof fn lemma_contained_concat(a1: Seq<LineView>, a2: Seq<LineView>, b1: Seq<LineView>, b2: Seq<LineView>)
    requires
        contained(a1, b1),
        contained(a2, b2),
    ensures
        contained(a1 + a2, b1 + b2),
{
    assert forall|i: int| 0 <= i < (a1 + a2).len() implies (b1 + b2).contains(#[trigger] (a1 + a2)[i]) by {
        if i < a1.len() {
            assert((a1 + a2)[i] == a1[i]);
            let j = choose|j: int| 0 <= j < b1.len() && b1[j] == a1[i];
            assert((b1 + b2)[j] == b1[j]);
        } else {
            assert((a1 + a2)[i] == a2[i - a1.len()]);
            let j = choose|j: int| 0 <= j < b2.len() && b2[j] == a2[i - a1.len()];
            assert((b1 + b2)[b1.len() + j] == b2[j]);
        }
    }
}

proof fn lemma_contained_refl(a: Seq<LineView>)
    ensures
        contained(a, a),
{
    assert forall|i: int| 0 <= i < a.len() implies a.contains(#[trigger] a[i]) by {}
}

proof fn lemma_value_lines_eq(fs: Seq<Field>, s: Style, q: Options, l: Options)
    requires
        less_verbose(q, l),
    ensures
        value_lines(fs, s, q) == value_lines(fs, s, l),
    decreases fs.len(),
{
    if fs.len() > 0 {
        lemma_value_lines_eq(fs.drop_last(), s, q, l);
    }
}

proof fn lemma_change_lines_eq(cs: Seq<FieldChange>, q: Options, l: Options)
    requires
        less_verbose(q, l),
    ensures
        change_lines(cs, q) == change_lines(cs, l),
    decreases cs.len(),
{
    if cs.len() > 0 {
        lemma_change_lines_eq(cs.drop_last(), q, l);
    }
}

proof fn lemma_history_lines_contained(ds: Seq<HistoryDelta>, path: Seq<Seq<char>>, q: Options, l: Options)
    requires
        less_verbose(q, l),
    ensures
        contained(history_lines(ds, path, q), history_lines(ds, path, l)),
    decreases ds.len(),
{
    if ds.len() > 0 {
        lemma_history_lines_contained(ds.drop_last(), path, q, l);
        let p = history_path(path, ds.len() - 1);
        let d = ds.last();
        match d {
            HistoryDelta::Added(h) => lemma_value_lines_eq(h.fields@, Style::Added, q, l),
            HistoryDelta::Removed(h) => lemma_value_lines_eq(h.fields@, Style::Removed, q, l),
            HistoryDelta::Unchanged(_) => {},
            HistoryDelta::Modified(_, fs) => lemma_change_lines_eq(change_views(fs@), q, l),
        }
        assert(header(Style::Neutral, "  "@, p, q) == header(Style::Neutral, "  "@, p, l));
        if q.use_verbose {
            assert(history_item_lines(d, p, q) == history_item_lines(d, p, l));
        }
        lemma_contained_refl(history_item_lines(d, p, l));
        lemma_contained_concat(history_lines(ds.drop_last(), path, q), history_item_lines(d, p, q),
            history_lines(ds.drop_last(), path, l), history_item_lines(d, p, l));
    }
}

proof fn lemma_entry_lines_contained(d: EntryDelta, path: Seq<Seq<char>>, q: Options, l: Options)
    requires
        less_verbose(q, l),
    ensures
        contained(entry_lines(d, path, q), entry_lines(d, path, l)),
{
    match d {
        EntryDelta::Added(e) => {
            lemma_value_lines_eq(e.fields@, Style::Added, q, l);
            lemma_contained_refl(entry_lines(d, path, l));
        },
        EntryDelta::Removed(e) => {
            lemma_value_lines_eq(e.fields@, Style::Removed, q, l);
            lemma_contained_refl(entry_lines(d, path, l));
        },
        EntryDelta::Unchanged(e) => {
            lemma_contained_refl(entry_lines(d, path, l));
        },
        EntryDelta::Modified { entry, fields, history } => {
            let p = path.push(entry_name(*entry));
            let h = seq![header(Style::Changed, "~ "@, p, l)];
            lemma_change_lines_eq(change_views(fields@), q, l);
            lemma_contained_refl(h + change_lines(change_views(fields@), l));
            lemma_history_lines_contained(history@, p, q, l);
            lemma_contained_concat(h + change_lines(change_views(fields@), l), history_lines(history@, p, q),
                h + change_lines(change_views(fields@), l), history_lines(history@, p, l));
        },
    }
}

proof fn lemma_entries_lines_contained(ds: Seq<EntryDelta>, path: Seq<Seq<char>>, q: Options, l: Options)
    requires
        less_verbose(q, l),
    ensures
        contained(entries_lines(ds, path, q), entries_lines(ds, path, l)),
    decreases ds.len(),
{
    if ds.len() > 0 {
        lemma_entries_lines_contained(ds.drop_last(), path, q, l);
        lemma_entry_lines_contained(ds.last(), path, q, l);
        lemma_contained_concat(entries_lines(ds.drop_last(), path, q), entry_lines(ds.last(), path, q),
            entries_lines(ds.drop_last(), path, l), entry_lines(ds.last(), path, l));
    }
}

proof fn lemma_payload_lines_eq(es: Seq<crate::model::Entry>, path: Seq<Seq<char>>, s: Style, prefix: Seq<char>, q: Options, l: Options)
    requires
        less_verbose(q, l),
    ensures
        payload_lines(es, path, s, prefix, q) == payload_lines(es, path, s, prefix, l),
    decreases es.len(),
{
    if es.len() > 0 {
        lemma_payload_lines_eq(es.drop_last(), path, s, prefix, q, l);
        lemma_value_lines_eq(es.last().fields@, s, q, l);
    }
}

proof fn lemma_tree_lines_eq(g: Group, path: Seq<Seq<char>>, s: Style, prefix: Seq<char>, q: Options, l: Options)
    requires
        less_verbose(q, l),
    ensures
        tree_lines(g, path, s, prefix, q) == tree_lines(g, path, s, prefix, l),
    decreases g, g.subgroups@.len() + 1,
{
    let p = path.push(g.name@);
    lemma_payload_lines_eq(g.entries@, p, s, prefix, q, l);
    lemma_subtrees_lines_eq(g, g.subgroups@.len() as int, p, s, prefix, q, l);
}

proof fn lemma_subtrees_lines_eq(g: Group, n: int, path: Seq<Seq<char>>, s: Style, prefix: Seq<char>, q: Options, l: Options)
    requires
        less_verbose(q, l),
    ensures
        subtrees_lines(g, n, path, s, prefix, q) == subtrees_lines(g, n, path, s, prefix, l),
    decreases g, n,
{
    if n > 0 && n <= g.subgroups@.len() {
        lemma_subtrees_lines_eq(g, n - 1, path, s, prefix, q, l);
        lemma_tree_lines_eq(g.subgroups@[n - 1], path, s, prefix, q, l);
    }
}

proof fn lemma_delta_lines_contained(d: GroupDelta, path: Seq<Seq<char>>, q: Options, l: Options)
    requires
        less_verbose(q, l),
    ensures
        contained(delta_lines(d, path, q), delta_lines(d, path, l)),
    decreases d, subgroup_count(d) + 1,
{
    match d {
        GroupDelta::Added(g) => {
            lemma_tree_lines_eq(*g, path, Style::Added, "+ "@, q, l);
            lemma_contained_refl(delta_lines(d, path, l));
        },
        GroupDelta::Removed(g) => {
            lemma_tree_lines_eq(*g, path, Style::Removed, "- "@, q, l);
            lemma_contained_refl(delta_lines(d, path, l));
        },
        GroupDelta::Unchanged(g) => {
            lemma_contained_refl(delta_lines(d, path, l));
        },
        GroupDelta::Modified { group, name_change, entries, subgroups } => {
            let p = path.push(group.name@);
            let h = seq![header(Style::Changed, "~ "@, p, l)];
            match name_change {
                Some(c) => lemma_change_lines_eq(seq![c@], q, l),
                None => {},
            }
            let top = h + name_change_lines(name_change, l);
            lemma_contained_refl(top);
            lemma_entries_lines_contained(entries@, p, q, l);
            lemma_subdeltas_lines_contained(d, subgroups@.len() as int, p, q, l);
            lemma_contained_concat(top, entries_lines(entries@, p, q), top, entries_lines(entries@, p, l));
            lemma_contained_concat(top + entries_lines(entries@, p, q), subdeltas_lines(d, subgroups@.len() as int, p, q),
                top + entries_lines(entries@, p, l), subdeltas_lines(d, subgroups@.len() as int, p, l));
        },
    }
}

proof fn lemma_subdeltas_lines_contained(d: GroupDelta, n: int, path: Seq<Seq<char>>, q: Options, l: Options)
    requires
        less_verbose(q, l),
    ensures
        contained(subdeltas_lines(d, n, path, q), subdeltas_lines(d, n, path, l)),
    decreases d, n,
{
    match d {
        GroupDelta::Modified { subgroups, .. } => if n > 0 && n <= subgroups@.len() {
            lemma_subdeltas_lines_contained(d, n - 1, path, q, l);
            lemma_delta_lines_contained(subgroups@[n - 1], path, q, l);
            lemma_contained_concat(subdeltas_lines(d, n - 1, path, q), delta_lines(subgroups@[n - 1], path, q),
                subdeltas_lines(d, n - 1, path, l), delta_lines(subgroups@[n - 1], path, l));
        } else {
            assert(subdeltas_lines(d, n, path, q) =~= seq![]);
        },
        _ => {
            assert(subdeltas_lines(d, n, path, q) =~= seq![]);
        },
    }
}

/// Every line rendered without verbosity is also rendered with it, for the
/// same delta and the same color and masking flags.
pub proof fn lemma_render_verbose_superset(d: GroupDelta, quiet: Options, verbose: Options)
    requires
        quiet.use_color == verbose.use_color,
        quiet.mask_passwords == verbose.mask_passwords,
        !quiet.use_verbose,
        verbose.use_verbose,
    ensures
        forall|i: int| 0 <= i < delta_lines(d, seq![], quiet).len()
            ==> delta_lines(d, seq![], verbose).contains(#[trigger] delta_lines(d, seq![], quiet)[i]),
{
    lemma_delta_lines_contained(d, seq![], quiet, verbose);
}

pub open spec fn all_styled(ls: Seq<LineView>, s: Style) -> bool {
    forall|i: int| 0 <= i < ls.len() ==> (#[trigger] ls[i]).style == s
}

proof fn lemma_all_styled_concat(a: Seq<LineView>, b: Seq<LineView>, s: Style)
    requires
        all_styled(a, s),
        all_styled(b, s),
    ensures
        all_styled(a + b, s),
{
    assert forall|i: int| 0 <= i < (a + b).len() implies (#[trigger] (a + b)[i]).style == s by {
        if i < a.len() {
            assert((a + b)[i] == a[i]);
        } else {
            assert((a + b)[i] == b[i - a.len()]);
        }
    }
}

proof fn lemma_value_lines_styled(fs: Seq<Field>, s: Style, o: Options)
    ensures
        all_styled(value_lines(fs, s, o), styled(s, o)),
    decreases fs.len(),
{
    if fs.len() > 0 {
        let f = fs.last();
        let l = LineView { style: styled(s, o), text: value_text(f.name@, f.value@, o.mask_passwords), field: Some(f.name@) };
        lemma_value_lines_styled(fs.drop_last(), s, o);
        assert(seq![l][0] == l);
        lemma_all_styled_concat(value_lines(fs.drop_last(), s, o), seq![l], styled(s, o));
        assert(value_lines(fs, s, o) =~= value_lines(fs.drop_last(), s, o) + seq![l]);
    }
}

proof fn lemma_payload_lines_styled(es: Seq<crate::model::Entry>, path: Seq<Seq<char>>, s: Style, prefix: Seq<char>, o: Options)
    ensures
        all_styled(payload_lines(es, path, s, prefix, o), styled(s, o)),
    decreases es.len(),
{
    if es.len() > 0 {
        let e = es.last();
        let h = seq![header(s, prefix, path.push(entry_name(e)), o)];
        assert(h[0] == header(s, prefix, path.push(entry_name(e)), o));
        lemma_payload_lines_styled(es.drop_last(), path, s, prefix, o);
        lemma_value_lines_styled(e.fields@, s, o);
        lemma_all_styled_concat(h, value_lines(e.fields@, s, o), styled(s, o));
        lemma_all_styled_concat(payload_lines(es.drop_last(), path, s, prefix, o), h + value_lines(e.fields@, s, o), styled(s, o));
    }
}

proof fn lemma_tree_lines_styled(g: Group, path: Seq<Seq<char>>, s: Style, prefix: Seq<char>, o: Options)
    ensures
        all_styled(tree_lines(g, path, s, prefix, o), styled(s, o)),
    decreases g, g.subgroups@.len() + 1,
{
    let p = path.push(g.name@);
    let h = seq![header(s, prefix, p, o)];
    assert(h[0] == header(s, prefix, p, o));
    lemma_payload_lines_styled(g.entries@, p, s, prefix, o);
    lemma_subtrees_lines_styled(g, g.subgroups@.len() as int, p, s, prefix, o);
    lemma_all_styled_concat(h, payload_lines(g.entries@, p, s, prefix, o), styled(s, o));
    lemma_all_styled_concat(h + payload_lines(g.entries@, p, s, prefix, o),
        subtrees_lines(g, g.subgroups@.len() as int, p, s, prefix, o), styled(s, o));
}

proof fn lemma_subtrees_lines_styled(g: Group, n: int, path: Seq<Seq<char>>, s: Style, prefix: Seq<char>, o: Options)
    ensures
        all_styled(subtrees_lines(g, n, path, s, prefix, o), styled(s, o)),
    decreases g, n,
{
    if n > 0 && n <= g.subgroups@.len() {
        lemma_subtrees_lines_styled(g, n - 1, path, s, prefix, o);
        lemma_tree_lines_styled(g.subgroups@[n - 1], path, s, prefix, o);
        lemma_all_styled_concat(subtrees_lines(g, n - 1, path, s, prefix, o),
            tree_lines(g.subgroups@[n - 1], path, s, prefix, o), styled(s, o));
    }
}

/// A removed group is rendered whole: one line for the group and for each
/// of its descendant groups and entries, each marked `- `, and with color
/// every line, field lines included, is in the removed style.
pub proof fn lemma_removed_group_renders_removed(g: Group, path: Seq<Seq<char>>, o: Options)
    ensures
        delta_lines(GroupDelta::Removed(&g), path, o) == tree_lines(g, path, Style::Removed, "- "@, o),
        o.use_color ==> forall|i: int| 0 <= i < delta_lines(GroupDelta::Removed(&g), path, o).len()
            ==> (#[trigger] delta_lines(GroupDelta::Removed(&g), path, o)[i]).style == Style::Removed,
{
    lemma_tree_lines_styled(g, path, Style::Removed, "- "@, o);
}

} // verus!
