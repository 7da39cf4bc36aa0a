//! Turns a delta tree into styled lines of text.
use vstd::prelude::*;
use vstd::string::StringExecFns;
use crate::model::{Entry, Field, Group, field_value, get_field};
use crate::fields::{FieldChange, FieldDelta, change_views};
use crate::diff::{EntryDelta, GroupDelta, HistoryDelta};
use crate::stack::{Stack, join_path};

verus! {

/// How a line is meant to be shown: added, removed, changed, or plain.
#[derive(Debug, Clone, Copy, PartialEq, Eq, Structural)]
pub enum Style {
    Added,
    Removed,
    Changed,
    Neutral,
}

/// The display flags. Without color every line is plain; without verbosity
/// unchanged nodes are left out; with masking, password values are hidden.
#[derive(Debug, Clone, Copy, PartialEq, Eq, Structural)]
pub struct Options {
    pub use_color: bool,
    pub use_verbose: bool,
    pub mask_passwords: bool,
}

/// One line of output, with the name of the field that it shows, if any.
pub struct Line {
    pub style: Style,
    pub text: String,
    pub field: Option<String>,
}

/// What a [`Line`] holds, over plain values.
pub struct LineView {
    pub style: Style,
    pub text: Seq<char>,
    pub field: Option<Seq<char>>,
}

impl View for Line {
    type V = LineView;

    open spec fn view(&self) -> LineView {
        LineView {
            style: self.style,
            text: self.text@,
            field: match self.field {
                Some(f) => Some(f@),
                None => None,
            },
        }
    }
}

pub open spec fn line_views(ls: Seq<Line>) -> Seq<LineView> {
    ls.map_values(|l: Line| l@)
}

/// A field name that reads `password` when ASCII case is ignored.
pub open spec fn is_password_name(n: Seq<char>) -> bool {
    &&& n.len() == 8
    &&& forall|i: int| 0 <= i < 8 ==> n[i] == "password"@[i] || n[i] == "PASSWORD"@[i]
}

pub open spec fn mask_text() -> Seq<char> {
    "****"@
}

pub open spec fn absent_text() -> Seq<char> {
    "(absent)"@
}

/// How the value of field `name` is shown.
pub open spec fn shown(name: Seq<char>, v: Option<Seq<char>>, mask: bool) -> Seq<char> {
    match v {
        None => absent_text(),
        Some(x) => if mask && is_password_name(name) {
            mask_text()
        } else {
            x
        },
    }
}

pub open spec fn value_text(name: Seq<char>, v: Seq<char>, mask: bool) -> Seq<char> {
    "    "@ + name + ": "@ + shown(name, Some(v), mask)
}

pub open spec fn change_text(c: FieldChange, mask: bool) -> Seq<char> {
    "    "@ + c.name + ": "@ + shown(c.name, c.old, mask) + " → "@ + shown(c.name, c.new, mask)
}

pub open spec fn styled(s: Style, o: Options) -> Style {
    if o.use_color {
        s
    } else {
        Style::Neutral
    }
}

/// The line that names the node at `path`.
pub open spec fn header(s: Style, prefix: Seq<char>, path: Seq<Seq<char>>, o: Options) -> LineView {
    LineView { style: styled(s, o), text: prefix + join_path(path), field: None }
}

/// One line per field of the list, in the list's order.
pub open spec fn value_lines(fs: Seq<Field>, s: Style, o: Options) -> Seq<LineView>
    decreases fs.len(),
{
    if fs.len() == 0 {
        seq![]
    } else {
        let f = fs.last();
        value_lines(fs.drop_last(), s, o).push(
            LineView { style: styled(s, o), text: value_text(f.name@, f.value@, o.mask_passwords), field: Some(f.name@) },
        )
    }
}

/// One line per field change, in order.
pub open spec fn change_lines(cs: Seq<FieldChange>, o: Options) -> Seq<LineView>
    decreases cs.len(),
{
    if cs.len() == 0 {
        seq![]
    } else {
        let c = cs.last();
        change_lines(cs.drop_last(), o).push(
            LineView { style: styled(Style::Changed, o), text: change_text(c, o.mask_passwords), field: Some(c.name) },
        )
    }
}

/// Whether `name` reads `password`, ASCII case ignored.
pub fn is_password(name: &String) -> (r: bool)
    ensures
        r == is_password_name(name@),
{
    let s = name.as_str();
    let lower = "password";
    let upper = "PASSWORD";
    proof {
        reveal_strlit("password");
        reveal_strlit("PASSWORD");
        assert(lower@.len() == 8);
        assert(upper@.len() == 8);
    }
    if s.unicode_len() != 8 {
        return false;
    }
    let mut i: usize = 0;
    while i < 8
        invariant
            i <= 8,
            s@ == name@,
            s@.len() == 8,
            lower@ == "password"@,
            upper@ == "PASSWORD"@,
            lower@.len() == 8,
            upper@.len() == 8,
            forall|k: int| 0 <= k < i ==> s@[k] == "password"@[k] || s@[k] == "PASSWORD"@[k],
        decreases 8 - i,
    {
        let c = s.get_char(i);
        if c != lower.get_char(i) && c != upper.get_char(i) {
            return false;
        }
        i = i + 1;
    }
    true
}

/// The single place where a field value is turned into text.
fn shown_value(name: &String, v: Option<&String>, mask: bool) -> (r: String)
    ensures
        r@ == shown(name@, match v {
            Some(x) => Some(x@),
            None => None,
        }, mask),
{
    match v {
        None => {
            proof {
                reveal_strlit("(absent)");
            }
            String::from_str("(absent)")
        },
        Some(x) => if mask && is_password(name) {
            proof {
                reveal_strlit("****");
            }
            String::from_str("****")
        } else {
            x.clone()
        },
    }
}

fn push_value_lines(fs: &Vec<Field>, s: Style, o: Options, out: &mut Vec<Line>)
    ensures
        line_views(final(out)@) == line_views(old(out)@) + value_lines(fs@, s, o),
{
    let ghost start = line_views(out@);
    let mut i: usize = 0;
    while i < fs.len()
        invariant
            i <= fs@.len(),
            line_views(out@) == start + value_lines(fs@.take(i as int), s, o),
        decreases fs@.len() - i,
    {
        assert(fs@.take(i as int + 1).drop_last() =~= fs@.take(i as int));
        let f = &fs[i];
        let mut text = String::from_str("    ");
        text.append(f.name.as_str());
        text.append(": ");
        let v = shown_value(&f.name, Some(&f.value), o.mask_passwords);
        text.append(v.as_str());
        proof {
            reveal_strlit("    ");
            reveal_strlit(": ");
        }
        let line = Line { style: if o.use_color { s } else { Style::Neutral }, text, field: Some(f.name.clone()) };
        let ghost before = out@;
        out.push(line);
        assert(line_views(out@) =~= line_views(before).push(line@));
        assert(line@.text =~= value_text(f.name@, f.value@, o.mask_passwords));
        i = i + 1;
    }
    assert(fs@.take(i as int) =~= fs@);
}

fn push_change_lines(cs: &Vec<FieldDelta>, o: Options, out: &mut Vec<Line>)
    ensures
        line_views(final(out)@) == line_views(old(out)@) + change_lines(change_views(cs@), o),
{
    let ghost start = line_views(out@);
    let ghost cv = change_views(cs@);
    let mut i: usize = 0;
    while i < cs.len()
        invariant
            i <= cs@.len(),
            cv == change_views(cs@),
            line_views(out@) == start + change_lines(cv.take(i as int), o),
        decreases cs@.len() - i,
    {
        assert(cv.take(i as int + 1).drop_last() =~= cv.take(i as int));
        assert(cv.take(i as int + 1).last() == cs@[i as int]@);
        let c = &cs[i];
        let mut text = String::from_str("    ");
        text.append(c.name.as_str());
        text.append(": ");
        let ov = shown_value(&c.name, c.old_value.as_ref(), o.mask_passwords);
        text.append(ov.as_str());
        text.append(" → ");
        let nv = shown_value(&c.name, c.new_value.as_ref(), o.mask_passwords);
        text.append(nv.as_str());
        proof {
            reveal_strlit("    ");
            reveal_strlit(": ");
            reveal_strlit(" → ");
        }
        let line = Line { style: if o.use_color { Style::Changed } else { Style::Neutral }, text, field: Some(c.name.clone()) };
        let ghost before = out@;
        out.push(line);
        assert(line_views(out@) =~= line_views(before).push(line@));
        assert(line@.text =~= change_text(c@, o.mask_passwords));
        i = i + 1;
    }
    assert(cv.take(i as int) =~= cv);
}

/// The name under which an entry is reported: its title, or nothing.
pub open spec fn entry_name(e: Entry) -> Seq<char> {
    match field_value(e.fields@, "Title"@) {
        Some(t) => t,
        None => match field_value(e.fields@, "title"@) {
            Some(t) => t,
            None => seq![],
        },
    }
}

/// The lines of one position of an entry's history.
pub open spec fn history_item_lines(d: HistoryDelta, path: Seq<Seq<char>>, o: Options) -> Seq<LineView> {
    match d {
        HistoryDelta::Added(h) => seq![header(Style::Added, "+ "@, path, o)] + value_lines(h.fields@, Style::Added, o),
        HistoryDelta::Removed(h) => seq![header(Style::Removed, "- "@, path, o)] + value_lines(h.fields@, Style::Removed, o),
        HistoryDelta::Unchanged(_) => if o.use_verbose {
            seq![header(Style::Neutral, "  "@, path, o)]
        } else {
            seq![]
        },
        HistoryDelta::Modified(_, fs) => seq![header(Style::Changed, "~ "@, path, o)] + change_lines(change_views(fs@), o),
    }
}

pub open spec fn digit_char(d: nat) -> char {
    "0123456789"@[d as int]
}

/// The decimal digits of `n`.
pub open spec fn decimal(n: nat) -> Seq<char>
    decreases n,
{
    if n < 10 {
        seq![digit_char(n)]
    } else {
        decimal(n / 10) + seq![digit_char(n % 10)]
    }
}

/// The path of position `i` of an entry's history.
pub open spec fn history_path(path: Seq<Seq<char>>, i: int) -> Seq<Seq<char>> {
    path.push("history"@).push(decimal(i as nat))
}

/// The lines of a history comparison, each position under `history/<i>`.
pub open spec fn history_lines(ds: Seq<HistoryDelta>, path: Seq<Seq<char>>, o: Options) -> Seq<LineView>
    decreases ds.len(),
{
    if ds.len() == 0 {
        seq![]
    } else {
        history_lines(ds.drop_last(), path, o) + history_item_lines(ds.last(), history_path(path, ds.len() - 1), o)
    }
}

/// The lines of one entry delta: the entry's path, then its fields.
pub open spec fn entry_lines(d: EntryDelta, path: Seq<Seq<char>>, o: Options) -> Seq<LineView> {
    match d {
        EntryDelta::Added(e) => seq![header(Style::Added, "+ "@, path.push(entry_name(*e)), o)]
            + value_lines(e.fields@, Style::Added, o),
        EntryDelta::Removed(e) => seq![header(Style::Removed, "- "@, path.push(entry_name(*e)), o)]
            + value_lines(e.fields@, Style::Removed, o),
        EntryDelta::Unchanged(e) => if o.use_verbose {
            seq![header(Style::Neutral, "  "@, path.push(entry_name(*e)), o)]
        } else {
            seq![]
        },
        EntryDelta::Modified { entry, fields, history } => {
            let p = path.push(entry_name(*entry));
            seq![header(Style::Changed, "~ "@, p, o)] + change_lines(change_views(fields@), o)
                + history_lines(history@, p, o)
        },
    }
}

pub open spec fn entries_lines(ds: Seq<EntryDelta>, path: Seq<Seq<char>>, o: Options) -> Seq<LineView>
    decreases ds.len(),
{
    if ds.len() == 0 {
        seq![]
    } else {
        entries_lines(ds.drop_last(), path, o) + entry_lines(ds.last(), path, o)
    }
}

/// The lines of entries shown whole, all in one style.
pub open spec fn payload_lines(es: Seq<Entry>, path: Seq<Seq<char>>, s: Style, prefix: Seq<char>, o: Options) -> Seq<LineView>
    decreases es.len(),
{
    if es.len() == 0 {
        seq![]
    } else {
        let e = es.last();
        payload_lines(es.drop_last(), path, s, prefix, o) + (seq![header(s, prefix, path.push(entry_name(e)), o)]
            + value_lines(e.fields@, s, o))
    }
}

/// The lines of a whole subtree shown in one style: the group, its
/// entries, then its subgroups.
pub open spec fn tree_lines(g: Group, path: Seq<Seq<char>>, s: Style, prefix: Seq<char>, o: Options) -> Seq<LineView>
    decreases g, g.subgroups@.len() + 1,
{
    let p = path.push(g.name@);
    seq![header(s, prefix, p, o)] + payload_lines(g.entries@, p, s, prefix, o)
        + subtrees_lines(g, g.subgroups@.len() as int, p, s, prefix, o)
}

/// The lines of the first `n` subgroups of `g` shown whole.
pub open spec fn subtrees_lines(g: Group, n: int, path: Seq<Seq<char>>, s: Style, prefix: Seq<char>, o: Options) -> Seq<LineView>
    decreases g, n,
{
    if n <= 0 || n > g.subgroups@.len() {
        seq![]
    } else {
        subtrees_lines(g, n - 1, path, s, prefix, o) + tree_lines(g.subgroups@[n - 1], path, s, prefix, o)
    }
}

pub open spec fn subgroup_count(d: GroupDelta) -> nat {
    match d {
        GroupDelta::Modified { subgroups, .. } => subgroups@.len(),
        _ => 0,
    }
}

pub open spec fn name_change_lines(c: Option<FieldDelta>, o: Options) -> Seq<LineView> {
    match c {
        Some(c) => change_lines(seq![c@], o),
        None => seq![],
    }
}

/// The lines of a group delta: added and removed groups whole, unchanged
/// ones only when verbose, and modified ones with their changes below them.
pub open spec fn delta_lines(d: GroupDelta, path: Seq<Seq<char>>, o: Options) -> Seq<LineView>
    decreases d, subgroup_count(d) + 1,
{
    match d {
        GroupDelta::Added(g) => tree_lines(*g, path, Style::Added, "+ "@, o),
        GroupDelta::Removed(g) => tree_lines(*g, path, Style::Removed, "- "@, o),
        GroupDelta::Unchanged(g) => if o.use_verbose {
            seq![header(Style::Neutral, "  "@, path.push(g.name@), o)]
        } else {
            seq![]
        },
        GroupDelta::Modified { group, name_change, entries, subgroups } => {
            let p = path.push(group.name@);
            seq![header(Style::Changed, "~ "@, p, o)] + name_change_lines(name_change, o)
                + entries_lines(entries@, p, o) + subdeltas_lines(d, subgroups@.len() as int, p, o)
        },
    }
}

/// The lines of the first `n` subgroup deltas of a modified group delta.
pub open spec fn subdeltas_lines(d: GroupDelta, n: int, path: Seq<Seq<char>>, o: Options) -> Seq<LineView>
    decreases d, n,
{
    match d {
        GroupDelta::Modified { subgroups, .. } => if n <= 0 || n > subgroups@.len() {
            seq![]
        } else {
            subdeltas_lines(d, n - 1, path, o) + delta_lines(subgroups@[n - 1], path, o)
        },
        _ => seq![],
    }
}

/// The name under which an entry is reported.
pub fn entry_display_name(e: &Entry) -> (r: String)
    ensures
        r@ == entry_name(*e),
{
    let upper = String::from_str("Title");
    let lower = String::from_str("title");
    proof {
        reveal_strlit("Title");
        reveal_strlit("title");
    }
    match get_field(&e.fields, &upper) {
        Some(t) => t.clone(),
        None => match get_field(&e.fields, &lower) {
            Some(t) => t.clone(),
            None => String::new(),
        },
    }
}

fn push_header(s: Style, prefix: &str, stack: &Stack, o: Options, out: &mut Vec<Line>)
    ensures
        line_views(final(out)@) == line_views(old(out)@).push(header(s, prefix@, stack@, o)),
{
    let mut text = String::from_str(prefix);
    let path = stack.to_string();
    text.append(path.as_str());
    let line = Line { style: if o.use_color { s } else { Style::Neutral }, text, field: None };
    out.push(line);
    assert(line_views(final(out)@) =~= line_views(old(out)@).push(line@));
}

fn render_history_item(d: &HistoryDelta, stack: &Stack, o: Options, out: &mut Vec<Line>)
    ensures
        line_views(final(out)@) == line_views(old(out)@) + history_item_lines(*d, stack@, o),
{
    let ghost start = line_views(out@);
    match d {
        HistoryDelta::Added(h) => {
            push_header(Style::Added, "+ ", stack, o, out);
            push_value_lines(&h.fields, Style::Added, o, out);
        },
        HistoryDelta::Removed(h) => {
            push_header(Style::Removed, "- ", stack, o, out);
            push_value_lines(&h.fields, Style::Removed, o, out);
        },
        HistoryDelta::Unchanged(_) => {
            if o.use_verbose {
                push_header(Style::Neutral, "  ", stack, o, out);
            }
        },
        HistoryDelta::Modified(_, fs) => {
            push_header(Style::Changed, "~ ", stack, o, out);
            push_change_lines(fs, o, out);
        },
    }
    assert(line_views(out@) =~= start + history_item_lines(*d, stack@, o));
}

/// Appends the decimal digits of `n`.
pub fn append_decimal(n: usize, s: &mut String)
    ensures
        final(s)@ == old(s)@ + decimal(n as nat),
    decreases n,
{
    if n >= 10 {
        append_decimal(n / 10, s);
    }
    let digits = "0123456789";
    proof {
        reveal_strlit("0123456789");
        assert(digits@.len() == 10);
    }
    let d = n % 10;
    let t = digits.substring_char(d, d + 1);
    proof {
        assert(t@ =~= seq![digit_char(d as nat)]);
    }
    s.append(t);
    assert(final(s)@ =~= old(s)@ + decimal(n as nat));
}

fn render_history(ds: &Vec<HistoryDelta>, stack: &mut Stack, o: Options, out: &mut Vec<Line>)
    ensures
        line_views(final(out)@) == line_views(old(out)@) + history_lines(ds@, old(stack)@, o),
        final(stack)@ == old(stack)@,
{
    let ghost start = line_views(out@);
    let ghost path = stack@;
    proof {
        reveal_strlit("history");
    }
    stack.push(String::from_str("history"));
    let mut i: usize = 0;
    while i < ds.len()
        invariant
            i <= ds@.len(),
            stack@ == path.push("history"@),
            line_views(out@) == start + history_lines(ds@.take(i as int), path, o),
        decreases ds@.len() - i,
    {
        assert(ds@.take(i as int + 1).drop_last() =~= ds@.take(i as int));
        let mut label = String::new();
        append_decimal(i, &mut label);
        assert(label@ =~= decimal(i as nat));
        stack.push(label);
        render_history_item(&ds[i], stack, o, out);
        let _ = stack.pop();
        assert(stack@ =~= path.push("history"@));
        assert(line_views(out@) =~= start + history_lines(ds@.take(i as int + 1), path, o));
        i = i + 1;
    }
    assert(ds@.take(i as int) =~= ds@);
    let _ = stack.pop();
    assert(stack@ =~= path);
}

fn render_entry(d: &EntryDelta, stack: &mut Stack, o: Options, out: &mut Vec<Line>)
    ensures
        line_views(final(out)@) == line_views(old(out)@) + entry_lines(*d, old(stack)@, o),
        final(stack)@ == old(stack)@,
{
    let ghost start = line_views(out@);
    let ghost path = stack@;
    match d {
        EntryDelta::Added(e) => {
            stack.push(entry_display_name(e));
            push_header(Style::Added, "+ ", stack, o, out);
            push_value_lines(&e.fields, Style::Added, o, out);
        },
        EntryDelta::Removed(e) => {
            stack.push(entry_display_name(e));
            push_header(Style::Removed, "- ", stack, o, out);
            push_value_lines(&e.fields, Style::Removed, o, out);
        },
        EntryDelta::Unchanged(e) => {
            stack.push(entry_display_name(e));
            if o.use_verbose {
                push_header(Style::Neutral, "  ", stack, o, out);
            }
        },
        EntryDelta::Modified { entry, fields, history } => {
            stack.push(entry_display_name(entry));
            push_header(Style::Changed, "~ ", stack, o, out);
            push_change_lines(fields, o, out);
            render_history(history, stack, o, out);
        },
    }
    let _ = stack.pop();
    assert(stack@ =~= path);
    assert(line_views(out@) =~= start + entry_lines(*d, path, o));
}

fn render_entries(ds: &Vec<EntryDelta>, stack: &mut Stack, o: Options, out: &mut Vec<Line>)
    ensures
        line_views(final(out)@) == line_views(old(out)@) + entries_lines(ds@, old(stack)@, o),
        final(stack)@ == old(stack)@,
{
    let ghost start = line_views(out@);
    let ghost path = stack@;
    let mut i: usize = 0;
    while i < ds.len()
        invariant
            i <= ds@.len(),
            stack@ == path,
            line_views(out@) == start + entries_lines(ds@.take(i as int), path, o),
        decreases ds@.len() - i,
    {
        assert(ds@.take(i as int + 1).drop_last() =~= ds@.take(i as int));
        render_entry(&ds[i], stack, o, out);
        assert(line_views(out@) =~= start + entries_lines(ds@.take(i as int + 1), path, o));
        i = i + 1;
    }
    assert(ds@.take(i as int) =~= ds@);
}

fn render_payloads(es: &Vec<Entry>, stack: &mut Stack, s: Style, prefix: &str, o: Options, out: &mut Vec<Line>)
    ensures
        line_views(final(out)@) == line_views(old(out)@) + payload_lines(es@, old(stack)@, s, prefix@, o),
        final(stack)@ == old(stack)@,
{
    let ghost start = line_views(out@);
    let ghost path = stack@;
    let mut i: usize = 0;
    while i < es.len()
        invariant
            i <= es@.len(),
            stack@ == path,
            line_views(out@) == start + payload_lines(es@.take(i as int), path, s, prefix@, o),
        decreases es@.len() - i,
    {
        assert(es@.take(i as int + 1).drop_last() =~= es@.take(i as int));
        let e = &es[i];
        stack.push(entry_display_name(e));
        push_header(s, prefix, stack, o, out);
        push_value_lines(&e.fields, s, o, out);
        let _ = stack.pop();
        assert(stack@ =~= path);
        assert(line_views(out@) =~= start + payload_lines(es@.take(i as int + 1), path, s, prefix@, o));
        i = i + 1;
    }
    assert(es@.take(i as int) =~= es@);
}

fn render_tree(g: &Group, stack: &mut Stack, s: Style, prefix: &str, o: Options, out: &mut Vec<Line>)
    ensures
        line_views(final(out)@) == line_views(old(out)@) + tree_lines(*g, old(stack)@, s, prefix@, o),
        final(stack)@ == old(stack)@,
    decreases g,
{
    let ghost start = line_views(out@);
    let ghost path = stack@;
    stack.push(g.name.clone());
    let ghost p = stack@;
    push_header(s, prefix, stack, o, out);
    render_payloads(&g.entries, stack, s, prefix, o, out);
    let ghost mid = line_views(out@);
    let mut i: usize = 0;
    while i < g.subgroups.len()
        invariant
            i <= g.subgroups@.len(),
            stack@ == p,
            p == path.push(g.name@),
            line_views(out@) == mid + subtrees_lines(*g, i as int, p, s, prefix@, o),
        decreases g.subgroups@.len() - i,
    {
        render_tree(&g.subgroups[i], stack, s, prefix, o, out);
        assert(line_views(out@) =~= mid + subtrees_lines(*g, i as int + 1, p, s, prefix@, o));
        i = i + 1;
    }
    let _ = stack.pop();
    assert(stack@ =~= path);
    assert(line_views(out@) =~= start + tree_lines(*g, path, s, prefix@, o));
}

fn render_delta(d: &GroupDelta, stack: &mut Stack, o: Options, out: &mut Vec<Line>)
    ensures
        line_views(final(out)@) == line_views(old(out)@) + delta_lines(*d, old(stack)@, o),
        final(stack)@ == old(stack)@,
    decreases d,
{
    let ghost start = line_views(out@);
    let ghost path = stack@;
    match d {
        GroupDelta::Added(g) => {
            render_tree(g, stack, Style::Added, "+ ", o, out);
        },
        GroupDelta::Removed(g) => {
            render_tree(g, stack, Style::Removed, "- ", o, out);
        },
        GroupDelta::Unchanged(g) => {
            stack.push(g.name.clone());
            if o.use_verbose {
                push_header(Style::Neutral, "  ", stack, o, out);
            }
            let _ = stack.pop();
            assert(stack@ =~= path);
        },
        GroupDelta::Modified { group, name_change, entries, subgroups } => {
            stack.push(group.name.clone());
            let ghost p = stack@;
            push_header(Style::Changed, "~ ", stack, o, out);
            match name_change {
                Some(c) => {
                    let ghost before = line_views(out@);
                    let mut one: Vec<FieldDelta> = Vec::new();
                    one.push(FieldDelta {
                        name: c.name.clone(),
                        old_value: c.old_value.clone(),
                        new_value: c.new_value.clone(),
                    });
                    push_change_lines(&one, o, out);
                    assert(change_views(one@) =~= seq![c@]);
                },
                None => {},
            }
            render_entries(entries, stack, o, out);
            let ghost mid = line_views(out@);
            let mut i: usize = 0;
            while i < subgroups.len()
                invariant
                    i <= subgroups@.len(),
                    *d is Modified,
                    d->subgroups == *subgroups,
                    stack@ == p,
                    line_views(out@) == mid + subdeltas_lines(*d, i as int, p, o),
                decreases subgroups@.len() - i,
            {
                render_delta(&subgroups[i], stack, o, out);
                assert(line_views(out@) =~= mid + subdeltas_lines(*d, i as int + 1, p, o));
                i = i + 1;
            }
            let _ = stack.pop();
            assert(stack@ =~= path);
        },
    }
    assert(line_views(out@) =~= start + delta_lines(*d, path, o));
}

/// Renders a delta tree from the root: one line per reported node and one
/// per field shown under it.
pub fn render(d: &GroupDelta, o: Options) -> (r: Vec<Line>)
    ensures
        line_views(r@) == delta_lines(*d, seq![], o),
{
    let mut stack = Stack::empty();
    let mut out: Vec<Line> = Vec::new();
    render_delta(d, &mut stack, o, &mut out);
    assert(line_views(Seq::<Line>::empty()) =~= seq![]);
    assert(line_views(out@) =~= delta_lines(*d, seq![], o));
    out
}

} // verus!
