use keepass_diff::diff::{diff, diff_entries, diff_history, EntryDelta, GroupDelta, HistoryDelta};
use keepass_diff::fields::diff_fields;
use keepass_diff::model::{get_field, Entry, Field, Group, HistoryEntry};
use keepass_diff::render::{append_decimal, entry_display_name, is_password, render, Line, Options, Style};
use keepass_diff::stack::{EmptyStackError, Stack};

fn field(name: &str, value: &str) -> Field {
    Field { name: name.to_string(), value: value.to_string() }
}

fn entry(id: u128, fields: Vec<Field>) -> Entry {
    Entry { id, fields, history: Vec::new() }
}

fn group(id: u128, name: &str, entries: Vec<Entry>, subgroups: Vec<Group>) -> Group {
    Group { id, name: name.to_string(), entries, subgroups }
}

fn opts(use_color: bool, use_verbose: bool, mask_passwords: bool) -> Options {
    Options { use_color, use_verbose, mask_passwords }
}

fn texts(lines: &[Line]) -> Vec<String> {
    lines.iter().map(|l| l.text.clone()).collect()
}

fn bank_scenario() -> (Group, Group) {
    let a = group(1, "Root", vec![entry(11, vec![field("title", "Bank"), field("password", "old")])], vec![]);
    let b = group(
        1,
        "Root",
        vec![
            entry(11, vec![field("title", "Bank"), field("password", "new")]),
            entry(12, vec![field("title", "Email")]),
        ],
        vec![],
    );
    (a, b)
}

#[test]
fn modified_password_and_added_entry() {
    let (a, b) = bank_scenario();
    let d = diff(&a, &b);
    match &d {
        GroupDelta::Modified { group, name_change, entries, subgroups } => {
            assert_eq!(group.id, 1);
            assert!(name_change.is_none());
            assert!(subgroups.is_empty());
            assert_eq!(entries.len(), 2);
            match &entries[0] {
                EntryDelta::Modified { entry, fields, history } => {
                    assert_eq!(entry.id, 11);
                    assert!(history.is_empty());
                    assert_eq!(fields.len(), 1);
                    assert_eq!(fields[0].name, "password");
                    assert_eq!(fields[0].old_value.as_deref(), Some("old"));
                    assert_eq!(fields[0].new_value.as_deref(), Some("new"));
                }
                _ => panic!("entry E1 should be modified"),
            }
            match &entries[1] {
                EntryDelta::Added(e) => assert_eq!(e.id, 12),
                _ => panic!("entry E2 should be added"),
            }
        }
        _ => panic!("root should be modified"),
    }
}

#[test]
fn masked_rendering_hides_old_and_new_values() {
    let (a, b) = bank_scenario();
    let d = diff(&a, &b);
    for color in [false, true] {
        for verbose in [false, true] {
            let lines = render(&d, opts(color, verbose, true));
            let t = texts(&lines);
            assert!(t.iter().any(|l| l.contains("password: **** → ****")));
            assert!(t.iter().all(|l| !l.contains("old") && !l.contains("new")));
        }
    }
}

#[test]
fn unmasked_rendering_shows_values() {
    let (a, b) = bank_scenario();
    let d = diff(&a, &b);
    let lines = render(&d, opts(true, false, false));
    assert_eq!(
        texts(&lines),
        vec![
            "~ Root".to_string(),
            "~ Root/Bank".to_string(),
            "    password: old → new".to_string(),
            "+ Root/Email".to_string(),
            "    title: Email".to_string(),
        ]
    );
    assert_eq!(lines[0].style, Style::Changed);
    assert_eq!(lines[2].style, Style::Changed);
    assert_eq!(lines[2].field.as_deref(), Some("password"));
    assert_eq!(lines[3].style, Style::Added);
    assert_eq!(lines[4].style, Style::Added);
}

#[test]
fn no_color_keeps_text_and_drops_styles() {
    let (a, b) = bank_scenario();
    let d = diff(&a, &b);
    let colored = render(&d, opts(true, false, false));
    let plain = render(&d, opts(false, false, false));
    assert_eq!(texts(&colored), texts(&plain));
    assert!(plain.iter().all(|l| l.style == Style::Neutral));
}

#[test]
fn removed_group_renders_whole_subtree_removed() {
    let inner = group(3, "Inner", vec![entry(31, vec![field("title", "Deep")])], vec![]);
    let sub = group(2, "Sub", vec![entry(21, vec![field("title", "Mail"), field("Password", "x")])], vec![inner]);
    let a = group(1, "Root", vec![], vec![sub]);
    let b = group(1, "Root", vec![], vec![]);
    let d = diff(&a, &b);
    match &d {
        GroupDelta::Modified { subgroups, entries, .. } => {
            assert!(entries.is_empty());
            assert_eq!(subgroups.len(), 1);
            assert!(matches!(subgroups[0], GroupDelta::Removed(g) if g.id == 2));
        }
        _ => panic!("root should be modified"),
    }
    let lines = render(&d, opts(true, true, false));
    assert_eq!(
        texts(&lines),
        vec![
            "~ Root".to_string(),
            "- Root/Sub".to_string(),
            "- Root/Sub/Mail".to_string(),
            "    title: Mail".to_string(),
            "    Password: x".to_string(),
            "- Root/Sub/Inner".to_string(),
            "- Root/Sub/Inner/Deep".to_string(),
            "    title: Deep".to_string(),
        ]
    );
    assert!(lines[1..].iter().all(|l| l.style == Style::Removed));
    assert!(lines.iter().all(|l| l.style != Style::Added));
}

#[test]
fn entry_order_does_not_matter() {
    let e1 = || entry(11, vec![field("title", "A"), field("password", "p")]);
    let e2 = || entry(12, vec![field("title", "B")]);
    let a = group(1, "Root", vec![e1(), e2()], vec![]);
    let b = group(1, "Root", vec![e2(), e1()], vec![]);
    let d = diff(&a, &b);
    assert!(matches!(d, GroupDelta::Unchanged(g) if g.id == 1));
    assert!(render(&d, opts(true, false, false)).is_empty());
    assert_eq!(texts(&render(&d, opts(true, true, false))), vec!["  Root".to_string()]);
}

#[test]
fn tree_compared_with_itself_is_unchanged() {
    let mut e = entry(11, vec![field("title", "A"), field("notes", "")]);
    e.history.push(HistoryEntry { modified_at: 5, fields: vec![field("title", "A0")] });
    let sub = group(2, "Sub", vec![entry(21, vec![field("url", "u")])], vec![]);
    let g = group(1, "Root", vec![e], vec![sub]);
    assert!(matches!(diff(&g, &g), GroupDelta::Unchanged(_)));
}

#[test]
fn empty_trees_are_unchanged() {
    let a = group(1, "Root", vec![], vec![]);
    assert!(matches!(diff(&a, &a), GroupDelta::Unchanged(_)));
}

#[test]
fn absent_and_empty_fields_differ() {
    let a = vec![field("title", "T"), field("notes", "")];
    let b = vec![field("title", "T"), field("url", "")];
    let d = diff_fields(&a, &b);
    assert_eq!(d.len(), 2);
    assert_eq!(d[0].name, "notes");
    assert_eq!(d[0].old_value.as_deref(), Some(""));
    assert_eq!(d[0].new_value, None);
    assert_eq!(d[1].name, "url");
    assert_eq!(d[1].old_value, None);
    assert_eq!(d[1].new_value.as_deref(), Some(""));
}

#[test]
fn equal_fields_are_left_out() {
    let a = vec![field("title", "T"), field("user", "u"), field("password", "p")];
    let b = vec![field("password", "q"), field("user", "u"), field("title", "T")];
    let d = diff_fields(&a, &b);
    assert_eq!(d.len(), 1);
    assert_eq!(d[0].name, "password");
}

#[test]
fn ids_decide_matching_not_contents() {
    let a = vec![entry(1, vec![field("title", "Same")])];
    let b = vec![entry(2, vec![field("title", "Same")])];
    let d = diff_entries(&a, &b);
    assert_eq!(d.len(), 2);
    assert!(matches!(d[0], EntryDelta::Added(e) if e.id == 2));
    assert!(matches!(d[1], EntryDelta::Removed(e) if e.id == 1));
}

#[test]
fn removed_entries_follow_older_order() {
    let a = vec![entry(3, vec![]), entry(1, vec![]), entry(2, vec![])];
    let b = vec![entry(2, vec![]), entry(4, vec![])];
    let d = diff_entries(&a, &b);
    let ids: Vec<(char, u128)> = d
        .iter()
        .map(|x| match x {
            EntryDelta::Added(e) => ('+', e.id),
            EntryDelta::Removed(e) => ('-', e.id),
            EntryDelta::Unchanged(e) => ('=', e.id),
            EntryDelta::Modified { entry, .. } => ('~', entry.id),
        })
        .collect();
    assert_eq!(ids, vec![('=', 2), ('+', 4), ('-', 3), ('-', 1)]);
}

#[test]
fn group_rename_is_reported() {
    let a = group(1, "Old name", vec![], vec![]);
    let b = group(1, "New name", vec![], vec![]);
    let d = diff(&a, &b);
    match &d {
        GroupDelta::Modified { name_change: Some(c), .. } => {
            assert_eq!(c.name, "name");
            assert_eq!(c.old_value.as_deref(), Some("Old name"));
            assert_eq!(c.new_value.as_deref(), Some("New name"));
        }
        _ => panic!("rename should be reported"),
    }
    assert_eq!(
        texts(&render(&d, opts(false, false, false))),
        vec!["~ New name".to_string(), "    name: Old name → New name".to_string()]
    );
}

#[test]
fn history_is_compared_by_position() {
    let h = |t: &str| HistoryEntry { modified_at: 0, fields: vec![field("title", t)] };
    let a = vec![h("v1"), h("v2")];
    let b = vec![h("v1"), h("v2b"), h("v3")];
    let d = diff_history(&a, &b);
    assert_eq!(d.len(), 3);
    assert!(matches!(d[0], HistoryDelta::Unchanged(_)));
    match &d[1] {
        HistoryDelta::Modified(_, fs) => {
            assert_eq!(fs.len(), 1);
            assert_eq!(fs[0].old_value.as_deref(), Some("v2"));
            assert_eq!(fs[0].new_value.as_deref(), Some("v2b"));
        }
        _ => panic!("second version should be modified"),
    }
    assert!(matches!(d[2], HistoryDelta::Added(_)));
    let back = diff_history(&b, &a);
    assert!(matches!(back[2], HistoryDelta::Removed(_)));
}

#[test]
fn history_change_makes_entry_modified_and_is_rendered() {
    let mut ea = entry(7, vec![field("Title", "Site")]);
    ea.history.push(HistoryEntry { modified_at: 1, fields: vec![field("Password", "first")] });
    let eb = entry(7, vec![field("Title", "Site")]);
    let a = group(1, "Root", vec![ea], vec![]);
    let b = group(1, "Root", vec![eb], vec![]);
    let d = diff(&a, &b);
    let t = texts(&render(&d, opts(true, false, true)));
    assert_eq!(
        t,
        vec![
            "~ Root".to_string(),
            "~ Root/Site".to_string(),
            "- Root/Site/history/0".to_string(),
            "    Password: ****".to_string(),
        ]
    );
}

#[test]
fn verbose_output_contains_quiet_output() {
    let sub_a = group(2, "Same", vec![entry(21, vec![field("title", "Kept")])], vec![]);
    let sub_b = group(2, "Same", vec![entry(21, vec![field("title", "Kept")])], vec![]);
    let a = group(1, "Root", vec![entry(11, vec![field("title", "X"), field("user", "a")])], vec![sub_a]);
    let b = group(1, "Root", vec![entry(11, vec![field("title", "X"), field("user", "b")])], vec![sub_b]);
    let d = diff(&a, &b);
    for color in [false, true] {
        for mask in [false, true] {
            let quiet = texts(&render(&d, opts(color, false, mask)));
            let loud = texts(&render(&d, opts(color, true, mask)));
            assert!(quiet.iter().all(|l| loud.contains(l)));
            assert!(loud.len() > quiet.len());
            assert!(loud.contains(&"  Root/Same".to_string()));
        }
    }
}

#[test]
fn password_names_ignore_ascii_case() {
    for n in ["password", "Password", "PASSWORD", "pAsSwOrD"] {
        assert!(is_password(&n.to_string()));
    }
    for n in ["passwords", "passwd", "", "pass word", "title"] {
        assert!(!is_password(&n.to_string()));
    }
}

#[test]
fn entry_name_prefers_title_field() {
    assert_eq!(entry_display_name(&entry(1, vec![field("Title", "A"), field("title", "b")])), "A");
    assert_eq!(entry_display_name(&entry(1, vec![field("title", "b")])), "b");
    assert_eq!(entry_display_name(&entry(1, vec![field("user", "u")])), "");
}

#[test]
fn field_lookup() {
    let fs = vec![field("a", "1"), field("b", "")];
    assert_eq!(get_field(&fs, &"b".to_string()).map(|s| s.as_str()), Some(""));
    assert_eq!(get_field(&fs, &"c".to_string()), None);
}

#[test]
fn stack_push_pop_and_join() {
    let mut s = Stack::empty();
    assert_eq!(s.len(), 0);
    assert_eq!(s.to_string(), "");
    s.push("root".to_string());
    s.push("Group A".to_string());
    s.push("Entry X".to_string());
    assert_eq!(s.to_string(), "root/Group A/Entry X");
    assert_eq!(s.pop(), Ok("Entry X".to_string()));
    assert_eq!(s.len(), 2);
    assert_eq!(s.pop(), Ok("Group A".to_string()));
    assert_eq!(s.pop(), Ok("root".to_string()));
    assert_eq!(s.pop(), Err(EmptyStackError));
}

#[test]
fn decimal_labels() {
    for (n, t) in [(0usize, "0"), (7, "7"), (10, "10"), (305, "305"), (usize::MAX, "18446744073709551615")] {
        let mut s = "at ".to_string();
        append_decimal(n, &mut s);
        assert_eq!(s, format!("at {}", t));
    }
}

#[test]
fn history_positions_are_labelled() {
    let h = |t: &str| HistoryEntry { modified_at: 0, fields: vec![field("title", t)] };
    let mut ea = entry(7, vec![field("title", "Site")]);
    ea.history = vec![h("v1"), h("v2")];
    let mut eb = entry(7, vec![field("title", "Site")]);
    eb.history = vec![h("v1"), h("v2b"), h("v3")];
    let a = group(1, "Root", vec![ea], vec![]);
    let b = group(1, "Root", vec![eb], vec![]);
    let t = texts(&render(&diff(&a, &b), opts(true, true, false)));
    assert_eq!(
        t,
        vec![
            "~ Root".to_string(),
            "~ Root/Site".to_string(),
            "  Root/Site/history/0".to_string(),
            "~ Root/Site/history/1".to_string(),
            "    title: v2 → v2b".to_string(),
            "+ Root/Site/history/2".to_string(),
            "    title: v3".to_string(),
        ]
    );
}

#[test]
fn each_subgroup_id_reported_once() {
    let a = group(1, "Root", vec![], vec![group(2, "Two", vec![], vec![]), group(3, "Three", vec![], vec![])]);
    let b = group(1, "Root", vec![], vec![group(4, "Four", vec![], vec![]), group(2, "Two!", vec![], vec![])]);
    match diff(&a, &b) {
        GroupDelta::Modified { subgroups, .. } => {
            let mut ids: Vec<(char, u128)> = subgroups
                .iter()
                .map(|x| match x {
                    GroupDelta::Added(g) => ('+', g.id),
                    GroupDelta::Removed(g) => ('-', g.id),
                    GroupDelta::Unchanged(g) => ('=', g.id),
                    GroupDelta::Modified { group, .. } => ('~', group.id),
                })
                .collect();
            assert_eq!(ids, vec![('+', 4), ('~', 2), ('-', 3)]);
            ids.sort_by_key(|p| p.1);
            ids.dedup_by_key(|p| p.1);
            assert_eq!(ids.len(), 3);
        }
        _ => panic!("root should be modified"),
    }
}
