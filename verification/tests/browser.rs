use glyphwire::browser::{entry_role, sort_entries, sort_keyed, EntryRole, Keyed, Listed};

fn listed(entries: &[(&str, bool)]) -> Vec<Listed<usize>> {
    entries
        .iter()
        .enumerate()
        .map(|(item, (name, is_directory))| Listed { is_directory: *is_directory, name: name.to_string(), item })
        .collect()
}

fn names(sorted: &[Listed<usize>]) -> Vec<&str> {
    sorted.iter().map(|entry| entry.name.as_str()).collect()
}

#[test]
fn folders_come_first_then_names_without_case() {
    let sorted = sort_entries(listed(&[
        ("B.md", false),
        ("a.md", false),
        ("zeta", true),
        ("Alpha", true),
        ("c.txt", false),
    ]));
    assert_eq!(names(&sorted), vec!["Alpha", "zeta", "a.md", "B.md", "c.txt"]);
}

#[test]
fn equal_names_keep_their_order() {
    let sorted = sort_entries(listed(&[("Read.md", false), ("read.md", false), ("READ.md", false)]));
    let items: Vec<usize> = sorted.iter().map(|entry| entry.item).collect();
    assert_eq!(items, vec![0, 1, 2]);
    assert!(sort_entries(Vec::<Listed<usize>>::new()).is_empty());
}

#[test]
fn order_matches_the_original_comparison() {
    let input = [("émile", false), ("Zed", false), ("ábc", true), ("abc", true), ("_x", false), ("Ärger", false)];
    let sorted = sort_entries(listed(&input));
    let mut expected: Vec<(&str, bool)> = input.to_vec();
    expected.sort_by(|left, right| {
        right.1.cmp(&left.1).then_with(|| left.0.to_lowercase().cmp(&right.0.to_lowercase()))
    });
    assert_eq!(names(&sorted), expected.iter().map(|(name, _)| *name).collect::<Vec<_>>());
}

#[test]
fn given_keys_decide_the_order() {
    let keyed = |key: &str, name: &str, is_directory: bool, item: usize| Keyed {
        lowered: key.to_string(),
        entry: Listed { is_directory, name: name.to_string(), item },
    };
    let sorted = sort_keyed(vec![
        keyed("b", "first", false, 0),
        keyed("a", "second", false, 1),
        keyed("z", "third", true, 2),
        keyed("a", "fourth", false, 3),
    ]);
    let items: Vec<usize> = sorted.iter().map(|keyed| keyed.entry.item).collect();
    assert_eq!(items, vec![2, 1, 3, 0]);
    assert_eq!(sorted[0].lowered, "z");
}

#[test]
fn folders_expand_unless_linked_and_markdown_files_open() {
    assert_eq!(entry_role(true, false, b"/notes/drafts"), EntryRole::Folder);
    assert_eq!(entry_role(true, true, b"/notes/linked"), EntryRole::Other);
    assert_eq!(entry_role(true, true, b"/notes/linked.md"), EntryRole::Markdown);
    assert_eq!(entry_role(false, false, b"/notes/README.MD"), EntryRole::Markdown);
    assert_eq!(entry_role(false, false, b"/notes/todo.txt"), EntryRole::Other);
    assert_eq!(entry_role(false, true, b"/notes/alias.markdown"), EntryRole::Markdown);
}
