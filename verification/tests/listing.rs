use len::listing::{arrange_entries, sort_entries};
use len::DirectoryEntry;

fn entry(name: &str, is_directory: bool, size_bytes: u64) -> DirectoryEntry {
    DirectoryEntry { name: name.to_string(), is_directory, size_bytes }
}

fn names(v: &[DirectoryEntry]) -> Vec<&str> {
    v.iter().map(|e| e.name.as_str()).collect()
}

#[test]
fn sort_puts_names_in_ascending_order() {
    let sorted = sort_entries(vec![
        entry("pear", false, 1),
        entry("apple", false, 2),
        entry("fig", false, 3),
        entry("banana", false, 4),
    ]);
    assert_eq!(names(&sorted), vec!["apple", "banana", "fig", "pear"]);
}

#[test]
fn sort_keeps_each_entry_with_its_size() {
    let sorted = sort_entries(vec![entry("b", false, 2), entry("a", true, 1)]);
    assert_eq!(sorted, vec![entry("a", true, 1), entry("b", false, 2)]);
}

#[test]
fn sort_is_case_sensitive() {
    let sorted = sort_entries(vec![
        entry("b", false, 0),
        entry("a", false, 0),
        entry("B", false, 0),
        entry("A", false, 0),
    ]);
    assert_eq!(names(&sorted), vec!["A", "B", "a", "b"]);
}

#[test]
fn sort_puts_a_name_before_those_it_begins() {
    let sorted = sort_entries(vec![entry("ab", false, 0), entry("a", false, 0), entry("abc", false, 0)]);
    assert_eq!(names(&sorted), vec!["a", "ab", "abc"]);
}

#[test]
fn sort_keeps_the_order_of_equal_names() {
    let sorted = sort_entries(vec![
        entry("same", false, 1),
        entry("other", false, 9),
        entry("same", false, 2),
        entry("same", false, 3),
    ]);
    assert_eq!(
        sorted,
        vec![
            entry("other", false, 9),
            entry("same", false, 1),
            entry("same", false, 2),
            entry("same", false, 3),
        ]
    );
}

#[test]
fn sort_of_nothing_and_of_one() {
    assert_eq!(sort_entries(vec![]), vec![]);
    assert_eq!(sort_entries(vec![entry("x", false, 1)]), vec![entry("x", false, 1)]);
}

#[test]
fn sort_leaves_a_sorted_run_as_it_is() {
    let run = vec![entry("a", false, 1), entry("b", false, 2), entry("c", false, 3)];
    assert_eq!(sort_entries(run.clone()), run);
}

#[test]
fn sort_agrees_with_a_stable_sort_by_name() {
    let input = vec![
        entry("m", false, 1),
        entry("Z", true, 2),
        entry("a", false, 3),
        entry("m", true, 4),
        entry("", false, 5),
        entry("é", false, 6),
        entry("a", false, 7),
        entry("10", false, 8),
        entry("9", false, 9),
    ];
    let mut expected = input.clone();
    expected.sort_by(|x, y| x.name.cmp(&y.name));
    assert_eq!(sort_entries(input), expected);
}

#[test]
fn arrange_puts_directories_before_files() {
    let out = arrange_entries(
        vec![entry("zeta", true, 1), entry("alpha", true, 2)],
        vec![entry("b.txt", false, 3), entry("a.txt", false, 4)],
    );
    assert_eq!(
        out,
        vec![
            entry("alpha", true, 2),
            entry("zeta", true, 1),
            entry("a.txt", false, 4),
            entry("b.txt", false, 3),
        ]
    );
}

#[test]
fn arrange_sorts_each_block_on_its_own() {
    let out = arrange_entries(
        vec![entry("y", true, 0), entry("x", true, 0)],
        vec![entry("b", false, 0), entry("a", false, 0)],
    );
    assert_eq!(names(&out), vec!["x", "y", "a", "b"]);
}
