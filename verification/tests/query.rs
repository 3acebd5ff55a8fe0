use len::{
    filter_by_name, filter_by_suffix, format_bytes, get_file_info, list, summarize,
    DirectoryAggregate, DirectoryEntry, Node, QueryError, QueryMode, QueryResult,
};

fn file(name: &str, size: u64) -> Node {
    Node::file(name.to_string(), size)
}

fn dir(name: &str, children: Vec<Node>) -> Node {
    Node::directory(name.to_string(), children).expect("totals fit")
}

fn entry(name: &str, is_directory: bool, size_bytes: u64) -> DirectoryEntry {
    DirectoryEntry { name: name.to_string(), is_directory, size_bytes }
}

fn names(r: &QueryResult) -> Vec<&str> {
    r.entries.iter().map(|e| e.name.as_str()).collect()
}

fn mixed() -> Node {
    dir(
        "d",
        vec![
            file("notes.txt", 100),
            file("the_plan.md", 40),
            dir("the_dir", vec![file("inner.txt", 7), file("x", 3)]),
            file("readme.txt", 1),
            dir("archive.txt", vec![file("old", 50)]),
            file("The_upper.txt", 9),
            dir("other", vec![]),
            file("bathe", 2),
        ],
    )
}

#[test]
fn summarize_end_to_end() {
    let root = dir(
        "root",
        vec![file("a.txt", 10), file("b.txt", 20), dir("sub", vec![file("c", 5)])],
    );
    let (agg, listing) = summarize(Some(&root));
    assert_eq!(agg, DirectoryAggregate { total_bytes: 35, file_count: 3, dir_count: 1 });
    assert_eq!(
        listing.entries,
        vec![entry("sub", true, 5), entry("a.txt", false, 10), entry("b.txt", false, 20)]
    );
    assert_eq!(format_bytes(listing.entries[0].size_bytes), "5.0 B");
    assert_eq!(listing.matched_count, 3);
    assert_eq!(listing.total_bytes_matched, 35);
}

#[test]
fn summarize_missing_root_is_empty() {
    let (agg, listing) = summarize(None);
    assert_eq!(agg, DirectoryAggregate { total_bytes: 0, file_count: 0, dir_count: 0 });
    assert_eq!(
        listing,
        QueryResult { entries: vec![], matched_count: 0, total_bytes_matched: 0 }
    );
}

#[test]
fn summarize_empty_directory() {
    let (agg, listing) = summarize(Some(&dir("empty", vec![])));
    assert_eq!(agg, DirectoryAggregate::zero());
    assert!(listing.entries.is_empty());
    assert_eq!(listing.matched_count, 0);
    assert_eq!(listing.total_bytes_matched, 0);
}

#[test]
fn summarize_lists_only_one_level() {
    let (agg, listing) = summarize(Some(&mixed()));
    assert_eq!(agg, DirectoryAggregate { total_bytes: 212, file_count: 8, dir_count: 3 });
    assert_eq!(
        names(&listing),
        vec![
            "archive.txt",
            "other",
            "the_dir",
            "The_upper.txt",
            "bathe",
            "notes.txt",
            "readme.txt",
            "the_plan.md",
        ]
    );
    assert_eq!(listing.matched_count, 8);
    assert_eq!(listing.total_bytes_matched, 212);
}

#[test]
fn listing_blocks_are_each_in_order() {
    let (_, listing) = summarize(Some(&mixed()));
    let split = listing.entries.iter().position(|e| !e.is_directory).unwrap();
    let (dirs, files) = listing.entries.split_at(split);
    assert!(dirs.iter().all(|e| e.is_directory));
    assert!(files.iter().all(|e| !e.is_directory));
    assert!(dirs.windows(2).all(|w| w[0].name <= w[1].name));
    assert!(files.windows(2).all(|w| w[0].name <= w[1].name));
}

#[test]
fn filter_by_suffix_lists_matching_files_only() {
    let found = filter_by_suffix(Some(&mixed()), "txt").unwrap();
    assert_eq!(
        found.entries,
        vec![
            entry("The_upper.txt", false, 9),
            entry("notes.txt", false, 100),
            entry("readme.txt", false, 1),
        ]
    );
    assert_eq!(found.matched_count, 3);
    assert_eq!(found.total_bytes_matched, 110);
}

#[test]
fn filter_by_suffix_drops_a_renamed_file() {
    let before = dir("d", vec![file("a.txt", 1), file("b.txt", 2)]);
    let found = filter_by_suffix(Some(&before), "txt").unwrap();
    assert_eq!(names(&found), vec!["a.txt", "b.txt"]);
    let after = dir("d", vec![file("a.txt", 1), file("b.bak", 2)]);
    let found = filter_by_suffix(Some(&after), "txt").unwrap();
    assert_eq!(names(&found), vec!["a.txt"]);
    assert_eq!(found.matched_count, 1);
    assert_eq!(found.total_bytes_matched, 1);
}

#[test]
fn renaming_a_listed_file_takes_out_its_line_only() {
    let before = dir(
        "d",
        vec![file("m.txt", 4), file("z.txt", 1), dir("k.txt", vec![]), file("a.txt", 2), file("q", 9)],
    );
    let after = dir(
        "d",
        vec![file("m.md", 4), file("z.txt", 1), dir("k.txt", vec![]), file("a.txt", 2), file("q", 9)],
    );
    let first = filter_by_suffix(Some(&before), ".txt").unwrap();
    let second = filter_by_suffix(Some(&after), ".txt").unwrap();
    let mut expected = first.entries.clone();
    let at = expected.iter().position(|e| e.name == "m.txt").unwrap();
    expected.remove(at);
    assert_eq!(second.entries, expected);
    assert_eq!(second.matched_count, first.matched_count - 1);
    assert_eq!(second.total_bytes_matched, first.total_bytes_matched - 4);
}

#[test]
fn listed_sizes_add_up_to_the_total() {
    let root = mixed();
    for found in [
        summarize(Some(&root)).1,
        filter_by_suffix(Some(&root), "txt").unwrap(),
        filter_by_name(Some(&root), "the").unwrap(),
    ] {
        let sum: u64 = found.entries.iter().map(|e| e.size_bytes).sum();
        assert_eq!(sum, found.total_bytes_matched);
        assert_eq!(found.entries.len() as u64, found.matched_count);
    }
    let (agg, listing) = summarize(Some(&root));
    assert_eq!(listing.total_bytes_matched, agg.total_bytes);
}

#[test]
fn a_longer_text_lists_part_of_what_a_shorter_one_lists() {
    let root = mixed();
    let short = filter_by_name(Some(&root), "the").unwrap();
    let long = filter_by_name(Some(&root), "the_").unwrap();
    let part: Vec<DirectoryEntry> =
        short.entries.iter().filter(|e| e.name.contains("the_")).cloned().collect();
    assert_eq!(long.entries, part);
    assert_eq!(names(&long), vec!["the_dir", "the_plan.md"]);
}

#[test]
fn a_suffix_lists_part_of_what_the_same_text_lists_as_a_name() {
    let root = mixed();
    let by_name = filter_by_name(Some(&root), "txt").unwrap();
    let by_suffix = filter_by_suffix(Some(&root), "txt").unwrap();
    let part: Vec<DirectoryEntry> = by_name
        .entries
        .iter()
        .filter(|e| !e.is_directory && e.name.ends_with("txt"))
        .cloned()
        .collect();
    assert_eq!(by_suffix.entries, part);
    assert!(by_name.entries.iter().any(|e| e.name == "archive.txt" && e.is_directory));
}

#[test]
fn filter_by_suffix_is_not_recursive() {
    let found = filter_by_suffix(Some(&mixed()), "inner.txt").unwrap();
    assert!(found.entries.is_empty());
    assert_eq!(found.matched_count, 0);
    assert_eq!(found.total_bytes_matched, 0);
}

#[test]
fn filter_by_suffix_takes_the_suffix_verbatim() {
    let root = dir("d", vec![file("a.txt", 1), file("b*.txt", 2)]);
    let found = filter_by_suffix(Some(&root), "*.txt").unwrap();
    assert_eq!(names(&found), vec!["b*.txt"]);
}

#[test]
fn filter_by_suffix_empty_suffix_lists_every_file() {
    let found = filter_by_suffix(Some(&mixed()), "").unwrap();
    assert_eq!(
        names(&found),
        vec!["The_upper.txt", "bathe", "notes.txt", "readme.txt", "the_plan.md"]
    );
}

#[test]
fn filter_by_name_lists_files_and_directories() {
    let found = filter_by_name(Some(&mixed()), "the").unwrap();
    assert_eq!(
        found.entries,
        vec![
            entry("other", true, 0),
            entry("the_dir", true, 10),
            entry("bathe", false, 2),
            entry("the_plan.md", false, 40),
        ]
    );
    assert_eq!(found.matched_count, 4);
    assert_eq!(found.total_bytes_matched, 52);
}

#[test]
fn filter_by_name_is_case_sensitive() {
    let found = filter_by_name(Some(&mixed()), "The").unwrap();
    assert_eq!(found.entries, vec![entry("The_upper.txt", false, 9)]);
}

#[test]
fn filter_by_name_gives_directories_their_recursive_size() {
    let found = filter_by_name(Some(&mixed()), "archive").unwrap();
    assert_eq!(found.entries, vec![entry("archive.txt", true, 50)]);
    assert_eq!(found.total_bytes_matched, 50);
}

#[test]
fn filter_on_missing_root_is_not_found() {
    assert_eq!(filter_by_suffix(None, "txt"), Err(QueryError::NotFound));
    assert_eq!(filter_by_name(None, "the"), Err(QueryError::NotFound));
}

#[test]
fn filter_on_a_file_is_not_a_directory() {
    let f = file("a.txt", 10);
    assert_eq!(filter_by_suffix(Some(&f), "txt"), Err(QueryError::NotADirectory));
    assert_eq!(filter_by_name(Some(&f), "a"), Err(QueryError::NotADirectory));
}

#[test]
fn list_answers_each_mode() {
    let root = mixed();
    assert_eq!(list(&root, &QueryMode::Summary), summarize(Some(&root)).1);
    assert_eq!(Ok(list(&root, &QueryMode::Suffix("md"))), filter_by_suffix(Some(&root), "md"));
    assert_eq!(Ok(list(&root, &QueryMode::Name("o"))), filter_by_name(Some(&root), "o"));
}

#[test]
fn list_of_a_file_is_empty() {
    let found = list(&file("a.txt", 10), &QueryMode::Summary);
    assert_eq!(found, QueryResult { entries: vec![], matched_count: 0, total_bytes_matched: 0 });
}

#[test]
fn get_file_info_formats_the_size() {
    assert_eq!(get_file_info(&file("a.txt", 0)), "0.0 B");
    assert_eq!(get_file_info(&file("a.txt", 1_500_000)), "1.5 MB");
    assert_eq!(get_file_info(&dir("d", vec![file("x", 2_000), file("y", 500)])), "2.5 KB");
}
