use len::{aggregate, DirectoryAggregate, Node};

fn file(name: &str, size: u64) -> Node {
    Node::file(name.to_string(), size)
}

fn dir(name: &str, children: Vec<Node>) -> Node {
    Node::directory(name.to_string(), children).expect("totals fit")
}

fn sample() -> Node {
    dir(
        "root",
        vec![
            file("a.txt", 10),
            dir("sub", vec![file("c.bin", 5), dir("deep", vec![file("d", 7), file("e", 0)])]),
            file("b.txt", 20),
            dir("empty", vec![]),
        ],
    )
}

#[test]
fn aggregate_of_missing_path_is_zero() {
    assert_eq!(
        aggregate(None),
        DirectoryAggregate { total_bytes: 0, file_count: 0, dir_count: 0 }
    );
}

#[test]
fn aggregate_of_empty_directory_is_zero() {
    let d = dir("empty", vec![]);
    assert_eq!(d.aggregate(), DirectoryAggregate::zero());
    assert_eq!(aggregate(Some(&d)), DirectoryAggregate::zero());
}

#[test]
fn aggregate_sums_the_whole_subtree() {
    let root = sample();
    assert_eq!(
        root.aggregate(),
        DirectoryAggregate { total_bytes: 42, file_count: 5, dir_count: 3 }
    );
    assert_eq!(aggregate(Some(&root)), root.aggregate());
}

#[test]
fn aggregate_leaves_the_root_itself_out() {
    let root = dir("only", vec![dir("inner", vec![])]);
    assert_eq!(
        root.aggregate(),
        DirectoryAggregate { total_bytes: 0, file_count: 0, dir_count: 1 }
    );
}

#[test]
fn nothing_lies_under_a_file() {
    let f = file("a.txt", 10);
    assert_eq!(f.aggregate(), DirectoryAggregate::zero());
    assert_eq!(f.weight(), 10);
}

#[test]
fn counts_cover_every_entry_under_the_root() {
    let root = sample();
    let agg = root.aggregate();
    assert_eq!(agg.file_count + agg.dir_count, 8);
    assert_eq!(agg.item_count(), 8);
}

#[test]
fn repeated_aggregation_gives_the_same_totals() {
    let root = sample();
    let first = root.aggregate();
    let _ = root.children()[1].aggregate();
    assert_eq!(root.aggregate(), first);
}

#[test]
fn weight_of_a_directory_is_the_total_under_it() {
    let root = sample();
    assert_eq!(root.weight(), 42);
    assert_eq!(root.children()[1].weight(), 12);
    assert_eq!(root.children()[3].weight(), 0);
}

#[test]
fn accessors_give_back_what_was_put_in() {
    let root = sample();
    assert_eq!(root.name(), "root");
    assert!(root.is_dir());
    assert_eq!(root.children().len(), 4);
    assert_eq!(root.children()[0].name(), "a.txt");
    assert!(!root.children()[0].is_dir());
    assert!(root.children()[0].children().is_empty());
    assert_eq!(root.children()[1].name(), "sub");
    assert!(root.children()[1].is_dir());
}

#[test]
fn directory_is_refused_where_bytes_do_not_fit() {
    let made = Node::directory(
        "huge".to_string(),
        vec![file("a", u64::MAX), file("b", 1)],
    );
    assert!(made.is_none());
}

#[test]
fn directory_is_made_where_bytes_just_fit() {
    let made = Node::directory(
        "full".to_string(),
        vec![file("a", u64::MAX - 1), file("b", 1)],
    );
    let node = made.expect("totals fit");
    assert_eq!(node.aggregate().total_bytes, u64::MAX);
}

#[test]
fn item_count_never_overflows() {
    let agg = DirectoryAggregate { total_bytes: 0, file_count: u64::MAX, dir_count: u64::MAX };
    assert_eq!(agg.item_count(), 2 * (u64::MAX as u128));
}
