//! The three queries on one directory level: the whole listing, the files
//! with a given ending, and the entries whose name holds a given text.

use crate::format::{format_bytes, spec_format_bytes};
use crate::listing::{
    arrange, arrange_entries, directories, files, lines, total_size, DirectoryEntry, Entry,
};
use crate::text::{contains, ends_with, is_infix, is_suffix};
use crate::tree::{
    lemma_totals_of_prefix, lemma_totals_of_step, root_tree, totals_of, trees, under_root,
    DirectoryAggregate, Node, Tree,
};
use vstd::prelude::*;
use vstd::string::*;

verus! {

/// Which immediate children a query lists.
pub enum Filter {
    /// Every child.
    All,
    /// The files whose name ends with the given text.
    Suffix(Seq<char>),
    /// The files and directories whose name holds the given text.
    Name(Seq<char>),
}

/// Which immediate children a query lists, in machine values.
pub enum QueryMode<'a> {
    /// Every child.
    Summary,
    /// The files whose name ends with the given text, taken letter for letter.
    Suffix(&'a str),
    /// The files and directories whose name holds the given text anywhere,
    /// capitals and small letters kept apart.
    Name(&'a str),
}

impl<'a> View for QueryMode<'a> {
    type V = Filter;

    open spec fn view(&self) -> Filter {
        match self {
            QueryMode::Summary => Filter::All,
            QueryMode::Suffix(s) => Filter::Suffix(s@),
            QueryMode::Name(s) => Filter::Name(s@),
        }
    }
}

/// Whether the query lists a child with the line `e`.
pub open spec fn admits(f: Filter, e: Entry) -> bool {
    match f {
        Filter::All => true,
        Filter::Suffix(suffix) => !e.is_directory && is_suffix(e.name, suffix),
        Filter::Name(text) => is_infix(e.name, text),
    }
}

/// The line that shows the child `t`: its name, its kind, and its size, which
/// for a directory is the total of all files under it.
pub open spec fn entry_of(t: Tree) -> Entry {
    Entry { name: t.name(), is_directory: t.is_dir(), size_bytes: t.weight() }
}

/// Whether the query lists the child `t`.
pub open spec fn selects(f: Filter, t: Tree) -> bool {
    admits(f, entry_of(t))
}

/// The children that the query lists, in the order of the directory.
pub open spec fn picked(f: Filter, s: Seq<Tree>) -> Seq<Tree> {
    s.filter(|t: Tree| selects(f, t))
}

/// The lines of the children that the query lists, in the order of the
/// directory.
pub open spec fn selected(f: Filter, s: Seq<Tree>) -> Seq<Entry> {
    picked(f, s).map_values(|t: Tree| entry_of(t))
}

/// What a query answers.
pub struct Answer {
    /// The lines, directories first, each block in order of name.
    pub entries: Seq<Entry>,
    /// How many children the query lists.
    pub matched_count: nat,
    /// The sizes of the listed children, added up.
    pub total_bytes_matched: nat,
}

/// The answer to the query `f` on a directory with the children `s`.
pub open spec fn answer(f: Filter, s: Seq<Tree>) -> Answer {
    Answer {
        entries: arrange(selected(f, s)),
        matched_count: selected(f, s).len(),
        total_bytes_matched: total_size(selected(f, s)),
    }
}

/// What a query answers, in machine values.
#[derive(Clone, Debug, PartialEq, Eq)]
pub struct QueryResult {
    /// The lines, directories first, each block in order of name.
    pub entries: Vec<DirectoryEntry>,
    /// How many children the query lists.
    pub matched_count: u64,
    /// The sizes of the listed children, added up.
    pub total_bytes_matched: u64,
}

impl View for QueryResult {
    type V = Answer;

    open spec fn view(&self) -> Answer {
        Answer {
            entries: lines(self.entries@),
            matched_count: self.matched_count as nat,
            total_bytes_matched: self.total_bytes_matched as nat,
        }
    }
}

/// Why a filter query gave no listing.
#[derive(Clone, Copy, Debug, PartialEq, Eq, Structural)]
pub enum QueryError {
    /// The root does not exist.
    NotFound,
    /// The root exists and is not a directory.
    NotADirectory,
}

/// Looking at one more child adds its line where the query lists it.
pub proof fn lemma_selected_step(f: Filter, s: Seq<Tree>, i: int)
    requires
        0 <= i < s.len(),
    ensures
        selected(f, s.take(i + 1)) == if selects(f, s[i]) {
            selected(f, s.take(i)).push(entry_of(s[i]))
        } else {
            selected(f, s.take(i))
        },
{
    let pred = |t: Tree| selects(f, t);
    assert(s.take(i + 1) =~= s.take(i).push(s[i]));
    s.take(i).lemma_filter_push(s[i], pred);
    if selects(f, s[i]) {
        assert(selected(f, s.take(i + 1)) =~= selected(f, s.take(i)).push(entry_of(s[i])));
    }
}

/// The sizes of the listed children add up to no more than all children
/// count for.
pub proof fn lemma_selected_size(f: Filter, s: Seq<Tree>, i: int)
    requires
        0 <= i <= s.len(),
    ensures
        total_size(selected(f, s.take(i))) <= totals_of(s.take(i)).bytes,
        selected(f, s.take(i)).len() <= i,
    decreases i,
{
    if i == 0 {
        assert(s.take(0) =~= Seq::<Tree>::empty());
        assert(picked(f, s.take(0)) =~= Seq::<Tree>::empty()) by {
            s.take(0).lemma_filter_len(|t: Tree| selects(f, t));
        }
    } else {
        lemma_selected_size(f, s, i - 1);
        lemma_selected_step(f, s, i - 1);
        lemma_totals_of_step(s, i - 1);
        if selects(f, s[i - 1]) {
            let before = selected(f, s.take(i - 1));
            assert(before.push(entry_of(s[i - 1])).drop_last() =~= before);
        }
    }
}

/// A query lists exactly the children that it selects: a line stands in the
/// answer if and only if it is the line of such a child. With a suffix these
/// are the files whose name ends with it, and no directory; with a text, the
/// files and directories whose name holds it.
pub proof fn law_answer_lists_selected(f: Filter, s: Seq<Tree>, e: Entry)
    ensures
        answer(f, s).entries.contains(e) <==> exists|i: int|
            0 <= i < s.len() && selects(f, #[trigger] s[i]) && entry_of(s[i]) == e,
        answer(f, s).entries.len() == answer(f, s).matched_count,
{
    let pred = |t: Tree| selects(f, t);
    let p = picked(f, s);
    let m = selected(f, s);
    broadcast use vstd::seq_lib::group_filter_ensures;

    crate::listing::law_arrange_keeps_entries(m);
    if m.contains(e) {
        let j = choose|j: int| 0 <= j < m.len() && m[j] == e;
        assert(pred(p[j]));
        assert(p.contains(p[j]));
        s.lemma_filter_contains_rev(pred, p[j]);
        let i = choose|i: int| 0 <= i < s.len() && s[i] == p[j];
        assert(selects(f, s[i]) && entry_of(s[i]) == e);
    }
    if exists|i: int| 0 <= i < s.len() && selects(f, #[trigger] s[i]) && entry_of(s[i]) == e {
        let i = choose|i: int| 0 <= i < s.len() && selects(f, #[trigger] s[i]) && entry_of(s[i]) == e;
        assert(p.contains(s[i]));
        let j = choose|j: int| 0 <= j < p.len() && p[j] == s[i];
        assert(m[j] == e);
        assert(m.contains(e));
    }
}

/// With no filter, the lines' sizes add up to what the children count for.
pub proof fn lemma_all_selected_size(s: Seq<Tree>, i: int)
    requires
        0 <= i <= s.len(),
    ensures
        total_size(selected(Filter::All, s.take(i))) == totals_of(s.take(i)).bytes,
    decreases i,
{
    lemma_selected_size(Filter::All, s, i);
    if i > 0 {
        lemma_all_selected_size(s, i - 1);
        lemma_selected_step(Filter::All, s, i - 1);
        lemma_totals_of_step(s, i - 1);
        let before = selected(Filter::All, s.take(i - 1));
        assert(before.push(entry_of(s[i - 1])).drop_last() =~= before);
    } else {
        assert(s.take(0) =~= Seq::<Tree>::empty());
    }
}

/// The sizes beside the listed lines add up to the total that the answer
/// gives, and in a listing of every child to the bytes under the directory.
pub proof fn law_answer_sums_entries(f: Filter, s: Seq<Tree>)
    ensures
        total_size(answer(f, s).entries) == answer(f, s).total_bytes_matched,
        total_size(answer(Filter::All, s).entries) == totals_of(s).bytes,
{
    crate::listing::law_arrange_keeps_total(selected(f, s));
    crate::listing::law_arrange_keeps_total(selected(Filter::All, s));
    lemma_all_selected_size(s, s.len() as int);
    assert(s.take(s.len() as int) =~= s);
}

/// A suffix query lists exactly the files whose name ends with the suffix,
/// and never a directory.
pub proof fn law_suffix_lists_files_that_end_so(suffix: Seq<char>, s: Seq<Tree>, e: Entry)
    ensures
        answer(Filter::Suffix(suffix), s).entries.contains(e) <==> exists|i: int|
            0 <= i < s.len() && !(#[trigger] s[i]).is_dir() && is_suffix(s[i].name(), suffix)
                && entry_of(s[i]) == e,
        answer(Filter::Suffix(suffix), s).entries.contains(e) ==> !e.is_directory && is_suffix(
            e.name,
            suffix,
        ),
{
    law_answer_lists_selected(Filter::Suffix(suffix), s, e);
}

/// Where a listed file is renamed so that its name no longer ends with the
/// suffix, and nothing else changes, its line leaves the listing and every
/// other line stays where it was; the count goes down by one and the total
/// by the file's size.
pub proof fn law_renamed_file_leaves_suffix_listing(
    suffix: Seq<char>,
    s: Seq<Tree>,
    i: int,
    renamed: Seq<char>,
) -> (j: int)
    requires
        0 <= i < s.len(),
        s[i] is File,
        is_suffix(s[i].name(), suffix),
        !is_suffix(renamed, suffix),
    ensures
        ({
            let before = answer(Filter::Suffix(suffix), s);
            let after = answer(
                Filter::Suffix(suffix),
                s.update(i, Tree::File { name: renamed, size: s[i]->size }),
            );
            &&& 0 <= j < before.entries.len()
            &&& before.entries[j] == entry_of(s[i])
            &&& after.entries == before.entries.remove(j)
            &&& after.matched_count == before.matched_count - 1
            &&& after.total_bytes_matched == before.total_bytes_matched - s[i].weight()
        }),
{
    let f = Filter::Suffix(suffix);
    let pred = |t: Tree| selects(f, t);
    let other = Tree::File { name: renamed, size: s[i]->size };
    let changed = s.update(i, other);
    let k = crate::listing::lemma_filter_without(s, pred, i);
    let k2 = crate::listing::lemma_filter_without(changed, pred, i);
    assert(changed.remove(i) =~= s.remove(i));
    let m = selected(f, s);
    assert(selected(f, changed) =~= m.remove(k));
    assert(m[k] == entry_of(s[i]));
    let j = crate::listing::law_arrange_without(m, k);
    assert(m =~= m.remove(k).insert(k, m[k]));
    crate::listing::lemma_total_size_insert(m.remove(k), k, m[k]);
    j
}

/// The lines that a query selects are those that a wider query selects and
/// the narrower one admits, in the same order.
pub proof fn lemma_narrower_selected(f: Filter, g: Filter, s: Seq<Tree>, i: int)
    requires
        forall|e: Entry| admits(f, e) ==> admits(g, e),
        0 <= i <= s.len(),
    ensures
        selected(f, s.take(i)) == selected(g, s.take(i)).filter(|e: Entry| admits(f, e)),
    decreases i,
{
    let pred = |e: Entry| admits(f, e);
    if i == 0 {
        lemma_selected_size(f, s, 0);
        lemma_selected_size(g, s, 0);
        assert(selected(f, s.take(0)) =~= Seq::<Entry>::empty());
        assert(selected(g, s.take(0)) =~= Seq::<Entry>::empty());
        Seq::<Entry>::empty().lemma_filter_len(pred);
        assert(Seq::<Entry>::empty().filter(pred) =~= Seq::<Entry>::empty());
    } else {
        lemma_narrower_selected(f, g, s, i - 1);
        lemma_selected_step(f, s, i - 1);
        lemma_selected_step(g, s, i - 1);
        selected(g, s.take(i - 1)).lemma_filter_push(entry_of(s[i - 1]), pred);
    }
}

/// A query that admits no more than another lists a part of what the other
/// lists: exactly the lines that it admits, in the order they have there.
pub proof fn law_narrower_query_lists_part(f: Filter, g: Filter, s: Seq<Tree>)
    requires
        forall|e: Entry| admits(f, e) ==> admits(g, e),
    ensures
        answer(f, s).entries == answer(g, s).entries.filter(|e: Entry| admits(f, e)),
{
    lemma_narrower_selected(f, g, s, s.len() as int);
    assert(s.take(s.len() as int) =~= s);
    crate::listing::law_arrange_commutes_with_filter(selected(g, s), |e: Entry| admits(f, e));
}

/// The listing for a text is a part of the listing for any text that stands
/// in it: the lines whose name holds the longer text, in the same order.
pub proof fn law_longer_text_lists_part(long: Seq<char>, short: Seq<char>, s: Seq<Tree>)
    requires
        is_infix(long, short),
    ensures
        answer(Filter::Name(long), s).entries == answer(Filter::Name(short), s).entries.filter(
            |e: Entry| admits(Filter::Name(long), e),
        ),
{
    assert forall|e: Entry| admits(Filter::Name(long), e) implies admits(
        Filter::Name(short),
        e,
    ) by {
        crate::text::lemma_infix_transitive(e.name, long, short);
    }
    law_narrower_query_lists_part(Filter::Name(long), Filter::Name(short), s);
}

/// The listing for a suffix is a part of the listing for the same text as
/// a name: its files whose name ends with the text, in the same order.
pub proof fn law_suffix_listing_is_part_of_name_listing(text: Seq<char>, s: Seq<Tree>)
    ensures
        answer(Filter::Suffix(text), s).entries == answer(Filter::Name(text), s).entries.filter(
            |e: Entry| admits(Filter::Suffix(text), e),
        ),
{
    assert forall|e: Entry| admits(Filter::Suffix(text), e) implies admits(
        Filter::Name(text),
        e,
    ) by {
        crate::text::lemma_suffix_is_infix(e.name, text);
    }
    law_narrower_query_lists_part(Filter::Suffix(text), Filter::Name(text), s);
}

/// A name query lists exactly the files and directories whose name holds the
/// text, capitals and small letters kept apart.
pub proof fn law_name_lists_entries_that_hold_it(text: Seq<char>, s: Seq<Tree>, e: Entry)
    ensures
        answer(Filter::Name(text), s).entries.contains(e) <==> exists|i: int|
            0 <= i < s.len() && is_infix((#[trigger] s[i]).name(), text) && entry_of(s[i]) == e,
        answer(Filter::Name(text), s).entries.contains(e) ==> is_infix(e.name, text),
{
    law_answer_lists_selected(Filter::Name(text), s, e);
}

/// The size of `file` as shown to a reader.
pub fn get_file_info(file: &Node) -> (text: String)
    ensures
        text@ == spec_format_bytes(file@.weight()),
{
    format_bytes(file.weight())
}

/// The children of the entry at a path, where a path that leads nowhere has
/// none.
pub open spec fn root_entries(root: Option<Tree>) -> Seq<Tree> {
    match root {
        Some(tree) => tree.entries(),
        None => Seq::empty(),
    }
}

/// Tells whether the query lists `child`.
fn lists(mode: &QueryMode, child: &Node) -> (b: bool)
    ensures
        b == selects(mode@, child@),
{
    match mode {
        QueryMode::Summary => true,
        QueryMode::Suffix(suffix) => !child.is_dir() && ends_with(child.name(), suffix),
        QueryMode::Name(text) => contains(child.name(), text),
    }
}

/// Answers a query on the directory `dir`: the immediate children that the
/// query lists, each with its size, directories first and each block in
/// order of name, with their number and the sum of their sizes.
pub fn list(dir: &Node, mode: &QueryMode) -> (found: QueryResult)
    ensures
        found@ == answer(mode@, dir@.entries()),
{
    let children = dir.children();
    let ghost kids = trees(children@);
    let ghost f = mode@;
    let mut dirs: Vec<DirectoryEntry> = Vec::new();
    let mut plain: Vec<DirectoryEntry> = Vec::new();
    let mut count: u64 = 0;
    let mut total: u64 = 0;
    let mut i: usize = 0;
    proof {
        lemma_selected_size(f, kids, 0);
        assert(selected(f, kids.take(0)) =~= Seq::<Entry>::empty());
        crate::listing::lemma_arrange_empty();
        Seq::<Entry>::empty().lemma_filter_len(|e: Entry| e.is_directory);
        Seq::<Entry>::empty().lemma_filter_len(|e: Entry| !e.is_directory);
        assert(lines(dirs@) =~= directories(selected(f, kids.take(0))));
        assert(lines(plain@) =~= files(selected(f, kids.take(0))));
        assert(dir@.entries() == kids);
        assert(totals_of(kids).bytes <= u64::MAX) by {
            match dir@ {
                Tree::File { .. } => {},
                Tree::Directory { .. } => {},
            }
        }
    }
    while i < children.len()
        invariant
            i <= children@.len(),
            kids == trees(children@),
            f == mode@,
            totals_of(kids).bytes <= u64::MAX,
            lines(dirs@) == directories(selected(f, kids.take(i as int))),
            lines(plain@) == files(selected(f, kids.take(i as int))),
            count == selected(f, kids.take(i as int)).len(),
            total == total_size(selected(f, kids.take(i as int))),
        decreases children@.len() - i,
    {
        let child = &children[i];
        proof {
            lemma_selected_step(f, kids, i as int);
            lemma_selected_size(f, kids, i + 1);
            lemma_totals_of_prefix(kids, i + 1);
        }
        if lists(mode, child) {
            let ghost before = selected(f, kids.take(i as int));
            let size: u64 = child.weight();
            let entry = DirectoryEntry {
                name: child.name().to_owned(),
                is_directory: child.is_dir(),
                size_bytes: size,
            };
            proof {
                assert(entry@ == entry_of(kids[i as int]));
                assert(before.push(entry@).drop_last() =~= before);
                crate::listing::lemma_blocks_push(before, entry@);
                assert(lines(dirs@.push(entry)) =~= lines(dirs@).push(entry@));
                assert(lines(plain@.push(entry)) =~= lines(plain@).push(entry@));
            }
            total = total + size;
            count = count + 1;
            if entry.is_directory {
                dirs.push(entry);
            } else {
                plain.push(entry);
            }
        }
        i += 1;
    }
    proof {
        assert(kids.take(i as int) =~= kids);
    }
    QueryResult {
        entries: arrange_entries(dirs, plain),
        matched_count: count,
        total_bytes_matched: total,
    }
}

/// The whole of `root`: the totals of everything under it, and the listing
/// of its immediate children. A root that does not exist is reported as an
/// empty directory.
pub fn summarize(root: Option<&Node>) -> (out: (DirectoryAggregate, QueryResult))
    ensures
        out.0@ == under_root(root_tree(root)),
        out.1@ == answer(Filter::All, root_entries(root_tree(root))),
{
    match root {
        Some(node) => (node.aggregate(), list(node, &QueryMode::Summary)),
        None => {
            proof {
                let none = Seq::<Tree>::empty();
                assert(none.take(0) =~= none);
                lemma_selected_size(Filter::All, none, 0);
                assert(selected(Filter::All, none) =~= Seq::<Entry>::empty());
                crate::listing::lemma_arrange_empty();
            }
            let nothing = QueryResult {
                entries: Vec::new(),
                matched_count: 0,
                total_bytes_matched: 0,
            };
            assert(lines(nothing.entries@) =~= Seq::<Entry>::empty());
            (DirectoryAggregate::zero(), nothing)
        },
    }
}

/// What a filter query gives on `root`: an error where there is no directory
/// to list, else the answer on its children.
pub open spec fn filtered(f: Filter, root: Option<Tree>) -> Result<Answer, QueryError> {
    match root {
        None => Err(QueryError::NotFound),
        Some(tree) => if tree.is_dir() {
            Ok(answer(f, tree.entries()))
        } else {
            Err(QueryError::NotADirectory)
        },
    }
}

/// What came of a filter query, seen as plain values.
pub open spec fn outcome(r: Result<QueryResult, QueryError>) -> Result<Answer, QueryError> {
    match r {
        Ok(found) => Ok(found@),
        Err(e) => Err(e),
    }
}

/// Answers a filter query on `root`, or says why there is no directory to
/// list.
fn filter(root: Option<&Node>, mode: &QueryMode) -> (r: Result<QueryResult, QueryError>)
    ensures
        outcome(r) == filtered(mode@, root_tree(root)),
{
    match root {
        None => Err(QueryError::NotFound),
        Some(node) => {
            if node.is_dir() {
                Ok(list(node, mode))
            } else {
                Err(QueryError::NotADirectory)
            }
        },
    }
}

/// Lists the files immediately in `root` whose name ends with `suffix`,
/// taken letter for letter. Directories are never listed.
pub fn filter_by_suffix(root: Option<&Node>, suffix: &str) -> (r: Result<QueryResult, QueryError>)
    ensures
        outcome(r) == filtered(Filter::Suffix(suffix@), root_tree(root)),
{
    filter(root, &QueryMode::Suffix(suffix))
}

/// Lists the files and directories immediately in `root` whose name holds
/// `text` anywhere, capitals and small letters kept apart.
pub fn filter_by_name(root: Option<&Node>, text: &str) -> (r: Result<QueryResult, QueryError>)
    ensures
        outcome(r) == filtered(Filter::Name(text@), root_tree(root)),
{
    filter(root, &QueryMode::Name(text))
}

} // verus!
