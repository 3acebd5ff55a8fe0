//! The order of a listing: directories first, then files, each block by name.

use crate::text::{
    lemma_name_le_reflexive, lemma_name_le_total, lemma_name_le_transitive, name_le, name_le_exec,
};
use vstd::prelude::*;
use vstd::string::*;

verus! {

/// One line of a listing: an immediate child with the size shown beside it.
pub struct Entry {
    pub name: Seq<char>,
    pub is_directory: bool,
    pub size_bytes: nat,
}

/// One line of a listing, in machine values.
#[derive(Clone, Debug, PartialEq, Eq)]
pub struct DirectoryEntry {
    /// The child's own name.
    pub name: String,
    /// Whether the child is a directory.
    pub is_directory: bool,
    /// A file's length; for a directory, the sum of all files under it.
    pub size_bytes: u64,
}

impl View for DirectoryEntry {
    type V = Entry;

    open spec fn view(&self) -> Entry {
        Entry {
            name: self.name@,
            is_directory: self.is_directory,
            size_bytes: self.size_bytes as nat,
        }
    }
}

/// The lines that a run of entries stands for.
pub open spec fn lines(v: Seq<DirectoryEntry>) -> Seq<Entry> {
    Seq::new(v.len(), |i: int| v[i]@)
}

/// `s` with `e` put before the first entry whose name is not before `e`'s.
pub open spec fn place(e: Entry, s: Seq<Entry>) -> Seq<Entry>
    decreases s.len(),
{
    if s.len() == 0 || name_le(e.name, s[0].name) {
        seq![e] + s
    } else {
        seq![s[0]] + place(e, s.drop_first())
    }
}

/// The entries of `s` in ascending order of name. Entries of one name keep
/// the order they had.
pub open spec fn sort_by_name(s: Seq<Entry>) -> Seq<Entry>
    decreases s.len(),
{
    if s.len() == 0 {
        Seq::empty()
    } else {
        place(s[0], sort_by_name(s.drop_first()))
    }
}

/// The directories among `s`, in the order they have there.
pub open spec fn directories(s: Seq<Entry>) -> Seq<Entry> {
    s.filter(|e: Entry| e.is_directory)
}

/// The files among `s`, in the order they have there.
pub open spec fn files(s: Seq<Entry>) -> Seq<Entry> {
    s.filter(|e: Entry| !e.is_directory)
}

/// The listing of `s`: the block of directories, then the block of files,
/// each in ascending order of name.
pub open spec fn arrange(s: Seq<Entry>) -> Seq<Entry> {
    sort_by_name(directories(s)) + sort_by_name(files(s))
}

/// The sizes of a run of lines, added up.
pub open spec fn total_size(s: Seq<Entry>) -> nat
    decreases s.len(),
{
    if s.len() == 0 {
        0
    } else {
        total_size(s.drop_last()) + s.last().size_bytes
    }
}

/// The names of `s` never go down from one entry to a later one.
pub open spec fn ordered(s: Seq<Entry>) -> bool {
    forall|i: int, j: int| 0 <= i < j < s.len() ==> name_le(#[trigger] s[i].name, #[trigger] s[j].name)
}

/// Where `place` puts an entry: before position `p`, when every earlier
/// name is before `e`'s and the name at `p` is not.
pub proof fn lemma_place_at(e: Entry, s: Seq<Entry>, p: int)
    requires
        0 <= p <= s.len(),
        forall|j: int| 0 <= j < p ==> !name_le(e.name, #[trigger] s[j].name),
        p < s.len() ==> name_le(e.name, s[p].name),
    ensures
        place(e, s) == s.insert(p, e),
    decreases p,
{
    if p == 0 {
        assert(seq![e] + s =~= s.insert(0, e));
    } else {
        let rest = s.drop_first();
        assert forall|j: int| 0 <= j < p - 1 implies !name_le(e.name, #[trigger] rest[j].name) by {
            assert(rest[j] == s[j + 1]);
        }
        lemma_place_at(e, rest, p - 1);
        assert(seq![s[0]] + rest.insert(p - 1, e) =~= s.insert(p, e));
    }
}

/// The position at which `place` puts an entry.
pub open spec fn slot(e: Entry, s: Seq<Entry>) -> int
    decreases s.len(),
{
    if s.len() == 0 || name_le(e.name, s[0].name) {
        0
    } else {
        1 + slot(e, s.drop_first())
    }
}

/// `place` inserts at `slot`, which lies after all names before `e`'s and
/// at the first that is not.
pub proof fn lemma_slot(e: Entry, s: Seq<Entry>)
    ensures
        0 <= slot(e, s) <= s.len(),
        forall|j: int| 0 <= j < slot(e, s) ==> !name_le(e.name, #[trigger] s[j].name),
        slot(e, s) < s.len() ==> name_le(e.name, s[slot(e, s)].name),
        place(e, s) == s.insert(slot(e, s), e),
    decreases s.len(),
{
    if s.len() == 0 || name_le(e.name, s[0].name) {
    } else {
        let rest = s.drop_first();
        lemma_slot(e, rest);
        assert forall|j: int| 0 <= j < slot(e, s) implies !name_le(e.name, #[trigger] s[j].name) by {
            if j > 0 {
                assert(s[j] == rest[j - 1]);
            }
        }
    }
    lemma_place_at(e, s, slot(e, s));
}

/// Putting an entry into an ordered run leaves it ordered.
pub proof fn lemma_place_ordered(e: Entry, s: Seq<Entry>)
    requires
        ordered(s),
    ensures
        ordered(place(e, s)),
{
    lemma_slot(e, s);
    let p = slot(e, s);
    let out = s.insert(p, e);
    assert forall|i: int, j: int| 0 <= i < j < out.len() implies name_le(
        #[trigger] out[i].name,
        #[trigger] out[j].name,
    ) by {
        if j < p {
            assert(out[i] == s[i] && out[j] == s[j]);
        } else if j == p {
            assert(out[i] == s[i]);
            lemma_name_le_total(e.name, s[i].name);
        } else if i < p {
            assert(out[i] == s[i] && out[j] == s[j - 1]);
        } else if i == p {
            assert(out[j] == s[j - 1]);
            if j - 1 > p {
                lemma_name_le_transitive(e.name, s[p].name, s[j - 1].name);
            }
        } else {
            assert(out[i] == s[i - 1] && out[j] == s[j - 1]);
        }
    }
}

/// A sorted run is in ascending order of name.
pub proof fn law_sort_is_ordered(s: Seq<Entry>)
    ensures
        ordered(sort_by_name(s)),
    decreases s.len(),
{
    if s.len() > 0 {
        law_sort_is_ordered(s.drop_first());
        lemma_place_ordered(s[0], sort_by_name(s.drop_first()));
    }
}

/// Sorting neither adds nor drops an entry: each entry stands in the sorted
/// run as often as in the run it came from.
pub proof fn law_sort_keeps_entries(s: Seq<Entry>)
    ensures
        sort_by_name(s).to_multiset() == s.to_multiset(),
        sort_by_name(s).len() == s.len(),
    decreases s.len(),
{
    broadcast use vstd::seq_lib::group_to_multiset_ensures;

    if s.len() == 0 {
        assert(sort_by_name(s) =~= s);
    } else {
        let rest = s.drop_first();
        let sorted = sort_by_name(rest);
        law_sort_keeps_entries(rest);
        lemma_slot(s[0], sorted);
        vstd::seq_lib::to_multiset_insert(sorted, slot(s[0], sorted), s[0]);
        assert(s =~= rest.insert(0, s[0]));
        vstd::seq_lib::to_multiset_insert(rest, 0, s[0]);
    }
}

/// The sizes of two runs joined add up to the sum of both.
pub proof fn lemma_total_size_add(a: Seq<Entry>, b: Seq<Entry>)
    ensures
        total_size(a + b) == total_size(a) + total_size(b),
    decreases b.len(),
{
    if b.len() == 0 {
        assert(a + b =~= a);
    } else {
        lemma_total_size_add(a, b.drop_last());
        assert((a + b).drop_last() =~= a + b.drop_last());
    }
}

/// An entry put into a run adds its size to the sum, wherever it goes.
pub proof fn lemma_total_size_insert(s: Seq<Entry>, p: int, e: Entry)
    requires
        0 <= p <= s.len(),
    ensures
        total_size(s.insert(p, e)) == total_size(s) + e.size_bytes,
{
    let front = s.take(p);
    let back = s.skip(p);
    let one = seq![e];
    assert(s =~= front + back);
    assert(s.insert(p, e) =~= front + one + back);
    lemma_total_size_add(front, back);
    lemma_total_size_add(front, one);
    lemma_total_size_add(front + one, back);
    assert(one.drop_last() =~= Seq::<Entry>::empty());
    assert(total_size(Seq::<Entry>::empty()) == 0);
    assert(total_size(one) == e.size_bytes);
}

/// Sorting leaves the sum of the sizes as it was.
pub proof fn law_sort_keeps_total(s: Seq<Entry>)
    ensures
        total_size(sort_by_name(s)) == total_size(s),
    decreases s.len(),
{
    if s.len() == 0 {
        assert(sort_by_name(s) =~= s);
    } else {
        let rest = s.drop_first();
        let sorted = sort_by_name(rest);
        law_sort_keeps_total(rest);
        lemma_slot(s[0], sorted);
        lemma_total_size_insert(sorted, slot(s[0], sorted), s[0]);
        assert(s =~= rest.insert(0, s[0]));
        lemma_total_size_insert(rest, 0, s[0]);
    }
}

/// The entries of `s` that bear the name `name`, in the order they have there.
pub open spec fn named(s: Seq<Entry>, name: Seq<char>) -> Seq<Entry> {
    s.filter(|e: Entry| e.name == name)
}

/// Sorting keeps entries of one name in the order they had.
pub proof fn law_sort_is_stable(s: Seq<Entry>, name: Seq<char>)
    ensures
        named(sort_by_name(s), name) == named(s, name),
    decreases s.len(),
{
    let pred = |e: Entry| e.name == name;
    if s.len() == 0 {
        assert(sort_by_name(s) =~= s);
    } else {
        let e = s[0];
        let rest = s.drop_first();
        let sorted = sort_by_name(rest);
        law_sort_is_stable(rest, name);
        lemma_slot(e, sorted);
        let p = slot(e, sorted);
        let front = sorted.take(p);
        let back = sorted.skip(p);
        let one = seq![e];
        assert(sorted =~= front + back);
        assert(sorted.insert(p, e) =~= front + one + back);
        assert(s =~= one + rest);
        Seq::filter_distributes_over_add(front, back, pred);
        Seq::filter_distributes_over_add(front, one, pred);
        Seq::filter_distributes_over_add(front + one, back, pred);
        Seq::filter_distributes_over_add(one, rest, pred);
        assert(one =~= Seq::<Entry>::empty().push(e));
        Seq::<Entry>::empty().lemma_filter_push(e, pred);
        Seq::<Entry>::empty().lemma_filter_len(pred);
        if e.name == name {
            assert forall|j: int| 0 <= j < front.len() implies !pred(#[trigger] front[j]) by {
                assert(front[j] == sorted[j]);
                lemma_name_le_reflexive(e.name);
            }
            assert(front.all(|x: Entry| !pred(x)));
            front.lemma_all_neg_filter_empty(pred);
            assert(front.filter(pred) =~= Seq::<Entry>::empty());
            assert(front.filter(pred) + one.filter(pred) + back.filter(pred) =~= one.filter(pred)
                + (front.filter(pred) + back.filter(pred)));
        } else {
            assert(one.filter(pred) =~= Seq::<Entry>::empty());
            assert(front.filter(pred) + one.filter(pred) + back.filter(pred) =~= one.filter(pred)
                + (front.filter(pred) + back.filter(pred)));
        }
    }
}

/// What a filter keeps of a run with one element taken out: the same as of
/// the whole run where the element is not kept, and that without the
/// element's place where it is.
pub proof fn lemma_filter_without<A>(s: Seq<A>, pred: spec_fn(A) -> bool, i: int) -> (k: int)
    requires
        0 <= i < s.len(),
    ensures
        k == s.take(i).filter(pred).len(),
        pred(s[i]) ==> 0 <= k < s.filter(pred).len() && s.filter(pred)[k] == s[i] && s.remove(
            i,
        ).filter(pred) == s.filter(pred).remove(k),
        !pred(s[i]) ==> s.remove(i).filter(pred) == s.filter(pred),
{
    let front = s.take(i);
    let back = s.skip(i + 1);
    let one = seq![s[i]];
    let k = front.filter(pred).len() as int;
    assert(s =~= front + one + back);
    assert(s.remove(i) =~= front + back);
    Seq::filter_distributes_over_add(front, one, pred);
    Seq::filter_distributes_over_add(front + one, back, pred);
    Seq::filter_distributes_over_add(front, back, pred);
    assert(one =~= Seq::<A>::empty().push(s[i]));
    Seq::<A>::empty().lemma_filter_push(s[i], pred);
    Seq::<A>::empty().lemma_filter_len(pred);
    if pred(s[i]) {
        assert(one.filter(pred) =~= one);
        assert((front.filter(pred) + one + back.filter(pred)).remove(k) =~= front.filter(pred)
            + back.filter(pred));
    } else {
        assert(one.filter(pred) =~= Seq::<A>::empty());
        assert(front.filter(pred) + one.filter(pred) + back.filter(pred) =~= front.filter(pred)
            + back.filter(pred));
    }
    k
}

/// Putting an entry into an ordered run from which one entry was taken gives
/// what taking that entry gives after the putting.
pub proof fn lemma_place_without(e: Entry, t: Seq<Entry>, i: int) -> (j: int)
    requires
        ordered(t),
        0 <= i < t.len(),
    ensures
        0 <= j < place(e, t).len(),
        place(e, t)[j] == t[i],
        place(e, t.remove(i)) == place(e, t).remove(j),
{
    lemma_slot(e, t);
    let p = slot(e, t);
    let less = t.remove(i);
    let q = if i < p {
        p - 1
    } else {
        p
    };
    let j = if i < p {
        i
    } else {
        i + 1
    };
    assert forall|x: int| 0 <= x < q implies !name_le(e.name, #[trigger] less[x].name) by {
        if x < i {
            assert(less[x] == t[x]);
        } else {
            assert(less[x] == t[x + 1]);
        }
    }
    if q < less.len() {
        if i < p {
            assert(less[q] == t[p]);
        } else if i == p {
            assert(less[q] == t[p + 1]);
            lemma_name_le_transitive(e.name, t[p].name, t[p + 1].name);
        } else {
            assert(less[q] == t[p]);
        }
    }
    lemma_place_at(e, less, q);
    assert(t.insert(p, e).remove(j) =~= less.insert(q, e));
    j
}

/// Sorting a run from which one entry was taken gives the sorted run with
/// that entry's line taken out, and all others where they were.
pub proof fn law_sort_without(s: Seq<Entry>, i: int) -> (j: int)
    requires
        0 <= i < s.len(),
    ensures
        0 <= j < sort_by_name(s).len(),
        sort_by_name(s)[j] == s[i],
        sort_by_name(s.remove(i)) == sort_by_name(s).remove(j),
    decreases s.len(),
{
    let rest = s.drop_first();
    let sorted = sort_by_name(rest);
    lemma_slot(s[0], sorted);
    law_sort_keeps_entries(rest);
    if i == 0 {
        let p = slot(s[0], sorted);
        assert(s.remove(0) =~= rest);
        assert(sorted.insert(p, s[0]).remove(p) =~= sorted);
        p
    } else {
        let k = law_sort_without(rest, i - 1);
        law_sort_is_ordered(rest);
        let j = lemma_place_without(s[0], sorted, k);
        let less = s.remove(i);
        assert(less.len() > 0);
        assert(less[0] == s[0]);
        assert(less.drop_first() =~= rest.remove(i - 1));
        j
    }
}

/// The listing of a run from which one entry was taken is the listing of
/// the run with that entry's line taken out, and all others where they were.
pub proof fn law_arrange_without(s: Seq<Entry>, i: int) -> (j: int)
    requires
        0 <= i < s.len(),
    ensures
        0 <= j < arrange(s).len(),
        arrange(s)[j] == s[i],
        arrange(s.remove(i)) == arrange(s).remove(j),
{
    let d = directories(s);
    let f = files(s);
    law_sort_keeps_entries(d);
    law_sort_keeps_entries(f);
    let kd = lemma_filter_without(s, |e: Entry| e.is_directory, i);
    let kf = lemma_filter_without(s, |e: Entry| !e.is_directory, i);
    if s[i].is_directory {
        let j = law_sort_without(d, kd);
        assert((sort_by_name(d) + sort_by_name(f)).remove(j) =~= sort_by_name(d).remove(j)
            + sort_by_name(f));
        j
    } else {
        let j = law_sort_without(f, kf);
        let shift = sort_by_name(d).len() as int;
        assert((sort_by_name(d) + sort_by_name(f)).remove(shift + j) =~= sort_by_name(d)
            + sort_by_name(f).remove(j));
        shift + j
    }
}

/// Where every element passes, a filter keeps the whole run.
pub proof fn lemma_filter_all<A>(s: Seq<A>, pred: spec_fn(A) -> bool)
    requires
        forall|i: int| 0 <= i < s.len() ==> pred(#[trigger] s[i]),
    ensures
        s.filter(pred) == s,
    decreases s.len(),
{
    if s.len() == 0 {
        s.lemma_filter_len(pred);
        assert(s.filter(pred) =~= s);
    } else {
        let front = s.drop_last();
        lemma_filter_all(front, pred);
        front.lemma_filter_push(s.last(), pred);
        assert(front.push(s.last()) =~= s);
    }
}

/// Two filters may be applied in either order.
pub proof fn lemma_filters_commute<A>(s: Seq<A>, p: spec_fn(A) -> bool, q: spec_fn(A) -> bool)
    ensures
        s.filter(p).filter(q) == s.filter(q).filter(p),
    decreases s.len(),
{
    if s.len() == 0 {
        s.lemma_filter_len(p);
        s.lemma_filter_len(q);
        assert(s.filter(p) =~= s);
        assert(s.filter(q) =~= s);
    } else {
        let front = s.drop_last();
        let last = s.last();
        lemma_filters_commute(front, p, q);
        front.lemma_filter_push(last, p);
        front.lemma_filter_push(last, q);
        front.filter(p).lemma_filter_push(last, q);
        front.filter(q).lemma_filter_push(last, p);
        assert(front.push(last) =~= s);
    }
}

/// Sorting and filtering may be done in either order.
pub proof fn law_sort_commutes_with_filter(s: Seq<Entry>, pred: spec_fn(Entry) -> bool)
    ensures
        sort_by_name(s.filter(pred)) == sort_by_name(s).filter(pred),
    decreases s.len(),
{
    let sorted = sort_by_name(s);
    if exists|i: int| 0 <= i < s.len() && !pred(#[trigger] s[i]) {
        let i = choose|i: int| 0 <= i < s.len() && !pred(#[trigger] s[i]);
        let j = law_sort_without(s, i);
        let k = lemma_filter_without(s, pred, i);
        let l = lemma_filter_without(sorted, pred, j);
        law_sort_commutes_with_filter(s.remove(i), pred);
    } else {
        lemma_filter_all(s, pred);
        law_sort_keeps_entries(s);
        assert forall|x: int| 0 <= x < sorted.len() implies pred(#[trigger] sorted[x]) by {
            vstd::seq_lib::to_multiset_contains(sorted, sorted[x]);
            vstd::seq_lib::to_multiset_contains(s, sorted[x]);
            assert(sorted.contains(sorted[x]));
            let y = choose|y: int| 0 <= y < s.len() && s[y] == sorted[x];
            assert(pred(s[y]));
        }
        lemma_filter_all(sorted, pred);
    }
}

/// Listing and filtering may be done in either order: the listing of what a
/// filter keeps is what the filter keeps of the listing.
pub proof fn law_arrange_commutes_with_filter(s: Seq<Entry>, pred: spec_fn(Entry) -> bool)
    ensures
        arrange(s.filter(pred)) == arrange(s).filter(pred),
{
    lemma_filters_commute(s, pred, |e: Entry| e.is_directory);
    lemma_filters_commute(s, pred, |e: Entry| !e.is_directory);
    law_sort_commutes_with_filter(directories(s), pred);
    law_sort_commutes_with_filter(files(s), pred);
    Seq::filter_distributes_over_add(sort_by_name(directories(s)), sort_by_name(files(s)), pred);
}

/// A further entry joins the block of its kind and leaves the other as it was.
pub proof fn lemma_blocks_push(s: Seq<Entry>, e: Entry)
    ensures
        directories(s.push(e)) == if e.is_directory {
            directories(s).push(e)
        } else {
            directories(s)
        },
        files(s.push(e)) == if e.is_directory {
            files(s)
        } else {
            files(s).push(e)
        },
{
    s.lemma_filter_push(e, |e: Entry| e.is_directory);
    s.lemma_filter_push(e, |e: Entry| !e.is_directory);
}

/// Nothing is listed where there is nothing to list.
pub proof fn lemma_arrange_empty()
    ensures
        arrange(Seq::<Entry>::empty()) == Seq::<Entry>::empty(),
{
    let none = Seq::<Entry>::empty();
    none.lemma_filter_len(|e: Entry| e.is_directory);
    none.lemma_filter_len(|e: Entry| !e.is_directory);
    assert(directories(none) =~= none);
    assert(files(none) =~= none);
    assert(arrange(none) =~= none);
}

/// Every entry is in exactly one of the two blocks.
pub proof fn lemma_blocks_cover(s: Seq<Entry>)
    ensures
        directories(s).to_multiset().add(files(s).to_multiset()) == s.to_multiset(),
        directories(s).len() + files(s).len() == s.len(),
        forall|i: int| 0 <= i < directories(s).len() ==> (#[trigger] directories(s)[i]).is_directory,
        forall|i: int| 0 <= i < files(s).len() ==> !(#[trigger] files(s)[i]).is_directory,
    decreases s.len(),
{
    broadcast use {vstd::seq_lib::group_to_multiset_ensures, vstd::seq_lib::group_filter_ensures};

    if s.len() == 0 {
        assert(directories(s) =~= s);
        assert(files(s) =~= s);
        assert(s.to_multiset().add(s.to_multiset()) =~= s.to_multiset());
    } else {
        let front = s.drop_last();
        lemma_blocks_cover(front);
        lemma_blocks_push(front, s.last());
        assert(front.push(s.last()) =~= s);
        if s.last().is_directory {
            assert(directories(front).to_multiset().insert(s.last()).add(
                files(front).to_multiset(),
            ) =~= front.to_multiset().insert(s.last()));
        } else {
            assert(directories(front).to_multiset().add(
                files(front).to_multiset().insert(s.last()),
            ) =~= front.to_multiset().insert(s.last()));
        }
    }
}

/// The sizes of the two blocks add up to the sum over the whole run.
pub proof fn lemma_blocks_total(s: Seq<Entry>)
    ensures
        total_size(directories(s)) + total_size(files(s)) == total_size(s),
    decreases s.len(),
{
    if s.len() == 0 {
        lemma_arrange_empty();
        s.lemma_filter_len(|e: Entry| e.is_directory);
        s.lemma_filter_len(|e: Entry| !e.is_directory);
    } else {
        let front = s.drop_last();
        let last = s.last();
        lemma_blocks_total(front);
        lemma_blocks_push(front, last);
        assert(front.push(last) =~= s);
        assert(directories(front).push(last).drop_last() =~= directories(front));
        assert(files(front).push(last).drop_last() =~= files(front));
    }
}

/// A listing's sizes add up to the sum over the run it was made from.
pub proof fn law_arrange_keeps_total(s: Seq<Entry>)
    ensures
        total_size(arrange(s)) == total_size(s),
{
    lemma_blocks_total(s);
    law_sort_keeps_total(directories(s));
    law_sort_keeps_total(files(s));
    lemma_total_size_add(sort_by_name(directories(s)), sort_by_name(files(s)));
}

/// A listing holds each entry as often as the run it was made from, and no
/// other.
pub proof fn law_arrange_keeps_entries(s: Seq<Entry>)
    ensures
        arrange(s).to_multiset() == s.to_multiset(),
        arrange(s).len() == s.len(),
        forall|e: Entry| arrange(s).contains(e) <==> s.contains(e),
{
    broadcast use vstd::seq_lib::group_to_multiset_ensures;

    lemma_blocks_cover(s);
    law_sort_keeps_entries(directories(s));
    law_sort_keeps_entries(files(s));
    vstd::seq_lib::lemma_multiset_commutative(
        sort_by_name(directories(s)),
        sort_by_name(files(s)),
    );
    assert forall|e: Entry| arrange(s).contains(e) <==> s.contains(e) by {
        vstd::seq_lib::to_multiset_contains(arrange(s), e);
        vstd::seq_lib::to_multiset_contains(s, e);
    }
}

/// In a listing every directory stands before every file, and within the
/// directories, as within the files, the names never go down.
pub proof fn law_arrange_blocks(s: Seq<Entry>)
    ensures
        forall|i: int|
            0 <= i < arrange(s).len() ==> ((#[trigger] arrange(s)[i]).is_directory <==> i
                < directories(s).len()),
        forall|i: int, j: int|
            0 <= i < j < arrange(s).len() && arrange(s)[i].is_directory == arrange(
                s,
            )[j].is_directory ==> name_le(
                (#[trigger] arrange(s)[i]).name,
                (#[trigger] arrange(s)[j]).name,
            ),
{
    let d = sort_by_name(directories(s));
    let f = sort_by_name(files(s));
    let a = arrange(s);
    lemma_blocks_cover(s);
    law_sort_keeps_entries(directories(s));
    law_sort_keeps_entries(files(s));
    law_sort_is_ordered(directories(s));
    law_sort_is_ordered(files(s));
    assert forall|i: int| 0 <= i < d.len() implies (#[trigger] d[i]).is_directory by {
        vstd::seq_lib::to_multiset_contains(d, d[i]);
        vstd::seq_lib::to_multiset_contains(directories(s), d[i]);
        assert(d.contains(d[i]));
        let k = choose|k: int| 0 <= k < directories(s).len() && directories(s)[k] == d[i];
        assert(directories(s)[k].is_directory);
    }
    assert forall|i: int| 0 <= i < f.len() implies !(#[trigger] f[i]).is_directory by {
        vstd::seq_lib::to_multiset_contains(f, f[i]);
        vstd::seq_lib::to_multiset_contains(files(s), f[i]);
        assert(f.contains(f[i]));
        let k = choose|k: int| 0 <= k < files(s).len() && files(s)[k] == f[i];
        assert(!files(s)[k].is_directory);
    }
    assert forall|i: int| 0 <= i < a.len() implies ((#[trigger] a[i]).is_directory <==> i
        < directories(s).len()) by {
        if i < d.len() {
            assert(a[i] == d[i]);
        } else {
            assert(a[i] == f[i - d.len()]);
        }
    }
    assert forall|i: int, j: int|
        0 <= i < j < a.len() && a[i].is_directory == a[j].is_directory implies name_le(
        (#[trigger] a[i]).name,
        (#[trigger] a[j]).name,
    ) by {
        if j < d.len() {
            assert(a[i] == d[i] && a[j] == d[j]);
        } else {
            assert(a[j] == f[j - d.len()]);
            assert(a[i] == f[i - d.len()]);
        }
    }
}

/// Finds where an entry goes in a sorted run: after all names before its
/// own, at the first that is not.
fn find_slot(sorted: &Vec<DirectoryEntry>, e: &DirectoryEntry) -> (p: usize)
    ensures
        p <= sorted@.len(),
        forall|j: int| 0 <= j < p ==> !name_le(e@.name, #[trigger] lines(sorted@)[j].name),
        p < sorted@.len() ==> name_le(e@.name, lines(sorted@)[p as int].name),
{
    let mut p: usize = 0;
    while p < sorted.len()
        invariant
            p <= sorted@.len(),
            forall|j: int| 0 <= j < p ==> !name_le(e@.name, #[trigger] lines(sorted@)[j].name),
        decreases sorted@.len() - p,
    {
        if name_le_exec(e.name.as_str(), sorted[p].name.as_str()) {
            return p;
        }
        p += 1;
    }
    p
}

/// Sorts entries in ascending order of name. Entries of one name keep the
/// order they had.
pub fn sort_entries(v: Vec<DirectoryEntry>) -> (out: Vec<DirectoryEntry>)
    ensures
        lines(out@) == sort_by_name(lines(v@)),
{
    let ghost orig = lines(v@);
    let mut rest = v;
    let mut out: Vec<DirectoryEntry> = Vec::new();
    proof {
        assert(lines(rest@) =~= orig.take(rest@.len() as int));
        assert(lines(out@) =~= sort_by_name(orig.skip(rest@.len() as int)));
    }
    while rest.len() > 0
        invariant
            rest@.len() <= orig.len(),
            lines(rest@) == orig.take(rest@.len() as int),
            lines(out@) == sort_by_name(orig.skip(rest@.len() as int)),
        decreases rest@.len(),
    {
        let ghost before = rest@;
        let ghost sorted = lines(out@);
        let e = rest.pop().unwrap();
        let p: usize = find_slot(&out, &e);
        proof {
            let n = rest@.len() as int;
            assert(lines(before)[n] == e@);
            assert(orig.take(n + 1)[n] == orig[n]);
            assert(orig.skip(n)[0] == e@);
            assert(orig.skip(n).drop_first() =~= orig.skip(n + 1));
            assert(lines(rest@) =~= orig.take(n));
            lemma_place_at(e@, sorted, p as int);
            assert(lines(out@.insert(p as int, e)) =~= sorted.insert(p as int, e@));
        }
        out.insert(p, e);
    }
    proof {
        assert(orig.skip(0) =~= orig);
    }
    out
}

/// Joins the two blocks of a listing: the directories in order of name, then
/// the files in order of name.
pub fn arrange_entries(dirs: Vec<DirectoryEntry>, files: Vec<DirectoryEntry>) -> (out: Vec<
    DirectoryEntry,
>)
    ensures
        lines(out@) == sort_by_name(lines(dirs@)) + sort_by_name(lines(files@)),
{
    let mut out = sort_entries(dirs);
    let mut tail = sort_entries(files);
    let ghost head = out@;
    let ghost rest = tail@;
    out.append(&mut tail);
    proof {
        assert(lines(head + rest) =~= lines(head) + lines(rest));
    }
    out
}

} // verus!
