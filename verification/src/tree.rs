//! A directory tree held as plain values, and the totals of what lies under a
//! directory.

use vstd::prelude::*;
use vstd::string::*;

verus! {

/// One entry of a filesystem together with everything under it.
pub enum Tree {
    /// A regular file of `size` bytes.
    File { name: Seq<char>, size: nat },
    /// A directory and its immediate children, in the order they were read.
    Directory { name: Seq<char>, entries: Seq<Tree> },
}

/// Byte and entry totals, without bound.
pub struct Totals {
    pub bytes: nat,
    pub files: nat,
    pub dirs: nat,
}

impl Totals {
    /// Nothing counted.
    pub open spec fn zero() -> Totals {
        Totals { bytes: 0, files: 0, dirs: 0 }
    }

    /// The sum, field by field.
    pub open spec fn plus(self, other: Totals) -> Totals {
        Totals {
            bytes: self.bytes + other.bytes,
            files: self.files + other.files,
            dirs: self.dirs + other.dirs,
        }
    }

    /// Every field of `self` is at most that of `other`.
    pub open spec fn le(self, other: Totals) -> bool {
        self.bytes <= other.bytes && self.files <= other.files && self.dirs <= other.dirs
    }

    /// Files and directories together.
    pub open spec fn items(self) -> nat {
        self.files + self.dirs
    }
}

impl Tree {
    /// The entry's own name.
    pub open spec fn name(self) -> Seq<char> {
        match self {
            Tree::File { name, .. } => name,
            Tree::Directory { name, .. } => name,
        }
    }

    /// Whether the entry is a directory.
    pub open spec fn is_dir(self) -> bool {
        self is Directory
    }

    /// The immediate children; a file has none.
    pub open spec fn entries(self) -> Seq<Tree> {
        match self {
            Tree::File { .. } => Seq::empty(),
            Tree::Directory { entries, .. } => entries,
        }
    }

    /// The totals of everything under the entry, at any depth, the entry
    /// itself left out. Nothing lies under a file.
    pub open spec fn under(self) -> Totals
        decreases self, 0nat,
    {
        match self {
            Tree::File { .. } => Totals::zero(),
            Tree::Directory { entries, .. } => totals_of(entries),
        }
    }

    /// What the entry adds to the totals of the directory that holds it: a
    /// file its size and one file, a directory all that lies under it and one
    /// directory.
    pub open spec fn counted(self) -> Totals
        decreases self, 1nat,
    {
        match self {
            Tree::File { size, .. } => Totals { bytes: size, files: 1, dirs: 0 },
            Tree::Directory { .. } => self.under().plus(Totals { bytes: 0, files: 0, dirs: 1 }),
        }
    }

    /// The size shown beside the entry in a listing: a file's own length, a
    /// directory's total under it.
    pub open spec fn weight(self) -> nat {
        self.counted().bytes
    }

    /// The number of entries under this one, at any depth.
    pub open spec fn entry_count(self) -> nat
        decreases self, 0nat,
    {
        match self {
            Tree::File { .. } => 0,
            Tree::Directory { entries, .. } => count_of(entries),
        }
    }

    /// The totals of the entry fit the counters that hold them.
    pub open spec fn fits(self) -> bool {
        self.counted().bytes <= u64::MAX && self.counted().items() <= u64::MAX
    }
}

/// The totals of a run of sibling entries.
pub open spec fn totals_of(s: Seq<Tree>) -> Totals
    decreases s,
{
    if s.len() == 0 {
        Totals::zero()
    } else {
        totals_of(s.drop_last()).plus(s.last().counted())
    }
}

/// The number of entries in a run of siblings and under them.
pub open spec fn count_of(s: Seq<Tree>) -> nat
    decreases s,
{
    if s.len() == 0 {
        0
    } else {
        count_of(s.drop_last()) + 1 + s.last().entry_count()
    }
}

/// Taking one more sibling adds what it counts for.
pub proof fn lemma_totals_of_step(s: Seq<Tree>, i: int)
    requires
        0 <= i < s.len(),
    ensures
        totals_of(s.take(i + 1)) == totals_of(s.take(i)).plus(s[i].counted()),
{
    assert(s.take(i + 1).drop_last() =~= s.take(i));
}

/// The totals of the first siblings never exceed those of all of them.
pub proof fn lemma_totals_of_prefix(s: Seq<Tree>, i: int)
    requires
        0 <= i <= s.len(),
    ensures
        totals_of(s.take(i)).le(totals_of(s)),
    decreases s.len() - i,
{
    if i == s.len() {
        assert(s.take(i) =~= s);
    } else {
        lemma_totals_of_step(s, i);
        lemma_totals_of_prefix(s, i + 1);
    }
}

/// The files and directories counted under an entry are exactly the entries
/// under it: every entry is counted, and none twice.
pub proof fn law_counts_cover_entries(t: Tree)
    ensures
        t.under().files + t.under().dirs == t.entry_count(),
    decreases t, 0nat,
{
    match t {
        Tree::File { .. } => {},
        Tree::Directory { entries, .. } => {
            law_counts_cover_siblings(entries);
        },
    }
}

/// The files and directories counted for a run of siblings are exactly the
/// siblings and the entries under them.
pub proof fn law_counts_cover_siblings(s: Seq<Tree>)
    ensures
        totals_of(s).files + totals_of(s).dirs == count_of(s),
    decreases s,
{
    if s.len() > 0 {
        law_counts_cover_siblings(s.drop_last());
        law_counts_cover_entries(s.last());
        let last = s.last();
        assert(last.counted().files + last.counted().dirs == 1 + last.entry_count()) by {
            match last {
                Tree::File { .. } => {},
                Tree::Directory { .. } => {},
            }
        }
    }
}

/// Totals held in machine integers.
#[derive(Clone, Copy, Debug, PartialEq, Eq, Structural)]
pub struct DirectoryAggregate {
    /// The sum of the sizes of all files under the directory.
    pub total_bytes: u64,
    /// The number of files under the directory, at any depth.
    pub file_count: u64,
    /// The number of directories under the directory, at any depth.
    pub dir_count: u64,
}

impl View for DirectoryAggregate {
    type V = Totals;

    open spec fn view(&self) -> Totals {
        Totals {
            bytes: self.total_bytes as nat,
            files: self.file_count as nat,
            dirs: self.dir_count as nat,
        }
    }
}

impl DirectoryAggregate {
    /// The aggregate of an empty or missing directory.
    pub fn zero() -> (agg: DirectoryAggregate)
        ensures
            agg@ == Totals::zero(),
            agg == (DirectoryAggregate { total_bytes: 0, file_count: 0, dir_count: 0 }),
    {
        DirectoryAggregate { total_bytes: 0, file_count: 0, dir_count: 0 }
    }

    /// Files and directories together. Two 64-bit counts always add up
    /// within 128 bits.
    pub fn item_count(&self) -> (n: u128)
        ensures
            n == self@.items(),
    {
        self.file_count as u128 + self.dir_count as u128
    }
}

/// One entry of a filesystem together with everything under it. Every value
/// of this type has totals that fit 64-bit counters.
pub struct Node {
    name: String,
    is_dir: bool,
    size: u64,
    children: Vec<Node>,
}

/// The trees that a run of nodes stands for.
pub open spec fn trees(s: Seq<Node>) -> Seq<Tree> {
    Seq::new(s.len(), |i: int| s[i]@)
}

impl View for Node {
    type V = Tree;

    closed spec fn view(&self) -> Tree {
        self.tree()
    }
}

impl Node {
    spec fn tree(&self) -> Tree
        decreases self,
    {
        if self.is_dir {
            Tree::Directory {
                name: self.name@,
                entries: Seq::new(
                    self.children@.len(),
                    |i: int|
                        if 0 <= i < self.children@.len() {
                            self.children@[i].tree()
                        } else {
                            arbitrary()
                        },
                ),
            }
        } else {
            Tree::File { name: self.name@, size: self.size as nat }
        }
    }

    #[verifier::type_invariant]
    spec fn inv(&self) -> bool {
        &&& !self.is_dir ==> self.children@.len() == 0
        &&& self.is_dir ==> self.size == 0
        &&& self@.fits()
    }

    proof fn lemma_view(&self)
        ensures
            self.is_dir ==> self@ == (Tree::Directory {
                name: self.name@,
                entries: trees(self.children@),
            }),
            !self.is_dir ==> self@ == (Tree::File { name: self.name@, size: self.size as nat }),
    {
        if self.is_dir {
            assert(self@.entries() =~= trees(self.children@));
        }
    }

    /// A regular file of `size` bytes.
    pub fn file(name: String, size: u64) -> (node: Node)
        ensures
            node@ == (Tree::File { name: name@, size: size as nat }),
    {
        Node { name, is_dir: false, size, children: Vec::new() }
    }

    /// A directory holding `children`, in that order. There is no such node
    /// where the totals would not fit 64-bit counters.
    pub fn directory(name: String, children: Vec<Node>) -> (made: Option<Node>)
        ensures
            match made {
                Some(node) => node@ == (Tree::Directory {
                    name: name@,
                    entries: trees(children@),
                }) && node@.fits(),
                None => !(Tree::Directory { name: name@, entries: trees(children@) }).fits(),
            },
    {
        let ghost kids = trees(children@);
        let ghost whole = Tree::Directory { name: name@, entries: kids };
        let mut bytes: u64 = 0;
        let mut items: u64 = 1;
        let mut i: usize = 0;
        while i < children.len()
            invariant
                i <= children@.len(),
                kids == trees(children@),
                whole == (Tree::Directory { name: name@, entries: kids }),
                bytes == totals_of(kids.take(i as int)).bytes,
                items == totals_of(kids.take(i as int)).items() + 1,
            decreases children@.len() - i,
        {
            let part = children[i].counted();
            proof {
                lemma_totals_of_step(kids, i as int);
                lemma_totals_of_prefix(kids, i + 1);
            }
            match bytes.checked_add(part.total_bytes) {
                Some(sum) => {
                    bytes = sum;
                },
                None => {
                    return None;
                },
            }
            match items.checked_add(part.file_count) {
                Some(sum) => {
                    items = sum;
                },
                None => {
                    return None;
                },
            }
            match items.checked_add(part.dir_count) {
                Some(sum) => {
                    items = sum;
                },
                None => {
                    return None;
                },
            }
            i += 1;
        }
        proof {
            assert(kids.take(i as int) =~= kids);
            assert(whole.fits());
            assert forall|n: Node|
                n.is_dir && n.name == name && n.children == children implies #[trigger] n@
                == whole by {
                n.lemma_view();
            }
        }
        Some(Node { name, is_dir: true, size: 0, children })
    }

    /// The entry's own name.
    pub fn name(&self) -> (name: &str)
        ensures
            name@ == self@.name(),
    {
        self.name.as_str()
    }

    /// Whether the entry is a directory.
    pub fn is_dir(&self) -> (b: bool)
        ensures
            b == self@.is_dir(),
    {
        self.is_dir
    }

    /// The immediate children, in the order they were given; a file has none.
    pub fn children(&self) -> (kids: &Vec<Node>)
        ensures
            trees(kids@) == self@.entries(),
            self@.fits(),
    {
        proof {
            use_type_invariant(self);
            assert(trees(self.children@) =~= self@.entries());
        }
        &self.children
    }

    /// The totals of everything under this entry, at any depth: each file
    /// adds its size and counts as one file, each directory counts as one
    /// directory and adds what lies under it.
    pub fn aggregate(&self) -> (agg: DirectoryAggregate)
        ensures
            agg@ == self@.under(),
            agg@.items() == self@.entry_count(),
        decreases self,
    {
        let ghost kids = trees(self.children@);
        proof {
            use_type_invariant(self);
            assert(kids =~= self@.entries());
        }
        let mut agg = DirectoryAggregate::zero();
        let mut i: usize = 0;
        while i < self.children.len()
            invariant
                i <= self.children@.len(),
                kids == trees(self.children@),
                totals_of(kids).bytes <= u64::MAX,
                totals_of(kids).items() <= u64::MAX,
                agg@ == totals_of(kids.take(i as int)),
            decreases self.children@.len() - i,
        {
            let child = &self.children[i];
            proof {
                lemma_totals_of_step(kids, i as int);
                lemma_totals_of_prefix(kids, i + 1);
            }
            if child.is_dir {
                let sub = child.aggregate();
                agg.total_bytes = agg.total_bytes + sub.total_bytes;
                agg.file_count = agg.file_count + sub.file_count;
                agg.dir_count = agg.dir_count + sub.dir_count + 1;
            } else {
                agg.total_bytes = agg.total_bytes + child.size;
                agg.file_count = agg.file_count + 1;
            }
            i += 1;
        }
        proof {
            assert(kids.take(i as int) =~= kids);
            law_counts_cover_entries(self@);
        }
        agg
    }

    /// What the entry adds to the totals of the directory that holds it.
    fn counted(&self) -> (part: DirectoryAggregate)
        ensures
            part@ == self@.counted(),
    {
        proof {
            use_type_invariant(self);
        }
        if self.is_dir {
            let under = self.aggregate();
            DirectoryAggregate {
                total_bytes: under.total_bytes,
                file_count: under.file_count,
                dir_count: under.dir_count + 1,
            }
        } else {
            DirectoryAggregate { total_bytes: self.size, file_count: 1, dir_count: 0 }
        }
    }

    /// The size shown beside the entry in a listing: a file's own length, a
    /// directory's total under it.
    pub fn weight(&self) -> (bytes: u64)
        ensures
            bytes == self@.weight(),
    {
        self.counted().total_bytes
    }
}

/// The totals under the entry at a path, where a path that leads nowhere
/// stands for an empty directory.
pub open spec fn under_root(root: Option<Tree>) -> Totals {
    match root {
        Some(tree) => tree.under(),
        None => Totals::zero(),
    }
}

/// The tree that a looked-up node stands for, if the lookup found one.
pub open spec fn root_tree(root: Option<&Node>) -> Option<Tree> {
    match root {
        Some(node) => Some(node@),
        None => None,
    }
}

/// The totals of everything under `root`. A missing root gives the zero
/// aggregate.
pub fn aggregate(root: Option<&Node>) -> (agg: DirectoryAggregate)
    ensures
        agg@ == under_root(root_tree(root)),
        root is None ==> agg == (DirectoryAggregate { total_bytes: 0, file_count: 0, dir_count: 0 }),
{
    match root {
        Some(node) => node.aggregate(),
        None => DirectoryAggregate::zero(),
    }
}

} // verus!
