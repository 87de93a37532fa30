//! The filesystem engine: a flat, growable arena of node slots addressed by
//! stable integer indices, holding a tree of directories and files.
//!
//! Index 0 is always the root directory. Deleted slots are pushed onto a
//! freelist and reused in LIFO order. Every directory carries the two
//! synthetic entries `.` (itself) and `..` (its parent); the root's `..`
//! points back at the root.
//!
//! The well-formedness predicate [`FsTree::wf`] captures the tree shape:
//! every entry of a live directory points at a live slot, names are unique
//! within a directory, every live non-root node is referenced by exactly one
//! real (non-`.`/`..`) entry, each directory's `..` names that unique parent,
//! and a ghost depth assignment keeps the parent chains acyclic.
use vstd::map::*;
use vstd::prelude::*;
use vstd::string::*;

use crate::entry_map::{
    distinct_names, entry_map_of, lemma_entry_map_at, lemma_entry_map_contains,
    lemma_entry_map_push, lemma_entry_map_remove, lemma_entry_map_update, lemma_remove_distinct,
    DirEntryView,
};

verus! {

/// The name of the synthetic self entry, `.`.
pub open spec fn dot_name() -> Seq<char> {
    seq!['.']
}

/// The name of the synthetic parent entry, `..`.
pub open spec fn dotdot_name() -> Seq<char> {
    seq!['.', '.']
}

/// Whether a name is one of the two reserved entries.
pub open spec fn is_dot_name(n: Seq<char>) -> bool {
    n == dot_name() || n == dotdot_name()
}

/// A name that may be given to a real entry: nonempty and free of the path
/// separator.
pub open spec fn valid_name(n: Seq<char>) -> bool {
    n.len() > 0 && forall|i: int| 0 <= i < n.len() ==> n[i] != '/'
}

/// An opaque handle for one arena slot. Stable across unrelated mutations,
/// but stale once the node it names has been deleted.
#[derive(Clone, Copy, Debug, PartialEq, Eq, Structural)]
pub struct FsIndex(usize);

impl View for FsIndex {
    type V = int;

    closed spec fn view(&self) -> int {
        self.0 as int
    }
}

impl Default for FsIndex {
    /// The root index.
    fn default() -> (r: Self)
        ensures
            r@ == 0,
    {
        FsIndex(0)
    }
}

/// The local, recoverable failures of tree operations.
#[derive(Clone, Copy, Debug, PartialEq, Eq, Structural)]
pub enum FsError {
    /// A name is absent from a directory, or an index names a vacant slot.
    NotFound,
    /// A create or move would collide with an existing name.
    AlreadyExists,
    /// The operation needs a directory but found a file.
    NotADirectory,
    /// The operation needs a file but found a directory.
    NotAFile,
    /// A non-recursive delete hit a directory with real entries.
    DirectoryNotEmpty,
    /// A move would place a directory inside its own subtree.
    CyclicMove,
    /// A malformed or reserved name, or a relative path where an absolute
    /// one is required.
    InvalidPath,
}

/// One directory entry: a name and the index of the node it points to.
#[derive(Clone, Debug, PartialEq, Eq)]
pub struct DirEntry {
    name: String,
    index: FsIndex,
}

impl View for DirEntry {
    type V = DirEntryView;

    closed spec fn view(&self) -> DirEntryView {
        DirEntryView { name: self.name@, index: self.index@ }
    }
}

impl DirEntry {
    pub fn name(&self) -> (r: String)
        ensures
            r@ == self@.name,
    {
        self.name.clone()
    }

    pub fn index(&self) -> (r: FsIndex)
        ensures
            r@ == self@.index,
    {
        self.index
    }
}

/// A file: owned text content, no children.
pub struct File {
    contents: String,
}

/// A directory: a list of uniquely named entries, including `.` and `..`.
pub struct Directory {
    entries: Vec<DirEntry>,
}

impl Directory {
    /// The ghost view of the entry list.
    pub closed spec fn dir_view(self) -> Seq<DirEntryView> {
        self.entries@.map_values(|e: DirEntry| e@)
    }

    /// The root directory, whose `.` and `..` both point at slot 0.
    pub fn new_root() -> (d: Self)
        ensures
            d.dir_view() =~= seq![
                DirEntryView { name: dot_name(), index: 0 },
                DirEntryView { name: dotdot_name(), index: 0 },
            ],
    {
        Directory::new(FsIndex(0), FsIndex(0))
    }

    /// A fresh directory seeded with `.` -> `this` and `..` -> `parent`.
    pub fn new(parent: FsIndex, this: FsIndex) -> (d: Self)
        ensures
            d.dir_view() =~= seq![
                DirEntryView { name: dot_name(), index: this@ },
                DirEntryView { name: dotdot_name(), index: parent@ },
            ],
    {
        let mut entries: Vec<DirEntry> = Vec::new();
        entries.push(DirEntry { name: dot_string(), index: this });
        entries.push(DirEntry { name: dotdot_string(), index: parent });
        Directory { entries }
    }

    /// A copy of the entry list, for enumeration.
    fn children(&self) -> (r: Vec<DirEntry>)
        ensures
            r@.map_values(|e: DirEntry| e@) =~= self.dir_view(),
    {
        let mut out: Vec<DirEntry> = Vec::new();
        let mut j: usize = 0;
        while j < self.entries.len()
            invariant
                j <= self.entries.len(),
                out@.len() == j,
                forall|k: int| 0 <= k < j ==> (#[trigger] out@[k])@ == self.entries@[k]@,
            decreases self.entries.len() - j,
        {
            out.push(DirEntry { name: self.entries[j].name.clone(), index: self.entries[j].index });
            j = j + 1;
        }
        proof {
            assert(out@.map_values(|e: DirEntry| e@) =~= self.dir_view());
        }
        out
    }
}

impl File {
    /// The ghost view of the file's text.
    pub closed spec fn text(self) -> Seq<char> {
        self.contents@
    }

    /// An empty file.
    pub fn new() -> (f: Self)
        ensures
            f.text() == Seq::<char>::empty(),
    {
        File { contents: String::new() }
    }

    /// The file's text.
    pub fn contents(&self) -> (r: String)
        ensures
            r@ == self.text(),
    {
        self.contents.clone()
    }

    /// Replace the file's text.
    pub fn write(&mut self, contents: &str)
        ensures
            final(self).text() == contents@,
    {
        self.contents = contents.to_owned();
    }
}

/// A filesystem node: either a directory or a file.
enum FsNode {
    Directory(Directory),
    File(File),
}

/// The filesystem: the node arena plus the freelist of vacant slots
/// (most recently freed last), and a ghost depth assignment used to keep the
/// directory tree acyclic.
pub struct FsTree {
    node_table: Vec<Option<FsNode>>,
    vacancies: Vec<usize>,
    depths: Ghost<Map<int, nat>>,
}

impl FsTree {
    /// Number of slots in the arena (live or vacant).
    pub closed spec fn table_len(self) -> int {
        self.node_table@.len() as int
    }

    /// Whether slot `i` holds a live node.
    pub closed spec fn live(self, i: int) -> bool {
        0 <= i < self.node_table@.len() && self.node_table@[i] is Some
    }

    /// Whether slot `i` holds a live directory.
    pub closed spec fn is_dir_at(self, i: int) -> bool {
        self.live(i) && (self.node_table@[i] matches Some(FsNode::Directory(_)))
    }

    /// Whether slot `i` holds a live file.
    pub closed spec fn is_file_at(self, i: int) -> bool {
        self.live(i) && (self.node_table@[i] matches Some(FsNode::File(_)))
    }

    /// The entry list of the directory at slot `i` (empty if `i` is not a
    /// live directory).
    pub closed spec fn dir_seq_at(self, i: int) -> Seq<DirEntryView> {
        match self.node_table@[i] {
            Some(FsNode::Directory(d)) => d.dir_view(),
            _ => Seq::empty(),
        }
    }

    /// The name -> index map of the directory at slot `i`.
    pub open spec fn entries_at(self, i: int) -> Map<Seq<char>, int> {
        entry_map_of(self.dir_seq_at(i))
    }

    /// The text of the file at slot `i` (empty if `i` is not a live file).
    pub closed spec fn file_at(self, i: int) -> Seq<char> {
        match self.node_table@[i] {
            Some(FsNode::File(f)) => f.contents@,
            _ => Seq::empty(),
        }
    }

    /// The freelist, most recently freed last.
    pub closed spec fn vacancy_seq(self) -> Seq<int> {
        self.vacancies@.map_values(|v: usize| v as int)
    }

    /// The slot the next create will use: the most recently freed slot, or a
    /// fresh one appended at the end.
    pub open spec fn next_index(self) -> int {
        if self.vacancy_seq().len() > 0 {
            self.vacancy_seq().last()
        } else {
            self.table_len()
        }
    }

    /// Ghost depth of the directory at slot `i`: its distance from the root.
    pub closed spec fn depth_of(self, i: int) -> nat {
        self.depths@[i]
    }

    /// Where the directory at slot `i` says its parent is.
    pub open spec fn parent_dir(self, i: int) -> int {
        self.entries_at(i)[dotdot_name()]
    }

    /// A real (non-reserved) entry of directory `d`, named `n`, pointing at
    /// `c`.
    pub open spec fn edge(self, d: int, n: Seq<char>, c: int) -> bool {
        &&& self.is_dir_at(d)
        &&& !is_dot_name(n)
        &&& self.entries_at(d).contains_key(n)
        &&& self.entries_at(d)[n] == c
    }

    /// Whether some real entry points at `c`.
    pub open spec fn has_parent_edge(self, c: int) -> bool {
        exists|d: int, n: Seq<char>| self.edge(d, n, c)
    }

    /// Local soundness of one live directory: unique names, live targets,
    /// no real entry naming the root, and the two reserved entries in place.
    spec fn dir_ok(self, d: int) -> bool {
        let s = self.dir_seq_at(d);
        let m = self.entries_at(d);
        &&& distinct_names(s)
        &&& (forall|j: int|
            0 <= j < s.len() ==> {
                let e = #[trigger] s[j];
                self.live(e.index) && (!is_dot_name(e.name) ==> e.index != 0)
            })
        &&& m.contains_key(dot_name()) && m[dot_name()] == d
        &&& m.contains_key(dotdot_name()) && self.is_dir_at(m[dotdot_name()])
    }

    spec fn dirs_ok(self) -> bool {
        forall|d: int| self.is_dir_at(d) ==> #[trigger] self.dir_ok(d)
    }

    /// Every freelist member is a vacant slot, and none repeats.
    spec fn vacancies_ok(self) -> bool {
        &&& (forall|k: int|
            0 <= k < self.vacancies@.len() ==> (#[trigger] self.vacancies@[k] as int)
                < self.table_len() && self.node_table@[self.vacancies@[k] as int] is None)
        &&& (forall|k1: int, k2: int|
            0 <= k1 < k2 < self.vacancies@.len() ==> self.vacancies@[k1] != self.vacancies@[k2])
    }

    /// At most one real entry points at any one node.
    spec fn parents_unique(self) -> bool {
        forall|d1: int, n1: Seq<char>, d2: int, n2: Seq<char>, c: int|
            #[trigger] self.edge(d1, n1, c) && #[trigger] self.edge(d2, n2, c) ==> d1 == d2 && n1
                == n2
    }

    /// Every live non-root node is attached somewhere: no orphans.
    spec fn parents_exist(self) -> bool {
        forall|c: int| 1 <= c < self.table_len() && self.live(c) ==> #[trigger] self.has_parent_edge(
            c,
        )
    }

    /// Each directory's `..` names the directory that really holds it.
    spec fn dotdots_ok(self) -> bool {
        forall|d: int, n: Seq<char>, c: int|
            #[trigger] self.edge(d, n, c) && self.is_dir_at(c) ==> self.parent_dir(c) == d
    }

    /// The ghost depths decorate the parent chains: the root has depth 0 and
    /// every other directory sits one below its parent. This rules out
    /// cycles among the `..` links.
    spec fn depths_ok(self) -> bool {
        &&& self.depth_of(0) == 0
        &&& (forall|c: int|
            1 <= c < self.table_len() && self.is_dir_at(c) ==> #[trigger] self.depth_of(c)
                == self.depth_of(self.parent_dir(c)) + 1)
    }

    /// The tree invariant. Established by [`FsTree::new`] and preserved by
    /// every operation.
    pub closed spec fn wf(self) -> bool {
        &&& self.table_len() >= 1
        &&& self.is_dir_at(0)
        &&& self.entries_at(0)[dotdot_name()] == 0
        &&& self.dirs_ok()
        &&& self.vacancies_ok()
        &&& self.parents_unique()
        &&& self.parents_exist()
        &&& self.dotdots_ok()
        &&& self.depths_ok()
    }

    /// A fresh tree: one slot holding the root directory, empty freelist.
    pub fn new() -> (t: FsTree)
        ensures
            t.wf(),
            t.table_len() == 1,
            t.entries_at(0) =~= Map::<Seq<char>, int>::empty().insert(dot_name(), 0).insert(
                dotdot_name(),
                0,
            ),
            t.vacancy_seq() == Seq::<int>::empty(),
    {
        let mut node_table: Vec<Option<FsNode>> = Vec::new();
        node_table.push(Some(FsNode::Directory(Directory::new_root())));
        let t = FsTree {
            node_table,
            vacancies: Vec::new(),
            depths: Ghost(Map::new(|i: int| true, |i: int| 0nat)),
        };
        proof {
            let s = t.dir_seq_at(0);
            assert(s.len() == 2);
            assert(s[0].name == dot_name() && s[0].index == 0);
            assert(s[1].name == dotdot_name() && s[1].index == 0);
            assert(distinct_names(s)) by {
                assert(dot_name().len() == 1);
                assert(dotdot_name().len() == 2);
            }
            lemma_entry_map_at(s, 0);
            lemma_entry_map_at(s, 1);
            let m = t.entries_at(0);
            let rhs = Map::<Seq<char>, int>::empty().insert(dot_name(), 0).insert(
                dotdot_name(),
                0,
            );
            assert(m.contains_key(dot_name()) && m[dot_name()] == 0);
            assert(m.contains_key(dotdot_name()) && m[dotdot_name()] == 0);
            assert forall|n: Seq<char>| #[trigger] m.contains_key(n) implies rhs.contains_key(n)
                && m[n] == rhs[n] by {
                lemma_entry_map_contains(s, n);
                let j = choose|j: int| 0 <= j < s.len() && s[j].name == n;
                assert(j == 0 || j == 1);
            }
            assert forall|n: Seq<char>| #[trigger] rhs.contains_key(n) implies m.contains_key(
                n,
            ) by {
                assert(n == dot_name() || n == dotdot_name());
            }
            assert_maps_equal!(m, rhs);
            assert forall|c: int| 1 <= c < t.table_len() && t.live(c) implies t.has_parent_edge(
                c,
            ) by {}
            assert(t.wf());
        }
        t
    }

    /// The root's index: slot 0, always live.
    pub fn root(&self) -> (r: FsIndex)
        ensures
            r@ == 0,
    {
        FsIndex(0)
    }

    /// The node in slot `index`, if the slot is in range and occupied.
    fn get_node(&self, index: FsIndex) -> (r: Option<&FsNode>)
        ensures
            r is Some <==> self.live(index@),
            r matches Some(n) ==> self.node_table@[index@] == Some(*n),
    {
        if index.0 >= self.node_table.len() {
            return None;
        }
        self.node_table[index.0].as_ref()
    }

    /// Why a read of the file at `i` would fail, if it would.
    pub open spec fn file_check(self, i: int) -> Option<FsError> {
        if !self.live(i) {
            Some(FsError::NotFound)
        } else if self.is_dir_at(i) {
            Some(FsError::NotAFile)
        } else {
            None
        }
    }

    /// Why a read of the directory at `i` would fail, if it would.
    pub open spec fn dir_check(self, i: int) -> Option<FsError> {
        if !self.live(i) {
            Some(FsError::NotFound)
        } else if self.is_file_at(i) {
            Some(FsError::NotADirectory)
        } else {
            None
        }
    }

    /// The text of the file at `index`. Fails with `NotFound` on a vacant
    /// slot and `NotAFile` on a directory.
    pub fn contents(&self, index: FsIndex) -> (r: Result<String, FsError>)
        ensures
            match r {
                Ok(s) => self.file_check(index@) is None && s@ == self.file_at(index@),
                Err(e) => self.file_check(index@) == Some(e),
            },
    {
        match self.get_node(index) {
            Some(FsNode::File(file)) => Ok(file.contents()),
            Some(FsNode::Directory(_)) => Err(FsError::NotAFile),
            None => Err(FsError::NotFound),
        }
    }

    /// Replace the text of the file at `index`. Fails with `NotFound` on a
    /// vacant slot and `NotAFile` on a directory; on failure the tree is
    /// unchanged.
    pub fn write(&mut self, index: FsIndex, contents: &str) -> (r: Result<(), FsError>)
        requires
            old(self).wf(),
        ensures
            final(self).wf(),
            match r {
                Ok(()) => {
                    &&& old(self).file_check(index@) is None
                    &&& final(self).file_at(index@) == contents@
                    &&& final(self).is_file_at(index@)
                    &&& forall|i: int| i != index@ ==> same_slot(*old(self), *final(self), i)
                    &&& final(self).table_len() == old(self).table_len()
                    &&& final(self).vacancy_seq() == old(self).vacancy_seq()
                },
                Err(e) => old(self).file_check(index@) == Some(e) && *final(self) == *old(self),
            },
    {
        let i = index.0;
        if i >= self.node_table.len() {
            return Err(FsError::NotFound);
        }
        match &self.node_table[i] {
            None => Err(FsError::NotFound),
            Some(FsNode::Directory(_)) => Err(FsError::NotAFile),
            Some(FsNode::File(_)) => {
                let ghost old_t = *self;
                self.node_table[i] = Some(FsNode::File(File { contents: contents.to_owned() }));
                proof {
                    assert(self.node_table@ == old_t.node_table@.update(
                        i as int,
                        self.node_table@[i as int],
                    ));
                    assert forall|j: int| 0 <= j < old_t.table_len() implies (#[trigger] self.live(
                        j,
                    )) == old_t.live(j) by {}
                    assert forall|j: int| 0 <= j < old_t.table_len() implies (
                    #[trigger] self.is_dir_at(j)) == old_t.is_dir_at(j) by {}
                    assert forall|j: int| 0 <= j < old_t.table_len() implies (
                    #[trigger] self.is_file_at(j)) == old_t.is_file_at(j) by {}
                    assert forall|j: int| old_t.is_dir_at(j) implies (#[trigger] self.dir_seq_at(j))
                        == old_t.dir_seq_at(j) by {
                        assert(j != i as int);
                    }
                    lemma_wf_same_structure(old_t, *self);
                    assert forall|j: int| j != index@ implies same_slot(old_t, *self, j) by {}
                }
                Ok(())
            },
        }
    }

    /// The index of `name` within a directory's entry list, if present.
    pub(crate) fn get_entry(&self, name: &str, parent: FsIndex) -> (r: Result<Option<FsIndex>, FsError>)
        requires
            self.wf(),
        ensures
            match r {
                Ok(found) => {
                    &&& self.is_dir_at(parent@)
                    &&& match found {
                        Some(i) => self.entries_at(parent@).contains_key(name@) && i@
                            == self.entries_at(parent@)[name@],
                        None => !self.entries_at(parent@).contains_key(name@),
                    }
                },
                Err(e) => self.dir_check(parent@) == Some(e),
            },
    {
        let node = match self.get_node(parent) {
            Some(n) => n,
            None => {
                return Err(FsError::NotFound);
            },
        };
        match node {
            FsNode::File(_) => Err(FsError::NotADirectory),
            FsNode::Directory(d) => {
                proof {
                    assert(self.dir_ok(parent@));
                    assert(self.dir_seq_at(parent@) == d.dir_view());
                }
                match find_entry(&d.entries, name) {
                    Some(j) => {
                        proof {
                            lemma_entry_map_at(self.dir_seq_at(parent@), j as int);
                        }
                        Ok(Some(d.entries[j].index))
                    },
                    None => {
                        proof {
                            lemma_entry_map_contains(self.dir_seq_at(parent@), name@);
                        }
                        Ok(None)
                    },
                }
            },
        }
    }

    /// The full entry list of the directory at `index`, `.` and `..`
    /// included. Fails with `NotFound` on a vacant slot and `NotADirectory`
    /// on a file. Every index handed out points at a live slot.
    pub fn iter_dir(&self, index: FsIndex) -> (r: Result<Vec<DirEntry>, FsError>)
        requires
            self.wf(),
        ensures
            match r {
                Ok(v) => {
                    &&& self.dir_check(index@) is None
                    &&& self.is_dir_at(index@)
                    &&& v@.map_values(|e: DirEntry| e@) == self.dir_seq_at(index@)
                    &&& forall|k: int|
                        0 <= k < v@.len() ==> self.live((#[trigger] v@[k])@.index)
                },
                Err(e) => self.dir_check(index@) == Some(e),
            },
    {
        match self.get_node(index) {
            Some(FsNode::Directory(d)) => {
                proof {
                    assert(self.dir_ok(index@));
                    assert(self.dir_seq_at(index@) == d.dir_view());
                }
                let v = d.children();
                proof {
                    assert forall|k: int| 0 <= k < v@.len() implies self.live(
                        (#[trigger] v@[k])@.index,
                    ) by {
                        assert(v@[k]@ == self.dir_seq_at(index@)[k]);
                    }
                }
                Ok(v)
            },
            Some(FsNode::File(_)) => Err(FsError::NotADirectory),
            None => Err(FsError::NotFound),
        }
    }

    /// Why creating `name` under `parent` would fail, if it would.
    /// The reserved names `.` and `..` are always present, so creating them
    /// collides.
    pub open spec fn create_check(self, name: Seq<char>, p: int) -> Option<FsError> {
        if !valid_name(name) {
            Some(FsError::InvalidPath)
        } else if !self.live(p) {
            Some(FsError::NotFound)
        } else if self.is_file_at(p) {
            Some(FsError::NotADirectory)
        } else if self.entries_at(p).contains_key(name) {
            Some(FsError::AlreadyExists)
        } else {
            None
        }
    }

    /// Create an empty directory named `name` under the directory `parent`,
    /// seeded with `.` and `..`. Returns the new node's index: the most
    /// recently freed slot if any, else a fresh slot at the end of the
    /// arena. On failure the tree is unchanged.
    pub fn create_directory(&mut self, name: &str, parent: FsIndex) -> (r: Result<
        FsIndex,
        FsError,
    >)
        requires
            old(self).wf(),
        ensures
            final(self).wf(),
            match r {
                Ok(idx) => {
                    &&& old(self).create_check(name@, parent@) is None
                    &&& idx@ == old(self).next_index()
                    &&& !old(self).live(idx@)
                    &&& final(self).is_dir_at(idx@)
                    &&& final(self).entries_at(idx@) == Map::<Seq<char>, int>::empty().insert(
                        dot_name(),
                        idx@,
                    ).insert(dotdot_name(), parent@)
                    &&& final(self).dir_seq_at(parent@) == old(self).dir_seq_at(parent@).push(
                        DirEntryView { name: name@, index: idx@ },
                    )
                    &&& final(self).entries_at(parent@) == old(self).entries_at(parent@).insert(
                        name@,
                        idx@,
                    )
                    &&& final(self).is_dir_at(parent@)
                    &&& final(self).table_len() == if old(self).vacancy_seq().len() > 0 {
                        old(self).table_len()
                    } else {
                        old(self).table_len() + 1
                    }
                    &&& final(self).vacancy_seq() == if old(self).vacancy_seq().len() > 0 {
                        old(self).vacancy_seq().drop_last()
                    } else {
                        old(self).vacancy_seq()
                    }
                    &&& forall|i: int|
                        i != parent@ && i != idx@ ==> same_slot(*old(self), *final(self), i)
                },
                Err(e) => old(self).create_check(name@, parent@) == Some(e) && *final(self)
                    == *old(self),
            },
    {
        self.create_node(name, parent, true)
    }

    /// Create an empty file named `name` under the directory `parent`.
    /// Same naming and allocation rules as `create_directory`; files get no
    /// entries. On failure the tree is unchanged.
    pub fn create_file(&mut self, name: &str, parent: FsIndex) -> (r: Result<FsIndex, FsError>)
        requires
            old(self).wf(),
        ensures
            final(self).wf(),
            match r {
                Ok(idx) => {
                    &&& old(self).create_check(name@, parent@) is None
                    &&& idx@ == old(self).next_index()
                    &&& !old(self).live(idx@)
                    &&& final(self).is_file_at(idx@)
                    &&& final(self).file_at(idx@) == Seq::<char>::empty()
                    &&& final(self).dir_seq_at(parent@) == old(self).dir_seq_at(parent@).push(
                        DirEntryView { name: name@, index: idx@ },
                    )
                    &&& final(self).entries_at(parent@) == old(self).entries_at(parent@).insert(
                        name@,
                        idx@,
                    )
                    &&& final(self).is_dir_at(parent@)
                    &&& final(self).table_len() == if old(self).vacancy_seq().len() > 0 {
                        old(self).table_len()
                    } else {
                        old(self).table_len() + 1
                    }
                    &&& final(self).vacancy_seq() == if old(self).vacancy_seq().len() > 0 {
                        old(self).vacancy_seq().drop_last()
                    } else {
                        old(self).vacancy_seq()
                    }
                    &&& forall|i: int|
                        i != parent@ && i != idx@ ==> same_slot(*old(self), *final(self), i)
                },
                Err(e) => old(self).create_check(name@, parent@) == Some(e) && *final(self)
                    == *old(self),
            },
    {
        self.create_node(name, parent, false)
    }

    /// Shared body of the two create operations.
    fn create_node(&mut self, name: &str, parent: FsIndex, make_dir: bool) -> (r: Result<
        FsIndex,
        FsError,
    >)
        requires
            old(self).wf(),
        ensures
            final(self).wf(),
            match r {
                Ok(idx) => {
                    &&& old(self).create_check(name@, parent@) is None
                    &&& idx@ == old(self).next_index()
                    &&& !old(self).live(idx@)
                    &&& (make_dir ==> final(self).is_dir_at(idx@) && final(self).entries_at(idx@)
                        == Map::<Seq<char>, int>::empty().insert(dot_name(), idx@).insert(
                        dotdot_name(),
                        parent@,
                    ))
                    &&& (!make_dir ==> final(self).is_file_at(idx@) && final(self).file_at(idx@)
                        == Seq::<char>::empty())
                    &&& final(self).dir_seq_at(parent@) == old(self).dir_seq_at(parent@).push(
                        DirEntryView { name: name@, index: idx@ },
                    )
                    &&& final(self).entries_at(parent@) == old(self).entries_at(parent@).insert(
                        name@,
                        idx@,
                    )
                    &&& final(self).is_dir_at(parent@)
                    &&& final(self).table_len() == if old(self).vacancy_seq().len() > 0 {
                        old(self).table_len()
                    } else {
                        old(self).table_len() + 1
                    }
                    &&& final(self).vacancy_seq() == if old(self).vacancy_seq().len() > 0 {
                        old(self).vacancy_seq().drop_last()
                    } else {
                        old(self).vacancy_seq()
                    }
                    &&& forall|i: int|
                        i != parent@ && i != idx@ ==> same_slot(*old(self), *final(self), i)
                },
                Err(e) => old(self).create_check(name@, parent@) == Some(e) && *final(self)
                    == *old(self),
            },
    {
        if !valid_name_str(name) {
            return Err(FsError::InvalidPath);
        }
        match self.get_entry(name, parent) {
            Err(e) => {
                return Err(e);
            },
            Ok(Some(_)) => {
                return Err(FsError::AlreadyExists);
            },
            Ok(None) => {},
        }
        let ghost t0 = *self;
        let p = parent.0;
        let vacancy = self.vacancies.pop();
        let idx: usize = match vacancy {
            Some(v) => v,
            None => self.node_table.len(),
        };
        proof {
            if t0.vacancies@.len() > 0 {
                assert(t0.vacancies@[t0.vacancies@.len() - 1] == idx);
                assert(!t0.live(idx as int));
                assert(idx as int == t0.next_index()) by {
                    assert(t0.vacancy_seq().last() == t0.vacancies@[t0.vacancies@.len() - 1]
                        as int);
                }
            }
            assert(idx != p);
            assert(self.vacancies@ == if t0.vacancies@.len() > 0 {
                t0.vacancies@.drop_last()
            } else {
                t0.vacancies@
            });
        }
        let node = if make_dir {
            FsNode::Directory(Directory::new(parent, FsIndex(idx)))
        } else {
            FsNode::File(File::new())
        };
        if vacancy.is_some() {
            self.node_table[idx] = Some(node);
        } else {
            self.node_table.push(Some(node));
        }
        let ghost t1 = *self;
        proof {
            assert(t1.node_table@ == if t0.vacancies@.len() > 0 {
                t0.node_table@.update(idx as int, t1.node_table@[idx as int])
            } else {
                t0.node_table@.push(t1.node_table@[idx as int])
            });
        }
        let entry = DirEntry { name: name.to_owned(), index: FsIndex(idx) };
        match &mut self.node_table[p] {
            Some(FsNode::Directory(d)) => {
                d.entries.push(entry);
            },
            _ => {
                proof {
                    assert(t1.node_table@[p as int] == t0.node_table@[p as int]);
                    assert(false);
                }
            },
        }
        self.depths = Ghost(self.depths@.insert(idx as int, (t0.depth_of(p as int) + 1) as nat));
        let ghost t2 = *self;
        proof {
            let pi = p as int;
            let xi = idx as int;
            let ev = DirEntryView { name: name@, index: xi };
            assert(t2.node_table@ == t1.node_table@.update(pi, t2.node_table@[pi]));
            // the parent slot after the push
            assert(t2.is_dir_at(pi));
            assert(t2.dir_seq_at(pi) =~= t0.dir_seq_at(pi).push(ev));
            // the fresh slot
            if make_dir {
                assert(t2.dir_seq_at(xi) =~= seq![
                    DirEntryView { name: dot_name(), index: xi },
                    DirEntryView { name: dotdot_name(), index: pi },
                ]);
            } else {
                assert(t2.is_file_at(xi));
            }
            // untouched slots
            assert forall|i: int| i != pi && i != xi implies same_slot(t0, t2, i) by {
                if 0 <= i < t0.table_len() {
                    assert(t2.node_table@[i] == t0.node_table@[i]);
                }
            }
            lemma_create_wf(t0, t2, pi, xi, name@, make_dir);
            // the parent's new entry map
            assert(distinct_names(t0.dir_seq_at(pi))) by {
                assert(t0.dir_ok(pi));
            }
            lemma_entry_map_push(t0.dir_seq_at(pi), ev);
            if make_dir {
                lemma_two_dots_map(t2.dir_seq_at(xi), xi, pi);
            }
            assert(t2.vacancy_seq() =~= if t0.vacancy_seq().len() > 0 {
                t0.vacancy_seq().drop_last()
            } else {
                t0.vacancy_seq()
            });
        }
        Ok(FsIndex(idx))
    }

    /// The slot named by the `..` entry of the directory at `cur`.
    fn read_parent_of(&self, cur: usize) -> (r: usize)
        requires
            self.wf(),
            self.is_dir_at(cur as int),
        ensures
            r as int == self.parent_dir(cur as int),
            self.is_dir_at(r as int),
    {
        proof {
            assert(self.dir_ok(cur as int));
        }
        match &self.node_table[cur] {
            Some(FsNode::Directory(d)) => {
                proof {
                    assert(self.dir_seq_at(cur as int) == d.dir_view());
                }
                let dd = "..";
                proof {
                    reveal_strlit("..");
                    assert(dd@ =~= dotdot_name());
                }
                match find_entry(&d.entries, dd) {
                    Some(j) => {
                        proof {
                            lemma_entry_map_at(self.dir_seq_at(cur as int), j as int);
                        }
                        d.entries[j].index.0
                    },
                    None => {
                        proof {
                            lemma_entry_map_contains(self.dir_seq_at(cur as int), dotdot_name());
                            assert(false);
                        }
                        0
                    },
                }
            },
            _ => {
                proof {
                    assert(false);
                }
                0
            },
        }
    }

    /// Whether the directory at `start` lies in the subtree rooted at slot
    /// `m`, decided by walking `..` from `start` towards the root.
    fn is_descendant(&self, start: FsIndex, m: usize) -> (r: bool)
        requires
            self.wf(),
            self.is_dir_at(start@),
            self.is_dir_at(m as int),
        ensures
            r == in_subtree(*self, start@, m as int),
    {
        let mut cur: usize = start.0;
        loop
            invariant
                self.wf(),
                self.is_dir_at(cur as int),
                self.is_dir_at(m as int),
                in_subtree(*self, start@, m as int) == in_subtree(*self, cur as int, m as int),
            decreases self.depth_of(cur as int),
        {
            if cur == m {
                proof {
                    lemma_in_subtree_step(*self, cur as int, m as int);
                }
                return true;
            }
            if cur == 0 {
                proof {
                    lemma_in_subtree_step(*self, 0, m as int);
                }
                return false;
            }
            let nxt = self.read_parent_of(cur);
            proof {
                lemma_in_subtree_step(*self, cur as int, m as int);
                assert(self.depth_of(cur as int) == self.depth_of(nxt as int) + 1);
            }
            cur = nxt;
        }
    }

    /// Why relocating `old_parent/old_name` to `new_parent/new_name` would
    /// fail, if it would. Moving an entry onto itself succeeds and does
    /// nothing; moving a directory into its own subtree is a `CyclicMove`.
    pub open spec fn move_check(
        self,
        old_name: Seq<char>,
        op: int,
        new_name: Seq<char>,
        np: int,
    ) -> Option<FsError> {
        if is_dot_name(old_name) || !valid_name(new_name) {
            Some(FsError::InvalidPath)
        } else if !self.live(op) {
            Some(FsError::NotFound)
        } else if self.is_file_at(op) {
            Some(FsError::NotADirectory)
        } else if !self.entries_at(op).contains_key(old_name) {
            Some(FsError::NotFound)
        } else if !self.live(np) {
            Some(FsError::NotFound)
        } else if self.is_file_at(np) {
            Some(FsError::NotADirectory)
        } else if op == np && old_name == new_name {
            None
        } else if self.is_dir_at(self.entries_at(op)[old_name]) && in_subtree(
            self,
            np,
            self.entries_at(op)[old_name],
        ) {
            Some(FsError::CyclicMove)
        } else if self.entries_at(np).contains_key(new_name) {
            Some(FsError::AlreadyExists)
        } else {
            None
        }
    }

    /// Relocate the entry `old_name` of `old_parent` to `new_parent`,
    /// renaming it `new_name`, and re-point the moved directory's `..`.
    /// Fails with `CyclicMove` if the moved node is a directory and
    /// `new_parent` lies in its subtree, and with `AlreadyExists` on a name
    /// collision at the destination. On failure the tree is unchanged.
    pub fn move_entry(
        &mut self,
        old_name: &str,
        old_parent: FsIndex,
        new_name: &str,
        new_parent: FsIndex,
    ) -> (r: Result<(), FsError>)
        requires
            old(self).wf(),
        ensures
            final(self).wf(),
            match r {
                Ok(()) => {
                    let m = old(self).entries_at(old_parent@)[old_name@];
                    &&& old(self).move_check(old_name@, old_parent@, new_name@, new_parent@)
                        is None
                    &&& if old_parent@ == new_parent@ && old_name@ == new_name@ {
                        *final(self) == *old(self)
                    } else {
                        &&& final(self).table_len() == old(self).table_len()
                        &&& final(self).vacancy_seq() == old(self).vacancy_seq()
                        &&& final(self).is_dir_at(old_parent@)
                        &&& final(self).is_dir_at(new_parent@)
                        &&& final(self).entries_at(new_parent@) == (if old_parent@ == new_parent@ {
                            old(self).entries_at(old_parent@).remove(old_name@)
                        } else {
                            old(self).entries_at(new_parent@)
                        }).insert(new_name@, m)
                        &&& (old_parent@ != new_parent@ ==> final(self).entries_at(old_parent@)
                            == old(self).entries_at(old_parent@).remove(old_name@))
                        &&& final(self).live(m)
                        &&& final(self).is_dir_at(m) == old(self).is_dir_at(m)
                        &&& (old(self).is_dir_at(m) ==> final(self).entries_at(m) == old(self).entries_at(m).insert(dotdot_name(), new_parent@))
                        &&& (old(self).is_file_at(m) ==> final(self).is_file_at(m) && final(self).file_at(m) == old(self).file_at(m))
                        &&& forall|i: int|
                            i != old_parent@ && i != new_parent@ && i != m ==> same_slot(
                                *old(self),
                                *final(self),
                                i,
                            )
                    }
                },
                Err(e) => old(self).move_check(old_name@, old_parent@, new_name@, new_parent@)
                    == Some(e) && *final(self) == *old(self),
            },
    {
        if is_dot_str(old_name) || !valid_name_str(new_name) {
            return Err(FsError::InvalidPath);
        }
        let target = match self.get_entry(old_name, old_parent) {
            Err(e) => {
                return Err(e);
            },
            Ok(None) => {
                return Err(FsError::NotFound);
            },
            Ok(Some(i)) => i,
        };
        let m = target.0;
        let ghost mi = m as int;
        proof {
            lemma_entries_at_key(*self, old_parent@, old_name@);
        }
        match self.get_node(new_parent) {
            None => {
                return Err(FsError::NotFound);
            },
            Some(FsNode::File(_)) => {
                return Err(FsError::NotADirectory);
            },
            Some(FsNode::Directory(_)) => {},
        }
        if old_parent.0 == new_parent.0 && str_eq(old_name, new_name) {
            return Ok(());
        }
        let m_is_dir = match self.get_node(target) {
            Some(FsNode::Directory(_)) => true,
            Some(FsNode::File(_)) => false,
            None => {
                proof {
                    assert(false);
                }
                false
            },
        };
        if m_is_dir {
            if self.is_descendant(new_parent, m) {
                return Err(FsError::CyclicMove);
            }
        }
        match self.get_entry(new_name, new_parent) {
            Ok(Some(_)) => {
                return Err(FsError::AlreadyExists);
            },
            Ok(None) => {},
            Err(_) => {
                proof {
                    assert(false);
                }
                return Err(FsError::NotFound);
            },
        }
        let ghost t0 = *self;
        let op = old_parent.0;
        let np = new_parent.0;
        let ghost opi = op as int;
        let ghost npi = np as int;
        proof {
            assert(t0.edge(opi, old_name@, mi));
            assert(mi != opi) by {
                if mi == opi {
                    assert(t0.parent_dir(opi) == opi);
                    assert(t0.depth_of(opi) == t0.depth_of(opi) + 1);
                }
            }
            assert(mi != npi) by {
                if mi == npi {
                    if m_is_dir {
                        lemma_in_subtree_step(t0, npi, mi);
                    }
                }
            }
        }
        // detach from the old parent
        let removed: Option<usize> = match &mut self.node_table[op] {
            Some(FsNode::Directory(d)) => remove_entry(&mut d.entries, old_name),
            _ => {
                proof {
                    assert(false);
                }
                None
            },
        };
        proof {
            if removed is None {
                lemma_entry_map_contains(t0.dir_seq_at(opi), old_name@);
                assert(false);
            }
        }
        let ghost j0 = removed->0 as int;
        let ghost t1 = *self;
        // attach under the new parent
        match &mut self.node_table[np] {
            Some(FsNode::Directory(d)) => {
                d.entries.push(DirEntry { name: new_name.to_owned(), index: target });
            },
            _ => {
                proof {
                    assert(t1.node_table@[npi] == (if npi == opi {
                        t1.node_table@[opi]
                    } else {
                        t0.node_table@[npi]
                    }));
                    assert(false);
                }
            },
        }
        let ghost ev = DirEntryView { name: new_name@, index: mi };
        proof {
            assert(self.dir_seq_at(npi) =~= (if opi == npi {
                t0.dir_seq_at(opi).remove(j0)
            } else {
                t0.dir_seq_at(npi)
            }).push(ev));
            if opi != npi {
                assert(self.dir_seq_at(opi) =~= t0.dir_seq_at(opi).remove(j0));
            }
        }
        if m_is_dir {
            // re-point the moved directory's `..` at its new parent
            let dd = "..";
            proof {
                reveal_strlit("..");
                assert(dd@ =~= dotdot_name());
                assert(self.node_table@[mi] == t0.node_table@[mi]);
            }
            let repl: Option<usize> = match &mut self.node_table[m] {
                Some(FsNode::Directory(d)) => {
                    match find_entry(&d.entries, dd) {
                        Some(j) => {
                            d.entries[j] = DirEntry { name: dotdot_string(), index: new_parent };
                            Some(j)
                        },
                        None => None,
                    }
                },
                _ => {
                    proof {
                        assert(false);
                    }
                    None
                },
            };
            proof {
                if repl is None {
                    assert(t0.dir_ok(mi));
                    lemma_entry_map_contains(t0.dir_seq_at(mi), dotdot_name());
                    assert(false);
                }
            }
            self.depths = Ghost(moved_depths(t0, mi, npi));
            proof {
                let jd = repl->0 as int;
                assert(self.dir_seq_at(mi) =~= t0.dir_seq_at(mi).update(
                    jd,
                    DirEntryView { name: dotdot_name(), index: npi },
                ));
                assert forall|i: int| i != opi && i != npi && i != mi implies same_slot(
                    t0,
                    *self,
                    i,
                ) by {
                    if 0 <= i < t0.table_len() {
                        assert(self.node_table@[i] == t0.node_table@[i]);
                    }
                }
                lemma_move_wf(t0, *self, opi, npi, mi, old_name@, new_name@, j0, jd, true);
            }
        } else {
            proof {
                assert forall|i: int| i != opi && i != npi && i != mi implies same_slot(
                    t0,
                    *self,
                    i,
                ) by {
                    if 0 <= i < t0.table_len() {
                        assert(self.node_table@[i] == t0.node_table@[i]);
                    }
                }
                assert(same_slot(t0, *self, mi)) by {
                    assert(self.node_table@[mi] == t0.node_table@[mi]);
                }
                lemma_move_wf(t0, *self, opi, npi, mi, old_name@, new_name@, j0, 0, false);
            }
        }
        proof {
            assert(self.vacancy_seq() =~= t0.vacancy_seq());
        }
        Ok(())
    }

    /// Whether the directory at `d` holds any entry besides `.` and `..`.
    pub open spec fn has_real_entry(self, d: int) -> bool {
        exists|n: Seq<char>| #[trigger] self.entries_at(d).contains_key(n) && !is_dot_name(n)
    }

    /// Why deleting `name` under `parent` (non-recursively) would fail, if
    /// it would. The reserved names `.` and `..` are explicitly rejected.
    pub open spec fn delete_check(self, name: Seq<char>, p: int) -> Option<FsError> {
        if is_dot_name(name) {
            Some(FsError::InvalidPath)
        } else if !self.live(p) {
            Some(FsError::NotFound)
        } else if self.is_file_at(p) {
            Some(FsError::NotADirectory)
        } else if !self.entries_at(p).contains_key(name) {
            Some(FsError::NotFound)
        } else if self.is_dir_at(self.entries_at(p)[name]) && self.has_real_entry(
            self.entries_at(p)[name],
        ) {
            Some(FsError::DirectoryNotEmpty)
        } else {
            None
        }
    }

    /// Remove the entry `name` from the directory `parent` and reclaim the
    /// slot it pointed to. The target must be a file or an empty directory;
    /// a directory with real entries fails with `DirectoryNotEmpty`. On
    /// failure the tree is unchanged; on success the freed slot is pushed
    /// onto the freelist.
    pub fn delete(&mut self, name: &str, parent: FsIndex) -> (r: Result<(), FsError>)
        requires
            old(self).wf(),
        ensures
            final(self).wf(),
            match r {
                Ok(()) => {
                    let k = old(self).entries_at(parent@)[name@];
                    &&& old(self).delete_check(name@, parent@) is None
                    &&& final(self).table_len() == old(self).table_len()
                    &&& final(self).is_dir_at(parent@)
                    &&& final(self).entries_at(parent@) == old(self).entries_at(parent@).remove(
                        name@,
                    )
                    &&& !final(self).live(k)
                    &&& final(self).vacancy_seq() == old(self).vacancy_seq().push(k)
                    &&& forall|i: int|
                        i != parent@ && i != k ==> same_slot(*old(self), *final(self), i)
                },
                Err(e) => old(self).delete_check(name@, parent@) == Some(e) && *final(self)
                    == *old(self),
            },
    {
        if is_dot_str(name) {
            return Err(FsError::InvalidPath);
        }
        let target = match self.get_entry(name, parent) {
            Err(e) => {
                return Err(e);
            },
            Ok(None) => {
                return Err(FsError::NotFound);
            },
            Ok(Some(i)) => i,
        };
        let k = target.0;
        let ghost ki = k as int;
        proof {
            lemma_entries_at_key(*self, parent@, name@);
        }
        match &self.node_table[k] {
            Some(FsNode::Directory(d)) => {
                let hr = dir_has_real_entry(&d.entries);
                proof {
                    let s = self.dir_seq_at(ki);
                    assert(s == d.dir_view());
                    assert(self.dir_ok(ki));
                    if hr {
                        let j = choose|j: int|
                            0 <= j < d.entries@.len() && !is_dot_name(
                                (#[trigger] d.entries@[j])@.name,
                            );
                        lemma_entry_map_at(s, j);
                        assert(self.entries_at(ki).contains_key(s[j].name));
                        assert(self.has_real_entry(ki));
                    } else if self.has_real_entry(ki) {
                        let n = choose|n: Seq<char>| #[trigger]
                            self.entries_at(ki).contains_key(n) && !is_dot_name(n);
                        lemma_entry_map_contains(s, n);
                        let j = choose|j: int| 0 <= j < s.len() && s[j].name == n;
                        assert(!is_dot_name((d.entries@[j])@.name));
                        assert(false);
                    }
                }
                if hr {
                    return Err(FsError::DirectoryNotEmpty);
                }
            },
            _ => {},
        }
        let ghost t0 = *self;
        let p = parent.0;
        let ghost pi = p as int;
        proof {
            assert(pi != ki) by {
                if pi == ki {
                    assert(t0.edge(pi, name@, pi));
                    assert(t0.parent_dir(pi) == pi);
                    if pi >= 1 {
                        assert(t0.depth_of(pi) == t0.depth_of(pi) + 1);
                    }
                }
            }
        }
        let removed: Option<usize> = match &mut self.node_table[p] {
            Some(FsNode::Directory(d)) => remove_entry(&mut d.entries, name),
            _ => {
                proof {
                    assert(false);
                }
                None
            },
        };
        proof {
            if removed is None {
                lemma_entry_map_contains(t0.dir_seq_at(pi), name@);
                assert(false);
            }
        }
        self.node_table[k] = None;
        self.vacancies.push(k);
        proof {
            let j0 = removed->0 as int;
            assert(t0.dir_ok(pi));
            assert(self.dir_seq_at(pi) =~= t0.dir_seq_at(pi).remove(j0));
            assert(t0.dir_seq_at(pi)[j0].name == name@);
            assert forall|i: int| i != pi && i != ki implies same_slot(t0, *self, i) by {
                if 0 <= i < t0.table_len() {
                    assert(self.node_table@[i] == t0.node_table@[i]);
                }
            }
            lemma_delete_wf(t0, *self, pi, ki, name@, j0);
            lemma_entry_map_remove(t0.dir_seq_at(pi), j0);
            assert(self.vacancy_seq() =~= t0.vacancy_seq().push(ki));
        }
        Ok(())
    }

    /// Why deleting `name` under `parent` recursively would fail, if it
    /// would: like the non-recursive delete, except that a non-empty target
    /// directory is allowed (its contents go with it).
    pub open spec fn delete_rec_check(self, name: Seq<char>, p: int) -> Option<FsError> {
        if is_dot_name(name) {
            Some(FsError::InvalidPath)
        } else if !self.live(p) {
            Some(FsError::NotFound)
        } else if self.is_file_at(p) {
            Some(FsError::NotADirectory)
        } else if !self.entries_at(p).contains_key(name) {
            Some(FsError::NotFound)
        } else {
            None
        }
    }

    /// Remove the entry `name` from the directory `parent`, first deleting
    /// every entry of the target besides `.` and `..`, recursively. A file
    /// target behaves as in `delete`. All freed slots join the freelist; on
    /// failure the tree is unchanged.
    pub fn delete_recursive(&mut self, name: &str, parent: FsIndex) -> (r: Result<(), FsError>)
        requires
            old(self).wf(),
        ensures
            final(self).wf(),
            match r {
                Ok(()) => {
                    let k = old(self).entries_at(parent@)[name@];
                    &&& old(self).delete_rec_check(name@, parent@) is None
                    &&& final(self).table_len() == old(self).table_len()
                    &&& final(self).is_dir_at(parent@)
                    &&& final(self).entries_at(parent@) == old(self).entries_at(parent@).remove(
                        name@,
                    )
                    &&& !final(self).live(k)
                    &&& old(self).vacancy_seq().is_prefix_of(final(self).vacancy_seq())
                    &&& forall|i: int|
                        i != parent@ ==> #[trigger] same_slot(*old(self), *final(self), i) || (old(
                            self,
                        ).live(i) && !final(self).live(i))
                },
                Err(e) => old(self).delete_rec_check(name@, parent@) == Some(e) && *final(self)
                    == *old(self),
            },
    {
        let r = self.delete_rec(name, parent);
        proof {
            if r is Ok {
                let n0 = old(self).vacancy_seq().len() as int;
                assert(old(self).vacancy_seq() =~= final(self).vacancy_seq().subrange(0, n0));
            }
        }
        r
    }

    /// Recursive worker behind `delete_recursive`.
    fn delete_rec(&mut self, name: &str, parent: FsIndex) -> (r: Result<(), FsError>)
        requires
            old(self).wf(),
        ensures
            final(self).wf(),
            match r {
                Ok(()) => {
                    let k = old(self).entries_at(parent@)[name@];
                    &&& old(self).delete_rec_check(name@, parent@) is None
                    &&& final(self).table_len() == old(self).table_len()
                    &&& final(self).depths@ == old(self).depths@
                    &&& final(self).is_dir_at(parent@)
                    &&& final(self).dir_seq_at(parent@).len() == old(self).dir_seq_at(
                        parent@,
                    ).len() - 1
                    &&& final(self).entries_at(parent@) == old(self).entries_at(parent@).remove(
                        name@,
                    )
                    &&& !final(self).live(k)
                    &&& (forall|i: int|
                        i != parent@ ==> #[trigger] same_slot(*old(self), *final(self), i) || (old(
                            self,
                        ).live(i) && !final(self).live(i)))
                    &&& (forall|i: int|
                        old(self).is_dir_at(i) && !final(self).live(i) ==> in_subtree(
                            *old(self),
                            i,
                            k,
                        ))
                    &&& old(self).vacancies@.is_prefix_of(final(self).vacancies@)
                    &&& (forall|j: int|
                        old(self).vacancies@.len() <= j < final(self).vacancies@.len() ==> old(
                            self,
                        ).live(#[trigger] final(self).vacancies@[j] as int))
                },
                Err(e) => old(self).delete_rec_check(name@, parent@) == Some(e) && *final(self)
                    == *old(self),
            },
        decreases old(self).table_len() - old(self).depth_of(parent@),
    {
        if is_dot_str(name) {
            return Err(FsError::InvalidPath);
        }
        let target = match self.get_entry(name, parent) {
            Err(e) => {
                return Err(e);
            },
            Ok(None) => {
                return Err(FsError::NotFound);
            },
            Ok(Some(i)) => i,
        };
        let k = target.0;
        let ghost ki = k as int;
        let ghost t0 = *self;
        let ghost pi = parent@;
        proof {
            lemma_entries_at_key(t0, pi, name@);
            assert(t0.edge(pi, name@, ki));
            assert(pi != ki) by {
                if pi == ki {
                    assert(t0.parent_dir(pi) == pi);
                    assert(t0.depth_of(pi) == t0.depth_of(pi) + 1);
                }
            }
        }
        let is_dir = match self.get_node(target) {
            Some(FsNode::Directory(_)) => true,
            _ => false,
        };
        if is_dir {
            proof {
                assert(t0.parent_dir(ki) == pi);
                assert(t0.depth_of(ki) == t0.depth_of(pi) + 1);
                lemma_in_subtree_step(t0, ki, ki);
                assert(shrinking_state(t0, t0, ki)) by {
                    assert forall|i: int| i != ki implies same_slot(t0, t0, i) || (t0.live(i)
                        && !t0.live(i)) by {}
                    assert(t0.vacancies@.is_prefix_of(t0.vacancies@)) by {
                        assert(t0.vacancies@ =~= t0.vacancies@.subrange(
                            0,
                            t0.vacancies@.len() as int,
                        ));
                    }
                }
            }
            loop
                invariant
                    ki == k as int,
                    pi == parent@,
                    t0 == *old(self),
                    shrinking_state(t0, *self, ki),
                    t0.wf(),
                    t0.is_dir_at(pi),
                    t0.edge(pi, name@, ki),
                    t0.depth_of(ki) == t0.depth_of(pi) + 1,
                    ki == t0.entries_at(pi)[name@],
                    pi != ki,
                ensures
                    shrinking_state(t0, *self, ki),
                    !self.has_real_entry(ki),
                decreases self.dir_seq_at(ki).len(),
            {
                let next_name: Option<String> = match &self.node_table[k] {
                    Some(FsNode::Directory(d)) => {
                        let found = find_real_entry(&d.entries);
                        proof {
                            assert(self.dir_seq_at(ki) == d.dir_view());
                            assert(self.dir_ok(ki));
                            match &found {
                                Some(nn) => {
                                    let j = choose|j: int|
                                        0 <= j < d.entries@.len() && (
                                        #[trigger] d.entries@[j])@.name == nn@;
                                    lemma_entry_map_at(self.dir_seq_at(ki), j);
                                    assert(self.entries_at(ki).contains_key(nn@));
                                },
                                None => {
                                    if self.has_real_entry(ki) {
                                        let n = choose|n: Seq<char>| #[trigger]
                                            self.entries_at(ki).contains_key(n) && !is_dot_name(n);
                                        lemma_entry_map_contains(self.dir_seq_at(ki), n);
                                        let j = choose|j: int|
                                            0 <= j < self.dir_seq_at(ki).len()
                                                && self.dir_seq_at(ki)[j].name == n;
                                        assert(is_dot_name((d.entries@[j])@.name));
                                        assert(false);
                                    }
                                },
                            }
                        }
                        found
                    },
                    _ => {
                        proof {
                            assert(false);
                        }
                        None
                    },
                };
                match next_name {
                    None => {
                        proof {
                            assert(!self.has_real_entry(ki));
                        }
                        break ;
                    },
                    Some(n2) => {
                        let ghost t_pre = *self;
                        let ghost ci = t_pre.entries_at(ki)[n2@];
                        proof {
                            lemma_entries_at_key(t_pre, ki, n2@);
                            assert(t_pre.edge(ki, n2@, ci));
                            assert(t_pre.depth_of(ki) == t0.depth_of(ki));
                            lemma_depth_lt_len(t_pre, ki);
                        }
                        let res = self.delete_rec(n2.as_str(), FsIndex(k));
                        match res {
                            Ok(()) => {},
                            Err(_) => {
                                proof {
                                    assert(t_pre.delete_rec_check(n2@, ki) is None);
                                    assert(false);
                                }
                            },
                        }
                        proof {
                            lemma_shrink_compose(t0, t_pre, *self, ki, ci, n2@);
                        }
                    },
                }
            }
        }
        // detach the (now childless) target from its parent and reclaim it
        let ghost t3 = *self;
        proof {
            if is_dir {
                assert(shrinking_state(t0, t3, ki));
            } else {
                assert(!t3.is_dir_at(ki));
                assert forall|i: int| i != ki implies same_slot(t0, t3, i) || (t0.live(i)
                    && !t3.live(i)) by {}
                assert forall|i: int| t0.is_dir_at(i) && !t3.live(i) implies in_subtree(
                    t0,
                    i,
                    ki,
                ) by {
                    assert(t0.live(i));
                }
                assert(t0.vacancies@.is_prefix_of(t3.vacancies@)) by {
                    assert(t0.vacancies@ =~= t3.vacancies@.subrange(
                        0,
                        t0.vacancies@.len() as int,
                    ));
                }
            }
            // the parent is outside the target's subtree, hence untouched
            assert(same_slot(t0, t3, pi)) by {
                if !t3.live(pi) {
                    assert(in_subtree(t0, pi, ki));
                    lemma_in_subtree_depth(t0, pi, ki);
                }
            }
            assert(t3.is_dir_at(pi));
            assert(t3.dir_seq_at(pi) == t0.dir_seq_at(pi));
            assert(t3.entries_at(pi).contains_key(name@) && t3.entries_at(pi)[name@] == ki);
            assert(t3.is_dir_at(ki) ==> !t3.has_real_entry(ki));
        }
        let removed: Option<usize> = match &mut self.node_table[parent.0] {
            Some(FsNode::Directory(d)) => remove_entry(&mut d.entries, name),
            _ => {
                proof {
                    assert(false);
                }
                None
            },
        };
        proof {
            if removed is None {
                lemma_entry_map_contains(t3.dir_seq_at(pi), name@);
                assert(false);
            }
        }
        self.node_table[k] = None;
        self.vacancies.push(k);
        proof {
            let j0 = removed->0 as int;
            assert(t3.dir_ok(pi));
            assert(self.dir_seq_at(pi) =~= t3.dir_seq_at(pi).remove(j0));
            assert(t3.dir_seq_at(pi)[j0].name == name@);
            assert forall|i: int| i != pi && i != ki implies same_slot(t3, *self, i) by {
                if 0 <= i < t3.table_len() {
                    assert(self.node_table@[i] == t3.node_table@[i]);
                }
            }
            lemma_delete_wf(t3, *self, pi, ki, name@, j0);
            lemma_entry_map_remove(t3.dir_seq_at(pi), j0);
            assert(self.entries_at(pi) == t0.entries_at(pi).remove(name@));
            // compose the relation to the entry state
            assert forall|i: int| i != pi implies same_slot(t0, *self, i) || (t0.live(i)
                && !self.live(i)) by {
                if i == ki {
                    assert(t0.live(ki) && !self.live(ki));
                } else {
                    assert(same_slot(t0, t3, i) || (t0.live(i) && !t3.live(i)));
                    assert(same_slot(t3, *self, i));
                    if same_slot(t0, t3, i) {
                        assert(same_slot(t0, *self, i));
                    } else {
                        assert(!self.live(i));
                    }
                }
            }
            assert forall|i: int| t0.is_dir_at(i) && !self.live(i) implies in_subtree(
                t0,
                i,
                ki,
            ) by {
                if i == ki {
                    assert(in_subtree(t0, ki, ki)) by {
                        lemma_in_subtree_step(t0, ki, ki);
                    }
                } else if !t3.live(i) {
                } else {
                    assert(same_slot(t3, *self, i) || i == pi);
                    assert(self.live(i));
                }
            }
            // the freelist grew by exactly the freed slots
            assert(t0.vacancies@.is_prefix_of(self.vacancies@)) by {
                assert(t0.vacancies@.is_prefix_of(t3.vacancies@));
                assert(self.vacancies@ == t3.vacancies@.push(k));
                assert(t0.vacancies@ =~= self.vacancies@.subrange(0, t0.vacancies@.len() as int));
            }
            assert forall|j: int|
                t0.vacancies@.len() <= j < self.vacancies@.len() implies t0.live(
                #[trigger] self.vacancies@[j] as int) by {
                if j < t3.vacancies@.len() {
                    assert(t0.live(t3.vacancies@[j] as int));
                } else {
                    assert(self.vacancies@[j] == k);
                }
            }
        }
        Ok(())
    }

    /// Whether the node at `index` is a directory. Fails with `NotFound` on
    /// a vacant slot.
    pub fn is_directory(&self, index: FsIndex) -> (r: Result<bool, FsError>)
        ensures
            match r {
                Ok(b) => self.live(index@) && b == self.is_dir_at(index@),
                Err(e) => e == FsError::NotFound && !self.live(index@),
            },
    {
        match self.get_node(index) {
            Some(FsNode::Directory(_)) => Ok(true),
            Some(FsNode::File(_)) => Ok(false),
            None => Err(FsError::NotFound),
        }
    }

    /// Whether the node at `index` is a file. Fails with `NotFound` on a
    /// vacant slot.
    pub fn is_file(&self, index: FsIndex) -> (r: Result<bool, FsError>)
        ensures
            match r {
                Ok(b) => self.live(index@) && b == self.is_file_at(index@),
                Err(e) => e == FsError::NotFound && !self.live(index@),
            },
    {
        match self.is_directory(index) {
            Ok(b) => {
                proof {
                    assert(self.is_file_at(index@) == !self.is_dir_at(index@));
                }
                Ok(!b)
            },
            Err(e) => Err(e),
        }
    }
}

/// Whether the `..` chain starting at directory `i` passes through `m`
/// within `fuel` steps.
spec fn chain_hits(t: FsTree, i: int, m: int, fuel: nat) -> bool
    decreases fuel,
{
    i == m || (fuel > 0 && i != 0 && chain_hits(t, t.parent_dir(i), m, (fuel - 1) as nat))
}

/// Directory `i` lies in the subtree rooted at `m`: following `..` from `i`
/// reaches `m` (in particular, `i == m` qualifies).
pub closed spec fn in_subtree(t: FsTree, i: int, m: int) -> bool {
    t.is_dir_at(i) && chain_hits(t, i, m, t.depth_of(i))
}

/// How subtree membership unfolds one step of the `..` chain: a directory is
/// in `m`'s subtree exactly when it is `m` itself, or is not the root and
/// its parent is in `m`'s subtree.
pub proof fn lemma_in_subtree_step(t: FsTree, i: int, m: int)
    requires
        t.wf(),
        t.is_dir_at(i),
    ensures
        in_subtree(t, i, m) == (i == m || (i != 0 && in_subtree(t, t.parent_dir(i), m))),
{
    assert(t.dir_ok(i));
    if i == 0 {
        assert(t.depth_of(0) == 0);
        assert(chain_hits(t, 0, m, 0) == (0 == m));
    } else {
        let q = t.parent_dir(i);
        assert(t.is_dir_at(q));
        assert(t.depth_of(i) == t.depth_of(q) + 1);
        assert(chain_hits(t, i, m, t.depth_of(i)) == (i == m || chain_hits(t, q, m, t.depth_of(q))));
    }
}

/// Every member of `m`'s subtree sits at or below `m`'s depth, and `m`
/// itself is a directory.
proof fn lemma_in_subtree_depth(t: FsTree, i: int, m: int)
    requires
        t.wf(),
        in_subtree(t, i, m),
    ensures
        t.is_dir_at(m),
        t.depth_of(i) >= t.depth_of(m),
        i != m ==> t.depth_of(i) > t.depth_of(m),
    decreases t.depth_of(i),
{
    lemma_in_subtree_step(t, i, m);
    if i != m {
        assert(t.dir_ok(i));
        lemma_in_subtree_depth(t, t.parent_dir(i), m);
    }
}

/// Subtree membership is transitive.
proof fn lemma_in_subtree_trans(t: FsTree, i: int, c: int, k: int)
    requires
        t.wf(),
        in_subtree(t, i, c),
        in_subtree(t, c, k),
    ensures
        in_subtree(t, i, k),
    decreases t.depth_of(i),
{
    lemma_in_subtree_step(t, i, c);
    if i != c {
        lemma_in_subtree_trans(t, t.parent_dir(i), c, k);
        assert(t.dir_ok(i));
        lemma_in_subtree_step(t, i, k);
    }
}

/// A directory reached by a real edge lies in the subtree of the directory
/// holding the edge.
proof fn lemma_edge_into_subtree(t: FsTree, d: int, n: Seq<char>, c: int)
    requires
        t.wf(),
        t.edge(d, n, c),
        t.is_dir_at(c),
    ensures
        in_subtree(t, c, d),
        c != 0,
{
    lemma_entries_at_key(t, d, n);
    assert(t.parent_dir(c) == d);
    lemma_in_subtree_step(t, c, d);
    lemma_in_subtree_step(t, d, d);
}

/// Subtree membership carries over from a tree `tp` to a tree `t0` whose
/// directories agree with `tp`'s on kind, parent and depth.
proof fn lemma_in_subtree_transfer(t0: FsTree, tp: FsTree, i: int, c: int)
    requires
        t0.wf(),
        tp.wf(),
        tp.depths@ == t0.depths@,
        forall|j: int| #[trigger]
            tp.is_dir_at(j) ==> t0.is_dir_at(j) && tp.parent_dir(j) == t0.parent_dir(j),
        in_subtree(tp, i, c),
    ensures
        in_subtree(t0, i, c),
    decreases tp.depth_of(i),
{
    lemma_in_subtree_step(tp, i, c);
    if i == c {
        lemma_in_subtree_step(t0, i, c);
    } else {
        assert(tp.dir_ok(i));
        assert(tp.depth_of(i) == tp.depth_of(tp.parent_dir(i)) + 1);
        lemma_in_subtree_transfer(t0, tp, tp.parent_dir(i), c);
        lemma_in_subtree_step(t0, i, c);
    }
}

/// The set of directories on the `..` chain from `c` up to the root.
spec fn ancestor_set(t: FsTree, c: int) -> Set<int>
    decreases t.depth_of(c),
    when t.wf() && t.is_dir_at(c)
{
    if c == 0 {
        set![0]
    } else {
        ancestor_set(t, t.parent_dir(c)).insert(c)
    }
}

/// The ancestor chain of a directory is a finite set of live directories of
/// cardinality one more than its depth, all at or below its depth.
proof fn lemma_ancestor_set(t: FsTree, c: int)
    requires
        t.wf(),
        t.is_dir_at(c),
    ensures
        ancestor_set(t, c).finite(),
        ancestor_set(t, c).len() == t.depth_of(c) + 1,
        forall|x: int| #[trigger]
            ancestor_set(t, c).contains(x) ==> t.is_dir_at(x) && t.depth_of(x) <= t.depth_of(c),
    decreases t.depth_of(c),
{
    assert(t.dir_ok(c));
    if c == 0 {
        assert(ancestor_set(t, 0) =~= set![0]);
    } else {
        let q = t.parent_dir(c);
        assert(t.is_dir_at(q));
        assert(t.depth_of(c) == t.depth_of(q) + 1);
        lemma_ancestor_set(t, q);
        assert(!ancestor_set(t, q).contains(c));
    }
}

/// Depths never reach the arena size: a chain of distinct live directories
/// cannot be longer than the table.
proof fn lemma_depth_lt_len(t: FsTree, c: int)
    requires
        t.wf(),
        t.is_dir_at(c),
    ensures
        t.depth_of(c) < t.table_len(),
{
    lemma_ancestor_set(t, c);
    let anc = ancestor_set(t, c);
    let range = vstd::set_lib::set_int_range(0, t.table_len());
    vstd::set_lib::lemma_int_range(0, t.table_len());
    assert(anc.subset_of(range)) by {
        assert forall|x: int| #[trigger] anc.contains(x) implies range.contains(x) by {
            assert(t.is_dir_at(x));
        }
    }
    vstd::set_lib::lemma_len_subset(anc, range);
}

/// The relation between the tree `t0` at the start of a recursive delete of
/// the directory in slot `ki` and a later intermediate tree `t`: slots
/// outside `ki` are untouched or freed, only directories inside `ki`'s
/// subtree have been freed, `ki` has only lost entries, and the freelist has
/// only grown, by slots that were live.
spec fn shrinking_state(t0: FsTree, t: FsTree, ki: int) -> bool {
    &&& t.wf()
    &&& t.is_dir_at(ki)
    &&& t0.is_dir_at(ki)
    &&& t.table_len() == t0.table_len()
    &&& t.depths@ == t0.depths@
    &&& (forall|i: int|
        i != ki ==> #[trigger] same_slot(t0, t, i) || (t0.live(i) && !t.live(i)))
    &&& (forall|i: int| t0.is_dir_at(i) && !t.live(i) ==> in_subtree(t0, i, ki))
    &&& (forall|n: Seq<char>| #[trigger]
        t.entries_at(ki).contains_key(n) ==> t0.entries_at(ki).contains_key(n) && t.entries_at(
            ki,
        )[n] == t0.entries_at(ki)[n])
    &&& t0.vacancies@.is_prefix_of(t.vacancies@)
    &&& (forall|j: int|
        t0.vacancies@.len() <= j < t.vacancies@.len() ==> t0.live(
            #[trigger] t.vacancies@[j] as int,
        ))
}

/// One recursive deletion step (removing the child `n2` of `ki`, which
/// points at `ci`, and everything below it) keeps the shrinking relation to
/// the original tree.
proof fn lemma_shrink_compose(
    t0: FsTree,
    tp: FsTree,
    tn: FsTree,
    ki: int,
    ci: int,
    n2: Seq<char>,
)
    requires
        t0.wf(),
        shrinking_state(t0, tp, ki),
        !is_dot_name(n2),
        tp.entries_at(ki).contains_key(n2),
        ci == tp.entries_at(ki)[n2],
        tn.wf(),
        tn.table_len() == tp.table_len(),
        tn.depths@ == tp.depths@,
        tn.is_dir_at(ki),
        tn.entries_at(ki) == tp.entries_at(ki).remove(n2),
        !tn.live(ci),
        forall|i: int| i != ki ==> #[trigger] same_slot(tp, tn, i) || (tp.live(i) && !tn.live(i)),
        forall|i: int| tp.is_dir_at(i) && !tn.live(i) ==> in_subtree(tp, i, ci),
        tp.vacancies@.is_prefix_of(tn.vacancies@),
        forall|j: int|
            tp.vacancies@.len() <= j < tn.vacancies@.len() ==> tp.live(
                #[trigger] tn.vacancies@[j] as int,
            ),
    ensures
        shrinking_state(t0, tn, ki),
{
    // directories of the intermediate tree agree with the original
    assert forall|j: int| #[trigger] tp.is_dir_at(j) implies t0.is_dir_at(j) && tp.parent_dir(j)
        == t0.parent_dir(j) by {
        if j != ki {
            assert(same_slot(t0, tp, j) || (t0.live(j) && !tp.live(j)));
            assert(same_slot(t0, tp, j));
        } else {
            assert(tp.dir_ok(ki));
            assert(tp.entries_at(ki).contains_key(dotdot_name()));
        }
    }
    assert(tp.edge(ki, n2, ci));
    // slots outside ki: untouched or freed, relative to the original
    assert forall|i: int| i != ki implies same_slot(t0, tn, i) || (t0.live(i) && !tn.live(i)) by {
        assert(same_slot(t0, tp, i) || (t0.live(i) && !tp.live(i)));
        assert(same_slot(tp, tn, i) || (tp.live(i) && !tn.live(i)));
        if same_slot(t0, tp, i) {
            if same_slot(tp, tn, i) {
                assert(same_slot(t0, tn, i));
            }
        } else {
            assert(!tp.live(i));
            assert(same_slot(tp, tn, i));
            assert(!tn.live(i));
        }
    }
    // freed directories lie inside ki's subtree
    assert forall|i: int| t0.is_dir_at(i) && !tn.live(i) implies in_subtree(t0, i, ki) by {
        if tp.live(i) {
            assert(i != ki);
            assert(same_slot(t0, tp, i));
            assert(tp.is_dir_at(i));
            assert(in_subtree(tp, i, ci));
            lemma_in_subtree_depth(tp, i, ci);
            lemma_in_subtree_transfer(t0, tp, i, ci);
            lemma_edge_into_subtree(tp, ki, n2, ci);
            lemma_in_subtree_transfer(t0, tp, ci, ki);
            lemma_in_subtree_trans(t0, i, ci, ki);
        }
    }
    // ki has only lost entries
    assert forall|n: Seq<char>| #[trigger] tn.entries_at(ki).contains_key(n) implies t0.entries_at(
        ki,
    ).contains_key(n) && tn.entries_at(ki)[n] == t0.entries_at(ki)[n] by {
        assert(tp.entries_at(ki).contains_key(n));
    }
    // the freelist has only grown, by slots that were live at the start
    assert(t0.vacancies@.is_prefix_of(tn.vacancies@)) by {
        assert(t0.vacancies@ =~= tn.vacancies@.subrange(0, t0.vacancies@.len() as int));
    }
    assert forall|j: int| t0.vacancies@.len() <= j < tn.vacancies@.len() implies t0.live(
        #[trigger] tn.vacancies@[j] as int) by {
        if j < tp.vacancies@.len() {
            assert(tp.vacancies@[j] == tn.vacancies@[j]);
            assert(t0.live(tp.vacancies@[j] as int));
        } else {
            let v = tn.vacancies@[j] as int;
            assert(tp.live(v));
            if v != ki {
                assert(same_slot(t0, tp, v) || (t0.live(v) && !tp.live(v)));
            }
        }
    }
}

/// Slot `i` holds the same thing in `t1` and `t2`.
pub open spec fn same_slot(t1: FsTree, t2: FsTree, i: int) -> bool {
    &&& t1.live(i) == t2.live(i)
    &&& t1.is_dir_at(i) == t2.is_dir_at(i)
    &&& t1.is_file_at(i) == t2.is_file_at(i)
    &&& t1.is_dir_at(i) ==> t1.dir_seq_at(i) == t2.dir_seq_at(i)
    &&& t1.is_file_at(i) ==> t1.file_at(i) == t2.file_at(i)
}

/// Well-formedness transfers to a tree with the same directory structure,
/// freelist and depths (only file contents may differ).
proof fn lemma_wf_same_structure(t1: FsTree, t2: FsTree)
    requires
        t1.wf(),
        t2.table_len() == t1.table_len(),
        forall|i: int| 0 <= i < t1.table_len() ==> (#[trigger] t2.live(i)) == t1.live(i),
        forall|i: int| 0 <= i < t1.table_len() ==> (#[trigger] t2.is_dir_at(i)) == t1.is_dir_at(i),
        forall|i: int|
            0 <= i < t1.table_len() ==> (#[trigger] t2.is_file_at(i)) == t1.is_file_at(i),
        forall|i: int| t1.is_dir_at(i) ==> (#[trigger] t2.dir_seq_at(i)) == t1.dir_seq_at(i),
        t2.vacancies@ == t1.vacancies@,
        t2.depths@ == t1.depths@,
    ensures
        t2.wf(),
{
    assert forall|d: int| t2.is_dir_at(d) implies t2.dir_ok(d) by {
        assert(t1.dir_ok(d));
        assert(t2.dir_seq_at(d) == t1.dir_seq_at(d));
        let s = t2.dir_seq_at(d);
        assert forall|j: int| 0 <= j < s.len() implies {
            let e = #[trigger] s[j];
            t2.live(e.index) && (!is_dot_name(e.name) ==> e.index != 0)
        } by {
            assert(t1.live(s[j].index));
            assert(0 <= s[j].index < t1.table_len());
        }
        assert(t2.is_dir_at(t2.entries_at(d)[dotdot_name()])) by {
            assert(t1.is_dir_at(t1.entries_at(d)[dotdot_name()]));
            assert(0 <= t1.entries_at(d)[dotdot_name()] < t1.table_len());
        }
    }
    assert forall|d: int, n: Seq<char>, c: int| #[trigger] t2.edge(d, n, c) implies t1.edge(
        d,
        n,
        c,
    ) by {
        assert(t2.dir_seq_at(d) == t1.dir_seq_at(d));
    }
    assert forall|d: int, n: Seq<char>, c: int| #[trigger] t1.edge(d, n, c) implies t2.edge(
        d,
        n,
        c,
    ) by {
        assert(0 <= d < t1.table_len());
        assert(t2.dir_seq_at(d) == t1.dir_seq_at(d));
    }
    assert forall|c: int| 1 <= c < t2.table_len() && t2.live(c) implies t2.has_parent_edge(c) by {
        assert(t1.has_parent_edge(c));
        let (d, n) = choose|d: int, n: Seq<char>| t1.edge(d, n, c);
        assert(t2.edge(d, n, c));
    }
    assert forall|d: int, n: Seq<char>, c: int|
        #[trigger] t2.edge(d, n, c) && t2.is_dir_at(c) implies t2.parent_dir(c) == d by {
        assert(t1.edge(d, n, c));
        assert(0 <= c < t1.table_len());
        assert(t1.is_dir_at(c));
        assert(t2.dir_seq_at(c) == t1.dir_seq_at(c));
    }
    assert forall|c: int| 1 <= c < t2.table_len() && t2.is_dir_at(c) implies #[trigger] t2.depth_of(
        c,
    ) == t2.depth_of(t2.parent_dir(c)) + 1 by {
        assert(t1.is_dir_at(c));
        assert(t1.depth_of(c) == t1.depth_of(t1.parent_dir(c)) + 1);
        assert(t2.dir_seq_at(c) == t1.dir_seq_at(c));
        assert(t2.parent_dir(c) == t1.parent_dir(c));
        assert(t2.depth_of(c) == t1.depth_of(c));
        assert(t2.depth_of(t2.parent_dir(c)) == t1.depth_of(t1.parent_dir(c)));
    }
    assert forall|k: int| 0 <= k < t2.vacancies@.len() implies (#[trigger] t2.vacancies@[k] as int)
        < t2.table_len() && t2.node_table@[t2.vacancies@[k] as int] is None by {
        assert(t1.vacancies@[k] == t2.vacancies@[k]);
        assert(!t1.live(t1.vacancies@[k] as int));
        assert(!t2.live(t2.vacancies@[k] as int));
    }
    assert(t2.is_dir_at(0));
    assert(t2.dir_seq_at(0) == t1.dir_seq_at(0));
    assert(t2.entries_at(0) == t1.entries_at(0));
}

/// The entry map of a freshly seeded directory holds exactly `.` and `..`.
proof fn lemma_two_dots_map(s: Seq<DirEntryView>, this: int, par: int)
    requires
        s == seq![
            DirEntryView { name: dot_name(), index: this },
            DirEntryView { name: dotdot_name(), index: par },
        ],
    ensures
        distinct_names(s),
        entry_map_of(s) == Map::<Seq<char>, int>::empty().insert(dot_name(), this).insert(
            dotdot_name(),
            par,
        ),
        forall|n: Seq<char>| #[trigger] entry_map_of(s).contains_key(n) ==> is_dot_name(n),
{
    assert(s[0].name == dot_name() && s[0].index == this);
    assert(s[1].name == dotdot_name() && s[1].index == par);
    assert(distinct_names(s)) by {
        assert(dot_name().len() == 1);
        assert(dotdot_name().len() == 2);
    }
    lemma_entry_map_at(s, 0);
    lemma_entry_map_at(s, 1);
    let m = entry_map_of(s);
    let rhs = Map::<Seq<char>, int>::empty().insert(dot_name(), this).insert(dotdot_name(), par);
    assert forall|n: Seq<char>| #[trigger] m.contains_key(n) implies is_dot_name(n) by {
        lemma_entry_map_contains(s, n);
        let j = choose|j: int| 0 <= j < s.len() && s[j].name == n;
        assert(j == 0 || j == 1);
    }
    assert forall|n: Seq<char>| #[trigger] rhs.contains_key(n) implies m.contains_key(n) by {
        assert(n == dot_name() || n == dotdot_name());
    }
    assert_maps_equal!(m, rhs);
}

/// In a well-formed tree, the target of any directory entry is live, and a
/// real entry never names the root.
proof fn lemma_entries_at_key(t: FsTree, d: int, n: Seq<char>)
    requires
        t.wf(),
        t.is_dir_at(d),
        t.entries_at(d).contains_key(n),
    ensures
        t.live(t.entries_at(d)[n]),
        !is_dot_name(n) ==> t.entries_at(d)[n] != 0,
{
    assert(t.dir_ok(d));
    let s = t.dir_seq_at(d);
    lemma_entry_map_contains(s, n);
    let j = choose|j: int| 0 <= j < s.len() && s[j].name == n;
    lemma_entry_map_at(s, j);
    assert(t.live(s[j].index));
}

/// What one element of a well-formed directory's entry list tells us: its
/// name is a key of the entry map, `.`/`..` elements carry the directory's
/// own index and its parent, and any other element is a real edge.
proof fn lemma_dir_elem(t: FsTree, d: int, i: int)
    requires
        t.wf(),
        t.is_dir_at(d),
        0 <= i < t.dir_seq_at(d).len(),
    ensures
        t.entries_at(d).contains_key(t.dir_seq_at(d)[i].name),
        t.entries_at(d)[t.dir_seq_at(d)[i].name] == t.dir_seq_at(d)[i].index,
        t.dir_seq_at(d)[i].name == dot_name() ==> t.dir_seq_at(d)[i].index == d,
        t.dir_seq_at(d)[i].name == dotdot_name() ==> t.dir_seq_at(d)[i].index == t.parent_dir(d),
        !is_dot_name(t.dir_seq_at(d)[i].name) ==> t.edge(
            d,
            t.dir_seq_at(d)[i].name,
            t.dir_seq_at(d)[i].index,
        ),
{
    assert(t.dir_ok(d));
    lemma_entry_map_at(t.dir_seq_at(d), i);
}

/// A node that is a file, or a directory with no real entries, is nobody's
/// parent: no directory's `..` names it.
proof fn lemma_parent_not_empty_node(t: FsTree, c: int, k: int)
    requires
        t.wf(),
        t.is_dir_at(c),
        1 <= c,
        t.is_dir_at(k) ==> !t.has_real_entry(k),
    ensures
        t.parent_dir(c) != k,
{
    if t.parent_dir(c) == k {
        assert(t.has_parent_edge(c));
        let (d, n) = choose|d: int, n: Seq<char>| t.edge(d, n, c);
        assert(t.parent_dir(c) == d);
        assert(t.is_dir_at(k));
        assert(t.entries_at(k).contains_key(n) && !is_dot_name(n));
        assert(t.has_real_entry(k));
    }
}

/// Detaching and reclaiming one childless node (a file or an empty
/// directory) preserves well-formedness.
proof fn lemma_delete_wf(t0: FsTree, t2: FsTree, p: int, k: int, name: Seq<char>, j0: int)
    requires
        t0.wf(),
        t0.is_dir_at(p),
        !is_dot_name(name),
        t0.entries_at(p).contains_key(name),
        k == t0.entries_at(p)[name],
        t0.is_dir_at(k) ==> !t0.has_real_entry(k),
        p != k,
        t2.table_len() == t0.table_len(),
        t2.is_dir_at(p),
        0 <= j0 < t0.dir_seq_at(p).len(),
        t0.dir_seq_at(p)[j0].name == name,
        t2.dir_seq_at(p) == t0.dir_seq_at(p).remove(j0),
        !t2.live(k),
        forall|i: int| i != p && i != k ==> #[trigger] same_slot(t0, t2, i),
        t2.vacancies@.len() == t0.vacancies@.len() + 1,
        forall|i: int| 0 <= i < t0.vacancies@.len() ==> t2.vacancies@[i] == t0.vacancies@[i],
        t2.vacancies@.last() as int == k,
        t2.depths@ == t0.depths@,
    ensures
        t2.wf(),
{
    let s0 = t0.dir_seq_at(p);
    let s2 = t2.dir_seq_at(p);
    assert(t0.dir_ok(p));
    assert(t0.edge(p, name, k));
    lemma_entries_at_key(t0, p, name);
    assert(t0.live(k) && k != 0);
    lemma_entry_map_remove(s0, j0);
    assert(t2.entries_at(p) == t0.entries_at(p).remove(name));
    // the removed entry is the only mention of `name` in the parent
    assert forall|i: int| 0 <= i < s0.len() && i != j0 implies (#[trigger] s0[i]).name != name by {}
    // no real edge leaves k, and (p, name) is the only real edge into k
    assert forall|n: Seq<char>, c: int| !(#[trigger] t0.edge(k, n, c)) by {
        if t0.edge(k, n, c) {
            assert(t0.is_dir_at(k));
            assert(t0.entries_at(k).contains_key(n) && !is_dot_name(n));
            assert(t0.has_real_entry(k));
        }
    }
    assert forall|d: int, n: Seq<char>| #[trigger] t0.edge(d, n, k) implies d == p && n == name by {
        assert(t0.edge(p, name, k));
    }
    // edges of the new tree are the old edges minus the removed one
    assert forall|d: int, n: Seq<char>, c: int| #[trigger] t2.edge(d, n, c) implies t0.edge(d, n, c)
        && !(d == p && n == name) by {
        assert(d != k);
        if d == p {
            assert(t0.entries_at(p).remove(name).contains_key(n));
        } else {
            assert(same_slot(t0, t2, d));
        }
    }
    assert forall|d: int, n: Seq<char>, c: int|
        #[trigger] t0.edge(d, n, c) && !(d == p && n == name) implies t2.edge(d, n, c) by {
        assert(d != k);
        if d != p {
            assert(same_slot(t0, t2, d));
        }
    }
    // every remaining directory is locally sound
    assert forall|d: int| t2.is_dir_at(d) implies t2.dir_ok(d) by {
        assert(d != k);
        if d != p {
            assert(same_slot(t0, t2, d));
        }
        assert(t0.is_dir_at(d));
        assert(t0.dir_ok(d));
        let s = t2.dir_seq_at(d);
        let sold = t0.dir_seq_at(d);
        if d == p {
            assert(distinct_names(s)) by {
                assert forall|i1: int, i2: int| 0 <= i1 < i2 < s.len() implies s[i1].name
                    != s[i2].name by {
                    assert(s[i1] == (if i1 < j0 {
                        sold[i1]
                    } else {
                        sold[i1 + 1]
                    }));
                    assert(s[i2] == (if i2 < j0 {
                        sold[i2]
                    } else {
                        sold[i2 + 1]
                    }));
                }
            }
        }
        assert forall|j: int| 0 <= j < s.len() implies {
            let e = #[trigger] s[j];
            t2.live(e.index) && (!is_dot_name(e.name) ==> e.index != 0)
        } by {
            let jold: int = if d == p && j >= j0 {
                j + 1
            } else {
                j
            };
            assert(s[j] == sold[jold]);
            lemma_dir_elem(t0, d, jold);
            let e = sold[jold];
            assert(t0.live(e.index));
            assert(e.index != k) by {
                if e.index == k {
                    if !is_dot_name(e.name) {
                        assert(t0.edge(d, e.name, e.index));
                        assert(d == p && e.name == name);
                        assert(jold == j0);
                    } else if e.name == dot_name() {
                        assert(e.index == d);
                        assert(!t2.live(d));
                    } else {
                        assert(e.index == t0.parent_dir(d));
                        if d == 0 {
                            assert(e.index == 0);
                        } else {
                            lemma_parent_not_empty_node(t0, d, k);
                        }
                    }
                }
            }
            if e.index != p {
                assert(same_slot(t0, t2, e.index));
            }
            assert(t2.live(e.index));
        }
        // the reserved entries survive
        let m0 = t0.entries_at(d);
        let m2 = t2.entries_at(d);
        assert(m2.contains_key(dot_name()) && m2[dot_name()] == d) by {
            if d == p {
                assert(dot_name() != name);
            }
        }
        assert(m2.contains_key(dotdot_name()) && m2[dotdot_name()] == m0[dotdot_name()]) by {
            if d == p {
                assert(dotdot_name() != name);
            }
        }
        let q = m0[dotdot_name()];
        assert(t0.is_dir_at(q));
        assert(q != k) by {
            if d == 0 {
                assert(q == 0);
            } else {
                lemma_parent_not_empty_node(t0, d, k);
            }
        }
        if q != p {
            assert(same_slot(t0, t2, q));
        }
        assert(t2.is_dir_at(q));
    }
    // the freelist gained exactly the reclaimed slot
    assert forall|i: int| 0 <= i < t2.vacancies@.len() implies (#[trigger] t2.vacancies@[i] as int)
        < t2.table_len() && t2.node_table@[t2.vacancies@[i] as int] is None by {
        if i < t0.vacancies@.len() {
            let v = t0.vacancies@[i] as int;
            assert(!t0.live(v));
            assert(v != p && v != k);
            assert(same_slot(t0, t2, v));
            assert(!t2.live(v));
        } else {
            assert(t2.vacancies@[i] as int == k);
        }
    }
    assert forall|i1: int, i2: int| 0 <= i1 < i2 < t2.vacancies@.len() implies t2.vacancies@[i1]
        != t2.vacancies@[i2] by {
        if i2 == t0.vacancies@.len() {
            assert(t2.vacancies@[i2] as int == k);
            assert(!t0.live(t0.vacancies@[i1] as int));
            assert(t0.live(k));
        }
    }
    // uniqueness and existence of parents
    assert forall|d1: int, n1: Seq<char>, d2: int, n2: Seq<char>, c: int|
        #[trigger] t2.edge(d1, n1, c) && #[trigger] t2.edge(d2, n2, c) implies d1 == d2 && n1
            == n2 by {
        assert(t0.edge(d1, n1, c));
        assert(t0.edge(d2, n2, c));
    }
    assert forall|c: int| 1 <= c < t2.table_len() && t2.live(c) implies t2.has_parent_edge(c) by {
        assert(c != k);
        if c != p {
            assert(same_slot(t0, t2, c));
        }
        assert(t0.live(c));
        assert(t0.has_parent_edge(c));
        let (d0, n0) = choose|d0: int, n0: Seq<char>| t0.edge(d0, n0, c);
        assert(d0 != k);
        if d0 == p && n0 == name {
            assert(c == k);
        }
        assert(t2.edge(d0, n0, c));
    }
    // `..` consistency and depths
    assert forall|d: int, n: Seq<char>, c: int|
        #[trigger] t2.edge(d, n, c) && t2.is_dir_at(c) implies t2.parent_dir(c) == d by {
        assert(t0.edge(d, n, c));
        assert(c != k);
        lemma_entries_at_key(t0, d, n);
        if c != p {
            assert(same_slot(t0, t2, c));
        }
        assert(t0.is_dir_at(c));
        assert(t0.parent_dir(c) == d);
        if c == p {
            assert(dotdot_name() != name);
        }
    }
    assert forall|c: int| 1 <= c < t2.table_len() && t2.is_dir_at(c) implies #[trigger] t2.depth_of(
        c,
    ) == t2.depth_of(t2.parent_dir(c)) + 1 by {
        assert(c != k);
        if c != p {
            assert(same_slot(t0, t2, c));
        }
        assert(t0.is_dir_at(c));
        assert(t0.depth_of(c) == t0.depth_of(t0.parent_dir(c)) + 1);
        assert(t2.parent_dir(c) == t0.parent_dir(c)) by {
            if c == p {
                assert(dotdot_name() != name);
            }
        }
    }
    // the root is intact
    assert(t2.is_dir_at(0)) by {
        if p != 0 {
            assert(same_slot(t0, t2, 0));
        }
    }
    assert(t2.entries_at(0)[dotdot_name()] == 0) by {
        if p == 0 {
            assert(dotdot_name() != name);
        } else {
            assert(same_slot(t0, t2, 0));
        }
    }
    assert(t2.wf());
}

/// The ghost depth assignment after moving the subtree rooted at `m` under
/// `np`: members of the subtree shift by the depth difference, everything
/// else keeps its depth.
spec fn moved_depths(t0: FsTree, m: int, np: int) -> Map<int, nat> {
    Map::new(
        |i: int| true,
        |i: int|
            if in_subtree(t0, i, m) {
                (t0.depth_of(i) + t0.depth_of(np) + 1 - t0.depth_of(m)) as nat
            } else {
                t0.depths@[i]
            },
    )
}

/// Relocating one entry (and re-pointing the moved directory's `..`)
/// preserves well-formedness, provided the destination is not inside the
/// moved subtree.
proof fn lemma_move_wf(
    t0: FsTree,
    t2: FsTree,
    op: int,
    np: int,
    m: int,
    old_name: Seq<char>,
    new_name: Seq<char>,
    j0: int,
    jd: int,
    m_is_dir: bool,
)
    requires
        t0.wf(),
        t0.is_dir_at(op),
        t0.is_dir_at(np),
        !is_dot_name(old_name),
        valid_name(new_name),
        t0.entries_at(op).contains_key(old_name),
        m == t0.entries_at(op)[old_name],
        !(op == np && old_name == new_name),
        !t0.entries_at(np).contains_key(new_name),
        m_is_dir == t0.is_dir_at(m),
        m_is_dir ==> !in_subtree(t0, np, m),
        m != op,
        m != np,
        t2.table_len() == t0.table_len(),
        t2.vacancies@ == t0.vacancies@,
        forall|i: int| i != op && i != np && i != m ==> #[trigger] same_slot(t0, t2, i),
        t2.is_dir_at(op),
        t2.is_dir_at(np),
        0 <= j0 < t0.dir_seq_at(op).len(),
        t0.dir_seq_at(op)[j0].name == old_name,
        op != np ==> t2.dir_seq_at(op) == t0.dir_seq_at(op).remove(j0),
        t2.dir_seq_at(np) == (if op == np {
            t0.dir_seq_at(op).remove(j0)
        } else {
            t0.dir_seq_at(np)
        }).push(DirEntryView { name: new_name, index: m }),
        m_is_dir ==> {
            &&& t2.is_dir_at(m)
            &&& 0 <= jd < t0.dir_seq_at(m).len()
            &&& t0.dir_seq_at(m)[jd].name == dotdot_name()
            &&& t2.dir_seq_at(m) == t0.dir_seq_at(m).update(
                jd,
                DirEntryView { name: dotdot_name(), index: np },
            )
            &&& t2.depths@ == moved_depths(t0, m, np)
        },
        !m_is_dir ==> same_slot(t0, t2, m) && t2.depths@ == t0.depths@,
    ensures
        t2.wf(),
        t2.entries_at(np) == (if op == np {
            t0.entries_at(op).remove(old_name)
        } else {
            t0.entries_at(np)
        }).insert(new_name, m),
        op != np ==> t2.entries_at(op) == t0.entries_at(op).remove(old_name),
        m_is_dir ==> t2.entries_at(m) == t0.entries_at(m).insert(dotdot_name(), np),
        t2.live(m),
        t2.is_dir_at(m) == m_is_dir,
{
    let s_op = t0.dir_seq_at(op);
    let s_np0: Seq<DirEntryView> = if op == np {
        s_op.remove(j0)
    } else {
        t0.dir_seq_at(np)
    };
    let ev = DirEntryView { name: new_name, index: m };
    assert(t0.dir_ok(op));
    assert(t0.dir_ok(np));
    assert(t0.edge(op, old_name, m));
    lemma_entries_at_key(t0, op, old_name);
    assert(t0.live(m) && m != 0);
    assert(!is_dot_name(new_name));
    lemma_entry_map_remove(s_op, j0);
    lemma_remove_distinct(s_op, j0);
    assert forall|i: int| 0 <= i < s_op.len() && i != j0 implies (#[trigger] s_op[i]).name
        != old_name by {}
    // the new name occurs nowhere in the destination's list
    assert(!entry_map_of(s_np0).contains_key(new_name));
    assert forall|i: int| 0 <= i < s_np0.len() implies (#[trigger] s_np0[i]).name != new_name by {
        lemma_entry_map_contains(s_np0, new_name);
    }
    lemma_entry_map_push(s_np0, ev);
    assert(t2.entries_at(np) == entry_map_of(s_np0).insert(new_name, m));
    if m_is_dir {
        assert(t0.dir_ok(m));
        lemma_entry_map_update(t0.dir_seq_at(m), jd, DirEntryView { name: dotdot_name(), index: np });
        assert(t2.entries_at(m) == t0.entries_at(m).insert(dotdot_name(), np));
    }
    // liveness and kinds are unchanged everywhere
    assert forall|i: int| 0 <= i < t0.table_len() implies (#[trigger] t2.live(i)) == t0.live(i) by {
        if i != op && i != np && i != m {
            assert(same_slot(t0, t2, i));
        }
    }
    assert forall|i: int| 0 <= i < t0.table_len() implies (#[trigger] t2.is_dir_at(i))
        == t0.is_dir_at(i) by {
        if i != op && i != np && i != m {
            assert(same_slot(t0, t2, i));
        }
    }
    assert forall|i: int| 0 <= i < t0.table_len() implies (#[trigger] t2.is_file_at(i))
        == t0.is_file_at(i) by {
        if i != op && i != np && i != m {
            assert(same_slot(t0, t2, i));
        }
    }
    // `..` keys of the two parents are untouched by the remove and the push
    assert(t2.entries_at(np).contains_key(dot_name()) && t2.entries_at(np)[dot_name()]
        == t0.entries_at(np)[dot_name()]);
    assert(t2.entries_at(np).contains_key(dotdot_name()) && t2.entries_at(np)[dotdot_name()]
        == t0.entries_at(np)[dotdot_name()]);
    if op != np {
        assert(t2.entries_at(op) == t0.entries_at(op).remove(old_name));
        assert(t2.entries_at(op).contains_key(dot_name()) && t2.entries_at(op)[dot_name()]
            == t0.entries_at(op)[dot_name()]);
        assert(t2.entries_at(op).contains_key(dotdot_name()) && t2.entries_at(op)[dotdot_name()]
            == t0.entries_at(op)[dotdot_name()]);
    }
    // how edges relate across the move
    assert forall|d: int, n: Seq<char>, c: int| #[trigger] t2.edge(d, n, c) implies ((t0.edge(
        d,
        n,
        c,
    ) && !(d == op && n == old_name)) || (d == np && n == new_name && c == m)) by {
        if d == np && n == new_name {
            assert(c == m);
        } else if d == np {
            assert(t2.entries_at(np).contains_key(n) && n != new_name);
            assert(entry_map_of(s_np0).contains_key(n) && entry_map_of(s_np0)[n] == c);
            if op == np {
                assert(n != old_name);
                assert(t0.entries_at(op).contains_key(n) && t0.entries_at(op)[n] == c);
            }
            assert(t0.edge(d, n, c));
        } else if d == op {
            assert(t2.entries_at(op) == t0.entries_at(op).remove(old_name));
            assert(n != old_name);
            assert(t0.edge(d, n, c));
        } else if d == m {
            assert(m_is_dir);
            assert(n != dotdot_name());
            assert(t0.entries_at(m).contains_key(n) && t0.entries_at(m)[n] == c);
            assert(t0.edge(m, n, c));
        } else {
            assert(same_slot(t0, t2, d));
            assert(t0.edge(d, n, c));
        }
    }
    assert forall|d: int, n: Seq<char>, c: int|
        #[trigger] t0.edge(d, n, c) && !(d == op && n == old_name) implies t2.edge(d, n, c) by {
        if d == np {
            assert(!t0.entries_at(np).contains_key(new_name));
            assert(n != new_name);
            if op == np {
                assert(n != old_name);
            }
            assert(entry_map_of(s_np0).contains_key(n) && entry_map_of(s_np0)[n] == c);
            assert(t2.entries_at(np).contains_key(n) && t2.entries_at(np)[n] == c);
        } else if d == op {
            assert(t2.entries_at(op) == t0.entries_at(op).remove(old_name));
            assert(t2.entries_at(op).contains_key(n) && t2.entries_at(op)[n] == c);
        } else if d == m {
            assert(m_is_dir);
            assert(n != dotdot_name());
            assert(t2.entries_at(m).contains_key(n) && t2.entries_at(m)[n] == c);
        } else {
            assert(same_slot(t0, t2, d));
        }
    }
    assert(t2.edge(np, new_name, m));
    // local soundness of every directory
    assert forall|d: int| t2.is_dir_at(d) implies t2.dir_ok(d) by {
        assert(t0.is_dir_at(d));
        assert(t0.dir_ok(d));
        let s2 = t2.dir_seq_at(d);
        let s0d = t0.dir_seq_at(d);
        // distinct names
        if d == np {
            assert(distinct_names(s_np0));
            assert(distinct_names(s2)) by {
                assert forall|i1: int, i2: int| 0 <= i1 < i2 < s2.len() implies s2[i1].name
                    != s2[i2].name by {
                    if i2 == s_np0.len() {
                        assert(s2[i1] == s_np0[i1]);
                        assert(s2[i2] == ev);
                    } else {
                        assert(s2[i1] == s_np0[i1] && s2[i2] == s_np0[i2]);
                    }
                }
            }
        } else if d == op {
            assert(distinct_names(s2));
        } else if d == m && m_is_dir {
            assert(distinct_names(s2)) by {
                assert forall|i1: int, i2: int| 0 <= i1 < i2 < s2.len() implies s2[i1].name
                    != s2[i2].name by {
                    assert(s2[i1].name == s0d[i1].name);
                    assert(s2[i2].name == s0d[i2].name);
                }
            }
        } else {
            assert(same_slot(t0, t2, d));
            assert(distinct_names(s2));
        }
        // every element's target is live and real targets avoid the root
        assert forall|j: int| 0 <= j < s2.len() implies {
            let e = #[trigger] s2[j];
            t2.live(e.index) && (!is_dot_name(e.name) ==> e.index != 0)
        } by {
            let e = s2[j];
            let eold: DirEntryView = if d == np && j == s2.len() - 1 {
                ev
            } else if d == np && op == np {
                s_op[if j < j0 {
                    j
                } else {
                    j + 1
                }]
            } else if d == op && op != np {
                s_op[if j < j0 {
                    j
                } else {
                    j + 1
                }]
            } else if d == m && m_is_dir && j == jd {
                DirEntryView { name: dotdot_name(), index: np }
            } else {
                s0d[j]
            };
            assert(e == eold);
            if d == np && j == s2.len() - 1 {
                assert(t0.live(m));
            } else if d == m && m_is_dir && j == jd {
                assert(t0.live(np));
            } else {
                if (d == np && op == np) || (d == op && op != np) {
                    let jj: int = if j < j0 {
                        j
                    } else {
                        j + 1
                    };
                    assert(e == s_op[jj]);
                    assert(t0.dir_ok(op));
                    assert(t0.live(s_op[jj].index) && (!is_dot_name(s_op[jj].name) ==> s_op[jj].index != 0));
                } else {
                    if d != op && d != np && d != m {
                        assert(same_slot(t0, t2, d));
                    }
                    assert(e == s0d[j]);
                    assert(t0.live(s0d[j].index) && (!is_dot_name(s0d[j].name) ==> s0d[j].index
                        != 0));
                }
            }
            assert(t0.live(e.index));
            assert(t2.live(e.index));
        }
        // the reserved entries
        let m0 = t0.entries_at(d);
        let m2 = t2.entries_at(d);
        assert(m2.contains_key(dot_name()) && m2[dot_name()] == d && m2.contains_key(dotdot_name())
            && t2.is_dir_at(m2[dotdot_name()])) by {
            if d == np {
                assert(m2[dot_name()] == m0[dot_name()]);
                assert(m2[dotdot_name()] == m0[dotdot_name()]);
                assert(t0.is_dir_at(m0[dotdot_name()]));
            } else if d == op {
                assert(t0.is_dir_at(m0[dotdot_name()]));
            } else if d == m && m_is_dir {
                assert(m2[dot_name()] == m0[dot_name()]);
                assert(m2[dotdot_name()] == np);
            } else {
                assert(same_slot(t0, t2, d));
                assert(t0.is_dir_at(m0[dotdot_name()]));
            }
        }
    }
    // the freelist is untouched and still sound
    assert forall|k: int| 0 <= k < t2.vacancies@.len() implies (#[trigger] t2.vacancies@[k] as int)
        < t2.table_len() && t2.node_table@[t2.vacancies@[k] as int] is None by {
        let v = t2.vacancies@[k] as int;
        assert(t0.vacancies@[k] == t2.vacancies@[k]);
        assert(!t0.live(v));
        assert(!t2.live(v));
    }
    // uniqueness of parents
    assert forall|d: int, n: Seq<char>| #[trigger] t0.edge(d, n, m) implies d == op && n
        == old_name by {
        assert(t0.edge(op, old_name, m));
    }
    assert forall|d1: int, n1: Seq<char>, d2: int, n2: Seq<char>, c: int|
        #[trigger] t2.edge(d1, n1, c) && #[trigger] t2.edge(d2, n2, c) implies d1 == d2 && n1
            == n2 by {
        if c == m {
            assert(d1 == np && n1 == new_name);
            assert(d2 == np && n2 == new_name);
        } else {
            assert(t0.edge(d1, n1, c));
            assert(t0.edge(d2, n2, c));
        }
    }
    // existence of parents
    assert forall|c: int| 1 <= c < t2.table_len() && t2.live(c) implies t2.has_parent_edge(c) by {
        if c == m {
            assert(t2.edge(np, new_name, m));
        } else {
            assert(t0.live(c));
            assert(t0.has_parent_edge(c));
            let (d0, n0) = choose|d0: int, n0: Seq<char>| t0.edge(d0, n0, c);
            if d0 == op && n0 == old_name {
                assert(c == m);
            }
            assert(t2.edge(d0, n0, c));
        }
    }
    // `..` consistency
    assert forall|d: int, n: Seq<char>, c: int|
        #[trigger] t2.edge(d, n, c) && t2.is_dir_at(c) implies t2.parent_dir(c) == d by {
        if d == np && n == new_name && c == m {
            assert(t2.entries_at(m)[dotdot_name()] == np);
        } else {
            assert(t0.edge(d, n, c) && !(d == op && n == old_name));
            assert(c != m);
            lemma_entries_at_key(t0, d, n);
            assert(t0.is_dir_at(c));
            assert(t0.parent_dir(c) == d);
            assert(t2.parent_dir(c) == t0.parent_dir(c)) by {
                if c == np || c == op {
                } else {
                    assert(same_slot(t0, t2, c));
                }
            }
        }
    }
    // depths still decorate the parent chains
    if m_is_dir {
        assert(in_subtree(t0, m, m)) by {
            lemma_in_subtree_step(t0, m, m);
        }
        assert(!in_subtree(t0, 0, m)) by {
            if in_subtree(t0, 0, m) {
                lemma_in_subtree_depth(t0, 0, m);
            }
        }
        assert(t2.depth_of(0) == 0);
        assert forall|c: int| 1 <= c < t2.table_len() && t2.is_dir_at(c) implies
            #[trigger] t2.depth_of(c) == t2.depth_of(t2.parent_dir(c)) + 1 by {
            assert(t0.is_dir_at(c));
            if c == m {
                assert(t2.parent_dir(m) == np);
                assert(t2.depth_of(m) == t0.depth_of(np) + 1);
                assert(!in_subtree(t0, np, m));
                assert(t2.depth_of(np) == t0.depth_of(np));
            } else {
                let q = t0.parent_dir(c);
                assert(t0.dir_ok(c));
                assert(t0.is_dir_at(q));
                assert(t0.depth_of(c) == t0.depth_of(q) + 1);
                assert(t2.parent_dir(c) == q) by {
                    if c == np || c == op {
                    } else if c == m {
                    } else {
                        assert(same_slot(t0, t2, c));
                    }
                }
                lemma_in_subtree_step(t0, c, m);
                if in_subtree(t0, c, m) {
                    assert(in_subtree(t0, q, m));
                    lemma_in_subtree_depth(t0, c, m);
                    lemma_in_subtree_depth(t0, q, m);
                    assert(t2.depth_of(c) == t0.depth_of(c) + t0.depth_of(np) + 1 - t0.depth_of(
                        m,
                    ));
                    assert(t2.depth_of(q) == t0.depth_of(q) + t0.depth_of(np) + 1 - t0.depth_of(
                        m,
                    ));
                } else {
                    assert(!in_subtree(t0, q, m));
                    assert(t2.depth_of(c) == t0.depth_of(c));
                    assert(t2.depth_of(q) == t0.depth_of(q));
                }
            }
        }
    } else {
        assert(t2.depth_of(0) == 0);
        assert forall|c: int| 1 <= c < t2.table_len() && t2.is_dir_at(c) implies
            #[trigger] t2.depth_of(c) == t2.depth_of(t2.parent_dir(c)) + 1 by {
            assert(t0.is_dir_at(c));
            assert(c != m);
            assert(t0.depth_of(c) == t0.depth_of(t0.parent_dir(c)) + 1);
            assert(t2.parent_dir(c) == t0.parent_dir(c)) by {
                if c == np || c == op {
                } else {
                    assert(same_slot(t0, t2, c));
                }
            }
        }
    }
    // the root is intact
    assert(t2.is_dir_at(0)) by {
        if 0 != op && 0 != np {
            assert(same_slot(t0, t2, 0));
        }
    }
    assert(t2.entries_at(0)[dotdot_name()] == 0) by {
        if 0 != op && 0 != np {
            assert(same_slot(t0, t2, 0));
        }
    }
    assert(t2.wf());
}

/// Attaching one fresh node (directory or file) under a live directory
/// preserves well-formedness.
proof fn lemma_create_wf(t0: FsTree, t2: FsTree, p: int, idx: int, name: Seq<char>, make_dir: bool)
    requires
        t0.wf(),
        t0.is_dir_at(p),
        valid_name(name),
        !t0.entries_at(p).contains_key(name),
        !t0.live(idx),
        0 <= idx <= t0.table_len(),
        p != idx,
        t2.table_len() == if idx == t0.table_len() {
            t0.table_len() + 1
        } else {
            t0.table_len()
        },
        forall|i: int| i != p && i != idx ==> #[trigger] same_slot(t0, t2, i),
        t2.live(idx),
        make_dir ==> t2.is_dir_at(idx) && t2.dir_seq_at(idx) == seq![
            DirEntryView { name: dot_name(), index: idx },
            DirEntryView { name: dotdot_name(), index: p },
        ],
        !make_dir ==> t2.is_file_at(idx),
        t2.is_dir_at(p),
        t2.dir_seq_at(p) == t0.dir_seq_at(p).push(DirEntryView { name, index: idx }),
        (t0.vacancies@.len() > 0 && idx == t0.vacancies@[t0.vacancies@.len() - 1] as int
            && t2.vacancies@ == t0.vacancies@.drop_last()) || (t0.vacancies@.len() == 0 && idx
            == t0.table_len() && t2.vacancies@ == t0.vacancies@),
        t2.depths@ == t0.depths@.insert(idx, (t0.depth_of(p) + 1) as nat),
    ensures
        t2.wf(),
{
    let ev = DirEntryView { name, index: idx };
    let s0 = t0.dir_seq_at(p);
    assert(t0.dir_ok(p));
    assert(!is_dot_name(name));
    assert(idx != 0);
    assert(distinct_names(s0));
    assert forall|j: int| 0 <= j < s0.len() implies (#[trigger] s0[j]).name != name by {
        lemma_entry_map_at(s0, j);
    }
    lemma_entry_map_push(s0, ev);
    assert(t2.entries_at(p) == t0.entries_at(p).insert(name, idx));
    if make_dir {
        lemma_two_dots_map(t2.dir_seq_at(idx), idx, p);
    }
    // liveness and kind transfer for untouched slots
    assert forall|i: int|
        0 <= i < t0.table_len() && i != idx && i != p implies (#[trigger] t2.live(i)) == t0.live(i)
            && t2.is_dir_at(i) == t0.is_dir_at(i) && t2.is_file_at(i) == t0.is_file_at(i)
            && (t0.is_dir_at(i) ==> t2.dir_seq_at(i) == t0.dir_seq_at(i)) by {
        assert(same_slot(t0, t2, i));
    }
    // how edges of the new tree relate to edges of the old
    assert forall|d: int, n: Seq<char>, c: int| #[trigger] t2.edge(d, n, c) implies (t0.edge(
        d,
        n,
        c,
    ) || (d == p && n == name && c == idx)) by {
        if d == idx {
            if make_dir {
                assert(is_dot_name(n));
            }
        } else if d == p {
            if n != name {
                assert(t0.entries_at(p).contains_key(n) && t0.entries_at(p)[n] == c);
                assert(t0.edge(p, n, c));
            }
        } else {
            assert(same_slot(t0, t2, d));
            assert(t0.edge(d, n, c));
        }
    }
    assert forall|d: int, n: Seq<char>, c: int| #[trigger] t0.edge(d, n, c) implies t2.edge(
        d,
        n,
        c,
    ) by {
        assert(d != idx);
        if d == p {
            assert(n != name);
        } else {
            assert(same_slot(t0, t2, d));
        }
    }
    assert(t2.edge(p, name, idx)) by {
        assert(t2.entries_at(p)[name] == idx);
    }
    assert forall|d: int, n: Seq<char>| !(#[trigger] t0.edge(d, n, idx)) by {
        if t0.edge(d, n, idx) {
            lemma_entries_at_key(t0, d, n);
        }
    }
    // every directory of the new tree is locally sound
    assert forall|d: int| t2.is_dir_at(d) implies t2.dir_ok(d) by {
        if d == idx {
            assert(make_dir);
            let s = t2.dir_seq_at(idx);
            assert(s[0].index == idx && s[1].index == p);
            assert(t2.entries_at(idx)[dot_name()] == idx);
            assert(t2.entries_at(idx)[dotdot_name()] == p);
            assert forall|j: int| 0 <= j < s.len() implies {
                let e = #[trigger] s[j];
                t2.live(e.index) && (!is_dot_name(e.name) ==> e.index != 0)
            } by {
                assert(j == 0 || j == 1);
            }
        } else if d == p {
            let s2 = t2.dir_seq_at(p);
            assert(distinct_names(s2)) by {
                assert(forall|j: int| 0 <= j < s0.len() ==> s2[j] == s0[j]);
                assert(s2[s0.len() as int] == ev);
            }
            assert forall|j: int| 0 <= j < s2.len() implies {
                let e = #[trigger] s2[j];
                t2.live(e.index) && (!is_dot_name(e.name) ==> e.index != 0)
            } by {
                if j < s0.len() {
                    assert(s2[j] == s0[j]);
                    assert(t0.live(s0[j].index));
                    let x = s0[j].index;
                    assert(x != idx);
                    if x != p {
                        assert(same_slot(t0, t2, x));
                    }
                } else {
                    assert(s2[j] == ev);
                }
            }
            assert(t2.entries_at(p)[dot_name()] == t0.entries_at(p)[dot_name()]);
            assert(t2.entries_at(p).contains_key(dot_name()));
            let q = t0.entries_at(p)[dotdot_name()];
            assert(t2.entries_at(p)[dotdot_name()] == q);
            assert(t2.entries_at(p).contains_key(dotdot_name()));
            assert(t0.is_dir_at(q));
            assert(q != idx);
            if q != p {
                assert(same_slot(t0, t2, q));
            }
            assert(t2.is_dir_at(q));
        } else {
            assert(same_slot(t0, t2, d));
            assert(t0.is_dir_at(d));
            assert(t0.dir_ok(d));
            let s = t2.dir_seq_at(d);
            assert(s == t0.dir_seq_at(d));
            assert forall|j: int| 0 <= j < s.len() implies {
                let e = #[trigger] s[j];
                t2.live(e.index) && (!is_dot_name(e.name) ==> e.index != 0)
            } by {
                assert(t0.live(s[j].index));
                let x = s[j].index;
                assert(x != idx);
                if x != p {
                    assert(same_slot(t0, t2, x));
                }
            }
            let q = t0.entries_at(d)[dotdot_name()];
            assert(t0.is_dir_at(q));
            assert(q != idx);
            if q != p {
                assert(same_slot(t0, t2, q));
            }
            assert(t2.is_dir_at(q));
        }
    }
    // the freelist still names distinct vacant slots
    assert forall|k: int| 0 <= k < t2.vacancies@.len() implies (#[trigger] t2.vacancies@[k] as int)
        < t2.table_len() && t2.node_table@[t2.vacancies@[k] as int] is None by {
        let v = t2.vacancies@[k] as int;
        assert(t0.vacancies@[k] == t2.vacancies@[k]);
        assert(!t0.live(v));
        assert(v != idx) by {
            if t0.vacancies@.len() > 0 && idx == t0.vacancies@[t0.vacancies@.len() - 1] as int {
                assert(t0.vacancies@[k] != t0.vacancies@[t0.vacancies@.len() - 1]);
            }
        }
        assert(v != p);
        assert(same_slot(t0, t2, v));
        assert(!t2.live(v));
    }
    // uniqueness of incoming real edges
    assert forall|d1: int, n1: Seq<char>, d2: int, n2: Seq<char>, c: int|
        #[trigger] t2.edge(d1, n1, c) && #[trigger] t2.edge(d2, n2, c) implies d1 == d2 && n1
            == n2 by {
        if c == idx {
            assert(!t0.edge(d1, n1, c));
            assert(!t0.edge(d2, n2, c));
        } else {
            assert(t0.edge(d1, n1, c));
            assert(t0.edge(d2, n2, c));
        }
    }
    // every live non-root node is still attached
    assert forall|c: int| 1 <= c < t2.table_len() && t2.live(c) implies t2.has_parent_edge(c) by {
        if c == idx {
            assert(t2.edge(p, name, idx));
        } else {
            if c == p || c < t0.table_len() {
                if c != p {
                    assert(same_slot(t0, t2, c));
                }
                assert(t0.live(c));
                assert(t0.has_parent_edge(c));
                let (d, n) = choose|d: int, n: Seq<char>| t0.edge(d, n, c);
                assert(t2.edge(d, n, c));
            }
        }
    }
    // each directory's `..` still names its real parent
    assert forall|d: int, n: Seq<char>, c: int|
        #[trigger] t2.edge(d, n, c) && t2.is_dir_at(c) implies t2.parent_dir(c) == d by {
        if d == p && n == name && c == idx {
            assert(t2.entries_at(idx)[dotdot_name()] == p);
        } else {
            assert(t0.edge(d, n, c));
            lemma_entries_at_key(t0, d, n);
            assert(t0.live(c));
            assert(c != idx);
            assert(t0.is_dir_at(c));
            assert(t0.parent_dir(c) == d);
            if c == p {
                assert(t2.entries_at(p)[dotdot_name()] == t0.entries_at(p)[dotdot_name()]);
            } else {
                assert(same_slot(t0, t2, c));
            }
        }
    }
    // depths still decorate the parent chains
    assert forall|c: int| 1 <= c < t2.table_len() && t2.is_dir_at(c) implies #[trigger] t2.depth_of(
        c,
    ) == t2.depth_of(t2.parent_dir(c)) + 1 by {
        if c == idx {
            assert(make_dir);
            assert(t2.parent_dir(idx) == p);
            assert(t2.depth_of(idx) == t0.depth_of(p) + 1);
            assert(t2.depth_of(p) == t0.depth_of(p));
        } else {
            if c != p {
                assert(same_slot(t0, t2, c));
            }
            assert(t0.is_dir_at(c));
            assert(t0.depth_of(c) == t0.depth_of(t0.parent_dir(c)) + 1);
            let q = t0.parent_dir(c);
            assert(t2.parent_dir(c) == q) by {
                if c == p {
                    assert(t2.entries_at(p)[dotdot_name()] == t0.entries_at(p)[dotdot_name()]);
                }
            }
            assert(t0.is_dir_at(q));
            assert(q != idx);
            assert(t2.depth_of(c) == t0.depth_of(c));
            assert(t2.depth_of(q) == t0.depth_of(q));
        }
    }
    // the root is intact
    assert(t2.is_dir_at(0)) by {
        if p != 0 {
            assert(same_slot(t0, t2, 0));
        }
    }
    assert(t2.entries_at(0)[dotdot_name()] == 0) by {
        if p == 0 {
            assert(t2.entries_at(0)[dotdot_name()] == t0.entries_at(0)[dotdot_name()]);
        } else {
            assert(same_slot(t0, t2, 0));
        }
    }
    assert(t2.wf());
}

/// The shape of the seeded session tree: `/home/user` holding the sample
/// script `run_me` and the directory `projects/cs5167`.
pub open spec fn default_tree_shape(t: FsTree) -> bool {
    &&& t.wf()
    &&& t.table_len() == 6
    &&& t.vacancy_seq() == Seq::<int>::empty()
    &&& t.is_dir_at(0)
    &&& t.is_dir_at(1)
    &&& t.is_dir_at(2)
    &&& t.is_file_at(3)
    &&& t.is_dir_at(4)
    &&& t.is_dir_at(5)
    &&& t.entries_at(0) == Map::<Seq<char>, int>::empty().insert(dot_name(), 0).insert(
        dotdot_name(),
        0,
    ).insert("home"@, 1)
    &&& t.entries_at(1) == Map::<Seq<char>, int>::empty().insert(dot_name(), 1).insert(
        dotdot_name(),
        0,
    ).insert("user"@, 2)
    &&& t.entries_at(2) == Map::<Seq<char>, int>::empty().insert(dot_name(), 2).insert(
        dotdot_name(),
        1,
    ).insert("run_me"@, 3).insert("projects"@, 4)
    &&& t.file_at(3) == "alert('lol'); 'some output';"@
    &&& t.entries_at(4) == Map::<Seq<char>, int>::empty().insert(dot_name(), 4).insert(
        dotdot_name(),
        2,
    ).insert("cs5167"@, 5)
    &&& t.entries_at(5) == Map::<Seq<char>, int>::empty().insert(dot_name(), 5).insert(
        dotdot_name(),
        4,
    )
}

impl Default for FsTree {
    /// The seeded session tree.
    fn default() -> (t: FsTree)
        ensures
            default_tree_shape(t),
    {
        proof {
            reveal_strlit("home");
            reveal_strlit("user");
            reveal_strlit("run_me");
            reveal_strlit("projects");
            reveal_strlit("cs5167");
        }
        let mut fs_tree = FsTree::new();
        let root = fs_tree.root();
        let ghost t0 = fs_tree;
        proof {
            assert(valid_name("home"@));
            assert(!t0.entries_at(0).contains_key("home"@));
        }
        let home = match fs_tree.create_directory("home", root) {
            Ok(i) => i,
            Err(_) => {
                proof {
                    assert(false);
                }
                root
            },
        };
        let ghost t1 = fs_tree;
        proof {
            assert(home@ == 1);
            assert(valid_name("user"@));
            assert(!t1.entries_at(1).contains_key("user"@));
        }
        let user = match fs_tree.create_directory("user", home) {
            Ok(i) => i,
            Err(_) => {
                proof {
                    assert(false);
                }
                root
            },
        };
        let ghost t2 = fs_tree;
        proof {
            assert(user@ == 2);
            assert(valid_name("run_me"@));
            assert(!t2.entries_at(2).contains_key("run_me"@));
        }
        let file = match fs_tree.create_file("run_me", user) {
            Ok(i) => i,
            Err(_) => {
                proof {
                    assert(false);
                }
                root
            },
        };
        let ghost t3 = fs_tree;
        proof {
            assert(file@ == 3);
            assert(t3.is_file_at(3));
        }
        let _ = fs_tree.write(file, "alert('lol'); 'some output';");
        let ghost t4 = fs_tree;
        proof {
            assert(t4.file_at(3) == "alert('lol'); 'some output';"@);
            assert(same_slot(t3, t4, 2));
            assert(valid_name("projects"@));
            assert(t4.entries_at(2) == t3.entries_at(2));
            assert(!t4.entries_at(2).contains_key("projects"@));
        }
        let projects = match fs_tree.create_directory("projects", user) {
            Ok(i) => i,
            Err(_) => {
                proof {
                    assert(false);
                }
                root
            },
        };
        let ghost t5 = fs_tree;
        proof {
            assert(projects@ == 4);
            assert(valid_name("cs5167"@));
            assert(!t5.entries_at(4).contains_key("cs5167"@));
        }
        let last = match fs_tree.create_directory("cs5167", projects) {
            Ok(i) => i,
            Err(_) => {
                proof {
                    assert(false);
                }
                root
            },
        };
        let ghost t6 = fs_tree;
        proof {
            assert(last@ == 5);
            // untouched slots keep their entries through the later steps
            assert(same_slot(t1, t2, 0));
            assert(same_slot(t2, t3, 0));
            assert(same_slot(t3, t4, 0));
            assert(same_slot(t4, t5, 0));
            assert(same_slot(t5, t6, 0));
            assert(t6.entries_at(0) == t1.entries_at(0));
            assert(same_slot(t2, t3, 1));
            assert(same_slot(t3, t4, 1));
            assert(same_slot(t4, t5, 1));
            assert(same_slot(t5, t6, 1));
            assert(t6.entries_at(1) == t2.entries_at(1));
            assert(same_slot(t5, t6, 2));
            assert(t6.entries_at(2) == t5.entries_at(2));
            assert(same_slot(t4, t5, 3));
            assert(same_slot(t5, t6, 3));
            assert(t6.file_at(3) == t4.file_at(3));
            assert(t6.entries_at(4) == t5.entries_at(4).insert("cs5167"@, 5));
            assert(t6.vacancy_seq() =~= Seq::<int>::empty());
            assert(default_tree_shape(t6));
        }
        fs_tree
    }
}

/// An owned `.` name.
fn dot_string() -> (r: String)
    ensures
        r@ == dot_name(),
{
    proof {
        reveal_strlit(".");
    }
    let r = String::from_str(".");
    proof {
        assert(r@ =~= dot_name());
    }
    r
}

/// An owned `..` name.
fn dotdot_string() -> (r: String)
    ensures
        r@ == dotdot_name(),
{
    proof {
        reveal_strlit("..");
    }
    let r = String::from_str("..");
    proof {
        assert(r@ =~= dotdot_name());
    }
    r
}

/// Character-wise string equality.
pub(crate) fn str_eq(a: &str, b: &str) -> (r: bool)
    ensures
        r == (a@ == b@),
{
    let n = a.unicode_len();
    if n != b.unicode_len() {
        return false;
    }
    let mut i: usize = 0;
    while i < n
        invariant
            n == a@.len(),
            n == b@.len(),
            i <= n,
            forall|k: int| 0 <= k < i ==> a@[k] == b@[k],
        decreases n - i,
    {
        if a.get_char(i) != b.get_char(i) {
            return false;
        }
        i = i + 1;
    }
    proof {
        assert(a@ =~= b@);
    }
    true
}

/// Whether a string is `.` or `..`.
pub(crate) fn is_dot_str(s: &str) -> (r: bool)
    ensures
        r == is_dot_name(s@),
{
    let n = s.unicode_len();
    if n == 1 {
        let r = s.get_char(0) == '.';
        proof {
            if r {
                assert(s@ =~= dot_name());
            } else {
                assert(s@ != dot_name());
                assert(s@ != dotdot_name());
            }
        }
        r
    } else if n == 2 {
        let r = s.get_char(0) == '.' && s.get_char(1) == '.';
        proof {
            if r {
                assert(s@ =~= dotdot_name());
            } else {
                assert(s@ != dotdot_name());
                assert(s@ != dot_name());
            }
        }
        r
    } else {
        proof {
            assert(s@ != dot_name());
            assert(s@ != dotdot_name());
        }
        false
    }
}

/// Linear scan of an entry list for a name.
fn find_entry(entries: &Vec<DirEntry>, name: &str) -> (r: Option<usize>)
    ensures
        match r {
            Some(j) => j < entries@.len() && entries@[j as int]@.name == name@,
            None => forall|k: int|
                0 <= k < entries@.len() ==> (#[trigger] entries@[k])@.name != name@,
        },
{
    let mut j: usize = 0;
    while j < entries.len()
        invariant
            j <= entries@.len(),
            forall|k: int| 0 <= k < j ==> (#[trigger] entries@[k])@.name != name@,
        decreases entries@.len() - j,
    {
        if str_eq(entries[j].name.as_str(), name) {
            return Some(j);
        }
        j = j + 1;
    }
    None
}

/// Remove the entry carrying `name` from an entry list, reporting its former
/// position.
fn remove_entry(entries: &mut Vec<DirEntry>, name: &str) -> (r: Option<usize>)
    ensures
        match r {
            Some(j) => {
                &&& j < old(entries)@.len()
                &&& old(entries)@[j as int]@.name == name@
                &&& final(entries)@ == old(entries)@.remove(j as int)
            },
            None => {
                &&& final(entries)@ == old(entries)@
                &&& forall|k: int|
                    0 <= k < old(entries)@.len() ==> (#[trigger] old(entries)@[k])@.name != name@
            },
        },
{
    match find_entry(entries, name) {
        Some(j) => {
            entries.remove(j);
            Some(j)
        },
        None => None,
    }
}

/// The name of some entry besides `.` and `..`, if the list has one.
fn find_real_entry(entries: &Vec<DirEntry>) -> (r: Option<String>)
    ensures
        match r {
            Some(n) => !is_dot_name(n@) && exists|j: int|
                0 <= j < entries@.len() && (#[trigger] entries@[j])@.name == n@,
            None => forall|j: int|
                0 <= j < entries@.len() ==> is_dot_name((#[trigger] entries@[j])@.name),
        },
{
    let mut j: usize = 0;
    while j < entries.len()
        invariant
            j <= entries@.len(),
            forall|k: int| 0 <= k < j ==> is_dot_name((#[trigger] entries@[k])@.name),
        decreases entries@.len() - j,
    {
        if !is_dot_str(entries[j].name.as_str()) {
            return Some(entries[j].name.clone());
        }
        j = j + 1;
    }
    None
}

/// Whether an entry list holds any name besides `.` and `..`.
fn dir_has_real_entry(entries: &Vec<DirEntry>) -> (r: bool)
    ensures
        r == exists|j: int|
            0 <= j < entries@.len() && !is_dot_name((#[trigger] entries@[j])@.name),
{
    let mut j: usize = 0;
    while j < entries.len()
        invariant
            j <= entries@.len(),
            forall|k: int| 0 <= k < j ==> is_dot_name((#[trigger] entries@[k])@.name),
        decreases entries@.len() - j,
    {
        if !is_dot_str(entries[j].name.as_str()) {
            return true;
        }
        j = j + 1;
    }
    false
}

/// Freelist reuse is LIFO: right after a deletion pushes slot `k` onto the
/// freelist, the next creation picks exactly `k`.
pub proof fn lemma_lifo_reuse(t1: FsTree, t2: FsTree, k: int)
    requires
        t2.vacancy_seq() == t1.vacancy_seq().push(k),
    ensures
        t2.next_index() == k,
{
}

/// In a well-formed tree the root is a live directory whose `..` names
/// itself.
pub proof fn lemma_root(t: FsTree)
    requires
        t.wf(),
    ensures
        t.table_len() >= 1,
        t.is_dir_at(0),
        t.live(0),
        t.entries_at(0)[dotdot_name()] == 0,
{
}

/// In a well-formed tree, a directory's `..` names the directory that really
/// holds it: the one with a real entry pointing at it.
pub proof fn lemma_parent_of_edge(t: FsTree, d: int, n: Seq<char>, c: int)
    requires
        t.wf(),
        t.edge(d, n, c),
        t.is_dir_at(c),
    ensures
        t.entries_at(c)[dotdot_name()] == d,
{
}

/// A slot holds a directory or a file only while live, and never both.
pub proof fn lemma_node_kind(t: FsTree, i: int)
    ensures
        t.is_dir_at(i) ==> t.live(i),
        t.is_file_at(i) ==> t.live(i),
        t.live(i) ==> (t.is_dir_at(i) <==> !t.is_file_at(i)),
{
}

/// Every entry of a live directory of a well-formed tree points at a live
/// slot, names are unique, and the reserved entries are present: `.` names
/// the directory itself and `..` names a live directory.
pub proof fn lemma_entries_live(t: FsTree, d: int)
    requires
        t.wf(),
        t.is_dir_at(d),
    ensures
        distinct_names(t.dir_seq_at(d)),
        forall|n: Seq<char>| #[trigger]
            t.entries_at(d).contains_key(n) ==> t.live(t.entries_at(d)[n]),
        t.entries_at(d).contains_key(dot_name()) && t.entries_at(d)[dot_name()] == d,
        t.entries_at(d).contains_key(dotdot_name()) && t.is_dir_at(
            t.entries_at(d)[dotdot_name()],
        ),
{
    assert(t.dir_ok(d));
    let s = t.dir_seq_at(d);
    assert forall|n: Seq<char>| #[trigger] t.entries_at(d).contains_key(n) implies t.live(
        t.entries_at(d)[n],
    ) by {
        lemma_entry_map_contains(s, n);
        let j = choose|j: int| 0 <= j < s.len() && s[j].name == n;
        lemma_entry_map_at(s, j);
        assert(t.live(s[j].index));
    }
}

/// Whether a string may be used as an entry name.
pub(crate) fn valid_name_str(s: &str) -> (r: bool)
    ensures
        r == valid_name(s@),
{
    let n = s.unicode_len();
    if n == 0 {
        return false;
    }
    let mut i: usize = 0;
    while i < n
        invariant
            n == s@.len(),
            i <= n,
            forall|k: int| 0 <= k < i ==> s@[k] != '/',
        decreases n - i,
    {
        if s.get_char(i) == '/' {
            return false;
        }
        i = i + 1;
    }
    true
}

} // verus!
