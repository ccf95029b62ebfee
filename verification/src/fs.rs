//! What a command sees of the filesystem.
use vstd::prelude::*;
use crate::error::VfsError;
use crate::path::names;
use crate::text::{str_eq, to_chars};

verus! {

/// Directory entry.
#[derive(Debug, Clone)]
pub struct DirEntry {
    /// Entry name (not full path).
    pub name: String,
    /// True if this is a directory.
    pub is_dir: bool,
}

/// File stat information.
#[derive(Debug, Clone)]
pub struct Stat {
    /// File size in bytes.
    pub size: u64,
    /// True if this is a directory.
    pub is_dir: bool,
    /// True if this is a file.
    pub is_file: bool,
}

/// What is known of a path.
#[derive(Debug)]
pub enum Node {
    /// A directory and what it holds.
    Dir(Vec<DirEntry>),
    /// A directory that cannot be listed: the error and the filesystem's message.
    Closed(VfsError, String),
    /// A file and its size; no size where it cannot be read.
    File(Option<u64>),
}

/// The filesystem as it stands when a command starts: the paths that exist, and
/// the paths that stand for a file of the host. The first entry of a path counts.
#[derive(Debug)]
pub struct Snapshot {
    /// The absolute paths that exist.
    pub nodes: Vec<(String, Node)>,
    /// The absolute paths that stand for a file of the host, with that file's path.
    pub mounts: Vec<(String, String)>,
}

pub open spec fn node_from(nodes: Seq<(String, Node)>, path: Seq<char>, i: int) -> Option<Node>
    decreases nodes.len() - i,
{
    if i < 0 || i >= nodes.len() {
        None
    } else if nodes[i].0@ == path {
        Some(nodes[i].1)
    } else {
        node_from(nodes, path, i + 1)
    }
}

pub open spec fn mount_from(mounts: Seq<(String, String)>, path: Seq<char>, i: int) -> Option<
    Seq<char>,
>
    decreases mounts.len() - i,
{
    if i < 0 || i >= mounts.len() {
        None
    } else if mounts[i].0@ == path {
        Some(mounts[i].1@)
    } else {
        mount_from(mounts, path, i + 1)
    }
}

/// The length of the longest path.
pub open spec fn longest(nodes: Seq<(String, Node)>) -> nat
    decreases nodes.len(),
{
    if nodes.len() == 0 {
        0
    } else {
        let rest = longest(nodes.drop_last());
        if nodes.last().0@.len() > rest {
            nodes.last().0@.len()
        } else {
            rest
        }
    }
}

pub open spec fn entries_name(entries: Seq<DirEntry>) -> bool {
    forall|i: int| 0 <= i < entries.len() ==> names((#[trigger] entries[i]).name@)
}

impl Node {
    /// Whether a directory holds names only.
    pub open spec fn well_named(self) -> bool {
        self matches Node::Dir(v) ==> entries_name(v@)
    }
}

fn is_name(part: &str) -> (r: bool)
    ensures
        r == names(part@),
{
    let cs = to_chars(part);
    if cs.len() == 0 {
        proof {
            assert(cs@ =~= Seq::<char>::empty());
        }
        return false;
    }
    if cs.len() == 1 && cs[0] == '.' {
        proof {
            assert(cs@ =~= seq!['.']);
        }
        return false;
    }
    if cs.len() == 2 && cs[0] == '.' && cs[1] == '.' {
        proof {
            assert(cs@ =~= seq!['.', '.']);
        }
        return false;
    }
    let mut i: usize = 0;
    while i < cs.len()
        invariant
            i <= cs@.len(),
            cs@ == part@,
            forall|k: int| 0 <= k < i ==> cs@[k] != '/',
        decreases cs@.len() - i,
    {
        if cs[i] == '/' {
            return false;
        }
        i += 1;
    }
    true
}

impl Snapshot {
    /// What the filesystem itself has under a path.
    pub open spec fn node(self, path: Seq<char>) -> Option<Node> {
        node_from(self.nodes@, path, 0)
    }

    /// The host's file that a path stands for.
    pub open spec fn mount(self, path: Seq<char>) -> Option<Seq<char>> {
        mount_from(self.mounts@, path, 0)
    }

    pub open spec fn spec_exists(self, path: Seq<char>) -> bool {
        self.node(path) is Some
    }

    pub open spec fn spec_is_dir(self, path: Seq<char>) -> bool {
        self.node(path) matches Some(n) && !(n is File)
    }

    pub open spec fn spec_is_file(self, path: Seq<char>) -> bool {
        self.node(path) matches Some(Node::File(_))
    }

    /// What a directory holds, where it can be listed.
    pub open spec fn entries(self, path: Seq<char>) -> Option<Seq<DirEntry>> {
        match self.node(path) {
            Some(Node::Dir(v)) => Some(v@),
            _ => None,
        }
    }

    /// Whether each directory holds names only: none is empty, `.` or `..`, and none
    /// has a slash in it.
    pub open spec fn well_named(self) -> bool {
        forall|i: int| 0 <= i < self.nodes@.len() ==> (#[trigger] self.nodes@[i]).1.well_named()
    }

    /// Tests whether each directory holds names only.
    pub fn is_well_named(&self) -> (r: bool)
        ensures
            r == self.well_named(),
    {
        let mut i: usize = 0;
        while i < self.nodes.len()
            invariant
                i <= self.nodes@.len(),
                forall|k: int| 0 <= k < i ==> (#[trigger] self.nodes@[k]).1.well_named(),
            decreases self.nodes@.len() - i,
        {
            match &self.nodes[i].1 {
                Node::Dir(v) => {
                    let mut j: usize = 0;
                    while j < v.len()
                        invariant
                            i < self.nodes@.len(),
                            j <= v@.len(),
                            self.nodes@[i as int].1 == Node::Dir(*v),
                            forall|k: int| 0 <= k < j ==> names((#[trigger] v@[k]).name@),
                        decreases v@.len() - j,
                    {
                        if !is_name(v[j].name.as_str()) {
                            assert(!names(v@[j as int].name@));
                            assert(!entries_name(v@));
                            return false;
                        }
                        j += 1;
                    }
                },
                _ => {},
            }
            i += 1;
        }
        true
    }

    /// A filesystem in which nothing exists.
    pub fn new() -> (r: Self)
        ensures
            r.nodes@ == Seq::<(String, Node)>::empty(),
            r.mounts@ == Seq::<(String, String)>::empty(),
    {
        Snapshot { nodes: Vec::new(), mounts: Vec::new() }
    }

    /// Looks a path up.
    pub fn get(&self, path: &str) -> (r: Option<&Node>)
        ensures
            match r {
                Some(n) => self.node(path@) == Some(*n),
                None => self.node(path@) is None,
            },
    {
        let mut i: usize = 0;
        while i < self.nodes.len()
            invariant
                i <= self.nodes@.len(),
                node_from(self.nodes@, path@, 0) == node_from(self.nodes@, path@, i as int),
            decreases self.nodes@.len() - i,
        {
            if str_eq(self.nodes[i].0.as_str(), path) {
                return Some(&self.nodes[i].1);
            }
            i += 1;
        }
        None
    }

    /// The host's file that a path stands for, where it does.
    pub fn get_host_path(&self, path: &str) -> (r: Option<&str>)
        ensures
            match r {
                Some(h) => self.mount(path@) == Some(h@),
                None => self.mount(path@) is None,
            },
    {
        let mut i: usize = 0;
        while i < self.mounts.len()
            invariant
                i <= self.mounts@.len(),
                mount_from(self.mounts@, path@, 0) == mount_from(self.mounts@, path@, i as int),
            decreases self.mounts@.len() - i,
        {
            if str_eq(self.mounts[i].0.as_str(), path) {
                return Some(self.mounts[i].1.as_str());
            }
            i += 1;
        }
        None
    }

    /// Tests whether a path exists.
    pub fn path_exists(&self, path: &str) -> (r: bool)
        ensures
            r == self.spec_exists(path@),
    {
        self.get(path).is_some()
    }

    /// Tests whether a path is a directory.
    pub fn is_dir(&self, path: &str) -> (r: bool)
        ensures
            r == self.spec_is_dir(path@),
    {
        match self.get(path) {
            Some(Node::Dir(_)) | Some(Node::Closed(_, _)) => true,
            _ => false,
        }
    }

    /// Tests whether a path is a file.
    pub fn is_file(&self, path: &str) -> (r: bool)
        ensures
            r == self.spec_is_file(path@),
    {
        match self.get(path) {
            Some(Node::File(_)) => true,
            _ => false,
        }
    }

    /// Tests whether a path stands for a file of the host.
    pub fn is_mounted(&self, path: &str) -> (r: bool)
        ensures
            r == (self.mount(path@) is Some),
    {
        self.get_host_path(path).is_some()
    }
}

pub proof fn lemma_longest(nodes: Seq<(String, Node)>, path: Seq<char>, i: int)
    requires
        0 <= i,
        node_from(nodes, path, i) is Some,
    ensures
        path.len() <= longest(nodes),
    decreases nodes.len() - i,
{
    if nodes[i].0@ == path {
        lemma_longest_at(nodes, i);
    } else {
        lemma_longest(nodes, path, i + 1);
    }
}

pub proof fn lemma_node_names(fs: Snapshot, path: Seq<char>, i: int)
    requires
        0 <= i,
        fs.well_named(),
    ensures
        node_from(fs.nodes@, path, i) matches Some(Node::Dir(v)) ==> entries_name(v@),
    decreases fs.nodes@.len() - i,
{
    if i < fs.nodes@.len() {
        lemma_node_names(fs, path, i + 1);
        assert(fs.nodes@[i].1.well_named());
    }
}

proof fn lemma_longest_at(nodes: Seq<(String, Node)>, i: int)
    requires
        0 <= i < nodes.len(),
    ensures
        nodes[i].0@.len() <= longest(nodes),
    decreases nodes.len(),
{
    if i < nodes.len() - 1 {
        lemma_longest_at(nodes.drop_last(), i);
    }
}

/// A path is what the first entry for it says, and nothing where there is none.
pub proof fn law_first_entry_counts(
    nodes: Seq<(String, Node)>,
    mounts: Seq<(String, String)>,
    path: Seq<char>,
    i: int,
)
    ensures
        0 <= i < nodes.len() && nodes[i].0@ == path && (forall|k: int|
            0 <= k < i ==> (#[trigger] nodes[k]).0@ != path) ==> node_from(nodes, path, 0) == Some(
            nodes[i].1,
        ),
        (forall|k: int| 0 <= k < nodes.len() ==> (#[trigger] nodes[k]).0@ != path) ==> node_from(
            nodes,
            path,
            0,
        ) is None,
        0 <= i < mounts.len() && mounts[i].0@ == path && (forall|k: int|
            0 <= k < i ==> (#[trigger] mounts[k]).0@ != path) ==> mount_from(mounts, path, 0)
            == Some(mounts[i].1@),
        (forall|k: int| 0 <= k < mounts.len() ==> (#[trigger] mounts[k]).0@ != path) ==> mount_from(
            mounts,
            path,
            0,
        ) is None,
{
    if 0 <= i < nodes.len() && nodes[i].0@ == path && (forall|k: int|
        0 <= k < i ==> (#[trigger] nodes[k]).0@ != path) {
        lemma_node_passes(nodes, path, 0, i);
    }
    if forall|k: int| 0 <= k < nodes.len() ==> (#[trigger] nodes[k]).0@ != path {
        lemma_node_passes(nodes, path, 0, nodes.len() as int);
    }
    if 0 <= i < mounts.len() && mounts[i].0@ == path && (forall|k: int|
        0 <= k < i ==> (#[trigger] mounts[k]).0@ != path) {
        lemma_mount_passes(mounts, path, 0, i);
    }
    if forall|k: int| 0 <= k < mounts.len() ==> (#[trigger] mounts[k]).0@ != path {
        lemma_mount_passes(mounts, path, 0, mounts.len() as int);
    }
}

proof fn lemma_node_passes(nodes: Seq<(String, Node)>, path: Seq<char>, from: int, to: int)
    requires
        0 <= from <= to <= nodes.len(),
        forall|k: int| from <= k < to ==> (#[trigger] nodes[k]).0@ != path,
    ensures
        node_from(nodes, path, from) == node_from(nodes, path, to),
    decreases to - from,
{
    if from < to {
        assert(nodes[from].0@ != path);
        lemma_node_passes(nodes, path, from + 1, to);
    }
}

proof fn lemma_mount_passes(mounts: Seq<(String, String)>, path: Seq<char>, from: int, to: int)
    requires
        0 <= from <= to <= mounts.len(),
        forall|k: int| from <= k < to ==> (#[trigger] mounts[k]).0@ != path,
    ensures
        mount_from(mounts, path, from) == mount_from(mounts, path, to),
    decreases to - from,
{
    if from < to {
        assert(mounts[from].0@ != path);
        lemma_mount_passes(mounts, path, from + 1, to);
    }
}

/// What exists is a directory or a file, and not both; a directory that cannot be listed is
/// one too.
pub proof fn law_kinds_of_paths(s: Snapshot, path: Seq<char>)
    ensures
        s.spec_exists(path) == (s.spec_is_dir(path) || s.spec_is_file(path)),
        !(s.spec_is_dir(path) && s.spec_is_file(path)),
        s.node(path) matches Some(Node::Closed(_, _)) ==> s.spec_is_dir(path) && s.entries(
            path,
        ) is None,
        s.node(path) matches Some(Node::Dir(v)) ==> s.spec_is_dir(path) && s.entries(path) == Some(
            v@,
        ),
        s.node(path) matches Some(Node::File(_)) ==> s.spec_is_file(path) && s.entries(
            path,
        ) is None,
{
}

/// A directory is well named where each of its entries has a name, and a file always is.
pub proof fn law_well_named(v: Vec<DirEntry>, i: int, size: Option<u64>)
    ensures
        Node::Dir(v).well_named() && 0 <= i < v@.len() ==> names(v@[i].name@),
        v@.len() == 0 ==> Node::Dir(v).well_named(),
        v@.len() == 1 && names(v@[0].name@) ==> Node::Dir(v).well_named(),
        Node::File(size).well_named(),
{
}

} // verus!
