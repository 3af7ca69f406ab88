//! The world tree: a world's directory as a value, and the snapshot that a
//! release starts from.
//!
//! A tree is read from disk and written back by the program around this
//! library. In between it is a value: directories with their children in
//! the order in which the file system listed them, regular files with their
//! bytes and permission bits, and whatever else was found (a symbolic link, a
//! device, a socket) as an entry that is known by name only.

use vstd::prelude::*;
use crate::tag::bytes_to_vec;

verus! {

/// One entry of a world tree.
#[derive(Debug, PartialEq, Eq)]
pub enum Node {
    /// A directory and what is directly inside it.
    Directory { name: String, children: Vec<Node> },
    /// A regular file, its bytes and its permission bits.
    File { name: String, content: Vec<u8>, mode: u32 },
    /// Anything else. It is neither followed nor copied.
    Opaque { name: String },
}

/// The mathematical value of a [`Node`].
pub enum NodeModel {
    Directory { name: Seq<char>, children: Seq<NodeModel> },
    File { name: Seq<char>, content: Seq<u8>, mode: u32 },
    Opaque { name: Seq<char> },
}

/// The values of the nodes `nodes`, in order.
pub open spec fn node_models(nodes: Seq<Node>) -> Seq<NodeModel>
    decreases nodes,
{
    Seq::new(nodes.len(), |i: int| if 0 <= i < nodes.len() {
        nodes[i].view()
    } else {
        NodeModel::Opaque { name: Seq::empty() }
    })
}

impl View for Node {
    type V = NodeModel;

    open spec fn view(&self) -> NodeModel
        decreases self,
    {
        match self {
            Node::Directory { name, children } => NodeModel::Directory {
                name: name@,
                children: node_models(children@),
            },
            Node::File { name, content, mode } => NodeModel::File {
                name: name@,
                content: content@,
                mode: *mode,
            },
            Node::Opaque { name } => NodeModel::Opaque { name: name@ },
        }
    }
}

/// The name of the entry `n`.
pub open spec fn name_of(n: NodeModel) -> Seq<char> {
    match n {
        NodeModel::Directory { name, .. } => name,
        NodeModel::File { name, .. } => name,
        NodeModel::Opaque { name } => name,
    }
}

/// Why a tree could not be cloned.
#[derive(Clone, Copy, Debug, PartialEq, Eq, Structural)]
pub enum CloneError {
    /// The source is no directory.
    NotADirectory,
}

/// The clone of the first `n` entries of `cs`: every regular file as it
/// is, every directory with the clone of its entries, in their order, and
/// nothing for an entry of another sort.
pub open spec fn cloned_children(cs: Seq<NodeModel>, n: int) -> Seq<NodeModel>
    decreases cs, n,
{
    if n <= 0 || n > cs.len() {
        Seq::empty()
    } else {
        let before = cloned_children(cs, n - 1);
        match cs[n - 1] {
            NodeModel::Directory { name, children } => before.push(
                NodeModel::Directory {
                    name,
                    children: cloned_children(children, children.len() as int),
                },
            ),
            NodeModel::File { name, content, mode } => before.push(cs[n - 1]),
            NodeModel::Opaque { name } => before,
        }
    }
}

/// The clone of the directory `source` under the name `destination`.
pub open spec fn cloned(source: NodeModel, destination: Seq<char>) -> NodeModel {
    NodeModel::Directory {
        name: destination,
        children: cloned_children(source->Directory_children, source->Directory_children.len() as int),
    }
}

fn clone_children(children: &Vec<Node>) -> (copies: Vec<Node>)
    ensures
        node_models(copies@) == cloned_children(
            node_models(children@),
            children@.len() as int,
        ),
    decreases children,
{
    let mut copies: Vec<Node> = Vec::new();
    let mut i: usize = 0;
    assert(node_models(copies@) =~= Seq::<NodeModel>::empty());
    while i < children.len()
        invariant
            i <= children@.len(),
            node_models(children@).len() == children@.len(),
            node_models(copies@) == cloned_children(node_models(children@), i as int),
        decreases children@.len() - i,
    {
        let ghost before = node_models(copies@);
        assert(node_models(children@)[i as int] == children@[i as int]@);
        match &children[i] {
            Node::Directory { name, children: inner } => {
                let copy = Node::Directory { name: name.clone(), children: clone_children(inner) };
                copies.push(copy);
                assert(node_models(copies@) =~= before.push(copy@));
            },
            Node::File { name, content, mode } => {
                let copy = Node::File {
                    name: name.clone(),
                    content: bytes_to_vec(content.as_slice()),
                    mode: *mode,
                };
                copies.push(copy);
                assert(node_models(copies@) =~= before.push(copy@));
            },
            Node::Opaque { .. } => {},
        }
        i += 1;
    }
    copies
}

/// Clones the directory `source` as a directory named `destination`.
///
/// Every regular file inside `source`, at any depth, is copied with its
/// bytes and its permission bits; every directory is made anew and its
/// entries are cloned in turn; an entry of any other sort (a symbolic link,
/// a device, a socket) is passed over, so that the clone never reaches
/// beyond the tree it was given. A source that is no directory is refused.
pub fn clone_directory_recursively(source: &Node, destination: String) -> (r: Result<
    Node,
    CloneError,
>)
    ensures
        match r {
            Ok(copy) => source@ is Directory && copy@ == cloned(source@, destination@),
            Err(e) => e == CloneError::NotADirectory && !(source@ is Directory),
        },
{
    match source {
        Node::Directory { name, children } => Ok(
            Node::Directory { name: destination, children: clone_children(children) },
        ),
        _ => Err(CloneError::NotADirectory),
    }
}

/// A regular file as a listing shows it: the names that lead to it, its
/// bytes, its permission bits.
pub type FileRecord = (Seq<Seq<char>>, Seq<u8>, u32);

/// The regular files among the first `n` entries of `cs` and below them,
/// each with its path behind `prefix`, in the order of the tree.
pub open spec fn files_in(cs: Seq<NodeModel>, n: int, prefix: Seq<Seq<char>>) -> Seq<FileRecord>
    decreases cs, n,
{
    if n <= 0 || n > cs.len() {
        Seq::empty()
    } else {
        files_in(cs, n - 1, prefix) + match cs[n - 1] {
            NodeModel::Directory { name, children } => files_in(
                children,
                children.len() as int,
                prefix.push(name),
            ),
            NodeModel::File { name, content, mode } => seq![(prefix.push(name), content, mode)],
            NodeModel::Opaque { name } => Seq::empty(),
        }
    }
}

/// The directories among the first `n` entries of `cs` and below them,
/// each as its path behind `prefix`, in the order of the tree.
pub open spec fn dirs_in(cs: Seq<NodeModel>, n: int, prefix: Seq<Seq<char>>) -> Seq<
    Seq<Seq<char>>,
>
    decreases cs, n,
{
    if n <= 0 || n > cs.len() {
        Seq::empty()
    } else {
        dirs_in(cs, n - 1, prefix) + match cs[n - 1] {
            NodeModel::Directory { name, children } => seq![prefix.push(name)] + dirs_in(
                children,
                children.len() as int,
                prefix.push(name),
            ),
            _ => Seq::empty(),
        }
    }
}

/// Whether the first `n` entries of `cs`, and all below them, are
/// directories and regular files only.
pub open spec fn plain(cs: Seq<NodeModel>, n: int) -> bool
    decreases cs, n,
{
    if n <= 0 || n > cs.len() {
        true
    } else {
        plain(cs, n - 1) && match cs[n - 1] {
            NodeModel::Directory { name, children } => plain(children, children.len() as int),
            NodeModel::File { name, content, mode } => true,
            NodeModel::Opaque { name } => false,
        }
    }
}

proof fn lemma_listing_prefix(a: Seq<NodeModel>, b: Seq<NodeModel>, n: int, prefix: Seq<Seq<char>>)
    requires
        0 <= n <= a.len(),
        n <= b.len(),
        forall|i: int| 0 <= i < n ==> a[i] == b[i],
    ensures
        files_in(a, n, prefix) == files_in(b, n, prefix),
        dirs_in(a, n, prefix) == dirs_in(b, n, prefix),
        plain(a, n) == plain(b, n),
    decreases n,
{
    if n > 0 {
        lemma_listing_prefix(a, b, n - 1, prefix);
    }
}

/// A clone holds the regular files of its source, each at the same path
/// with the same bytes and the same permission bits; it holds the same
/// directories; and it holds nothing else.
pub proof fn lemma_clone_fidelity(cs: Seq<NodeModel>, n: int, prefix: Seq<Seq<char>>)
    requires
        0 <= n <= cs.len(),
    ensures
        files_in(cloned_children(cs, n), cloned_children(cs, n).len() as int, prefix) == files_in(
            cs,
            n,
            prefix,
        ),
        dirs_in(cloned_children(cs, n), cloned_children(cs, n).len() as int, prefix) == dirs_in(
            cs,
            n,
            prefix,
        ),
        plain(cloned_children(cs, n), cloned_children(cs, n).len() as int),
    decreases cs, n,
{
    if n > 0 {
        let before = cloned_children(cs, n - 1);
        let all = cloned_children(cs, n);
        let m = before.len() as int;
        lemma_clone_fidelity(cs, n - 1, prefix);
        match cs[n - 1] {
            NodeModel::Directory { name, children } => {
                lemma_clone_fidelity(children, children.len() as int, prefix.push(name));
                lemma_listing_prefix(all, before, m, prefix);
                assert(all[m] == NodeModel::Directory {
                    name,
                    children: cloned_children(children, children.len() as int),
                });
            },
            NodeModel::File { name, content, mode } => {
                lemma_listing_prefix(all, before, m, prefix);
                assert(all[m] == cs[n - 1]);
            },
            NodeModel::Opaque { name } => {},
        }
    }
}

/// Why a directory could not be emptied.
#[derive(Clone, Copy, Debug, PartialEq, Eq, Structural)]
pub enum IoError {
    /// What stands under the name is no directory.
    NotADirectory,
}

/// The entries of `cs` that are no regular files, in their order.
pub open spec fn kept_children(cs: Seq<NodeModel>) -> Seq<NodeModel>
    decreases cs.len(),
{
    if cs.len() == 0 {
        cs
    } else if cs[0] is File {
        kept_children(cs.drop_first())
    } else {
        seq![cs[0]] + kept_children(cs.drop_first())
    }
}

/// The directory `dir` without the regular files directly inside it.
pub open spec fn emptied(dir: NodeModel) -> NodeModel {
    NodeModel::Directory {
        name: dir->Directory_name,
        children: kept_children(dir->Directory_children),
    }
}

/// Emptying takes out the regular files and nothing else: no kept entry is
/// a regular file, and every kept entry is an entry that was there.
pub proof fn lemma_kept_children(cs: Seq<NodeModel>)
    ensures
        kept_children(cs).len() <= cs.len(),
        forall|i: int|
            0 <= i < kept_children(cs).len() ==> !(#[trigger] kept_children(cs)[i] is File)
                && exists|j: int| 0 <= j < cs.len() && cs[j] == kept_children(cs)[i],
        forall|j: int|
            0 <= j < cs.len() && !(#[trigger] cs[j] is File) ==> exists|i: int|
                0 <= i < kept_children(cs).len() && kept_children(cs)[i] == cs[j],
    decreases cs.len(),
{
    if cs.len() > 0 {
        let rest = cs.drop_first();
        let k = kept_children(cs);
        let kr = kept_children(rest);
        lemma_kept_children(rest);
        assert forall|i: int| 0 <= i < k.len() implies !(#[trigger] k[i] is File) && exists|
            j: int,
        | 0 <= j < cs.len() && cs[j] == k[i] by {
            if cs[0] is File {
                let j = choose|j: int| 0 <= j < rest.len() && rest[j] == kr[i];
                assert(cs[j + 1] == k[i]);
            } else if i == 0 {
                assert(cs[0] == k[0]);
            } else {
                assert(k[i] == kr[i - 1]);
                let j = choose|j: int| 0 <= j < rest.len() && rest[j] == kr[i - 1];
                assert(cs[j + 1] == k[i]);
            }
        }
        assert forall|j: int| 0 <= j < cs.len() && !(#[trigger] cs[j] is File) implies exists|
            i: int,
        | 0 <= i < k.len() && k[i] == cs[j] by {
            if j == 0 {
                assert(k[0] == cs[0]);
            } else {
                assert(rest[j - 1] == cs[j]);
                let i = choose|i: int| 0 <= i < kr.len() && kr[i] == rest[j - 1];
                if cs[0] is File {
                    assert(k[i] == cs[j]);
                } else {
                    assert(k[i + 1] == kr[i]);
                }
            }
        }
    }
}

/// Removes every regular file directly inside the directory `dir`, and
/// says how many there were. Directories inside `dir`, and what they hold,
/// stay as they are. What is no directory is refused and left alone.
pub fn empty_directory(dir: &mut Node) -> (r: Result<usize, IoError>)
    ensures
        match r {
            Ok(count) => old(dir)@ is Directory && final(dir)@ == emptied(old(dir)@) && count
                == old(dir)@->Directory_children.len() - final(dir)@->Directory_children.len(),
            Err(e) => e == IoError::NotADirectory && !(old(dir)@ is Directory) && final(dir)@
                == old(dir)@,
        },
{
    match dir {
        Node::Directory { name, children } => {
            let ghost start = node_models(children@);
            let total = children.len();
            let mut count: usize = 0;
            let mut i: usize = 0;
            assert(start.skip(0) =~= start);
            assert(start.take(0) + kept_children(start) =~= kept_children(start));
            while i < children.len()
                invariant
                    i <= children@.len(),
                    node_models(children@).len() == children@.len(),
                    count + children@.len() == total == start.len(),
                    kept_children(start) == node_models(children@).take(i as int) + kept_children(
                        node_models(children@).skip(i as int),
                    ),
                decreases children@.len() - i,
            {
                let ghost before = node_models(children@);
                assert(before.skip(i as int).drop_first() =~= before.skip(i + 1));
                assert(before.skip(i as int)[0] == before[i as int]);
                assert(before[i as int] == children@[i as int]@);
                let is_file = match &children[i] {
                    Node::File { .. } => true,
                    _ => false,
                };
                if is_file {
                    children.remove(i);
                    count += 1;
                    assert(node_models(children@) =~= before.remove(i as int));
                    assert(node_models(children@).take(i as int) =~= before.take(i as int));
                    assert(node_models(children@).skip(i as int) =~= before.skip(i + 1));
                } else {
                    assert(before.take(i + 1) =~= before.take(i as int) + seq![before[i as int]]);
                    assert(before.take(i as int) + (seq![before[i as int]] + kept_children(
                        before.skip(i + 1),
                    )) =~= before.take(i + 1) + kept_children(before.skip(i + 1)));
                    i += 1;
                }
            }
            let ghost after = node_models(children@);
            assert(after.skip(i as int) =~= Seq::<NodeModel>::empty());
            assert(after.take(i as int) =~= after);
            assert(after + Seq::<NodeModel>::empty() =~= after);
            Ok(count)
        },
        _ => Err(IoError::NotADirectory),
    }
}

/// The index of the first entry of `cs` at or after `from` that is named
/// `name`, or -1.
pub open spec fn child_from(cs: Seq<NodeModel>, name: Seq<char>, from: int) -> int
    decreases cs.len() - from,
{
    if from < 0 || from >= cs.len() {
        -1
    } else if name_of(cs[from]) == name {
        from
    } else {
        child_from(cs, name, from + 1)
    }
}

/// The index of the first entry of `cs` that is named `name`, or -1.
pub open spec fn child_index(cs: Seq<NodeModel>, name: Seq<char>) -> int {
    child_from(cs, name, 0)
}

/// Where `child_from` finds an entry, it is the first of that name at or
/// after `from`; where it finds none, there is none.
pub proof fn lemma_child_from(cs: Seq<NodeModel>, name: Seq<char>, from: int)
    requires
        0 <= from <= cs.len(),
    ensures
        child_from(cs, name, from) == -1 || from <= child_from(cs, name, from) < cs.len(),
        child_from(cs, name, from) == -1 ==> forall|j: int|
            from <= j < cs.len() ==> name_of(#[trigger] cs[j]) != name,
        child_from(cs, name, from) != -1 ==> name_of(cs[child_from(cs, name, from)]) == name
            && forall|j: int|
            from <= j < child_from(cs, name, from) ==> name_of(#[trigger] cs[j]) != name,
    decreases cs.len() - from,
{
    if from < cs.len() && name_of(cs[from]) != name {
        lemma_child_from(cs, name, from + 1);
    }
}

fn name_ref(node: &Node) -> (name: &String)
    ensures
        name@ == name_of(node@),
{
    match node {
        Node::Directory { name, .. } => name,
        Node::File { name, .. } => name,
        Node::Opaque { name } => name,
    }
}

pub(crate) fn find_child(children: &Vec<Node>, name: &String) -> (at: Option<usize>)
    ensures
        match at {
            Some(i) => i == child_index(node_models(children@), name@) && i < children@.len(),
            None => child_index(node_models(children@), name@) == -1,
        },
{
    let mut i: usize = 0;
    while i < children.len()
        invariant
            i <= children@.len(),
            node_models(children@).len() == children@.len(),
            child_index(node_models(children@), name@) == child_from(
                node_models(children@),
                name@,
                i as int,
            ),
        decreases children@.len() - i,
    {
        assert(node_models(children@)[i as int] == children@[i as int]@);
        if *name_ref(&children[i]) == *name {
            return Some(i);
        }
        i += 1;
    }
    None
}

/// The names of the path `path`, one for each step.
pub open spec fn path_names(path: Seq<String>) -> Seq<Seq<char>> {
    Seq::new(path.len(), |i: int| path[i]@)
}

/// Whether a regular file stands in `n` at the path that the names of
/// `path` from `from` on lead to.
pub open spec fn file_at(n: NodeModel, path: Seq<Seq<char>>, from: int) -> bool
    decreases path.len() - from,
{
    match n {
        NodeModel::Directory { name, children } => {
            let i = child_index(children, path[from]);
            if from < 0 || from >= path.len() || i < 0 || i >= children.len() {
                false
            } else if from + 1 == path.len() {
                children[i] is File
            } else {
                file_at(children[i], path, from + 1)
            }
        },
        _ => false,
    }
}

/// The tree `n` without the regular file at the path that the names of
/// `path` from `from` on lead to; `n` itself where no regular file stands
/// there.
pub open spec fn without_file(n: NodeModel, path: Seq<Seq<char>>, from: int) -> NodeModel
    decreases path.len() - from,
{
    match n {
        NodeModel::Directory { name, children } => {
            let i = child_index(children, path[from]);
            if from < 0 || from >= path.len() || i < 0 || i >= children.len() {
                n
            } else if from + 1 == path.len() {
                if children[i] is File {
                    NodeModel::Directory { name, children: children.remove(i) }
                } else {
                    n
                }
            } else {
                NodeModel::Directory {
                    name,
                    children: children.update(i, without_file(children[i], path, from + 1)),
                }
            }
        },
        _ => n,
    }
}

fn remove_below(node: &mut Node, path: &Vec<String>, from: usize) -> (removed: bool)
    requires
        from <= path@.len(),
    ensures
        final(node)@ == without_file(old(node)@, path_names(path@), from as int),
        removed == file_at(old(node)@, path_names(path@), from as int),
    decreases path@.len() - from,
{
    if from >= path.len() {
        return false;
    }
    match node {
        Node::Directory { name, children } => {
            let ghost before = node_models(children@);
            proof {
                lemma_child_from(before, path@[from as int]@, 0);
            }
            let at = match find_child(children, &path[from]) {
                None => {
                    return false;
                },
                Some(at) => at,
            };
            assert(before[at as int] == children@[at as int]@);
            if from + 1 == path.len() {
                let is_file = match &children[at] {
                    Node::File { .. } => true,
                    _ => false,
                };
                if is_file {
                    children.remove(at);
                    assert(node_models(children@) =~= before.remove(at as int));
                }
                is_file
            } else {
                let removed = remove_below(&mut children[at], path, from + 1);
                assert(node_models(children@) =~= before.update(
                    at as int,
                    without_file(before[at as int], path_names(path@), from + 1),
                ));
                removed
            }
        },
        _ => false,
    }
}

/// Removes the regular file at `path`, a path of names that starts inside
/// the directory `world`, and says whether there was one. Where nothing
/// stands at the path, or something that is no regular file, nothing is
/// changed.
pub fn remove_if_present(world: &mut Node, path: &Vec<String>) -> (removed: bool)
    ensures
        final(world)@ == without_file(old(world)@, path_names(path@), 0),
        removed == file_at(old(world)@, path_names(path@), 0),
{
    remove_below(world, path, 0)
}

/// The tree `world` with the directory named `name` inside it emptied;
/// `world` itself where no directory stands under that name.
pub open spec fn emptied_at(world: NodeModel, name: Seq<char>) -> NodeModel {
    match world {
        NodeModel::Directory { name: own, children } => {
            let i = child_index(children, name);
            if 0 <= i < children.len() && children[i] is Directory {
                NodeModel::Directory { name: own, children: children.update(i, emptied(children[i])) }
            } else {
                world
            }
        },
        _ => world,
    }
}

/// What emptying the directory named `name` inside `world` gives: the
/// number of regular files taken out, 0 where nothing stands under the
/// name, or the refusal where something else than a directory does.
pub open spec fn empty_outcome(world: NodeModel, name: Seq<char>) -> Result<int, IoError> {
    match world {
        NodeModel::Directory { name: own, children } => {
            let i = child_index(children, name);
            if 0 <= i < children.len() {
                match children[i] {
                    NodeModel::Directory { name: inner, children: entries } => Ok(
                        entries.len() - kept_children(entries).len(),
                    ),
                    _ => Err(IoError::NotADirectory),
                }
            } else {
                Ok(0)
            }
        },
        _ => Ok(0),
    }
}

/// Empties the directory named `name` directly inside `world`: removes
/// every regular file directly inside it and says how many there were.
///
/// A name under which nothing stands is no error: not every world has
/// every directory, and the count is 0. A name under which something else
/// than a directory stands is refused, and nothing is changed.
pub fn empty(world: &mut Node, name: &str) -> (r: Result<usize, IoError>)
    ensures
        final(world)@ == emptied_at(old(world)@, name@),
        match r {
            Ok(count) => empty_outcome(old(world)@, name@) == Ok::<int, IoError>(count as int),
            Err(e) => empty_outcome(old(world)@, name@) == Err::<int, IoError>(e),
        },
{
    let wanted = name.to_owned();
    match world {
        Node::Directory { name: own, children } => {
            let ghost before = node_models(children@);
            proof {
                lemma_child_from(before, name@, 0);
            }
            match find_child(children, &wanted) {
                None => Ok(0),
                Some(at) => {
                    assert(before[at as int] == children@[at as int]@);
                    let r = empty_directory(&mut children[at]);
                    assert(node_models(children@) =~= before.update(
                        at as int,
                        children@[at as int]@,
                    ));
                    proof {
                        if r is Err {
                            assert(node_models(children@) =~= before);
                        }
                    }
                    r
                },
            }
        },
        _ => Ok(0),
    }
}

/// No two entries of `cs` have one name.
pub open spec fn distinct_children(cs: Seq<NodeModel>) -> bool {
    forall|i: int, j: int|
        0 <= i < j < cs.len() ==> name_of(#[trigger] cs[i]) != name_of(#[trigger] cs[j])
}

/// Whether `n` is a tree as a file system holds it: in every directory, at
/// any depth, no two entries have one name.
pub open spec fn well_formed(n: NodeModel) -> bool
    decreases n,
{
    match n {
        NodeModel::Directory { name, children } => children_well_formed(children),
        _ => true,
    }
}

/// Whether the entries `cs` have distinct names and are well formed.
pub open spec fn children_well_formed(cs: Seq<NodeModel>) -> bool
    decreases cs,
{
    distinct_children(cs) && forall|i: int| 0 <= i < cs.len() ==> well_formed(#[trigger] cs[i])
}

proof fn lemma_child_unique(cs: Seq<NodeModel>, name: Seq<char>, i: int)
    requires
        distinct_children(cs),
        0 <= i < cs.len(),
        name_of(cs[i]) == name,
    ensures
        child_index(cs, name) == i,
{
    lemma_child_from(cs, name, 0);
}

proof fn lemma_child_none(cs: Seq<NodeModel>, name: Seq<char>)
    requires
        forall|j: int| 0 <= j < cs.len() ==> name_of(#[trigger] cs[j]) != name,
    ensures
        child_index(cs, name) == -1,
{
    lemma_child_from(cs, name, 0);
}

pub proof fn lemma_child_same_names(a: Seq<NodeModel>, b: Seq<NodeModel>, name: Seq<char>, from: int)
    requires
        a.len() == b.len(),
        0 <= from <= a.len(),
        forall|j: int| 0 <= j < a.len() ==> name_of(#[trigger] a[j]) == name_of(b[j]),
    ensures
        child_from(a, name, from) == child_from(b, name, from),
    decreases a.len() - from,
{
    if from < a.len() {
        assert(name_of(a[from]) == name_of(b[from]));
        if name_of(a[from]) != name {
            lemma_child_same_names(a, b, name, from + 1);
        }
    }
}

/// Where a regular file was removed, none stands: a well-formed tree
/// without the file at a path is well formed, has the name and the sort it
/// had, and holds no regular file at that path.
pub proof fn lemma_without_file(n: NodeModel, path: Seq<Seq<char>>, from: int)
    requires
        well_formed(n),
    ensures
        well_formed(without_file(n, path, from)),
        name_of(without_file(n, path, from)) == name_of(n),
        without_file(n, path, from) is File <==> n is File,
        without_file(n, path, from) is Directory <==> n is Directory,
        !file_at(without_file(n, path, from), path, from),
    decreases path.len() - from,
{
    match n {
        NodeModel::Directory { name, children } => {
            let i = child_index(children, path[from]);
            lemma_child_from(children, path[from], 0);
            if from < 0 || from >= path.len() || i < 0 || i >= children.len() {
            } else if from + 1 == path.len() {
                if children[i] is File {
                    let rest = children.remove(i);
                    assert forall|a: int| 0 <= a < rest.len() implies name_of(#[trigger] rest[a])
                        != path[from] && well_formed(rest[a]) by {
                        if a < i {
                            assert(rest[a] == children[a]);
                        } else {
                            assert(rest[a] == children[a + 1]);
                        }
                    }
                    assert forall|a: int, b: int| 0 <= a < b < rest.len() implies name_of(
                        #[trigger] rest[a],
                    ) != name_of(#[trigger] rest[b]) by {
                        let x = if a < i {
                            a
                        } else {
                            a + 1
                        };
                        let y = if b < i {
                            b
                        } else {
                            b + 1
                        };
                        assert(rest[a] == children[x]);
                        assert(rest[b] == children[y]);
                    }
                    lemma_child_none(rest, path[from]);
                }
            } else {
                let inner = without_file(children[i], path, from + 1);
                lemma_without_file(children[i], path, from + 1);
                let next = children.update(i, inner);
                assert forall|a: int| 0 <= a < next.len() implies name_of(#[trigger] next[a])
                    == name_of(children[a]) && well_formed(next[a]) by {
                    if a != i {
                        assert(next[a] == children[a]);
                    }
                }
                assert forall|a: int, b: int| 0 <= a < b < next.len() implies name_of(
                    #[trigger] next[a],
                ) != name_of(#[trigger] next[b]) by {
                    assert(name_of(next[a]) == name_of(children[a]));
                    assert(name_of(next[b]) == name_of(children[b]));
                }
                lemma_child_unique(next, path[from], i);
            }
        },
        _ => {},
    }
}

/// Removing a file brings none: a path at which no regular file stood
/// holds none after the file at another path was removed.
pub proof fn lemma_without_file_other(
    n: NodeModel,
    gone: Seq<Seq<char>>,
    gone_from: int,
    path: Seq<Seq<char>>,
    from: int,
)
    requires
        well_formed(n),
        !file_at(n, path, from),
    ensures
        !file_at(without_file(n, gone, gone_from), path, from),
    decreases gone.len() - gone_from,
{
    match n {
        NodeModel::Directory { name, children } => {
            let j = child_index(children, gone[gone_from]);
            lemma_child_from(children, gone[gone_from], 0);
            if gone_from < 0 || gone_from >= gone.len() || j < 0 || j >= children.len() {
            } else if gone_from + 1 == gone.len() {
                if children[j] is File && 0 <= from < path.len() {
                    let rest = children.remove(j);
                    let k = child_index(rest, path[from]);
                    lemma_child_from(rest, path[from], 0);
                    if 0 <= k < rest.len() {
                        let m = if k < j {
                            k
                        } else {
                            k + 1
                        };
                        assert(rest[k] == children[m]);
                        lemma_child_unique(children, path[from], m);
                    }
                }
            } else if 0 <= from < path.len() {
                let inner = without_file(children[j], gone, gone_from + 1);
                lemma_without_file(children[j], gone, gone_from + 1);
                let next = children.update(j, inner);
                assert forall|a: int| 0 <= a < next.len() implies name_of(#[trigger] next[a])
                    == name_of(children[a]) by {
                    if a != j {
                        assert(next[a] == children[a]);
                    }
                }
                lemma_child_same_names(next, children, path[from], 0);
                lemma_child_from(children, path[from], 0);
                let k = child_index(children, path[from]);
                if 0 <= k < children.len() {
                    if k == j {
                        if from + 1 != path.len() {
                            lemma_without_file_other(
                                children[j],
                                gone,
                                gone_from + 1,
                                path,
                                from + 1,
                            );
                        }
                    } else {
                        assert(next[k] == children[k]);
                    }
                }
            }
        },
        _ => {},
    }
}

proof fn lemma_kept_distinct(cs: Seq<NodeModel>)
    requires
        children_well_formed(cs),
    ensures
        children_well_formed(kept_children(cs)),
    decreases cs.len(),
{
    let k = kept_children(cs);
    if cs.len() > 0 {
        let rest = cs.drop_first();
        let kr = kept_children(rest);
        assert forall|i: int| 0 <= i < rest.len() implies well_formed(#[trigger] rest[i]) by {
            assert(rest[i] == cs[i + 1]);
        }
        assert forall|i: int, j: int| 0 <= i < j < rest.len() implies name_of(#[trigger] rest[i])
            != name_of(#[trigger] rest[j]) by {
            assert(rest[i] == cs[i + 1]);
            assert(rest[j] == cs[j + 1]);
        }
        lemma_kept_distinct(rest);
        lemma_kept_children(rest);
        if !(cs[0] is File) {
            assert forall|i: int| 0 <= i < k.len() implies well_formed(#[trigger] k[i]) by {
                if i > 0 {
                    assert(k[i] == kr[i - 1]);
                }
            }
            assert forall|i: int, j: int| 0 <= i < j < k.len() implies name_of(#[trigger] k[i])
                != name_of(#[trigger] k[j]) by {
                assert(k[j] == kr[j - 1]);
                if i == 0 {
                    let m = choose|m: int| 0 <= m < rest.len() && rest[m] == kr[j - 1];
                    assert(rest[m] == cs[m + 1]);
                } else {
                    assert(k[i] == kr[i - 1]);
                }
            }
        }
    }
}

/// Whether the directory named `name` inside `world`, where there is one,
/// holds no regular file directly.
pub open spec fn holds_no_file(world: NodeModel, name: Seq<char>) -> bool {
    match world {
        NodeModel::Directory { name: own, children } => {
            let i = child_index(children, name);
            0 <= i < children.len() && children[i] is Directory ==> forall|k: int|
                0 <= k < children[i]->Directory_children.len() ==> !(
                #[trigger] children[i]->Directory_children[k] is File)
        },
        _ => true,
    }
}

proof fn lemma_emptied_children(children: Seq<NodeModel>, i: int, name: Seq<char>)
    requires
        children_well_formed(children),
        0 <= i < children.len(),
        children[i] is Directory,
    ensures
        children_well_formed(children.update(i, emptied(children[i]))),
        child_index(children.update(i, emptied(children[i])), name) == child_index(
            children,
            name,
        ),
        children_well_formed(kept_children(children[i]->Directory_children)),
{
    let entries = children[i]->Directory_children;
    let next = children.update(i, emptied(children[i]));
    assert(well_formed(children[i]));
    lemma_kept_distinct(entries);
    assert forall|a: int| 0 <= a < next.len() implies name_of(#[trigger] next[a]) == name_of(
        children[a],
    ) && well_formed(next[a]) by {
        if a != i {
            assert(next[a] == children[a]);
        }
    }
    assert forall|a: int, b: int| 0 <= a < b < next.len() implies name_of(#[trigger] next[a])
        != name_of(#[trigger] next[b]) by {
        assert(name_of(next[a]) == name_of(children[a]));
        assert(name_of(next[b]) == name_of(children[b]));
    }
    lemma_child_same_names(next, children, name, 0);
}

/// Emptying a directory leaves it without regular files and keeps the
/// tree well formed.
pub proof fn lemma_emptied_at(world: NodeModel, name: Seq<char>)
    requires
        well_formed(world),
    ensures
        well_formed(emptied_at(world, name)),
        holds_no_file(emptied_at(world, name), name),
{
    match world {
        NodeModel::Directory { name: own, children } => {
            let i = child_index(children, name);
            lemma_child_from(children, name, 0);
            if 0 <= i < children.len() && children[i] is Directory {
                lemma_emptied_children(children, i, name);
                lemma_kept_children(children[i]->Directory_children);
            }
        },
        _ => {},
    }
}

/// Emptying a directory keeps every other emptied directory empty.
pub proof fn lemma_emptied_at_keeps_empty(world: NodeModel, name: Seq<char>, other: Seq<char>)
    requires
        well_formed(world),
        holds_no_file(world, other),
    ensures
        holds_no_file(emptied_at(world, name), other),
{
    match world {
        NodeModel::Directory { name: own, children } => {
            let i = child_index(children, name);
            lemma_child_from(children, name, 0);
            lemma_child_from(children, other, 0);
            if 0 <= i < children.len() && children[i] is Directory {
                let next = children.update(i, emptied(children[i]));
                lemma_emptied_children(children, i, other);
                lemma_kept_children(children[i]->Directory_children);
                let o = child_index(children, other);
                if 0 <= o < children.len() && o != i {
                    assert(next[o] == children[o]);
                }
            }
        },
        _ => {},
    }
}

/// Emptying a directory brings no regular file to a path where none
/// stood.
pub proof fn lemma_emptied_at_other(world: NodeModel, name: Seq<char>, path: Seq<Seq<char>>)
    requires
        well_formed(world),
        !file_at(world, path, 0),
    ensures
        !file_at(emptied_at(world, name), path, 0),
{
    reveal_with_fuel(file_at, 3);
    match world {
        NodeModel::Directory { name: own, children } => {
            let i = child_index(children, name);
            lemma_child_from(children, name, 0);
            if 0 <= i < children.len() && children[i] is Directory && path.len() > 0 {
                let entries = children[i]->Directory_children;
                let kept = kept_children(entries);
                let next = children.update(i, emptied(children[i]));
                lemma_emptied_children(children, i, path[0]);
                lemma_kept_children(entries);
                lemma_child_from(children, path[0], 0);
                let k = child_index(children, path[0]);
                if 0 <= k < children.len() {
                    if k != i {
                        assert(next[k] == children[k]);
                    } else if path.len() > 1 {
                        let m = child_index(kept, path[1]);
                        lemma_child_from(kept, path[1], 0);
                        assert(well_formed(children[i]));
                        if 0 <= m < kept.len() {
                            let j = choose|j: int| 0 <= j < entries.len() && entries[j] == kept[m];
                            lemma_child_unique(entries, path[1], j);
                        }
                    }
                }
            }
        },
        _ => {},
    }
}

/// The bytes and the permission bits of the regular file that stands
/// below the entries `cs` at the path that the names of `path` from `from`
/// on lead to.
pub open spec fn content_in(cs: Seq<NodeModel>, path: Seq<Seq<char>>, from: int) -> Option<
    (Seq<u8>, u32),
>
    decreases path.len() - from,
{
    let i = child_index(cs, path[from]);
    if from < 0 || from >= path.len() || i < 0 || i >= cs.len() {
        None
    } else if from + 1 == path.len() {
        match cs[i] {
            NodeModel::File { name, content, mode } => Some((content, mode)),
            _ => None,
        }
    } else {
        match cs[i] {
            NodeModel::Directory { name, children } => content_in(children, path, from + 1),
            _ => None,
        }
    }
}

/// A regular file stands at a path exactly where the path leads to bytes.
pub proof fn lemma_file_at_content(n: NodeModel, path: Seq<Seq<char>>, from: int)
    ensures
        file_at(n, path, from) == (n is Directory && content_in(
            n->Directory_children,
            path,
            from,
        ) is Some),
    decreases path.len() - from,
{
    match n {
        NodeModel::Directory { name, children } => {
            let i = child_index(children, path[from]);
            if 0 <= from && from + 1 < path.len() && 0 <= i < children.len() {
                lemma_file_at_content(children[i], path, from + 1);
            }
        },
        _ => {},
    }
}

/// The clone of one entry that is cloned: a regular file as it is, a
/// directory with the clone of its entries.
pub open spec fn clone_of(n: NodeModel) -> NodeModel {
    match n {
        NodeModel::Directory { name, children } => NodeModel::Directory {
            name,
            children: cloned_children(children, children.len() as int),
        },
        _ => n,
    }
}

/// Whether `c` is the clone of one of the first `n` entries of `cs`.
spec fn cloned_from(cs: Seq<NodeModel>, n: int, c: NodeModel) -> bool {
    exists|b: int| 0 <= b < n && b < cs.len() && !(#[trigger] cs[b] is Opaque) && c == clone_of(cs[b])
}

proof fn lemma_clone_sources(cs: Seq<NodeModel>, n: int, a: int)
    requires
        0 <= n <= cs.len(),
        0 <= a < cloned_children(cs, n).len(),
    ensures
        cloned_from(cs, n, cloned_children(cs, n)[a]),
    decreases n,
{
    let before = cloned_children(cs, n - 1);
    let all = cloned_children(cs, n);
    if a < before.len() {
        lemma_clone_sources(cs, n - 1, a);
        assert(all[a] == before[a]);
        let b = choose|b: int|
            0 <= b < n - 1 && b < cs.len() && !(#[trigger] cs[b] is Opaque) && before[a]
                == clone_of(cs[b]);
        assert(!(cs[b] is Opaque) && all[a] == clone_of(cs[b]));
    } else {
        assert(!(cs[n - 1] is Opaque) && all[a] == clone_of(cs[n - 1]));
    }
}

proof fn lemma_clone_holds(cs: Seq<NodeModel>, n: int, b: int) -> (a: int)
    requires
        0 <= b < n <= cs.len(),
        !(cs[b] is Opaque),
    ensures
        0 <= a < cloned_children(cs, n).len(),
        cloned_children(cs, n)[a] == clone_of(cs[b]),
    decreases n,
{
    let before = cloned_children(cs, n - 1);
    let all = cloned_children(cs, n);
    if b < n - 1 {
        let a = lemma_clone_holds(cs, n - 1, b);
        assert(all[a] == before[a]);
        a
    } else {
        before.len() as int
    }
}

proof fn lemma_clone_distinct(cs: Seq<NodeModel>, n: int)
    requires
        0 <= n <= cs.len(),
        distinct_children(cs),
    ensures
        distinct_children(cloned_children(cs, n)),
    decreases n,
{
    if n > 0 {
        let before = cloned_children(cs, n - 1);
        let all = cloned_children(cs, n);
        lemma_clone_distinct(cs, n - 1);
        assert forall|x: int, y: int| 0 <= x < y < all.len() implies name_of(#[trigger] all[x])
            != name_of(#[trigger] all[y]) by {
            assert(all[x] == before[x]);
            if y < before.len() {
                assert(all[y] == before[y]);
            } else {
                lemma_clone_sources(cs, n - 1, x);
                let b = choose|b: int|
                    0 <= b < n - 1 && b < cs.len() && !(#[trigger] cs[b] is Opaque) && before[x]
                        == clone_of(cs[b]);
                assert(all[y] == clone_of(cs[n - 1]));
                assert(name_of(cs[b]) != name_of(cs[n - 1]));
            }
        }
    }
}

/// A clone of well-formed entries is well formed.
pub proof fn lemma_clone_well_formed(cs: Seq<NodeModel>)
    requires
        children_well_formed(cs),
    ensures
        children_well_formed(cloned_children(cs, cs.len() as int)),
    decreases cs,
{
    let all = cloned_children(cs, cs.len() as int);
    lemma_clone_distinct(cs, cs.len() as int);
    assert forall|a: int| 0 <= a < all.len() implies well_formed(#[trigger] all[a]) by {
        lemma_clone_sources(cs, cs.len() as int, a);
        let b = choose|b: int|
            0 <= b < cs.len() && b < cs.len() && !(#[trigger] cs[b] is Opaque) && all[a]
                == clone_of(cs[b]);
        assert(well_formed(cs[b]));
        match cs[b] {
            NodeModel::Directory { name, children } => {
                lemma_clone_well_formed(children);
            },
            _ => {},
        }
    }
}

/// In a clone, every path leads to the bytes and the permission bits that
/// it led to in the source: each regular file is where it was, as it was,
/// and no path leads to a file that the source did not hold.
pub proof fn lemma_clone_content(cs: Seq<NodeModel>, path: Seq<Seq<char>>, from: int)
    requires
        children_well_formed(cs),
    ensures
        content_in(cloned_children(cs, cs.len() as int), path, from) == content_in(cs, path, from),
    decreases path.len() - from,
{
    let all = cloned_children(cs, cs.len() as int);
    if 0 <= from < path.len() {
        let name = path[from];
        lemma_clone_distinct(cs, cs.len() as int);
        lemma_child_from(cs, name, 0);
        lemma_child_from(all, name, 0);
        let i = child_index(cs, name);
        let a = child_index(all, name);
        if 0 <= a < all.len() {
            lemma_clone_sources(cs, cs.len() as int, a);
            let b = choose|b: int|
                0 <= b < cs.len() && b < cs.len() && !(#[trigger] cs[b] is Opaque) && all[a]
                    == clone_of(cs[b]);
            lemma_child_unique(cs, name, b);
            assert(well_formed(cs[b]));
            match cs[b] {
                NodeModel::Directory { name: inner_name, children } => {
                    if from + 1 < path.len() {
                        lemma_clone_content(children, path, from + 1);
                    }
                },
                _ => {},
            }
        } else if 0 <= i < cs.len() {
            if !(cs[i] is Opaque) {
                let x = lemma_clone_holds(cs, cs.len() as int, i);
                assert(name_of(all[x]) == name);
            }
        }
    }
}

/// The entry named `name` directly inside the directory `n`.
pub open spec fn top_child(n: NodeModel, name: Seq<char>) -> Option<NodeModel> {
    match n {
        NodeModel::Directory { name: own, children } => {
            let i = child_index(children, name);
            if 0 <= i < children.len() {
                Some(children[i])
            } else {
                None
            }
        },
        _ => None,
    }
}

/// A clone holds, directly inside it, the clone of every entry that the
/// source held there, but of those that are neither file nor directory.
pub proof fn lemma_clone_top(source: NodeModel, destination: Seq<char>, name: Seq<char>)
    requires
        source is Directory,
        well_formed(source),
    ensures
        well_formed(cloned(source, destination)),
        top_child(cloned(source, destination), name) == match top_child(source, name) {
            Some(c) => if c is Opaque {
                None
            } else {
                Some(clone_of(c))
            },
            None => None,
        },
{
    let cs = source->Directory_children;
    let all = cloned_children(cs, cs.len() as int);
    lemma_clone_well_formed(cs);
    lemma_child_from(cs, name, 0);
    lemma_child_from(all, name, 0);
    let i = child_index(cs, name);
    let a = child_index(all, name);
    if 0 <= a < all.len() {
        lemma_clone_sources(cs, cs.len() as int, a);
        let b = choose|b: int|
            0 <= b < cs.len() && b < cs.len() && !(#[trigger] cs[b] is Opaque) && all[a]
                == clone_of(cs[b]);
        lemma_child_unique(cs, name, b);
    } else if 0 <= i < cs.len() {
        if !(cs[i] is Opaque) {
            let x = lemma_clone_holds(cs, cs.len() as int, i);
            assert(name_of(all[x]) == name);
        }
    }
}

/// Removing a file leaves every entry of another name, directly inside
/// the tree, as it was.
pub proof fn lemma_without_file_top(n: NodeModel, gone: Seq<Seq<char>>, name: Seq<char>)
    requires
        well_formed(n),
        gone.len() == 0 || gone[0] != name,
    ensures
        top_child(without_file(n, gone, 0), name) == top_child(n, name),
{
    match n {
        NodeModel::Directory { name: own, children } => {
            lemma_without_file(n, gone, 0);
            if gone.len() > 0 {
                let j = child_index(children, gone[0]);
                let i = child_index(children, name);
                lemma_child_from(children, gone[0], 0);
                lemma_child_from(children, name, 0);
                if 0 <= j < children.len() {
                    let next = without_file(n, gone, 0)->Directory_children;
                    if gone.len() == 1 {
                        if children[j] is File {
                            assert(next == children.remove(j));
                            if 0 <= i < children.len() {
                                let at = if i < j {
                                    i
                                } else {
                                    i - 1
                                };
                                assert(next[at] == children[i]);
                                lemma_child_unique(next, name, at);
                            } else {
                                assert forall|a: int| 0 <= a < next.len() implies name_of(
                                    #[trigger] next[a],
                                ) != name by {
                                    if a < j {
                                        assert(next[a] == children[a]);
                                    } else {
                                        assert(next[a] == children[a + 1]);
                                    }
                                }
                                lemma_child_none(next, name);
                            }
                        }
                    } else {
                        lemma_without_file(children[j], gone, 1);
                        assert forall|a: int| 0 <= a < next.len() implies name_of(
                            #[trigger] next[a],
                        ) == name_of(children[a]) by {
                            if a != j {
                                assert(next[a] == children[a]);
                            }
                        }
                        lemma_child_same_names(next, children, name, 0);
                        if 0 <= i < children.len() {
                            assert(next[i] == children[i]);
                        }
                    }
                }
            }
        },
        _ => {},
    }
}

/// Emptying a directory leaves every entry of another name, directly
/// inside the tree, as it was.
pub proof fn lemma_emptied_at_top(n: NodeModel, emptied_name: Seq<char>, name: Seq<char>)
    requires
        well_formed(n),
        emptied_name != name,
    ensures
        top_child(emptied_at(n, emptied_name), name) == top_child(n, name),
{
    match n {
        NodeModel::Directory { name: own, children } => {
            let j = child_index(children, emptied_name);
            let i = child_index(children, name);
            lemma_child_from(children, emptied_name, 0);
            lemma_child_from(children, name, 0);
            if 0 <= j < children.len() && children[j] is Directory {
                let next = children.update(j, emptied(children[j]));
                lemma_emptied_children(children, j, name);
                if 0 <= i < children.len() {
                    assert(next[i] == children[i]);
                }
            }
        },
        _ => {},
    }
}

} // verus!
