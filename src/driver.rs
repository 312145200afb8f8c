use vstd::prelude::*;

use crate::binary::{has_leading_nul, is_binary_content, known_binary_signature};
use crate::stats::texts;
use crate::tree::{
    chain, leaf_step, link_label, link_label_of, DirTable, NodeShape, PathTree, TreeNode,
};

verus! {

/// What the walk found at an entry.
pub enum EntryKind {
    /// A directory.
    Dir,
    /// A regular file, with its bytes where they could be read.
    File { content: Option<Vec<u8>> },
    /// A symbolic link, with its target where it could be read.
    Symlink { target: Option<String> },
}

/// One entry of the walk: its path components below the root (none for the
/// root itself), its full path, and what it is.
pub struct Entry {
    pub components: Vec<String>,
    pub path: String,
    pub kind: EntryKind,
}

/// Content that the classifier calls binary. Content that could not be read
/// is not binary.
pub open spec fn binary_content(content: Option<Vec<u8>>) -> bool {
    match content {
        Some(b) => known_binary_signature(b@) || has_leading_nul(b@),
        None => false,
    }
}

/// The entry is a file below the root whose content is not binary.
pub open spec fn is_accepted_file(e: Entry) -> bool {
    &&& e.components@.len() > 0
    &&& e.kind matches EntryKind::File { content }
    &&& !binary_content(content)
}

/// The shape and directory table of a tree after it takes the entry `e`.
pub open spec fn entry_step(s: Seq<NodeShape>, d: DirTable, e: Entry) -> (Seq<NodeShape>, DirTable) {
    let c = texts(e.components@);
    if c.len() == 0 {
        (s, d)
    } else {
        match e.kind {
            EntryKind::Dir => chain(s, d, c, c.len()),
            EntryKind::File { content } => if binary_content(content) {
                (s, d)
            } else {
                leaf_step(s, d, c.drop_last(), c.last())
            },
            EntryKind::Symlink { target } => leaf_step(
                s,
                d,
                c.drop_last(),
                link_label_of(
                    c.last(),
                    match target {
                        Some(t) => Some(t@),
                        None => None,
                    },
                ),
            ),
        }
    }
}

/// The shape, directory table and accepted paths after the entries `es`, in
/// order.
pub open spec fn walk(s: Seq<NodeShape>, d: DirTable, files: Seq<String>, es: Seq<Entry>) -> (
    Seq<NodeShape>,
    DirTable,
    Seq<String>,
)
    decreases es.len(),
{
    if es.len() == 0 {
        (s, d, files)
    } else {
        let (s1, d1, f1) = walk(s, d, files, es.drop_last());
        let (s2, d2) = entry_step(s1, d1, es.last());
        (s2, d2, if is_accepted_file(es.last()) { f1.push(es.last().path) } else { f1 })
    }
}

/// Room for the nodes that the entries `es` can add: one per component and
/// one more per entry.
pub open spec fn node_room(es: Seq<Entry>) -> nat
    decreases es.len(),
{
    if es.len() == 0 {
        0
    } else {
        node_room(es.drop_last()) + es.last().components@.len() + 1
    }
}

fn parent_components(v: &Vec<String>) -> (r: Vec<String>)
    requires
        v@.len() > 0,
    ensures
        texts(r@) == texts(v@).drop_last(),
        r@.len() == v@.len() - 1,
{
    let mut r: Vec<String> = Vec::new();
    let mut i: usize = 0;
    while i < v.len() - 1
        invariant
            i < v@.len(),
            r@.len() == i,
            forall|k: int| 0 <= k < i ==> r@[k]@ == v@[k]@,
        decreases v.len() - i,
    {
        r.push(v[i].clone());
        i = i + 1;
    }
    assert(texts(r@) == texts(v@).drop_last());
    r
}

/// Takes one entry of the walk. The root is skipped. A directory gets its
/// node. A file whose content is not binary becomes a leaf under its
/// directory and its path is appended to `files`; a binary file leaves both
/// unchanged. A symbolic link becomes a leaf labelled with its target and is
/// never added to `files`.
pub fn process_entry(tree: &mut PathTree, files: &mut Vec<String>, e: &Entry)
    requires
        old(tree).wf(),
        old(tree).nodes().len() + e.components@.len() + 1 < usize::MAX,
    ensures
        final(tree).wf(),
        (final(tree).shape(), final(tree).dir_entries()) == entry_step(
            old(tree).shape(),
            old(tree).dir_entries(),
            *e,
        ),
        final(tree).nodes().len() <= old(tree).nodes().len() + e.components@.len() + 1,
        final(files)@ == if is_accepted_file(*e) {
            old(files)@.push(e.path)
        } else {
            old(files)@
        },
        e.components@.len() == 0 ==> *final(tree) == *old(tree),
        (e.kind matches EntryKind::File { content } && binary_content(content)) ==> *final(tree)
            == *old(tree),
        e.components@.len() > 0 && e.kind is Dir ==> final(tree).has_dir(texts(e.components@)),
        is_accepted_file(*e) ==> final(tree).nodes().last() == (TreeNode {
            label: e.components@.last(),
            parent: final(tree).dir_node(texts(e.components@).drop_last()) as usize,
            is_dir: false,
        }),
        e.components@.len() > 0 && e.kind is Symlink ==> final(tree).nodes().last().label@
            == link_label_of(
            e.components@.last()@,
            match e.kind {
                EntryKind::Symlink { target: Some(t) } => Some(t@),
                _ => None,
            },
        ) && final(tree).nodes().last().parent == final(tree).dir_node(
            texts(e.components@).drop_last(),
        ) && !final(tree).nodes().last().is_dir,
{
    if e.components.len() == 0 {
        return;
    }
    let name = &e.components[e.components.len() - 1];
    match &e.kind {
        EntryKind::Dir => {
            tree.add_dir(&e.components);
            assert(texts(e.components@).take(e.components@.len() as int) == texts(
                e.components@,
            ));
        },
        EntryKind::File { content } => {
            let binary = match content {
                Some(b) => is_binary_content(b.as_slice()),
                None => false,
            };
            if !binary {
                let dir = parent_components(&e.components);
                tree.add_leaf(&dir, name.clone());
                files.push(e.path.clone());
            }
        },
        EntryKind::Symlink { target } => {
            let dir = parent_components(&e.components);
            let label = link_label(name.as_str(), target);
            tree.add_leaf(&dir, label);
        },
    }
}

/// Takes the entries of a walk in order, as `process_entry` takes each: the
/// tree and the accepted paths come out as `walk` gives them.
pub fn process_entries(tree: &mut PathTree, files: &mut Vec<String>, entries: &Vec<Entry>)
    requires
        old(tree).wf(),
        old(tree).nodes().len() + node_room(entries@) < usize::MAX,
    ensures
        final(tree).wf(),
        (final(tree).shape(), final(tree).dir_entries(), final(files)@) == walk(
            old(tree).shape(),
            old(tree).dir_entries(),
            old(files)@,
            entries@,
        ),
{
    let mut i: usize = 0;
    while i < entries.len()
        invariant
            tree.wf(),
            i <= entries@.len(),
            tree.nodes().len() <= old(tree).nodes().len() + node_room(entries@.take(i as int)),
            old(tree).nodes().len() + node_room(entries@) < usize::MAX,
            (tree.shape(), tree.dir_entries(), files@) == walk(
                old(tree).shape(),
                old(tree).dir_entries(),
                old(files)@,
                entries@.take(i as int),
            ),
        decreases entries.len() - i,
    {
        proof {
            lemma_room_prefix(entries@, i as int + 1);
        }
        assert(entries@.take(i as int + 1).drop_last() == entries@.take(i as int));
        process_entry(tree, files, &entries[i]);
        i = i + 1;
    }
    assert(entries@.take(entries@.len() as int) == entries@);
}

proof fn lemma_room_prefix(es: Seq<Entry>, i: int)
    requires
        0 <= i <= es.len(),
    ensures
        node_room(es.take(i)) <= node_room(es),
    decreases es.len() - i,
{
    if i < es.len() {
        assert(es.take(i + 1).drop_last() == es.take(i));
        lemma_room_prefix(es, i + 1);
    } else {
        assert(es.take(i) == es);
    }
}

/// A walk is a function of its input: the same entries, in the same order,
/// taken by trees of the same shape and directory table with the same
/// accepted paths, give the same tree and the same accepted paths.
pub proof fn lemma_same_walk_same_tree(
    a: PathTree,
    b: PathTree,
    fa: Seq<String>,
    fb: Seq<String>,
    es: Seq<Entry>,
)
    requires
        a.shape() == b.shape(),
        a.dir_entries() == b.dir_entries(),
        fa == fb,
    ensures
        walk(a.shape(), a.dir_entries(), fa, es) == walk(b.shape(), b.dir_entries(), fb, es),
{
}

/// An entry that the walk does not accept, inserted anywhere among the
/// entries, leaves the accepted paths as they were.
pub proof fn lemma_rejected_entry_keeps_files(
    s: Seq<NodeShape>,
    d: DirTable,
    f: Seq<String>,
    es: Seq<Entry>,
    p: int,
    e: Entry,
)
    requires
        0 <= p <= es.len(),
        !is_accepted_file(e),
    ensures
        walk(s, d, f, es.insert(p, e)).2 == walk(s, d, f, es).2,
    decreases es.len(),
{
    let es2 = es.insert(p, e);
    if p == es.len() {
        assert(es2.drop_last() == es);
        assert(es2.last() == e);
    } else {
        assert(es2.drop_last() == es.drop_last().insert(p, e));
        assert(es2.last() == es.last());
        lemma_rejected_entry_keeps_files(s, d, f, es.drop_last(), p, e);
    }
}

/// A symbolic link is never accepted: inserted anywhere among the entries, it
/// leaves the accepted paths, and so the statistics over them, as they were.
pub proof fn lemma_symlink_keeps_files(
    s: Seq<NodeShape>,
    d: DirTable,
    f: Seq<String>,
    es: Seq<Entry>,
    p: int,
    e: Entry,
)
    requires
        0 <= p <= es.len(),
        e.kind is Symlink,
    ensures
        walk(s, d, f, es.insert(p, e)).2 == walk(s, d, f, es).2,
{
    lemma_rejected_entry_keeps_files(s, d, f, es, p, e);
}

/// A file whose content the classifier calls binary (in particular one with a
/// NUL byte in its first `NUL_WINDOW` bytes), inserted anywhere among the
/// entries, changes neither the tree nor the accepted paths: it appears in
/// neither the tree, the content section nor the statistics.
pub proof fn lemma_binary_file_leaves_no_trace(
    s: Seq<NodeShape>,
    d: DirTable,
    f: Seq<String>,
    es: Seq<Entry>,
    p: int,
    e: Entry,
)
    requires
        0 <= p <= es.len(),
        e.kind matches EntryKind::File { content } && binary_content(content),
    ensures
        walk(s, d, f, es.insert(p, e)) == walk(s, d, f, es),
    decreases es.len(),
{
    let es2 = es.insert(p, e);
    if p == es.len() {
        assert(es2.drop_last() == es);
        assert(es2.last() == e);
    } else {
        assert(es2.drop_last() == es.drop_last().insert(p, e));
        assert(es2.last() == es.last());
        lemma_binary_file_leaves_no_trace(s, d, f, es.drop_last(), p, e);
    }
}

} // verus!
