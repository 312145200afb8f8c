use vstd::prelude::*;

use crate::stats::texts;
use vstd::string::StringExecFns;

verus! {

/// One node of the tree: its label, the index of its parent (the root is its
/// own parent), and whether it is a directory.
pub struct TreeNode {
    pub label: String,
    pub parent: usize,
    pub is_dir: bool,
}

/// A directory tree built incrementally. Node 0 is the root; every other node
/// comes after its parent, and the children of a node are the later nodes
/// that name it as parent, in the order they were added. Each directory is
/// registered under the path of its components from the root and has
/// exactly one node.
pub struct PathTree {
    nodes: Vec<TreeNode>,
    dirs: Vec<(Vec<String>, usize)>,
}

/// What a tree shows of one node: its label, its parent and whether it is a
/// directory.
pub type NodeShape = (Seq<char>, int, bool);

/// Registered directories: component path and node.
pub type DirTable = Seq<(Seq<Seq<char>>, int)>;

/// `d` registers the directory with component path `k`.
pub open spec fn registered(d: DirTable, k: Seq<Seq<char>>) -> bool {
    exists|j: int| 0 <= j < d.len() && #[trigger] d[j].0 == k
}

/// The node that `d` registers for `k`, or the root for the empty path.
pub open spec fn dir_node_in(d: DirTable, k: Seq<Seq<char>>) -> int {
    if k.len() == 0 {
        0
    } else {
        d[choose|j: int| 0 <= j < d.len() && #[trigger] d[j].0 == k].1
    }
}

/// The shape and directory table after making sure that the first `m`
/// directories of the chain `key` exist: each missing one, from the root
/// down, becomes a new node under the one before it.
pub open spec fn chain(s: Seq<NodeShape>, d: DirTable, key: Seq<Seq<char>>, m: nat) -> (
    Seq<NodeShape>,
    DirTable,
)
    decreases m,
{
    if m == 0 {
        (s, d)
    } else {
        let (s1, d1) = chain(s, d, key, (m - 1) as nat);
        let k = key.take(m as int);
        if registered(d1, k) {
            (s1, d1)
        } else {
            (
                s1.push((key[m - 1], dir_node_in(d1, k.drop_last()), true)),
                d1.push((k, s1.len() as int)),
            )
        }
    }
}

/// The shape and directory table after adding a leaf labelled `label` under
/// the directory `dir`.
pub open spec fn leaf_step(s: Seq<NodeShape>, d: DirTable, dir: Seq<Seq<char>>, label: Seq<char>) -> (
    Seq<NodeShape>,
    DirTable,
) {
    let (s1, d1) = chain(s, d, dir, dir.len());
    (s1.push((label, dir_node_in(d1, dir), false)), d1)
}

/// `r` lists, in increasing order, exactly the nodes of `s` other than the
/// root whose parent is `i`.
pub open spec fn is_children_list(s: Seq<NodeShape>, i: int, r: Seq<usize>) -> bool {
    &&& forall|k: int| 0 <= k < r.len() ==> 1 <= #[trigger] r[k] < s.len() && s[r[k] as int].1 == i
    &&& forall|j: int| 1 <= j < s.len() && #[trigger] s[j].1 == i ==> r.contains(j as usize)
    &&& forall|a: int, b: int| 0 <= a < b < r.len() ==> r[a] < r[b]
}

proof fn lemma_sorted_same_elements(a: Seq<usize>, b: Seq<usize>)
    requires
        forall|x: usize| a.contains(x) <==> b.contains(x),
        forall|p: int, q: int| 0 <= p < q < a.len() ==> a[p] < a[q],
        forall|p: int, q: int| 0 <= p < q < b.len() ==> b[p] < b[q],
    ensures
        a == b,
    decreases a.len(),
{
    if a.len() == 0 {
        if b.len() > 0 {
            assert(b.contains(b[0]));
        }
        assert(a =~= b);
    } else {
        assert(a.contains(a[0]));
        assert(b.len() > 0);
        assert(b.contains(b[0]));
        let p = choose|p: int| 0 <= p < b.len() && b[p] == a[0];
        let q = choose|q: int| 0 <= q < a.len() && a[q] == b[0];
        assert(a[0] == b[0]);
        let a1 = a.drop_first();
        let b1 = b.drop_first();
        assert forall|x: usize| a1.contains(x) <==> b1.contains(x) by {
            if a1.contains(x) {
                let k = choose|k: int| 0 <= k < a1.len() && a1[k] == x;
                assert(a[k + 1] == x);
                assert(b.contains(x));
                let m = choose|m: int| 0 <= m < b.len() && b[m] == x;
                assert(m != 0);
                assert(b1[m - 1] == x);
            }
            if b1.contains(x) {
                let k = choose|k: int| 0 <= k < b1.len() && b1[k] == x;
                assert(b[k + 1] == x);
                assert(a.contains(x));
                let m = choose|m: int| 0 <= m < a.len() && a[m] == x;
                assert(m != 0);
                assert(a1[m - 1] == x);
            }
        }
        lemma_sorted_same_elements(a1, b1);
        assert(a.len() == b.len());
        assert forall|k: int| 0 <= k < a.len() implies a[k] == b[k] by {
            if k > 0 {
                assert(a[k] == a1[k - 1]);
                assert(b[k] == b1[k - 1]);
            }
        }
        assert(a =~= b);
    }
}

/// Two trees of the same shape list the same children of each node in the
/// same order, and their nodes carry the same labels: what is rendered from
/// them is the same.
pub proof fn lemma_same_shape_same_children(
    s1: Seq<NodeShape>,
    s2: Seq<NodeShape>,
    i: int,
    r1: Seq<usize>,
    r2: Seq<usize>,
)
    requires
        s1 == s2,
        is_children_list(s1, i, r1),
        is_children_list(s2, i, r2),
    ensures
        r1 == r2,
{
    assert forall|x: usize| r1.contains(x) <==> r2.contains(x) by {
        if r1.contains(x) {
            let k = choose|k: int| 0 <= k < r1.len() && r1[k] == x;
            assert(s2[r1[k] as int].1 == i);
        }
        if r2.contains(x) {
            let k = choose|k: int| 0 <= k < r2.len() && r2[k] == x;
            assert(s1[r2[k] as int].1 == i);
        }
    }
    lemma_sorted_same_elements(r1, r2);
}

impl PathTree {
    /// The labels, parents and kinds of the nodes, root first.
    pub closed spec fn shape(&self) -> Seq<NodeShape> {
        self.nodes@.map_values(|n: TreeNode| (n.label@, n.parent as int, n.is_dir))
    }

    /// The nodes, root first.
    pub closed spec fn nodes(&self) -> Seq<TreeNode> {
        self.nodes@
    }

    /// The registered directories, each with its component path and its node.
    pub closed spec fn dir_entries(&self) -> Seq<(Seq<Seq<char>>, int)> {
        self.dirs@.map_values(|d: (Vec<String>, usize)| (texts(d.0@), d.1 as int))
    }

    /// The directory with component path `k` has a node.
    pub open spec fn has_dir(&self, k: Seq<Seq<char>>) -> bool {
        registered(self.dir_entries(), k)
    }

    /// The node of the directory with component path `k`, or the root for the
    /// empty path.
    pub open spec fn dir_node(&self, k: Seq<Seq<char>>) -> int {
        dir_node_in(self.dir_entries(), k)
    }

    /// Internal consistency: parents come first; each registered directory has
    /// a node of its own, labelled with its last component, whose parent is
    /// the node of the directory one component shorter.
    pub closed spec fn wf(&self) -> bool {
        let d = self.dir_entries();
        &&& self.nodes@.len() >= 1
        &&& self.nodes@.len() < usize::MAX
        &&& forall|i: int| #![trigger self.nodes@[i]] 1 <= i < self.nodes@.len() ==> self.nodes@[i].parent < i
        &&& forall|j: int|
            #![trigger d[j]]
            0 <= j < d.len() ==> {
                &&& 1 <= d[j].1 < self.nodes@.len()
                &&& d[j].0.len() >= 1
                &&& self.nodes@[d[j].1].is_dir
                &&& self.nodes@[d[j].1].label@ == d[j].0.last()
                &&& d[j].0.len() == 1 ==> self.nodes@[d[j].1].parent == 0
                &&& d[j].0.len() > 1 ==> exists|j2: int|
                    #![trigger d[j2]]
                    0 <= j2 < j && d[j2].0 == d[j].0.drop_last() && self.nodes@[d[j].1].parent
                        == d[j2].1
            }
        &&& forall|j1: int, j2: int|
            #![trigger d[j1], d[j2]]
            0 <= j1 < d.len() && 0 <= j2 < d.len() && j1 != j2 ==> d[j1].0 != d[j2].0 && d[j1].1
                != d[j2].1
    }

    /// An empty tree whose root is labelled `root_label`.
    pub fn new(root_label: String) -> (r: PathTree)
        ensures
            r.wf(),
            r.nodes() == seq![TreeNode { label: root_label, parent: 0, is_dir: true }],
            r.dir_entries().len() == 0,
    {
        let mut nodes: Vec<TreeNode> = Vec::new();
        nodes.push(TreeNode { label: root_label, parent: 0, is_dir: true });
        let r = PathTree { nodes, dirs: Vec::new() };
        assert(r.dir_entries().len() == 0);
        r
    }

    /// Every shorter path of a registered directory is registered too.
    pub proof fn lemma_prefixes_registered(&self, k: Seq<Seq<char>>, m: int)
        requires
            self.wf(),
            self.has_dir(k),
            1 <= m <= k.len(),
        ensures
            self.has_dir(k.take(m)),
        decreases k.len() - m,
    {
        let d = self.dir_entries();
        let j = choose|j: int| 0 <= j < d.len() && #[trigger] d[j].0 == k;
        assert(d[j].0 == k);
        if m == k.len() {
            assert(k.take(m) == k);
        } else {
            let j2 = choose|j2: int|
                #![trigger d[j2]]
                0 <= j2 < j && d[j2].0 == d[j].0.drop_last() && self.nodes@[d[j].1].parent
                    == d[j2].1;
            assert(self.has_dir(k.drop_last()));
            self.lemma_prefixes_registered(k.drop_last(), m);
            assert(k.drop_last().take(m) == k.take(m));
        }
    }

    /// Distinct registered directories have distinct nodes, each a directory
    /// labelled with the last component of its path.
    pub proof fn lemma_one_node_per_dir(&self, k1: Seq<Seq<char>>, k2: Seq<Seq<char>>)
        requires
            self.wf(),
            self.has_dir(k1),
            self.has_dir(k2),
        ensures
            k1 != k2 ==> self.dir_node(k1) != self.dir_node(k2),
            self.nodes()[self.dir_node(k1)].is_dir,
            self.nodes()[self.dir_node(k1)].label@ == k1.last(),
            1 <= self.dir_node(k1) < self.nodes().len(),
    {
        let d = self.dir_entries();
        let j1 = choose|j: int| 0 <= j < d.len() && #[trigger] d[j].0 == k1;
        let j2 = choose|j: int| 0 <= j < d.len() && #[trigger] d[j].0 == k2;
        assert(d[j1].0 == k1);
        assert(d[j2].0 == k2);
    }

    /// A registered directory hangs under the node of the directory one
    /// component shorter, which is registered too, or under the root: a path
    /// such as `src/lib` shows as `lib` inside `src` inside the root.
    pub proof fn lemma_dir_parent(&self, k: Seq<Seq<char>>)
        requires
            self.wf(),
            self.has_dir(k),
        ensures
            k.len() >= 1,
            k.len() > 1 ==> self.has_dir(k.drop_last()),
            self.nodes()[self.dir_node(k)].parent as int == self.dir_node(k.drop_last()),
    {
        let d = self.dir_entries();
        let j = choose|j: int| 0 <= j < d.len() && #[trigger] d[j].0 == k;
        assert(d[j].0 == k);
        if k.len() > 1 {
            let j2 = choose|j2: int|
                #![trigger d[j2]]
                0 <= j2 < j && d[j2].0 == d[j].0.drop_last() && self.nodes@[d[j].1].parent
                    == d[j2].1;
            lemma_found_node(self, k.drop_last(), j2);
        }
    }

    fn same_path(a: &Vec<String>, comps: &Vec<String>, m: usize) -> (r: bool)
        requires
            m <= comps@.len(),
        ensures
            r == (texts(a@) == texts(comps@).take(m as int)),
    {
        if a.len() != m {
            assert(texts(a@).len() != texts(comps@).take(m as int).len());
            return false;
        }
        let mut i: usize = 0;
        while i < m
            invariant
                i <= m,
                a@.len() == m,
                m <= comps@.len(),
                forall|k: int| 0 <= k < i ==> a@[k]@ == comps@[k]@,
            decreases m - i,
        {
            if a[i] != comps[i] {
                assert(texts(a@)[i as int] != texts(comps@).take(m as int)[i as int]);
                return false;
            }
            i = i + 1;
        }
        assert(texts(a@) == texts(comps@).take(m as int));
        true
    }

    fn find_dir(&self, comps: &Vec<String>, m: usize) -> (r: Option<usize>)
        requires
            m <= comps@.len(),
        ensures
            match r {
                Some(j) => j < self.dir_entries().len() && self.dir_entries()[j as int].0 == texts(
                    comps@,
                ).take(m as int),
                None => !self.has_dir(texts(comps@).take(m as int)),
            },
    {
        let mut j: usize = 0;
        while j < self.dirs.len()
            invariant
                j <= self.dirs@.len(),
                m <= comps@.len(),
                forall|k: int|
                    0 <= k < j ==> #[trigger] self.dir_entries()[k].0 != texts(comps@).take(
                        m as int,
                    ),
            decreases self.dirs.len() - j,
        {
            if Self::same_path(&self.dirs[j].0, comps, m) {
                return Some(j);
            }
            j = j + 1;
        }
        None
    }

    /// Makes sure the directory with component path `comps` and all the
    /// directories above it have nodes, creating the missing ones in order from
    /// the root, and returns its node. A directory that already has a node is
    /// never given another: where `comps` is registered, nothing changes.
    #[verifier::rlimit(100)]
    #[verifier::spinoff_prover]
    pub fn add_dir(&mut self, comps: &Vec<String>) -> (r: usize)
        requires
            old(self).wf(),
            old(self).nodes().len() + comps@.len() < usize::MAX,
        ensures
            final(self).wf(),
            forall|m: int|
                1 <= m <= comps@.len() ==> #[trigger] final(self).has_dir(
                    texts(comps@).take(m),
                ),
            r as int == final(self).dir_node(texts(comps@)),
            0 <= r < final(self).nodes().len(),
            final(self).nodes().len() <= old(self).nodes().len() + comps@.len(),
            final(self).nodes().len() >= old(self).nodes().len(),
            (final(self).shape(), final(self).dir_entries()) == chain(
                old(self).shape(),
                old(self).dir_entries(),
                texts(comps@),
                comps@.len(),
            ),
            final(self).nodes().take(old(self).nodes().len() as int) == old(self).nodes(),
            final(self).dir_entries().take(old(self).dir_entries().len() as int) == old(
                self,
            ).dir_entries(),
            old(self).has_dir(texts(comps@)) || comps@.len() == 0 ==> final(self).nodes() == old(
                self,
            ).nodes()
                && final(self).dir_entries() == old(self).dir_entries(),
    {
        let ghost key = texts(comps@);
        let mut parent: usize = 0;
        let mut prefix: Vec<String> = Vec::new();
        let mut m: usize = 0;
        while m < comps.len()
            invariant
                self.wf(),
                m <= comps@.len(),
                key == texts(comps@),
                texts(prefix@) == key.take(m as int),
                m == 0 ==> parent == 0,
                m > 0 ==> self.has_dir(key.take(m as int)) && parent as int == self.dir_node(
                    key.take(m as int),
                ),
                parent < self.nodes@.len(),
                forall|m2: int| 1 <= m2 <= m ==> #[trigger] self.has_dir(key.take(m2)),
                self.nodes@.len() <= old(self).nodes@.len() + m,
                old(self).nodes@.len() + comps@.len() < usize::MAX,
                old(self).nodes@.len() <= self.nodes@.len(),
                (self.shape(), self.dir_entries()) == chain(
                    old(self).shape(),
                    old(self).dir_entries(),
                    key,
                    m as nat,
                ),
                old(self).dir_entries().len() <= self.dir_entries().len(),
                self.nodes@.take(old(self).nodes@.len() as int) == old(self).nodes@,
                self.dir_entries().take(old(self).dir_entries().len() as int) == old(
                    self,
                ).dir_entries(),
                old(self).wf(),
                old(self).has_dir(key) || key.len() == 0 ==> self.nodes@ == old(self).nodes@ && self.dirs@ == old(
                    self,
                ).dirs@,
            decreases comps.len() - m,
        {
            prefix.push(comps[m].clone());
            m = m + 1;
            assert(texts(prefix@) == key.take(m as int));
            assert(key.take(m as int).drop_last() == key.take(m as int - 1));
            proof {
                if old(self).has_dir(key) {
                    old(self).lemma_prefixes_registered(key, m as int);
                }
            }
            match self.find_dir(comps, m) {
                Some(j) => {
                    parent = self.dirs[j].1;
                    assert(self.dir_entries()[j as int].0 == key.take(m as int));
                    proof {
                        lemma_found_node(self, key.take(m as int), j as int);
                    }
                },
                None => {
                    let ghost before = *self;
                    let ghost bparent = parent;
                    let idx = self.nodes.len();
                    self.nodes.push(TreeNode { label: comps[m - 1].clone(), parent, is_dir: true });
                    self.dirs.push((prefix.clone(), idx));
                    proof {
                        assert(self.nodes@.drop_last() == before.nodes@);
                        assert(self.dir_entries() =~= before.dir_entries().push(
                            (key.take(m as int), idx as int),
                        ));
                        lemma_register(before, *self, key.take(m as int), parent as int);
                        assert(self.shape() =~= before.shape().push(
                            (key[m - 1], bparent as int, true),
                        ));
                        assert(bparent as int == dir_node_in(
                            before.dir_entries(),
                            key.take(m as int).drop_last(),
                        ));
                        assert forall|m2: int| 1 <= m2 <= m implies #[trigger] self.has_dir(
                            key.take(m2),
                        ) by {
                            if m2 < m {
                                assert(before.has_dir(key.take(m2)));
                            }
                        }
                        assert(self.nodes@.take(old(self).nodes@.len() as int) =~= before.nodes@.take(
                            old(self).nodes@.len() as int,
                        ));
                        assert(self.dir_entries().take(old(self).dir_entries().len() as int)
                            =~= before.dir_entries().take(old(self).dir_entries().len() as int));
                    }
                    parent = idx;
                },
            }
        }
        assert(key.take(m as int) == key);
        parent
    }

    /// Adds a leaf labelled `label` under the directory with component path
    /// `dir`, creating that directory's chain first where it is missing, and
    /// returns the leaf's node.
    pub fn add_leaf(&mut self, dir: &Vec<String>, label: String) -> (r: usize)
        requires
            old(self).wf(),
            old(self).nodes().len() + dir@.len() + 1 < usize::MAX,
        ensures
            final(self).wf(),
            forall|m: int|
                1 <= m <= dir@.len() ==> #[trigger] final(self).has_dir(texts(dir@).take(m)),
            r as int == final(self).nodes().len() - 1,
            final(self).nodes().len() <= old(self).nodes().len() + dir@.len() + 1,
            0 <= final(self).dir_node(texts(dir@)) < final(self).nodes().len() - 1,
            final(self).nodes().last() == (TreeNode {
                label,
                parent: final(self).dir_node(texts(dir@)) as usize,
                is_dir: false,
            }),
            final(self).nodes().take(old(self).nodes().len() as int) == old(self).nodes(),
            final(self).dir_entries().take(old(self).dir_entries().len() as int) == old(
                self,
            ).dir_entries(),
            (final(self).shape(), final(self).dir_entries()) == leaf_step(
                old(self).shape(),
                old(self).dir_entries(),
                texts(dir@),
                label@,
            ),
            old(self).has_dir(texts(dir@)) || dir@.len() == 0 ==> final(self).nodes() == old(
                self,
            ).nodes().push(final(self).nodes().last()) && final(self).dir_entries() == old(
                self,
            ).dir_entries(),
    {
        let p = self.add_dir(dir);
        let ghost before = *self;
        let ghost lbl = label;
        self.nodes.push(TreeNode { label, parent: p, is_dir: false });
        proof {
            let d = self.dir_entries();
            assert(d == before.dir_entries());
            assert(self.nodes@.drop_last() == before.nodes@);
            assert(self.shape() =~= before.shape().push((lbl@, p as int, false)));
            assert forall|i: int| #![trigger self.nodes@[i]] 1 <= i < self.nodes@.len() implies
                self.nodes@[i].parent < i by {
                if i < before.nodes@.len() {
                    assert(self.nodes@[i] == before.nodes@[i]);
                }
            }
            assert forall|j: int| #![trigger d[j]] 0 <= j < d.len() implies self.nodes@[d[j].1]
                == before.nodes@[d[j].1] by {
                assert(before.dir_entries()[j] == d[j]);
            }
            assert(self.nodes@.take(old(self).nodes@.len() as int) =~= before.nodes@.take(
                old(self).nodes@.len() as int,
            ));
            assert forall|m: int| 1 <= m <= dir@.len() implies #[trigger] self.has_dir(
                texts(dir@).take(m),
            ) by {
                assert(before.has_dir(texts(dir@).take(m)));
            }
            if old(self).has_dir(texts(dir@)) || dir@.len() == 0 {
                assert(self.nodes@ =~= old(self).nodes@.push(self.nodes@.last()));
            }
        }
        self.nodes.len() - 1
    }

    /// Number of nodes, the root included.
    pub fn node_count(&self) -> (r: usize)
        ensures
            r == self.nodes().len(),
    {
        self.nodes.len()
    }

    /// The node at index `i`.
    pub fn node(&self, i: usize) -> (r: &TreeNode)
        requires
            i < self.nodes().len(),
        ensures
            *r == self.nodes()[i as int],
    {
        &self.nodes[i]
    }

    /// The children of node `i`, in the order they were added.
    pub fn children(&self, i: usize) -> (r: Vec<usize>)
        requires
            self.wf(),
        ensures
            forall|k: int|
                0 <= k < r@.len() ==> 1 <= #[trigger] r@[k] < self.nodes().len() && self.nodes()[r@[k] as int].parent == i,
            forall|j: int|
                1 <= j < self.nodes().len() && #[trigger] self.nodes()[j].parent == i ==> r@.contains(
                    j as usize,
                ),
            forall|a: int, b: int| 0 <= a < b < r@.len() ==> r@[a] < r@[b],
            is_children_list(self.shape(), i as int, r@),
    {
        let mut r: Vec<usize> = Vec::new();
        let mut j: usize = 1;
        while j < self.nodes.len()
            invariant
                self.wf(),
                1 <= j <= self.nodes@.len(),
                forall|k: int|
                    0 <= k < r@.len() ==> 1 <= #[trigger] r@[k] < j && self.nodes@[r@[k] as int].parent == i,
                forall|j2: int|
                    1 <= j2 < j && #[trigger] self.nodes@[j2].parent == i ==> r@.contains(j2 as usize),
                forall|a: int, b: int| 0 <= a < b < r@.len() ==> r@[a] < r@[b],
            decreases self.nodes.len() - j,
        {
            if self.nodes[j].parent == i {
                let ghost old_r = r@;
                r.push(j);
                assert(r@[r@.len() - 1] == j);
                assert forall|x: usize| old_r.contains(x) implies r@.contains(x) by {
                    let k = choose|k: int| 0 <= k < old_r.len() && old_r[k] == x;
                    assert(r@[k] == x);
                }
            }
            j = j + 1;
        }
        assert(forall|k: int| 0 <= k < self.nodes@.len() ==> #[trigger] self.shape()[k].1 == self.nodes@[k].parent as int);
        r
    }
}

/// Text that follows a link's name when its target cannot be read.
pub open spec fn unreadable_link() -> Seq<char> {
    seq!['[', 'u', 'n', 'r', 'e', 'a', 'd', 'a', 'b', 'l', 'e', ' ', 'l', 'i', 'n', 'k', ']']
}

/// The label of a symbolic link: its name, an arrow, and its target or, where
/// that cannot be read, `[unreadable link]`.
pub open spec fn link_label_of(name: Seq<char>, target: Option<Seq<char>>) -> Seq<char> {
    name + seq![' ', '-', '>', ' '] + match target {
        Some(t) => t,
        None => unreadable_link(),
    }
}

/// The label of a symbolic link named `name` whose target reads `target`.
pub fn link_label(name: &str, target: &Option<String>) -> (r: String)
    ensures
        r@ == link_label_of(
            name@,
            match target {
                Some(t) => Some(t@),
                None => None,
            },
        ),
{
    let s = String::from_str(name);
    proof {
        reveal_strlit(" -> ");
    }
    let s = s.concat(" -> ");
    match target {
        Some(t) => s.concat(t.as_str()),
        None => {
            proof {
                reveal_strlit("[unreadable link]");
            }
            s.concat("[unreadable link]")
        },
    }
}

proof fn lemma_register(before: PathTree, after: PathTree, k: Seq<Seq<char>>, parent: int)
    requires
        before.wf(),
        k.len() >= 1,
        !before.has_dir(k),
        k.len() == 1 ==> parent == 0,
        k.len() > 1 ==> before.has_dir(k.drop_last()) && parent == before.dir_node(k.drop_last()),
        0 <= parent < before.nodes().len(),
        before.nodes().len() + 1 < usize::MAX,
        after.nodes().drop_last() == before.nodes(),
        after.nodes().len() == before.nodes().len() + 1,
        after.nodes().last().label@ == k.last(),
        after.nodes().last().parent == parent,
        after.nodes().last().is_dir,
        after.dir_entries() == before.dir_entries().push((k, before.nodes().len() as int)),
    ensures
        after.wf(),
        after.has_dir(k),
        after.dir_node(k) == before.nodes().len(),
        forall|k2: Seq<Seq<char>>| before.has_dir(k2) ==> #[trigger] after.has_dir(k2),
{
    let d = after.dir_entries();
    let od = before.dir_entries();
    let n = od.len() as int;
    assert(d[n].0 == k);
    assert forall|j: int| #![trigger d[j]] 0 <= j < n implies d[j] == od[j] by {}
    assert forall|i: int| #![trigger after.nodes@[i]] 1 <= i < after.nodes@.len() implies
        after.nodes@[i].parent < i by {
        if i < before.nodes@.len() {
            assert(after.nodes@[i] == before.nodes@[i]);
        }
    }
    if k.len() > 1 {
        let j2 = choose|j: int|
            0 <= j < before.dir_entries().len() && #[trigger] before.dir_entries()[j].0
                == k.drop_last();
        assert(d[j2] == od[j2]);
    }
    assert forall|j: int| #![trigger d[j]] 0 <= j < n implies after.nodes@[d[j].1] == before.nodes@[od[j].1] by {
        assert(d[j] == od[j]);
    }
    assert forall|j: int| #![trigger d[j]] 0 <= j < n implies d[j].0 != k by {
        assert(d[j] == od[j]);
    }
    assert forall|j: int| #![trigger d[j]] 0 <= j < n implies d[j].1 < before.nodes@.len() by {
        assert(d[j] == od[j]);
    }
    assert(d.take(n) =~= od);
    let jc = choose|j: int| 0 <= j < d.len() && #[trigger] d[j].0 == k;
    if jc != n {
        assert(d[jc].0 != k);
    }
    lemma_entries_grow(&before, &after);
}

proof fn lemma_found_node(t: &PathTree, k: Seq<Seq<char>>, j: int)
    requires
        t.wf(),
        0 <= j < t.dir_entries().len(),
        t.dir_entries()[j].0 == k,
    ensures
        t.has_dir(k),
        t.dir_node(k) == t.dir_entries()[j].1,
{
    let d = t.dir_entries();
    assert(d[j].0 == k);
    let jj = choose|jj: int| 0 <= jj < d.len() && #[trigger] d[jj].0 == k;
    if jj != j {
        assert(d[jj].0 != d[j].0);
    }
}

proof fn lemma_entries_grow(a: &PathTree, b: &PathTree)
    requires
        a.dir_entries().len() <= b.dir_entries().len(),
        b.dir_entries().take(a.dir_entries().len() as int) == a.dir_entries(),
    ensures
        forall|k: Seq<Seq<char>>| a.has_dir(k) ==> #[trigger] b.has_dir(k),
{
    assert forall|k: Seq<Seq<char>>| a.has_dir(k) implies #[trigger] b.has_dir(k) by {
        let j = choose|j: int|
            0 <= j < a.dir_entries().len() && #[trigger] a.dir_entries()[j].0 == k;
        assert(b.dir_entries().take(a.dir_entries().len() as int)[j] == b.dir_entries()[j]);
    }
}

} // verus!
