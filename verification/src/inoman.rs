use vstd::prelude::*;
use vstd::hash_map::{HashMapWithView, StringHashMap};
use crate::paths::{normalize, parent, path_normal, path_parent};

verus! {

/// The inode number of the root of the mirrored tree.
pub const ROOT_INO: u64 = 1;

/// A known file: its path and the inode number of its parent directory.
pub struct INode {
    parent: u64,
    pub path: String,
}

impl View for INode {
    type V = (Seq<char>, u64);

    closed spec fn view(&self) -> (Seq<char>, u64) {
        (self.path@, self.parent)
    }
}

/// The inode numbers given out so far: which path has which number (a path
/// is known by its components, `path_normal`), what each number stands for
/// (its path as first met and its parent's number), and the next number.
pub struct InodeTable {
    pub inos: Map<Seq<char>, u64>,
    pub nodes: Map<u64, (Seq<char>, u64)>,
    pub next: u64,
}

/// Every known path's number stands for that path, every number is below the
/// next one, the root is known, and every parent is known.
pub open spec fn table_wf(t: InodeTable) -> bool {
    &&& t.nodes.contains_key(ROOT_INO)
    &&& 2 <= t.next
    &&& forall|p: Seq<char>| #[trigger] t.inos.contains_key(p) ==>
            t.nodes.contains_key(t.inos[p]) && path_normal(t.nodes[t.inos[p]].0) == p
    &&& forall|i: u64| #[trigger] t.nodes.contains_key(i) ==> 1 <= i < t.next && t.nodes.contains_key(t.nodes[i].1)
}

/// The table of a new manager for the tree at `root`.
pub open spec fn initial_table(root: Seq<char>) -> InodeTable {
    InodeTable {
        inos: Map::empty().insert(path_normal(root), ROOT_INO),
        nodes: Map::empty().insert(ROOT_INO, (root, ROOT_INO)),
        next: 2,
    }
}

/// The table after asking for the number of `path`, and that number: a known
/// path (one with the same components as a path met before) keeps its number;
/// an unknown path gets the next number after its parent has got one; a path
/// without a parent stands for the root.
pub open spec fn ino_spec(t: InodeTable, path: Seq<char>) -> (InodeTable, u64)
    decreases path.len(),
{
    if t.inos.contains_key(path_normal(path)) {
        (t, t.inos[path_normal(path)])
    } else {
        match path_parent(path) {
            None => (t, ROOT_INO),
            Some(p) => if p.len() < path.len() {
                let (t1, pino) = ino_spec(t, p);
                let n = t1.next;
                (
                    InodeTable {
                        inos: t1.inos.insert(path_normal(path), n),
                        nodes: t1.nodes.insert(n, (path, pino)),
                        next: (n + 1) as u64,
                    },
                    n,
                )
            } else {
                (t, ROOT_INO)
            },
        }
    }
}

proof fn lemma_insert_wf(t: InodeTable, path: Seq<char>, pino: u64)
    requires
        table_wf(t),
        t.nodes.contains_key(pino),
        t.next < u64::MAX,
    ensures
        table_wf(InodeTable {
            inos: t.inos.insert(path_normal(path), t.next),
            nodes: t.nodes.insert(t.next, (path, pino)),
            next: (t.next + 1) as u64,
        }),
{
    let n = t.next;
    let u = InodeTable {
        inos: t.inos.insert(path_normal(path), n),
        nodes: t.nodes.insert(n, (path, pino)),
        next: (n + 1) as u64,
    };
    assert(!t.nodes.contains_key(n));
    assert forall|p: Seq<char>| #[trigger] u.inos.contains_key(p) implies
        u.nodes.contains_key(u.inos[p]) && path_normal(u.nodes[u.inos[p]].0) == p by {
        if p != path_normal(path) {
            assert(t.inos.contains_key(p));
            assert(t.nodes.contains_key(t.inos[p]));
        }
    }
    assert forall|i: u64| #[trigger] u.nodes.contains_key(i) implies 1 <= i < u.next && u.nodes.contains_key(u.nodes[i].1) by {
        if i != n {
            assert(t.nodes.contains_key(i));
        }
    }
}


/// Asking twice for the number of a path gives the same number, and the second
/// time changes nothing.
pub proof fn law_ino_idempotent(t: InodeTable, path: Seq<char>)
    ensures
        ino_spec(ino_spec(t, path).0, path) == ino_spec(t, path),
{
}

/// Numbers once given out stay: every known path keeps its number, and every
/// known number keeps its path and parent.
pub proof fn law_ino_keeps_known(t: InodeTable, path: Seq<char>)
    requires
        table_wf(t),
        t.next + path.len() < u64::MAX,
    ensures
        forall|q: Seq<char>| #[trigger] t.inos.contains_key(q) ==>
            ino_spec(t, path).0.inos.contains_key(q) && ino_spec(t, path).0.inos[q] == t.inos[q],
        forall|i: u64| #[trigger] t.nodes.contains_key(i) ==>
            ino_spec(t, path).0.nodes.contains_key(i) && ino_spec(t, path).0.nodes[i] == t.nodes[i],
        t.next <= ino_spec(t, path).0.next,
    decreases path.len(),
{
    if !t.inos.contains_key(path_normal(path)) {
        if let Some(p) = path_parent(path) {
            if p.len() < path.len() {
                law_ino_keeps_known(t, p);
                lemma_ino_fresh(t, p);
            }
        }
    }
}

/// What asking for a number adds is new: every number in use stays below the
/// next one, and the counter moves by at most one more than the path's length.
pub(crate) proof fn lemma_ino_fresh(t: InodeTable, path: Seq<char>)
    requires
        table_wf(t),
        t.next + path.len() < u64::MAX,
    ensures
        forall|i: u64| #[trigger] ino_spec(t, path).0.nodes.contains_key(i) ==> i < ino_spec(t, path).0.next,
        ino_spec(t, path).0.nodes.contains_key(ROOT_INO),
        t.next <= ino_spec(t, path).0.next <= t.next + path.len() + 1,
    decreases path.len(),
{
    if !t.inos.contains_key(path_normal(path)) {
        if let Some(p) = path_parent(path) {
            if p.len() < path.len() {
                lemma_ino_fresh(t, p);
            }
        }
    }
}

/// The number given for a path leads back to it: when the path is known
/// afterwards, its number's path has the same components; otherwise (a path
/// with no parent, not known before) the answer is the root's number and
/// nothing changes.
pub proof fn law_ino_path_roundtrip(t: InodeTable, path: Seq<char>)
    requires
        table_wf(t),
    ensures
        ino_spec(t, path).0.inos.contains_key(path_normal(path)) ==> {
            &&& ino_spec(t, path).0.inos[path_normal(path)] == ino_spec(t, path).1
            &&& ino_spec(t, path).0.nodes.contains_key(ino_spec(t, path).1)
            &&& path_normal(ino_spec(t, path).0.nodes[ino_spec(t, path).1].0) == path_normal(path)
        },
        !ino_spec(t, path).0.inos.contains_key(path_normal(path)) ==> ino_spec(t, path) == (t, ROOT_INO),
{
}

/// Different known paths have different numbers.
pub proof fn law_distinct_paths_distinct_inos(t: InodeTable, p: Seq<char>, q: Seq<char>)
    requires
        table_wf(t),
        t.inos.contains_key(p),
        t.inos.contains_key(q),
        p != q,
    ensures
        t.inos[p] != t.inos[q],
{
    assert(path_normal(t.nodes[t.inos[p]].0) == p);
    assert(path_normal(t.nodes[t.inos[q]].0) == q);
}

/// Asking for a number keeps the table well formed (when the counter has
/// room), and the number given out stands for a known file.
pub proof fn law_ino_keeps_wf(t: InodeTable, path: Seq<char>)
    requires
        table_wf(t),
        t.next + path.len() < u64::MAX,
    ensures
        table_wf(ino_spec(t, path).0),
        ino_spec(t, path).0.nodes.contains_key(ino_spec(t, path).1),
    decreases path.len(),
{
    if !t.inos.contains_key(path_normal(path)) {
        if let Some(p) = path_parent(path) {
            if p.len() < path.len() {
                law_ino_keeps_wf(t, p);
                lemma_ino_fresh(t, p);
                let (t1, pino) = ino_spec(t, p);
                lemma_insert_wf(t1, path, pino);
            }
        }
    }
}

/// Paths with the same components get the same number: once a path has its
/// number, asking for any path with the same components gives that number and
/// changes nothing.
pub proof fn law_same_components_same_ino(t: InodeTable, p: Seq<char>, q: Seq<char>)
    requires
        table_wf(t),
        path_normal(p) == path_normal(q),
        ino_spec(t, p).0.inos.contains_key(path_normal(p)),
    ensures
        ino_spec(ino_spec(t, p).0, q) == (ino_spec(t, p).0, ino_spec(t, p).1),
{
    law_ino_path_roundtrip(t, p);
}

/// A newly numbered path records its parent directory's number: when asking
/// for the number of a path not known yet gives it a new number, the parent
/// recorded for that number is the number asking for its parent path gives,
/// and asking for the parent path afterwards gives that same number (unless
/// the parent path and the path have the same components).
pub proof fn law_new_path_records_parent(t: InodeTable, path: Seq<char>, q: Seq<char>)
    requires
        table_wf(t),
        t.next + path.len() < u64::MAX,
        !t.inos.contains_key(path_normal(path)),
        path_parent(path) == Some(q),
        q.len() < path.len(),
    ensures
        ino_spec(t, path).1 == ino_spec(t, q).0.next,
        ino_spec(t, path).0.next == ino_spec(t, path).1 + 1,
        !t.nodes.contains_key(ino_spec(t, path).1),
        ino_spec(t, path).0.nodes.contains_key(ino_spec(t, path).1),
        ino_spec(t, path).0.nodes[ino_spec(t, path).1] == (path, ino_spec(t, q).1),
        path_normal(q) != path_normal(path) ==> ino_spec(ino_spec(t, path).0, q) == (ino_spec(t, path).0, ino_spec(t, q).1),
{
    lemma_ino_fresh(t, q);
    law_ino_keeps_wf(t, q);
    let (t1, pino) = ino_spec(t, q);
    let (t2, n) = ino_spec(t, path);
    assert(n == t1.next);
    assert(t2.nodes[n] == (path, pino));
    if path_normal(q) != path_normal(path) {
        if t1.inos.contains_key(path_normal(q)) {
            law_ino_path_roundtrip(t, q);
            assert(t2.inos[path_normal(q)] == t1.inos[path_normal(q)]);
        } else {
            law_ino_path_roundtrip(t, q);
            assert(ino_spec(t, q) == (t, ROOT_INO));
            assert(!t.inos.contains_key(path_normal(q)));
            assert(!t2.inos.contains_key(path_normal(q)));
        }
    }
}

/// Gives every path met a stable inode number, and remembers each number's
/// path and parent.
pub struct INodeManager {
    path_to_inode: StringHashMap<u64>,
    inodes: HashMapWithView<u64, INode>,
    next_inode: u64,
}

impl View for INodeManager {
    type V = InodeTable;

    closed spec fn view(&self) -> InodeTable {
        InodeTable {
            inos: self.path_to_inode@,
            nodes: Map::new(|i: u64| self.inodes@.contains_key(i), |i: u64| self.inodes@[i]@),
            next: self.next_inode,
        }
    }
}

impl INodeManager {
    /// A manager for the tree at `root`, which gets number 1 and is its own parent.
    pub fn new(root: &str) -> (r: Self)
        ensures
            r@ == initial_table(root@),
            table_wf(r@),
    {
        let mut path_to_inode = StringHashMap::new();
        let mut inodes = HashMapWithView::new();
        path_to_inode.insert(normalize(root), ROOT_INO);
        let inode = INode { path: root.to_string(), parent: ROOT_INO };
        inodes.insert(ROOT_INO, inode);
        let r = INodeManager { path_to_inode, inodes, next_inode: 2 };
        assert(r@.nodes =~= initial_table(root@).nodes);
        assert(r@.inos =~= initial_table(root@).inos);
        r
    }

    /// Whether numbering `path` (and its missing ancestors) cannot overflow the counter.
    pub fn has_room(&self, path: &str) -> (r: bool)
        ensures
            r == (self@.next + path@.len() < u64::MAX),
    {
        let n = path.unicode_len();
        self.next_inode < u64::MAX && (n as u64) < u64::MAX - self.next_inode
    }

    /// The next inode number to be given out.
    pub fn next_ino(&self) -> (r: u64)
        ensures
            r == self@.next,
    {
        self.next_inode
    }

    fn next_inode(&mut self) -> (r: u64)
        requires
            old(self).next_inode < u64::MAX,
        ensures
            r == old(self).next_inode,
            final(self).next_inode == r + 1,
            final(self).path_to_inode == old(self).path_to_inode,
            final(self).inodes == old(self).inodes,
    {
        let ino = self.next_inode;
        self.next_inode = ino + 1;
        ino
    }

    /// The inode number of `path`, given out now if no path with its components
    /// is known yet (after its parent's). A path without a parent that is not
    /// known is taken for the root.
    #[verifier::rlimit(40)]
    pub fn ino(&mut self, path: &str) -> (r: u64)
        requires
            table_wf(old(self)@),
            old(self)@.next + path@.len() < u64::MAX,
        ensures
            (final(self)@, r) == ino_spec(old(self)@, path@),
            table_wf(final(self)@),
            final(self)@.nodes.contains_key(r),
            final(self)@.next <= old(self)@.next + path@.len() + 1,
        decreases path@.len(),
    {
        let key = normalize(path);
        if let Some(ino) = self.path_to_inode.get(key.as_str()) {
            return *ino;
        }
        let pino = match parent(path) {
            Some(p) => self.ino(p),
            None => {
                return ROOT_INO;
            },
        };
        let ghost mid = self@;
        proof { lemma_insert_wf(mid, path@, pino); }
        let nino = self.next_inode();
        self.path_to_inode.insert(key, nino);
        self.inodes.insert(nino, INode { path: path.to_string(), parent: pino });
        proof {
            assert(self@.nodes =~= mid.nodes.insert(nino, (path@, pino)));
            assert(self@.inos =~= mid.inos.insert(path_normal(path@), nino));
        }
        nino
    }

    /// The known file with number `ino`.
    pub fn inode(&self, ino: u64) -> (r: Option<INode>)
        ensures
            match r {
                Some(n) => self@.nodes.contains_key(ino) && n@ == self@.nodes[ino],
                None => !self@.nodes.contains_key(ino),
            },
    {
        match self.inodes.get(&ino) {
            Some(n) => Some(INode { parent: n.parent, path: n.path.clone() }),
            None => None,
        }
    }

    /// The path of the file with number `ino`.
    pub fn path(&self, ino: u64) -> (r: Option<String>)
        ensures
            match r {
                Some(p) => self@.nodes.contains_key(ino) && p@ == self@.nodes[ino].0,
                None => !self@.nodes.contains_key(ino),
            },
    {
        match self.inodes.get(&ino) {
            Some(n) => Some(n.path.clone()),
            None => None,
        }
    }

    /// The number of the parent directory of the file with number `ino`.
    pub fn parent(&self, ino: u64) -> (r: Option<u64>)
        ensures
            match r {
                Some(p) => self@.nodes.contains_key(ino) && p == self@.nodes[ino].1,
                None => !self@.nodes.contains_key(ino),
            },
    {
        match self.inodes.get(&ino) {
            Some(n) => Some(n.parent),
            None => None,
        }
    }
}

}
