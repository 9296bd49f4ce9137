//! The bidirectional commit graph: for every commit id seen during assembly,
//! one [`Node`] holding the commit's parent ids and the ids of its children.
//!
//! A repository records only parent pointers; [`Graph::add`] inverts them.
//! Adding a commit `C` with parents `P1..Pn` sets `C`'s node's parent list
//! exactly once and appends `C` to each `Pi`'s child list, creating a
//! placeholder node for any parent not seen yet. A commit may be added at
//! most once: a re-add is rejected as an error, since the traversal that
//! feeds the graph visits each id exactly once and a re-add signals a bug in
//! the caller. (Tolerating re-adds silently would either duplicate child
//! edges or demand overwrite semantics; rejecting them keeps the invariant
//! that each directed edge is recorded exactly once.)

use std::collections::HashMap;
use vstd::prelude::*;

use crate::store::{copy_ids, Commit, CommitView};

verus! {

broadcast use vstd::std_specs::hash::group_hash_axioms;

/// How often `x` occurs in `s`.
pub open spec fn count_of(s: Seq<u64>, x: u64) -> nat
    decreases s.len(),
{
    if s.len() == 0 {
        0
    } else {
        count_of(s.drop_last(), x) + if s.last() == x {
            1nat
        } else {
            0nat
        }
    }
}

/// `x` repeated `n` times.
pub open spec fn repeat_id(x: u64, n: nat) -> Seq<u64> {
    Seq::new(n, |i: int| x)
}

pub proof fn lemma_count_push(s: Seq<u64>, y: u64, x: u64)
    ensures
        count_of(s.push(y), x) == count_of(s, x) + if y == x {
            1nat
        } else {
            0nat
        },
{
    assert(s.push(y).drop_last() =~= s);
}

/// An element occurs in a sequence exactly when its count is positive.
pub proof fn lemma_count_contains(s: Seq<u64>, x: u64)
    ensures
        s.contains(x) <==> count_of(s, x) > 0,
    decreases s.len(),
{
    if s.len() > 0 {
        lemma_count_contains(s.drop_last(), x);
        if s.contains(x) && s.last() != x {
            let i = choose|i: int| 0 <= i < s.len() && s[i] == x;
            assert(s.drop_last()[i] == x);
        }
        if s.drop_last().contains(x) {
            let i = choose|i: int| 0 <= i < s.drop_last().len() && s.drop_last()[i] == x;
            assert(s[i] == x);
        }
    }
}

pub proof fn lemma_count_take_step(s: Seq<u64>, k: int, x: u64)
    requires
        0 <= k < s.len(),
    ensures
        count_of(s.take(k + 1), x) == count_of(s.take(k), x) + if s[k] == x {
            1nat
        } else {
            0nat
        },
{
    assert(s.take(k + 1) =~= s.take(k).push(s[k]));
    lemma_count_push(s.take(k), s[k], x);
}

pub proof fn lemma_contains_push(s: Seq<u64>, y: u64, x: u64)
    requires
        s.contains(x) || x == y,
    ensures
        s.push(y).contains(x),
{
    if s.contains(x) {
        let i = choose|i: int| 0 <= i < s.len() && s[i] == x;
        assert(s.push(y)[i] == x);
    } else {
        assert(s.push(y)[s.len() as int] == y);
    }
}

proof fn lemma_push_fresh_unique(s: Seq<u64>, y: u64)
    requires
        forall|i: int, j: int| 0 <= i < j < s.len() ==> s[i] != s[j],
        !s.contains(y),
    ensures
        forall|i: int, j: int|
            0 <= i < j < s.push(y).len() ==> (#[trigger] s.push(y)[i]) != (#[trigger] s.push(y)[j]),
{
    assert forall|i: int, j: int| 0 <= i < j < s.push(y).len() implies (#[trigger] s.push(y)[i])
        != (#[trigger] s.push(y)[j]) by {
        if j == s.len() {
            if s.push(y)[i] == y {
                assert(s[i] == y);
                assert(s.contains(y));
            }
        } else {
            assert(s.push(y)[i] == s[i] && s.push(y)[j] == s[j]);
        }
    }
}

pub proof fn lemma_count_concat(a: Seq<u64>, b: Seq<u64>, x: u64)
    ensures
        count_of(a + b, x) == count_of(a, x) + count_of(b, x),
    decreases b.len(),
{
    if b.len() == 0 {
        assert(a + b =~= a);
    } else {
        lemma_count_concat(a, b.drop_last(), x);
        assert((a + b).drop_last() =~= a + b.drop_last());
        assert((a + b).last() == b.last());
    }
}

pub proof fn lemma_count_repeat(y: u64, n: nat, x: u64)
    ensures
        count_of(repeat_id(y, n), x) == if x == y {
            n
        } else {
            0nat
        },
    decreases n,
{
    if n > 0 {
        lemma_count_repeat(y, (n - 1) as nat, x);
        assert(repeat_id(y, n).drop_last() =~= repeat_id(y, (n - 1) as nat));
        assert(repeat_id(y, n).last() == y);
    }
}

/// One entry per commit id seen during graph assembly.
#[derive(Debug)]
pub struct Node {
    /// The commit's own parent ids, set exactly once when the commit is
    /// added; empty both for a root commit and for a placeholder node whose
    /// commit has not been added.
    pub parents: Vec<u64>,
    /// The ids of the commits recorded so far that name this id as a parent,
    /// in the order they were added.
    pub children: Vec<u64>,
    /// Whether the commit itself has been added (as opposed to the node
    /// existing only as some added commit's parent).
    pub added: bool,
}

/// The mathematical value of a [`Node`].
pub ghost struct NodeView {
    pub parents: Seq<u64>,
    pub children: Seq<u64>,
    pub added: bool,
}

impl View for Node {
    type V = NodeView;

    open spec fn view(&self) -> NodeView {
        NodeView { parents: self.parents@, children: self.children@, added: self.added }
    }
}

impl Node {
    /// An empty placeholder node.
    pub fn new() -> (n: Node)
        ensures
            n@ == (NodeView { parents: Seq::<u64>::empty(), children: Seq::<u64>::empty(), added: false }),
    {
        Node { parents: Vec::new(), children: Vec::new(), added: false }
    }
}

/// A re-add: `Graph::add` was handed a commit whose id was already added.
#[derive(Clone, Copy, Debug, PartialEq, Eq, Structural)]
pub enum GraphError {
    DuplicateAdd(u64),
}

/// A mapping from commit id to [`Node`], together with the order in which
/// the ids were first seen (used for deterministic rendering).
#[derive(Debug)]
pub struct Graph {
    pub nodes: HashMap<u64, Node>,
    pub ids: Vec<u64>,
}

impl Graph {
    /// The nodes, as a mathematical map from id to node value.
    pub open spec fn gm(&self) -> Map<u64, NodeView> {
        Map::new(
            |k: u64| self.nodes@.contains_key(k),
            |k: u64| self.nodes@[k]@,
        )
    }

    /// `x` has a node whose commit has been added.
    pub open spec fn is_added(&self, x: u64) -> bool {
        self.gm().contains_key(x) && self.gm()[x].added
    }

    /// Well-formedness.
    ///
    /// The counting clause is the heart of the structure: for every node
    /// `p` and id `c`, `c` occurs in `p`'s child list exactly as often as
    /// `p` occurs in the parent list of the *added* commit `c` — so every
    /// parent-to-child edge appears exactly once in each direction, and a
    /// child list holds a duplicate only for a commit that legitimately
    /// lists the same parent twice.
    pub open spec fn wf(&self) -> bool {
        &&& forall|i: int, j: int|
            0 <= i < j < self.ids@.len() ==> (#[trigger] self.ids@[i]) != (#[trigger] self.ids@[j])
        &&& forall|i: int|
            0 <= i < self.ids@.len() ==> self.gm().contains_key(#[trigger] self.ids@[i])
        &&& forall|x: u64| #[trigger] self.gm().contains_key(x) ==> self.ids@.contains(x)
        &&& forall|x: u64|
            self.gm().contains_key(x) && !(#[trigger] self.gm()[x]).added ==> self.gm()[
                x
            ].parents.len() == 0
        &&& forall|x: u64, p: u64|
            self.is_added(x) && (#[trigger] self.gm()[x].parents.contains(p))
                ==> self.gm().contains_key(p)
        &&& forall|p: u64, c: u64|
            self.gm().contains_key(p) ==> #[trigger] count_of(self.gm()[p].children, c) == (
            if self.is_added(c) {
                count_of(self.gm()[c].parents, p)
            } else {
                0nat
            })
    }

    /// An empty graph.
    pub fn new() -> (g: Graph)
        ensures
            g.wf(),
            g.gm() == Map::<u64, NodeView>::empty(),
            g.ids@.len() == 0,
    {
        let g = Graph { nodes: HashMap::new(), ids: Vec::new() };
        proof {
            assert(g.gm() =~= Map::<u64, NodeView>::empty());
        }
        g
    }

    /// Adds one commit to the graph: sets its node's parent list from the
    /// commit's own parent list and appends the commit's id to the child
    /// list of every parent, creating placeholder nodes for parents not
    /// seen yet. A commit already added is rejected unchanged — each commit
    /// must be added at most once (see the module doc).
    pub fn add(&mut self, commit: &Commit) -> (r: Result<(), GraphError>)
        requires
            old(self).wf(),
        ensures
            final(self).wf(),
            r is Ok <==> !old(self).is_added(commit.id),
            match r {
                Ok(_) => added_post(*old(self), *final(self), commit@),
                Err(e) => e == GraphError::DuplicateAdd(commit.id) && *final(self) == *old(self),
            },
    {
        let ghost pre = *self;
        if self.contains_added(commit.id) {
            return Err(GraphError::DuplicateAdd(commit.id));
        }
        let cid = commit.id;
        let mut node = match self.nodes.remove(&cid) {
            Some(n) => n,
            None => {
                self.ids.push(cid);
                Node::new()
            },
        };
        node.parents = copy_ids(&commit.parents);
        node.added = true;
        self.nodes.insert(cid, node);
        proof {
            if !pre.gm().contains_key(cid) {
                assert(!pre.ids@.contains(cid)) by {
                    if pre.ids@.contains(cid) {
                        let i = choose|i: int| 0 <= i < pre.ids@.len() && pre.ids@[i] == cid;
                        assert(pre.gm().contains_key(pre.ids@[i]));
                    }
                }
                lemma_push_fresh_unique(pre.ids@, cid);
                assert(pre.ids@.is_prefix_of(self.ids@)) by {
                    assert(self.ids@.take(pre.ids@.len() as int) =~= pre.ids@);
                }
            }
            assert forall|i: int| 0 <= i < self.ids@.len() implies self.gm().contains_key(
                #[trigger] self.ids@[i],
            ) by {
                if i < pre.ids@.len() {
                    assert(pre.gm().contains_key(pre.ids@[i]));
                }
            }
            assert forall|x: u64| #[trigger] self.gm().contains_key(x) implies self.ids@.contains(
                x,
            ) by {
                if pre.gm().contains_key(cid) {
                    assert(pre.gm().contains_key(x));
                } else {
                    assert(pre.gm().contains_key(x) || x == cid);
                    if pre.gm().contains_key(x) {
                        assert(pre.ids@.contains(x));
                    }
                    lemma_contains_push(pre.ids@, cid, x);
                }
            }
            assert forall|p: u64| self.gm().contains_key(p) implies #[trigger] self.gm()[p].children
                == old_children(pre, p) + repeat_id(cid, count_of(commit.parents@.take(0), p)) by {
                assert(commit.parents@.take(0) =~= Seq::<u64>::empty());
                assert(count_of(commit.parents@.take(0), p) == 0);
                assert(repeat_id(cid, 0) =~= Seq::<u64>::empty());
                assert(self.gm()[p].children =~= old_children(pre, p) + repeat_id(
                    cid,
                    count_of(commit.parents@.take(0), p),
                ));
            }
        }
        let ghost ps = commit.parents@;
        let mut k: usize = 0;
        while k < commit.parents.len()
            invariant
                pre.wf(),
                !pre.is_added(cid),
                cid == commit.id,
                ps == commit.parents@,
                k <= commit.parents.len(),
                forall|x: u64|
                    #[trigger] self.gm().contains_key(x) <==> (pre.gm().contains_key(x) || x == cid
                        || ps.take(k as int).contains(x)),
                self.gm().contains_key(cid),
                self.gm()[cid].parents == ps,
                self.gm()[cid].added,
                forall|x: u64|
                    x != cid && #[trigger] pre.gm().contains_key(x) ==> self.gm()[x].parents
                        == pre.gm()[x].parents && self.gm()[x].added == pre.gm()[x].added,
                forall|x: u64|
                    x != cid && !pre.gm().contains_key(x) && #[trigger] self.gm().contains_key(x)
                        ==> self.gm()[x].parents.len() == 0 && !self.gm()[x].added,
                forall|p: u64|
                    #[trigger] self.gm().contains_key(p) ==> self.gm()[p].children == old_children(
                        pre,
                        p,
                    ) + repeat_id(cid, count_of(ps.take(k as int), p)),
                forall|i: int, j: int|
                    0 <= i < j < self.ids@.len() ==> (#[trigger] self.ids@[i]) != (
                    #[trigger] self.ids@[j]),
                forall|i: int|
                    0 <= i < self.ids@.len() ==> self.gm().contains_key(#[trigger] self.ids@[i]),
                forall|x: u64| #[trigger] self.gm().contains_key(x) ==> self.ids@.contains(x),
                pre.ids@.is_prefix_of(self.ids@),
            decreases commit.parents.len() - k,
        {
            let p = commit.parents[k];
            let ghost g_before = *self;
            let mut pn = match self.nodes.remove(&p) {
                Some(n) => n,
                None => {
                    self.ids.push(p);
                    Node::new()
                },
            };
            pn.children.push(cid);
            self.nodes.insert(p, pn);
            proof {
                let kk = k as int;
                assert(ps.take(kk + 1)[kk] == p);
                if !g_before.gm().contains_key(p) {
                    assert(!g_before.ids@.contains(p)) by {
                        if g_before.ids@.contains(p) {
                            let i = choose|i: int|
                                0 <= i < g_before.ids@.len() && g_before.ids@[i] == p;
                            assert(g_before.gm().contains_key(g_before.ids@[i]));
                        }
                    }
                    lemma_push_fresh_unique(g_before.ids@, p);
                }
                assert(pre.ids@.is_prefix_of(self.ids@)) by {
                    assert(self.ids@.take(pre.ids@.len() as int) =~= pre.ids@);
                }
                assert forall|i: int| 0 <= i < self.ids@.len() implies self.gm().contains_key(
                    #[trigger] self.ids@[i],
                ) by {
                    if i < g_before.ids@.len() {
                        assert(g_before.gm().contains_key(g_before.ids@[i]));
                    }
                }
                assert forall|x: u64| #[trigger] self.gm().contains_key(x) implies self
                    .ids@.contains(x) by {
                    if g_before.gm().contains_key(p) {
                        assert(g_before.gm().contains_key(x));
                    } else {
                        assert(g_before.gm().contains_key(x) || x == p);
                        if g_before.gm().contains_key(x) {
                            assert(g_before.ids@.contains(x));
                        }
                        lemma_contains_push(g_before.ids@, p, x);
                    }
                }
                assert forall|x: u64| #[trigger] self.gm().contains_key(x) implies (
                pre.gm().contains_key(x) || x == cid || ps.take(kk + 1).contains(x)) by {
                    if x != p {
                        assert(g_before.gm().contains_key(x));
                        if ps.take(kk).contains(x) {
                            let i = choose|i: int| 0 <= i < kk && #[trigger] ps.take(kk)[i] == x;
                            assert(ps.take(kk + 1)[i] == x);
                        }
                    } else {
                        assert(ps.take(kk + 1).contains(p)) by {
                            assert(ps.take(kk + 1)[kk] == p);
                        }
                    }
                }
                assert forall|x: u64| (pre.gm().contains_key(x) || x == cid || ps.take(
                    kk + 1,
                ).contains(x)) implies #[trigger] self.gm().contains_key(x) by {
                    if x != p && !pre.gm().contains_key(x) && x != cid {
                        let i = choose|i: int|
                            0 <= i < kk + 1 && #[trigger] ps.take(kk + 1)[i] == x;
                        assert(i < kk);
                        assert(ps.take(kk)[i] == x);
                        assert(ps.take(kk).contains(x));
                        assert(g_before.gm().contains_key(x));
                    }
                }
                assert forall|q: u64| #[trigger] self.gm().contains_key(q) implies self.gm()[
                    q
                ].children == old_children(pre, q) + repeat_id(
                    cid,
                    count_of(ps.take(kk + 1), q),
                ) by {
                    lemma_count_take_step(ps, kk, q);
                    if q == p {
                        let n_before = count_of(ps.take(kk), p);
                        if g_before.gm().contains_key(p) {
                            assert(g_before.gm()[p].children == old_children(pre, p) + repeat_id(
                                cid,
                                n_before,
                            ));
                        } else {
                            lemma_count_contains(ps.take(kk), p);
                            assert(n_before == 0);
                            assert(!pre.gm().contains_key(p));
                            assert(old_children(pre, p) + repeat_id(cid, n_before)
                                =~= Seq::<u64>::empty());
                        }
                        assert(self.gm()[p].children =~= (old_children(pre, p) + repeat_id(
                            cid,
                            n_before,
                        )).push(cid));
                        assert((old_children(pre, p) + repeat_id(cid, n_before)).push(cid)
                            =~= old_children(pre, p) + repeat_id(cid, n_before + 1));
                    } else {
                        assert(g_before.gm().contains_key(q));
                        assert(self.gm()[q].children == g_before.gm()[q].children);
                    }
                }
            }
            k = k + 1;
        }
        proof {
            assert(ps.take(ps.len() as int) =~= ps);
            lemma_add_preserves_wf(pre, *self, commit@);
        }
        Ok(())
    }

    /// The recorded children of `id`, or `None` when the id has no node —
    /// an id never seen, as opposed to a known commit without children.
    pub fn children(&self, id: u64) -> (r: Option<&Vec<u64>>)
        ensures
            match r {
                Some(v) => self.gm().contains_key(id) && v@ == self.gm()[id].children,
                None => !self.gm().contains_key(id),
            },
    {
        match self.nodes.get(&id) {
            Some(n) => Some(&n.children),
            None => None,
        }
    }

    /// The recorded parents of `id`, or `None` when the id has no node.
    pub fn parents(&self, id: u64) -> (r: Option<&Vec<u64>>)
        ensures
            match r {
                Some(v) => self.gm().contains_key(id) && v@ == self.gm()[id].parents,
                None => !self.gm().contains_key(id),
            },
    {
        match self.nodes.get(&id) {
            Some(n) => Some(&n.parents),
            None => None,
        }
    }

    /// Whether the commit `id` itself has been added.
    pub fn contains_added(&self, id: u64) -> (r: bool)
        ensures
            r == self.is_added(id),
    {
        match self.nodes.get(&id) {
            Some(n) => n.added,
            None => false,
        }
    }

    /// Every id with a node, in the order first seen.
    pub fn node_ids(&self) -> (r: &Vec<u64>)
        ensures
            r@ == self.ids@,
    {
        &self.ids
    }
}

/// Inverse consistency: for every id `x` in a well-formed graph, every
/// child `y` in `x`'s child list records `x` in its own parent list, and
/// every parent `p` in `x`'s parent list records `x` in its own child list.
pub proof fn lemma_inverse_consistency(g: Graph)
    requires
        g.wf(),
    ensures
        forall|x: u64, y: u64|
            g.gm().contains_key(x) && (#[trigger] g.gm()[x].children.contains(y)) ==> g.is_added(y)
                && g.gm()[y].parents.contains(x),
        forall|x: u64, p: u64|
            g.gm().contains_key(x) && (#[trigger] g.gm()[x].parents.contains(p))
                ==> g.gm().contains_key(p) && g.gm()[p].children.contains(x),
{
    assert forall|x: u64, y: u64|
        g.gm().contains_key(x) && (#[trigger] g.gm()[x].children.contains(y)) implies g.is_added(y)
        && g.gm()[y].parents.contains(x) by {
        lemma_count_contains(g.gm()[x].children, y);
        assert(count_of(g.gm()[x].children, y) > 0);
        lemma_count_contains(g.gm()[y].parents, x);
    }
    assert forall|x: u64, p: u64|
        g.gm().contains_key(x) && (#[trigger] g.gm()[x].parents.contains(p)) implies g.gm(
    ).contains_key(p) && g.gm()[p].children.contains(x) by {
        assert(g.gm()[x].parents.len() > 0);
        assert(g.is_added(x));
        lemma_count_contains(g.gm()[x].parents, p);
        assert(count_of(g.gm()[p].children, x) > 0);
        lemma_count_contains(g.gm()[p].children, x);
    }
}

/// A root commit — an added commit with an empty parent list — never
/// appears as a child of any node of a well-formed graph.
pub proof fn lemma_root_never_a_child(g: Graph, r: u64)
    requires
        g.wf(),
        g.is_added(r),
        g.gm()[r].parents.len() == 0,
    ensures
        forall|p: u64|
            #[trigger] g.gm().contains_key(p) ==> !g.gm()[p].children.contains(r),
{
    assert forall|p: u64| #[trigger] g.gm().contains_key(p) implies !g.gm()[p].children.contains(
        r,
    ) by {
        assert(count_of(g.gm()[p].children, r) == count_of(g.gm()[r].parents, p));
        lemma_count_contains(g.gm()[p].children, r);
    }
}

/// The parent→child edge set read off the child lists — what the DOT
/// rendering walks.
pub open spec fn child_edge_set(g: Graph) -> Set<(u64, u64)> {
    Set::new(|e: (u64, u64)| g.gm().contains_key(e.0) && g.gm()[e.0].children.contains(e.1))
}

/// The parent→child edge set read off the parent lists — what the JSON
/// adjacency map also records.
pub open spec fn parent_edge_set(g: Graph) -> Set<(u64, u64)> {
    Set::new(|e: (u64, u64)| g.gm().contains_key(e.1) && g.gm()[e.1].parents.contains(e.0))
}

/// In a well-formed graph the two edge sets are one and the same: an edge
/// set extracted from the child lists (as DOT output is) equals the edge
/// set derivable from the parent lists (as the JSON adjacency map gives it).
pub proof fn lemma_edge_sets_agree(g: Graph)
    requires
        g.wf(),
    ensures
        child_edge_set(g) == parent_edge_set(g),
{
    lemma_inverse_consistency(g);
    assert(child_edge_set(g) =~= parent_edge_set(g));
}

/// The children of `p` in `pre`, or the empty sequence when `p` has no
/// node yet.
pub open spec fn old_children(pre: Graph, p: u64) -> Seq<u64> {
    if pre.gm().contains_key(p) {
        pre.gm()[p].children
    } else {
        Seq::<u64>::empty()
    }
}

/// How one successful `Graph::add` of the commit `c` relates the graph
/// after (`post`) to the graph before (`pre`): the node set grows by
/// `c.id` and `c`'s parents; `c`'s node carries `c`'s parent list and is
/// marked added; every other node keeps its parent list and added mark
/// (new ones are placeholders); every node's child list is its old child
/// list with `c.id` appended once per occurrence of the node in `c`'s
/// parent list; and the id order grows at the end only.
pub open spec fn added_post(pre: Graph, post: Graph, c: CommitView) -> bool {
    &&& forall|x: u64|
        #[trigger] post.gm().contains_key(x) <==> (pre.gm().contains_key(x) || x == c.id
            || c.parents.contains(x))
    &&& post.gm().contains_key(c.id)
    &&& post.gm()[c.id].parents == c.parents
    &&& post.gm()[c.id].added
    &&& forall|x: u64|
        x != c.id && #[trigger] pre.gm().contains_key(x) ==> post.gm()[x].parents == pre.gm()[
            x
        ].parents && post.gm()[x].added == pre.gm()[x].added
    &&& forall|x: u64|
        x != c.id && !pre.gm().contains_key(x) && #[trigger] post.gm().contains_key(x)
            ==> post.gm()[x].parents.len() == 0 && !post.gm()[x].added
    &&& forall|p: u64|
        #[trigger] post.gm().contains_key(p) ==> post.gm()[p].children == old_children(pre, p)
            + repeat_id(c.id, count_of(c.parents, p))
    &&& pre.ids@.is_prefix_of(post.ids@)
}

/// A successful add preserves graph well-formedness.
proof fn lemma_add_preserves_wf(pre: Graph, post: Graph, c: CommitView)
    requires
        pre.wf(),
        !pre.is_added(c.id),
        added_post(pre, post, c),
        forall|i: int, j: int|
            0 <= i < j < post.ids@.len() ==> (#[trigger] post.ids@[i]) != (#[trigger] post.ids@[j]),
        forall|i: int| 0 <= i < post.ids@.len() ==> post.gm().contains_key(#[trigger] post.ids@[i]),
        forall|x: u64| #[trigger] post.gm().contains_key(x) ==> post.ids@.contains(x),
    ensures
        post.wf(),
{
    assert forall|x: u64|
        post.gm().contains_key(x) && !(#[trigger] post.gm()[x]).added implies post.gm()[
        x
    ].parents.len() == 0 by {
        if x != c.id {
            if pre.gm().contains_key(x) {
                assert(pre.gm()[x].parents.len() == 0 || pre.gm()[x].added);
            }
        }
    }
    assert forall|x: u64, p: u64|
        post.is_added(x) && (#[trigger] post.gm()[x].parents.contains(p)) implies post.gm(
    ).contains_key(p) by {
        if x == c.id {
            assert(c.parents.contains(p));
        } else {
            assert(pre.gm().contains_key(x));
            assert(pre.is_added(x));
            assert(pre.gm()[x].parents.contains(p));
        }
    }
    assert forall|p: u64, c2: u64| post.gm().contains_key(p) implies #[trigger] count_of(
        post.gm()[p].children,
        c2,
    ) == (if post.is_added(c2) {
        count_of(post.gm()[c2].parents, p)
    } else {
        0nat
    }) by {
        lemma_count_concat(old_children(pre, p), repeat_id(c.id, count_of(c.parents, p)), c2);
        lemma_count_repeat(c.id, count_of(c.parents, p), c2);
        if c2 == c.id {
            if pre.gm().contains_key(p) {
                assert(count_of(pre.gm()[p].children, c2) == 0);
            }
            assert(count_of(post.gm()[p].children, c2) == count_of(c.parents, p));
        } else {
            if pre.gm().contains_key(p) {
                assert(count_of(pre.gm()[p].children, c2) == (if pre.is_added(c2) {
                    count_of(pre.gm()[c2].parents, p)
                } else {
                    0nat
                }));
                if pre.is_added(c2) {
                    assert(post.is_added(c2));
                    assert(post.gm()[c2].parents == pre.gm()[c2].parents);
                } else {
                    if post.is_added(c2) {
                        assert(pre.gm().contains_key(c2) || c2 == c.id || c.parents.contains(c2));
                        if !pre.gm().contains_key(c2) {
                            assert(!post.gm()[c2].added);
                        }
                        assert(false);
                    }
                }
            } else {
                assert(count_of(old_children(pre, p), c2) == 0);
                if post.is_added(c2) {
                    assert(pre.is_added(c2) || c2 == c.id);
                    assert(pre.is_added(c2));
                    assert(post.gm()[c2].parents == pre.gm()[c2].parents);
                    lemma_count_contains(pre.gm()[c2].parents, p);
                    if count_of(pre.gm()[c2].parents, p) > 0 {
                        assert(pre.gm()[c2].parents.contains(p));
                        assert(pre.gm().contains_key(p));
                        assert(false);
                    }
                }
            }
        }
    }
}

} // verus!
