//! The commit store: an in-memory model of a repository's object database,
//! commit lookup and reference tips.
//!
//! Commit ids are opaque, totally-ordered, hashable identifiers; the engine
//! models them as `u64` values. A [`Store`] holds every object id together
//! with its kind (in enumeration order), a commit record for every object of
//! commit kind, and the reference tips, each already peeled to a commit id
//! where it peels at all.

use std::collections::HashMap;
use vstd::prelude::*;

verus! {

broadcast use vstd::std_specs::hash::group_hash_axioms;

/// The kind of an object in the object database. Only `Commit` objects
/// carry a commit record; the other kinds exist so that the lost-set
/// computation can filter a full object enumeration down to commits.
#[derive(Clone, Copy, Debug, PartialEq, Eq, Structural)]
pub enum ObjectKind {
    Commit,
    Tree,
    Blob,
    Tag,
    Other,
}

/// A commit as the engine reads it: its own id, its ordered list of parent
/// ids (empty for a root commit, more than one for a merge commit), and its
/// timestamp (seconds), used only to order the lost-set listing.
#[derive(Debug)]
pub struct Commit {
    pub id: u64,
    pub time: i64,
    pub parents: Vec<u64>,
}

/// The mathematical value of a [`Commit`].
pub ghost struct CommitView {
    pub id: u64,
    pub time: i64,
    pub parents: Seq<u64>,
}

impl View for Commit {
    type V = CommitView;

    open spec fn view(&self) -> CommitView {
        CommitView { id: self.id, time: self.time, parents: self.parents@ }
    }
}

impl Commit {
    pub fn new(id: u64, time: i64, parents: Vec<u64>) -> (c: Commit)
        ensures
            c@ == (CommitView { id, time, parents: parents@ }),
    {
        Commit { id, time, parents }
    }

    /// An owned copy with the same mathematical value.
    pub fn duplicate(&self) -> (c: Commit)
        ensures
            c@ == self@,
    {
        Commit { id: self.id, time: self.time, parents: copy_ids(&self.parents) }
    }
}

/// One entry of the object-database enumeration: an object id and its kind.
#[derive(Clone, Copy, Debug, PartialEq, Eq, Structural)]
pub struct ObjectEntry {
    pub id: u64,
    pub kind: ObjectKind,
}

/// An owned copy of a sequence of ids.
pub fn copy_ids(v: &Vec<u64>) -> (r: Vec<u64>)
    ensures
        r@ == v@,
{
    let mut r: Vec<u64> = Vec::new();
    let mut i: usize = 0;
    while i < v.len()
        invariant
            i <= v.len(),
            r@ == v@.take(i as int),
        decreases v.len() - i,
    {
        r.push(v[i]);
        proof {
            assert(v@.take(i + 1 as int) =~= v@.take(i as int).push(v@[i as int]));
        }
        i = i + 1;
    }
    proof {
        assert(v@.take(v@.len() as int) =~= v@);
    }
    r
}

/// Errors of the engine. Every error names the input that caused it, and
/// each function's contract says exactly when it arises.
#[derive(Clone, Copy, Debug, PartialEq, Eq, Structural)]
pub enum StoreError {
    /// A commit id had to be looked up (it was a traversal start or a parent
    /// of a traversed commit) but the store has no commit record for it.
    MissingCommit(u64),
}

/// The in-memory commit store. It is the injected capability the engine
/// works against: commit lookup by id, reference enumeration peeled to
/// commits, and enumeration of every object id with its kind.
#[derive(Debug)]
pub struct Store {
    /// Every object in the object database, in enumeration order.
    pub objects: Vec<ObjectEntry>,
    /// The kind of each object id in `objects`.
    pub kinds: HashMap<u64, ObjectKind>,
    /// The commit record of each object of commit kind.
    pub commits: HashMap<u64, Commit>,
    /// The reference tips, in enumeration order: `Some(id)` for a reference
    /// that peels to a commit, `None` for one that does not.
    pub refs: Vec<Option<u64>>,
}

impl Store {
    /// Well-formedness: object ids are enumerated at most once, `kinds`
    /// indexes exactly the enumerated objects, `commits` holds a record for
    /// exactly the commit-kind objects under its own id, and every peeled
    /// reference tip is a known commit.
    pub open spec fn wf(&self) -> bool {
        &&& forall|i: int, j: int|
            0 <= i < j < self.objects@.len() ==> (#[trigger] self.objects@[i]).id != (
            #[trigger] self.objects@[j]).id
        &&& forall|i: int|
            0 <= i < self.objects@.len() ==> self.kinds@.contains_key(
                (#[trigger] self.objects@[i]).id,
            ) && self.kinds@[self.objects@[i].id] == self.objects@[i].kind
        &&& forall|x: u64|
            #[trigger] self.kinds@.contains_key(x) ==> exists|i: int|
                0 <= i < self.objects@.len() && (#[trigger] self.objects@[i]).id == x
        &&& forall|x: u64|
            #[trigger] self.commits@.contains_key(x) <==> (self.kinds@.contains_key(x)
                && self.kinds@[x] == ObjectKind::Commit)
        &&& forall|x: u64|
            #[trigger] self.commits@.contains_key(x) ==> self.commits@[x].id == x
        &&& forall|i: int|
            0 <= i < self.refs@.len() ==> match #[trigger] self.refs@[i] {
                Some(t) => self.commits@.contains_key(t),
                None => true,
            }
    }

    /// An empty store.
    pub fn new() -> (s: Store)
        ensures
            s.wf(),
            s.objects@.len() == 0,
            s.kinds@ == Map::<u64, ObjectKind>::empty(),
            s.commits@ == Map::<u64, Commit>::empty(),
            s.refs@.len() == 0,
    {
        Store {
            objects: Vec::new(),
            kinds: HashMap::new(),
            commits: HashMap::new(),
            refs: Vec::new(),
        }
    }

    /// Records a commit object. Returns `false`, changing nothing, when the
    /// id is already enumerated; `true` otherwise.
    pub fn add_commit(&mut self, id: u64, time: i64, parents: Vec<u64>) -> (ok: bool)
        requires
            old(self).wf(),
        ensures
            final(self).wf(),
            ok <==> !old(self).kinds@.contains_key(id),
            ok ==> {
                &&& final(self).objects@ == old(self).objects@.push(
                    (ObjectEntry { id, kind: ObjectKind::Commit }),
                )
                &&& final(self).kinds@ == old(self).kinds@.insert(id, ObjectKind::Commit)
                &&& final(self).commits@ == old(self).commits@.insert(
                    id,
                    (Commit { id, time, parents }),
                )
                &&& final(self).refs@ == old(self).refs@
            },
            !ok ==> unchanged_store(*old(self), *final(self)),
    {
        if self.kinds.contains_key(&id) {
            return false;
        }
        self.objects.push(ObjectEntry { id, kind: ObjectKind::Commit });
        self.kinds.insert(id, ObjectKind::Commit);
        self.commits.insert(id, Commit { id, time, parents });
        proof {
            lemma_add_object_wf(*old(self), *self, id, ObjectKind::Commit);
        }
        true
    }

    /// Records a non-commit object (a tree, blob, tag or other kind).
    /// Returns `false`, changing nothing, when the id is already enumerated.
    pub fn add_other_object(&mut self, id: u64, kind: ObjectKind) -> (ok: bool)
        requires
            old(self).wf(),
            kind != ObjectKind::Commit,
        ensures
            final(self).wf(),
            ok <==> !old(self).kinds@.contains_key(id),
            ok ==> {
                &&& final(self).objects@ == old(self).objects@.push((ObjectEntry { id, kind }))
                &&& final(self).kinds@ == old(self).kinds@.insert(id, kind)
                &&& final(self).commits@ == old(self).commits@
                &&& final(self).refs@ == old(self).refs@
            },
            !ok ==> unchanged_store(*old(self), *final(self)),
    {
        if self.kinds.contains_key(&id) {
            return false;
        }
        self.objects.push(ObjectEntry { id, kind });
        self.kinds.insert(id, kind);
        proof {
            lemma_add_object_wf(*old(self), *self, id, kind);
        }
        true
    }

    /// Records one reference tip: `Some(id)` for a reference peeled to the
    /// commit `id`, `None` for a reference that does not peel to a commit.
    /// Returns `false`, changing nothing, when the target names an unknown
    /// commit.
    pub fn add_ref(&mut self, target: Option<u64>) -> (ok: bool)
        requires
            old(self).wf(),
        ensures
            final(self).wf(),
            ok <==> match target {
                Some(t) => old(self).commits@.contains_key(t),
                None => true,
            },
            ok ==> {
                &&& final(self).objects@ == old(self).objects@
                &&& final(self).kinds@ == old(self).kinds@
                &&& final(self).commits@ == old(self).commits@
                &&& final(self).refs@ == old(self).refs@.push(target)
            },
            !ok ==> unchanged_store(*old(self), *final(self)),
    {
        if let Some(t) = target {
            if !self.commits.contains_key(&t) {
                return false;
            }
        }
        self.refs.push(target);
        true
    }

    /// Commit lookup by id: the record for `id`, or `None` when the store
    /// has no commit of that id.
    pub fn commit_by_id(&self, id: u64) -> (r: Option<&Commit>)
        ensures
            match r {
                Some(c) => self.commits@.contains_key(id) && *c == self.commits@[id],
                None => !self.commits@.contains_key(id),
            },
    {
        self.commits.get(&id)
    }
}

/// Both stores hold the same data.
pub open spec fn unchanged_store(a: Store, b: Store) -> bool {
    &&& b.objects@ == a.objects@
    &&& b.kinds@ == a.kinds@
    &&& b.commits@ == a.commits@
    &&& b.refs@ == a.refs@
}

/// Adding one fresh object (plus, for a commit, its record) preserves
/// store well-formedness.
proof fn lemma_add_object_wf(pre: Store, post: Store, id: u64, kind: ObjectKind)
    requires
        pre.wf(),
        !pre.kinds@.contains_key(id),
        post.objects@ == pre.objects@.push((ObjectEntry { id, kind })),
        post.kinds@ == pre.kinds@.insert(id, kind),
        kind == ObjectKind::Commit ==> post.commits@.contains_key(id)
            && post.commits@[id].id == id && forall|x: u64|
            x != id ==> (#[trigger] post.commits@.contains_key(x) <==> pre.commits@.contains_key(
                x,
            )) && (pre.commits@.contains_key(x) ==> post.commits@[x] == pre.commits@[x]),
        kind != ObjectKind::Commit ==> post.commits@ == pre.commits@,
        post.refs@ == pre.refs@,
    ensures
        post.wf(),
{
    assert forall|i: int, j: int| 0 <= i < j < post.objects@.len() implies (
    #[trigger] post.objects@[i]).id != (#[trigger] post.objects@[j]).id by {
        if j == post.objects@.len() - 1 {
            assert(post.objects@[j].id == id);
            assert(pre.kinds@.contains_key(pre.objects@[i].id));
        }
    }
    assert forall|x: u64| #[trigger] post.kinds@.contains_key(x) implies exists|i: int|
        0 <= i < post.objects@.len() && (#[trigger] post.objects@[i]).id == x by {
        if x == id {
            assert(post.objects@[post.objects@.len() - 1].id == x);
        } else {
            let i = choose|i: int|
                0 <= i < pre.objects@.len() && (#[trigger] pre.objects@[i]).id == x;
            assert(post.objects@[i].id == x);
        }
    }
}

} // verus!
