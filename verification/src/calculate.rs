//! Reachability traversal, root discovery, graph construction and the
//! lost-set computation.
//!
//! Commit history is a DAG recorded through parent pointers only. The
//! traversal walks those pointers from a set of starting ids with an
//! explicit work stack (not recursion — histories can be thousands of
//! commits deep), visiting each id at most once; the visited check alone
//! guarantees termination and exactly-once processing.

use std::collections::HashMap;
use vstd::prelude::*;

use crate::graph::Graph;
use crate::store::{Commit, ObjectEntry, ObjectKind, Store, StoreError};

verus! {

broadcast use vstd::std_specs::hash::group_hash_axioms;

/// One parent edge of the store: `b` is recorded as a parent of `a`.
pub open spec fn step(m: Map<u64, Commit>, a: u64, b: u64) -> bool {
    m.contains_key(a) && m[a].parents@.contains(b)
}

/// `p` is a walk along parent edges: nonempty, and each element but
/// (possibly) the last has a commit record whose parents include the next.
pub open spec fn is_walk(m: Map<u64, Commit>, p: Seq<u64>) -> bool {
    p.len() > 0 && forall|i: int| 0 <= i < p.len() - 1 ==> step(m, #[trigger] p[i], p[i + 1])
}

/// `x` is reachable from `starts` along parent edges. Every starting id is
/// reachable from itself, whether or not the store has a record for it.
pub open spec fn reachable(m: Map<u64, Commit>, starts: Set<u64>, x: u64) -> bool {
    exists|p: Seq<u64>| is_walk(m, p) && starts.contains(p[0]) && p.last() == x
}

/// The set of ids of a sequence of commits.
pub open spec fn id_set(cs: Seq<Commit>) -> Set<u64> {
    Set::new(|x: u64| exists|i: int| 0 <= i < cs.len() && (#[trigger] cs[i]).id == x)
}

/// Some element of `s` has the value `c`.
pub open spec fn seq_has_view(s: Seq<Commit>, c: crate::store::CommitView) -> bool {
    exists|j: int| 0 <= j < s.len() && (#[trigger] s[j])@ == c
}

/// The ids of a sequence of commits, in order.
pub open spec fn ids_of_seq(s: Seq<Commit>) -> Seq<u64> {
    s.map_values(|c: Commit| c.id)
}

/// The first position of `x` in `s` (the length when `x` does not occur).
pub open spec fn pos_of(s: Seq<u64>, x: u64) -> int
    decreases s.len(),
{
    if s.len() == 0 {
        0
    } else if s[0] == x {
        0
    } else {
        1 + pos_of(s.drop_first(), x)
    }
}

/// In a sequence of pairwise-distinct ids, an element's first position is
/// its position.
pub proof fn lemma_pos_of_distinct(s: Seq<u64>, j: int)
    requires
        0 <= j < s.len(),
        forall|a: int, b: int| 0 <= a < b < s.len() ==> s[a] != s[b],
    ensures
        pos_of(s, s[j]) == j,
    decreases j,
{
    if j > 0 {
        assert(s[0] != s[j]);
        let t = s.drop_first();
        assert forall|a: int, b: int| 0 <= a < b < t.len() implies t[a] != t[b] by {
            assert(t[a] == s[a + 1] && t[b] == s[b + 1]);
        }
        lemma_pos_of_distinct(t, j - 1);
        assert(t[j - 1] == s[j]);
    }
}

pub proof fn lemma_reachable_start(m: Map<u64, Commit>, starts: Set<u64>, x: u64)
    requires
        starts.contains(x),
    ensures
        reachable(m, starts, x),
{
    let p = seq![x];
    assert(is_walk(m, p) && starts.contains(p[0]) && p.last() == x);
}

pub proof fn lemma_reachable_step(m: Map<u64, Commit>, starts: Set<u64>, a: u64, b: u64)
    requires
        reachable(m, starts, a),
        step(m, a, b),
    ensures
        reachable(m, starts, b),
{
    let p = choose|p: Seq<u64>| is_walk(m, p) && starts.contains(p[0]) && p.last() == a;
    let q = p.push(b);
    assert(is_walk(m, q)) by {
        assert forall|i: int| 0 <= i < q.len() - 1 implies step(m, #[trigger] q[i], q[i + 1]) by {
            if i < p.len() - 1 {
                assert(step(m, p[i], p[i + 1]));
            } else {
                assert(q[i] == p.last() && q[i + 1] == b);
            }
        }
    }
    assert(is_walk(m, q) && starts.contains(q[0]) && q.last() == b);
}

/// Any set that contains all the starts and is closed under parent edges
/// contains everything reachable.
pub proof fn lemma_closed_set_contains_reachable(
    m: Map<u64, Commit>,
    starts: Set<u64>,
    s: Set<u64>,
    x: u64,
)
    requires
        forall|y: u64| starts.contains(y) ==> s.contains(y),
        forall|a: u64, b: u64| s.contains(a) && #[trigger] step(m, a, b) ==> s.contains(b),
        reachable(m, starts, x),
    ensures
        s.contains(x),
{
    let p = choose|p: Seq<u64>| is_walk(m, p) && starts.contains(p[0]) && p.last() == x;
    lemma_walk_stays_in_closed_set(m, starts, s, p, p.len() - 1);
}

proof fn lemma_walk_stays_in_closed_set(
    m: Map<u64, Commit>,
    starts: Set<u64>,
    s: Set<u64>,
    p: Seq<u64>,
    i: int,
)
    requires
        forall|y: u64| starts.contains(y) ==> s.contains(y),
        forall|a: u64, b: u64| s.contains(a) && #[trigger] step(m, a, b) ==> s.contains(b),
        is_walk(m, p),
        starts.contains(p[0]),
        0 <= i < p.len(),
    ensures
        s.contains(p[i]),
    decreases i,
{
    if i > 0 {
        lemma_walk_stays_in_closed_set(m, starts, s, p, i - 1);
        assert(step(m, p[i - 1], p[i]));
    }
}

/// Idempotent re-traversal: any two traversal results over one store and
/// one set of starting ids — each sound (only reachable ids) and complete
/// (every reachable id) as `traverse_from_roots` ensures — hold the same
/// set of ids.
pub proof fn lemma_traversal_idempotent(
    m: Map<u64, Commit>,
    starts: Set<u64>,
    a: Seq<Commit>,
    b: Seq<Commit>,
)
    requires
        forall|i: int| 0 <= i < a.len() ==> reachable(m, starts, (#[trigger] a[i]).id),
        forall|x: u64| reachable(m, starts, x) ==> id_set(a).contains(x),
        forall|i: int| 0 <= i < b.len() ==> reachable(m, starts, (#[trigger] b[i]).id),
        forall|x: u64| reachable(m, starts, x) ==> id_set(b).contains(x),
    ensures
        id_set(a) == id_set(b),
{
    assert forall|x: u64| id_set(a).contains(x) implies id_set(b).contains(x) by {
        let i = choose|i: int| 0 <= i < a.len() && (#[trigger] a[i]).id == x;
    }
    assert forall|x: u64| id_set(b).contains(x) implies id_set(a).contains(x) by {
        let i = choose|i: int| 0 <= i < b.len() && (#[trigger] b[i]).id == x;
    }
    assert(id_set(a) =~= id_set(b));
}

proof fn lemma_contains_via_drop_last(s: Seq<u64>, b: u64)
    requires
        s.len() > 0,
        s.contains(b),
    ensures
        s.drop_last().contains(b) || s.last() == b,
{
    let i = choose|i: int| 0 <= i < s.len() && s[i] == b;
    if i < s.len() - 1 {
        assert(s.drop_last()[i] == b);
    }
}

/// Computes every commit reachable from the ids of `roots` by following
/// parent edges, each exactly once, in unspecified order.
///
/// Returns `Ok` exactly when every reachable id has a commit record; the
/// result then holds, once each, precisely the reachable ids, each carrying
/// the store's record. A reachable id without a record (a corrupt or
/// truncated store) aborts the whole traversal with `MissingCommit`.
pub fn traverse_from_roots(store: &Store, roots: &Vec<Commit>) -> (r: Result<
    Vec<Commit>,
    StoreError,
>)
    requires
        store.wf(),
    ensures
        match r {
            Ok(cs) => {
                &&& forall|i: int, j: int|
                    0 <= i < j < cs@.len() ==> (#[trigger] cs@[i]).id != (#[trigger] cs@[j]).id
                &&& forall|i: int|
                    0 <= i < cs@.len() ==> reachable(
                        store.commits@,
                        id_set(roots@),
                        (#[trigger] cs@[i]).id,
                    )
                &&& forall|i: int|
                    0 <= i < cs@.len() ==> store.commits@.contains_key((#[trigger] cs@[i]).id)
                        && cs@[i]@ == store.commits@[cs@[i].id]@
                &&& forall|x: u64|
                    reachable(store.commits@, id_set(roots@), x) ==> id_set(cs@).contains(x)
                        && store.commits@.contains_key(x)
            },
            Err(e) => match e {
                StoreError::MissingCommit(x) => reachable(store.commits@, id_set(roots@), x)
                    && !store.commits@.contains_key(x),
            },
        },
{
    let ghost m = store.commits@;
    let ghost starts = id_set(roots@);
    let mut queue: Vec<u64> = Vec::new();
    let mut i: usize = 0;
    while i < roots.len()
        invariant
            i <= roots.len(),
            queue@.len() == i,
            forall|j: int| 0 <= j < i ==> #[trigger] queue@[j] == roots@[j].id,
        decreases roots.len() - i,
    {
        queue.push(roots[i].id);
        i = i + 1;
    }
    let mut visited: HashMap<u64, ()> = HashMap::new();
    let mut out: Vec<Commit> = Vec::new();
    proof {
        assert forall|x: u64| starts.contains(x) implies visited@.contains_key(x)
            || queue@.contains(x) by {
            let j = choose|j: int| 0 <= j < roots@.len() && (#[trigger] roots@[j]).id == x;
            assert(queue@[j] == x);
        }
        assert forall|j: int| 0 <= j < queue@.len() implies reachable(
            m,
            starts,
            #[trigger] queue@[j],
        ) by {
            assert(roots@[j].id == queue@[j]);
            assert(starts.contains(queue@[j]));
            lemma_reachable_start(m, starts, queue@[j]);
        }
    }
    loop
        invariant
            store.wf(),
            m == store.commits@,
            starts == id_set(roots@),
            forall|x: u64|
                #[trigger] visited@.contains_key(x) ==> m.contains_key(x) && reachable(
                    m,
                    starts,
                    x,
                ),
            forall|j: int| 0 <= j < queue@.len() ==> reachable(m, starts, #[trigger] queue@[j]),
            forall|x: u64, b: u64|
                visited@.contains_key(x) && #[trigger] step(m, x, b) ==> visited@.contains_key(b)
                    || queue@.contains(b),
            forall|x: u64|
                starts.contains(x) ==> visited@.contains_key(x) || queue@.contains(x),
            forall|i: int|
                0 <= i < out@.len() ==> visited@.contains_key((#[trigger] out@[i]).id),
            forall|x: u64| #[trigger] visited@.contains_key(x) ==> id_set(out@).contains(x),
            forall|i: int, j: int|
                0 <= i < j < out@.len() ==> (#[trigger] out@[i]).id != (#[trigger] out@[j]).id,
            forall|i: int|
                0 <= i < out@.len() ==> m.contains_key((#[trigger] out@[i]).id) && out@[i]@
                    == m[out@[i].id]@,
        ensures
            queue@.len() == 0,
        decreases m.dom().difference(visited@.dom()).len(), queue@.len(),
    {
        let ghost q_pre = queue@;
        let ghost v0 = visited@;
        let ghost out0 = out@;
        let popped = queue.pop();
        match popped {
            None => {
                break ;
            },
            Some(x) => {
                proof {
                    assert(q_pre =~= queue@.push(x));
                    assert(q_pre[q_pre.len() - 1] == x);
                    assert(reachable(m, starts, x));
                }
                if visited.contains_key(&x) {
                    proof {
                        assert forall|y: u64, b: u64|
                            visited@.contains_key(y) && #[trigger] step(m, y, b) implies visited@.contains_key(
                            b,
                        ) || queue@.contains(b) by {
                            if q_pre.contains(b) {
                                lemma_contains_via_drop_last(q_pre, b);
                            }
                        }
                        assert forall|y: u64|
                            starts.contains(y) implies visited@.contains_key(y)
                            || queue@.contains(y) by {
                            if q_pre.contains(y) {
                                lemma_contains_via_drop_last(q_pre, y);
                            }
                        }
                    }
                } else {
                    match store.commit_by_id(x) {
                        None => {
                            return Err(StoreError::MissingCommit(x));
                        },
                        Some(c) => {
                            let ghost q1 = queue@;
                            let ghost ps = c.parents@;
                            let mut k: usize = 0;
                            while k < c.parents.len()
                                invariant
                                    k <= c.parents.len(),
                                    m.contains_key(x),
                                    *c == m[x],
                                    ps == c.parents@,
                                    reachable(m, starts, x),
                                    queue@ == q1 + ps.take(k as int),
                                    forall|j: int|
                                        0 <= j < queue@.len() ==> reachable(
                                            m,
                                            starts,
                                            #[trigger] queue@[j],
                                        ),
                                decreases c.parents.len() - k,
                            {
                                let p = c.parents[k];
                                queue.push(p);
                                proof {
                                    assert(step(m, x, p)) by {
                                        assert(m[x].parents@[k as int] == p);
                                    }
                                    lemma_reachable_step(m, starts, x, p);
                                    assert(queue@ =~= q1 + ps.take(k + 1 as int)) by {
                                        assert(ps.take(k + 1 as int) =~= ps.take(
                                            k as int,
                                        ).push(p));
                                    }
                                }
                                k = k + 1;
                            }
                            proof {
                                assert(ps.take(ps.len() as int) =~= ps);
                                assert(queue@ == q1 + ps);
                            }
                            visited.insert(x, ());
                            out.push(c.duplicate());
                            proof {
                                assert(m[x].id == x);
                                assert(out@ == out0.push(out@[out0.len() as int]));
                                let dup = out@[out0.len() as int];
                                assert(dup@ == m[x]@ && dup.id == x);
                                assert forall|y: u64, b: u64|
                                    visited@.contains_key(y) && #[trigger] step(m, y, b) implies visited@.contains_key(
                                    b,
                                ) || queue@.contains(b) by {
                                    if y == x {
                                        assert(m[x].parents@.contains(b));
                                        let j = choose|j: int| 0 <= j < ps.len() && ps[j] == b;
                                        assert(queue@[q1.len() + j] == b);
                                        assert(queue@.contains(b));
                                    } else {
                                        assert(v0.contains_key(y));
                                        if !v0.contains_key(b) {
                                            assert(q_pre.contains(b));
                                            lemma_contains_via_drop_last(q_pre, b);
                                            if q1.contains(b) {
                                                let j = choose|j: int|
                                                    0 <= j < q1.len() && q1[j] == b;
                                                assert(queue@[j] == b);
                                                assert(queue@.contains(b));
                                            }
                                        }
                                    }
                                }
                                assert forall|y: u64|
                                    starts.contains(y) implies visited@.contains_key(y)
                                    || queue@.contains(y) by {
                                    if !v0.contains_key(y) {
                                        assert(q_pre.contains(y));
                                        lemma_contains_via_drop_last(q_pre, y);
                                        if q1.contains(y) {
                                            let j = choose|j: int| 0 <= j < q1.len() && q1[j] == y;
                                            assert(queue@[j] == y);
                                            assert(queue@.contains(y));
                                        }
                                    }
                                }
                                assert forall|y: u64|
                                    #[trigger] visited@.contains_key(y) implies id_set(
                                    out@,
                                ).contains(y) by {
                                    if y == x {
                                        assert(out@[out0.len() as int].id == y);
                                    } else {
                                        assert(id_set(out0).contains(y));
                                        let i = choose|i: int|
                                            0 <= i < out0.len() && (#[trigger] out0[i]).id == y;
                                        assert(out@[i].id == y);
                                    }
                                }
                                assert(m.dom().contains(x) && !v0.dom().contains(x));
                                assert(m.dom().finite());
                                m.dom().lemma_set_insert_diff_decreases(v0.dom(), x);
                                assert(visited@.dom() =~= v0.dom().insert(x));
                            }
                        },
                    }
                }
            },
        }
    }
    proof {
        assert(queue@.len() == 0);
        assert forall|y: u64| starts.contains(y) implies visited@.dom().contains(y) by {
            assert(!queue@.contains(y));
        }
        assert forall|a: u64, b: u64|
            visited@.dom().contains(a) && #[trigger] step(m, a, b) implies visited@.dom().contains(
            b,
        ) by {
            assert(!queue@.contains(b));
        }
        assert forall|x: u64| reachable(m, starts, x) implies id_set(out@).contains(x)
            && m.contains_key(x) by {
            lemma_closed_set_contains_reachable(m, starts, visited@.dom(), x);
        }
    }
    Ok(out)
}

/// The commit ids the references peel to, in reference order.
pub open spec fn peeled(refs: Seq<Option<u64>>) -> Seq<u64>
    decreases refs.len(),
{
    if refs.len() == 0 {
        Seq::<u64>::empty()
    } else {
        peeled(refs.drop_last()) + match refs.last() {
            Some(t) => seq![t],
            None => Seq::<u64>::empty(),
        }
    }
}

/// The set of commit ids some reference peels to.
pub open spec fn ref_tip_set(refs: Seq<Option<u64>>) -> Set<u64> {
    Set::new(|x: u64| exists|i: int| 0 <= i < refs.len() && refs[i] == Some(x))
}

proof fn lemma_peeled_take_step(refs: Seq<Option<u64>>, i: int)
    requires
        0 <= i < refs.len(),
    ensures
        peeled(refs.take(i + 1)) == peeled(refs.take(i)) + match refs[i] {
            Some(t) => seq![t],
            None => Seq::<u64>::empty(),
        },
{
    assert(refs.take(i + 1).drop_last() =~= refs.take(i));
    assert(refs.take(i + 1).last() == refs[i]);
}

proof fn lemma_peeled_contains(refs: Seq<Option<u64>>, x: u64)
    ensures
        peeled(refs).contains(x) <==> ref_tip_set(refs).contains(x),
    decreases refs.len(),
{
    if refs.len() == 0 {
    } else {
        let prefix = refs.drop_last();
        lemma_peeled_contains(prefix, x);
        if peeled(refs).contains(x) {
            let i = choose|i: int| 0 <= i < peeled(refs).len() && peeled(refs)[i] == x;
            if i < peeled(prefix).len() {
                assert(peeled(prefix)[i] == x);
                let j = choose|j: int| 0 <= j < prefix.len() && prefix[j] == Some(x);
                assert(refs[j] == Some(x));
            } else {
                assert(refs.last() == Some(x));
                assert(refs[refs.len() - 1] == Some(x));
            }
        }
        if ref_tip_set(refs).contains(x) {
            let j = choose|j: int| 0 <= j < refs.len() && refs[j] == Some(x);
            if j < refs.len() - 1 {
                assert(prefix[j] == Some(x));
                assert(peeled(prefix).contains(x));
                let i = choose|i: int| 0 <= i < peeled(prefix).len() && peeled(prefix)[i] == x;
                assert(peeled(refs)[i] == x);
            } else {
                assert(peeled(refs).last() == x);
            }
        }
    }
}

/// Root discovery: the commit each reference peels to, in reference
/// enumeration order. References that do not peel to a commit are silently
/// skipped; the result is not deduplicated (two references may share a
/// tip — deduplication happens in traversal).
pub fn root_commits_by_refs(store: &Store) -> (r: Vec<Commit>)
    requires
        store.wf(),
    ensures
        r@.len() == peeled(store.refs@).len(),
        forall|i: int| 0 <= i < r@.len() ==> (#[trigger] r@[i]).id == peeled(store.refs@)[i],
        forall|i: int|
            0 <= i < r@.len() ==> store.commits@.contains_key((#[trigger] r@[i]).id) && r@[i]@
                == store.commits@[r@[i].id]@,
        id_set(r@) == ref_tip_set(store.refs@),
{
    let mut r: Vec<Commit> = Vec::new();
    let mut i: usize = 0;
    while i < store.refs.len()
        invariant
            store.wf(),
            i <= store.refs.len(),
            r@.len() == peeled(store.refs@.take(i as int)).len(),
            forall|j: int|
                0 <= j < r@.len() ==> (#[trigger] r@[j]).id == peeled(store.refs@.take(i as int))[j],
            forall|j: int|
                0 <= j < r@.len() ==> store.commits@.contains_key((#[trigger] r@[j]).id) && r@[j]@
                    == store.commits@[r@[j].id]@,
        decreases store.refs.len() - i,
    {
        proof {
            lemma_peeled_take_step(store.refs@, i as int);
        }
        match store.refs[i] {
            Some(t) => {
                match store.commit_by_id(t) {
                    Some(c) => {
                        r.push(c.duplicate());
                    },
                    None => {
                        // well-formedness: every peeled tip is a known commit
                        vstd::pervasive::unreached::<()>();
                    },
                }
            },
            None => {
                proof {
                    assert(peeled(store.refs@.take(i + 1 as int)) =~= peeled(
                        store.refs@.take(i as int),
                    ));
                }
            },
        }
        i = i + 1;
    }
    proof {
        assert(store.refs@.take(store.refs@.len() as int) =~= store.refs@);
        assert forall|x: u64| id_set(r@).contains(x) implies ref_tip_set(
            store.refs@,
        ).contains(x) by {
            let i = choose|i: int| 0 <= i < r@.len() && (#[trigger] r@[i]).id == x;
            assert(peeled(store.refs@)[i] == x);
            assert(peeled(store.refs@).contains(x));
            lemma_peeled_contains(store.refs@, x);
        }
        assert forall|x: u64| ref_tip_set(store.refs@).contains(x) implies id_set(r@).contains(
            x,
        ) by {
            lemma_peeled_contains(store.refs@, x);
            let i = choose|i: int|
                0 <= i < peeled(store.refs@).len() && peeled(store.refs@)[i] == x;
            assert(r@[i].id == x);
        }
        assert(id_set(r@) =~= ref_tip_set(store.refs@));
    }
    r
}

/// The ids of the commit-kind objects of an enumeration, in order.
pub open spec fn commit_ids_of(objs: Seq<ObjectEntry>) -> Seq<u64>
    decreases objs.len(),
{
    if objs.len() == 0 {
        Seq::<u64>::empty()
    } else {
        commit_ids_of(objs.drop_last()) + if objs.last().kind == ObjectKind::Commit {
            seq![objs.last().id]
        } else {
            Seq::<u64>::empty()
        }
    }
}

proof fn lemma_commit_ids_take_step(objs: Seq<ObjectEntry>, i: int)
    requires
        0 <= i < objs.len(),
    ensures
        commit_ids_of(objs.take(i + 1)) == commit_ids_of(objs.take(i)) + if objs[i].kind
            == ObjectKind::Commit {
            seq![objs[i].id]
        } else {
            Seq::<u64>::empty()
        },
{
    assert(objs.take(i + 1).drop_last() =~= objs.take(i));
    assert(objs.take(i + 1).last() == objs[i]);
}

proof fn lemma_commit_ids_member(objs: Seq<ObjectEntry>, x: u64)
    ensures
        commit_ids_of(objs).contains(x) <==> exists|i: int|
            0 <= i < objs.len() && (#[trigger] objs[i]).id == x && objs[i].kind
                == ObjectKind::Commit,
    decreases objs.len(),
{
    if objs.len() > 0 {
        let prefix = objs.drop_last();
        lemma_commit_ids_member(prefix, x);
        if commit_ids_of(objs).contains(x) {
            let i = choose|i: int| 0 <= i < commit_ids_of(objs).len() && commit_ids_of(objs)[i] == x;
            if i < commit_ids_of(prefix).len() {
                assert(commit_ids_of(prefix)[i] == x);
                let j = choose|j: int|
                    0 <= j < prefix.len() && (#[trigger] prefix[j]).id == x && prefix[j].kind
                        == ObjectKind::Commit;
                assert(objs[j].id == x && objs[j].kind == ObjectKind::Commit);
            } else {
                assert(objs[objs.len() - 1].id == x && objs[objs.len() - 1].kind
                    == ObjectKind::Commit);
            }
        }
        if exists|i: int|
            0 <= i < objs.len() && (#[trigger] objs[i]).id == x && objs[i].kind
                == ObjectKind::Commit {
            let j = choose|j: int|
                0 <= j < objs.len() && (#[trigger] objs[j]).id == x && objs[j].kind
                    == ObjectKind::Commit;
            if j < objs.len() - 1 {
                assert(prefix[j].id == x && prefix[j].kind == ObjectKind::Commit);
                assert(commit_ids_of(prefix).contains(x));
                let i = choose|i: int|
                    0 <= i < commit_ids_of(prefix).len() && commit_ids_of(prefix)[i] == x;
                assert(commit_ids_of(objs)[i] == x);
            } else {
                assert(commit_ids_of(objs).last() == x);
            }
        }
    }
}

/// Enumerates the store's objects and keeps exactly the commits, in
/// enumeration order — the "all commits" set, independent of reachability.
pub fn commits_only(store: &Store) -> (r: Vec<Commit>)
    requires
        store.wf(),
    ensures
        r@.len() == commit_ids_of(store.objects@).len(),
        forall|i: int| 0 <= i < r@.len() ==> (#[trigger] r@[i]).id == commit_ids_of(store.objects@)[i],
        forall|i: int, j: int|
            0 <= i < j < r@.len() ==> (#[trigger] r@[i]).id != (#[trigger] r@[j]).id,
        forall|i: int|
            0 <= i < r@.len() ==> store.commits@.contains_key((#[trigger] r@[i]).id) && r@[i]@
                == store.commits@[r@[i].id]@,
        forall|x: u64| #[trigger] id_set(r@).contains(x) <==> store.commits@.contains_key(x),
{
    let mut r: Vec<Commit> = Vec::new();
    let mut i: usize = 0;
    while i < store.objects.len()
        invariant
            store.wf(),
            i <= store.objects.len(),
            r@.len() == commit_ids_of(store.objects@.take(i as int)).len(),
            forall|j: int|
                0 <= j < r@.len() ==> (#[trigger] r@[j]).id == commit_ids_of(
                    store.objects@.take(i as int),
                )[j],
            forall|j: int|
                0 <= j < r@.len() ==> store.commits@.contains_key((#[trigger] r@[j]).id) && r@[j]@
                    == store.commits@[r@[j].id]@,
        decreases store.objects.len() - i,
    {
        proof {
            lemma_commit_ids_take_step(store.objects@, i as int);
        }
        let entry = store.objects[i];
        if matches!(entry.kind, ObjectKind::Commit) {
            proof {
                assert(store.kinds@.contains_key(entry.id) && store.kinds@[entry.id]
                    == ObjectKind::Commit);
            }
            match store.commit_by_id(entry.id) {
                Some(c) => {
                    r.push(c.duplicate());
                },
                None => {
                    // well-formedness: commit-kind objects have a record
                    vstd::pervasive::unreached::<()>();
                },
            }
        } else {
            proof {
                assert(commit_ids_of(store.objects@.take(i + 1 as int)) =~= commit_ids_of(
                    store.objects@.take(i as int),
                ));
            }
        }
        i = i + 1;
    }
    proof {
        assert(store.objects@.take(store.objects@.len() as int) =~= store.objects@);
        assert forall|i: int, j: int| 0 <= i < j < r@.len() implies (#[trigger] r@[i]).id != (
        #[trigger] r@[j]).id by {
            lemma_commit_ids_distinct(store.objects@);
        }
        assert forall|x: u64| #[trigger] id_set(r@).contains(x) implies store.commits@.contains_key(
            x,
        ) by {
            let i = choose|i: int| 0 <= i < r@.len() && (#[trigger] r@[i]).id == x;
        }
        assert forall|x: u64| store.commits@.contains_key(x) implies id_set(r@).contains(x) by {
            lemma_commit_ids_member(store.objects@, x);
            assert(store.kinds@.contains_key(x) && store.kinds@[x] == ObjectKind::Commit);
            let j = choose|j: int|
                0 <= j < store.objects@.len() && (#[trigger] store.objects@[j]).id == x;
            assert(store.objects@[j].kind == ObjectKind::Commit);
            assert(commit_ids_of(store.objects@).contains(x));
            let i = choose|i: int|
                0 <= i < commit_ids_of(store.objects@).len() && commit_ids_of(store.objects@)[i]
                    == x;
            assert(r@[i].id == x);
        }
    }
    r
}

/// In an enumeration with pairwise-distinct object ids, the commit ids are
/// pairwise distinct too.
proof fn lemma_commit_ids_distinct(objs: Seq<ObjectEntry>)
    requires
        forall|i: int, j: int|
            0 <= i < j < objs.len() ==> (#[trigger] objs[i]).id != (#[trigger] objs[j]).id,
    ensures
        forall|i: int, j: int|
            0 <= i < j < commit_ids_of(objs).len() ==> commit_ids_of(objs)[i] != commit_ids_of(
                objs,
            )[j],
    decreases objs.len(),
{
    if objs.len() > 0 {
        let prefix = objs.drop_last();
        lemma_commit_ids_distinct(prefix);
        let cs = commit_ids_of(objs);
        let cp = commit_ids_of(prefix);
        assert forall|i: int, j: int| 0 <= i < j < cs.len() implies cs[i] != cs[j] by {
            if j < cp.len() {
                assert(cs[i] == cp[i] && cs[j] == cp[j]);
            } else {
                // the last entry is a fresh id: it cannot occur among the prefix's commit ids
                assert(objs.last().kind == ObjectKind::Commit);
                assert(cs[j] == objs.last().id);
                assert(cs[i] == cp[i]);
                if cp[i] == objs.last().id {
                    assert(cp.contains(objs.last().id));
                    lemma_commit_ids_member(prefix, objs.last().id);
                    let k = choose|k: int|
                        0 <= k < prefix.len() && (#[trigger] prefix[k]).id == objs.last().id
                            && prefix[k].kind == ObjectKind::Commit;
                    assert(objs[k].id == objs[objs.len() - 1].id);
                }
            }
        }
    }
}

proof fn lemma_id_set_push(s: Seq<Commit>, c: Commit)
    ensures
        id_set(s.push(c)) =~= id_set(s).insert(c.id),
{
    assert forall|x: u64| id_set(s.push(c)).contains(x) implies id_set(s).insert(c.id).contains(
        x,
    ) by {
        let i = choose|i: int| 0 <= i < s.push(c).len() && (#[trigger] s.push(c)[i]).id == x;
        if i < s.len() {
            assert(s[i].id == x);
        }
    }
    assert forall|x: u64| id_set(s).insert(c.id).contains(x) implies id_set(s.push(c)).contains(
        x,
    ) by {
        if x == c.id {
            assert(s.push(c)[s.len() as int].id == x);
        } else {
            let i = choose|i: int| 0 <= i < s.len() && (#[trigger] s[i]).id == x;
            assert(s.push(c)[i].id == x);
        }
    }
}

/// Assembles a graph from a sequence of commits with pairwise-distinct ids,
/// adding each exactly once.
fn build_graph(cs: &Vec<Commit>) -> (g: Graph)
    requires
        forall|i: int, j: int|
            0 <= i < j < cs@.len() ==> (#[trigger] cs@[i]).id != (#[trigger] cs@[j]).id,
    ensures
        g.wf(),
        forall|x: u64| #[trigger] g.is_added(x) <==> id_set(cs@).contains(x),
        forall|i: int|
            0 <= i < cs@.len() ==> g.gm()[(#[trigger] cs@[i]).id].parents == cs@[i].parents@,
        forall|x: u64|
            #[trigger] g.gm().contains_key(x) <==> id_set(cs@).contains(x) || exists|i: int|
                0 <= i < cs@.len() && (#[trigger] cs@[i]).parents@.contains(x),
{
    let mut g = Graph::new();
    let mut i: usize = 0;
    while i < cs.len()
        invariant
            forall|a: int, b: int|
                0 <= a < b < cs@.len() ==> (#[trigger] cs@[a]).id != (#[trigger] cs@[b]).id,
            i <= cs@.len(),
            g.wf(),
            forall|x: u64| #[trigger] g.is_added(x) <==> id_set(cs@.take(i as int)).contains(x),
            forall|j: int|
                0 <= j < i ==> g.gm()[(#[trigger] cs@[j]).id].parents == cs@[j].parents@,
            forall|x: u64|
                #[trigger] g.gm().contains_key(x) <==> id_set(cs@.take(i as int)).contains(x)
                    || exists|j: int| 0 <= j < i && (#[trigger] cs@[j]).parents@.contains(x),
        decreases cs@.len() - i,
    {
        let ghost g0 = g;
        let ghost ii = i as int;
        let ghost cid = cs@[ii].id;
        proof {
            if g.is_added(cid) {
                let j = choose|j: int|
                    0 <= j < ii && (#[trigger] cs@.take(ii)[j]).id == cid;
                assert(cs@[j].id == cs@[ii].id);
            }
        }
        let res = g.add(&cs[i]);
        match res {
            Ok(_) => {},
            Err(_) => {
                // each id occurs once, so a re-add cannot happen
                vstd::pervasive::unreached::<()>();
            },
        }
        proof {
            assert(cs@.take(ii + 1) =~= cs@.take(ii).push(cs@[ii]));
            lemma_id_set_push(cs@.take(ii), cs@[ii]);
            assert forall|x: u64| #[trigger] g.is_added(x) implies id_set(cs@.take(ii + 1)).contains(
                x,
            ) by {
                if x != cid {
                    if !g0.gm().contains_key(x) {
                        assert(!g.gm()[x].added);
                    }
                    assert(g0.is_added(x));
                }
            }
            assert forall|x: u64| id_set(cs@.take(ii + 1)).contains(x) implies g.is_added(x) by {
                if x != cid {
                    assert(g0.is_added(x));
                    assert(g0.gm().contains_key(x));
                }
            }
            assert forall|j: int| 0 <= j < ii + 1 implies g.gm()[(#[trigger] cs@[j]).id].parents
                == cs@[j].parents@ by {
                if j < ii {
                    assert(cs@.take(ii)[j].id == cs@[j].id);
                    assert(id_set(cs@.take(ii)).contains(cs@[j].id));
                    assert(g0.is_added(cs@[j].id));
                    assert(g0.gm().contains_key(cs@[j].id));
                    assert(cs@[j].id != cs@[ii].id);
                    assert(g.gm()[cs@[j].id].parents == g0.gm()[cs@[j].id].parents);
                }
            }
            assert forall|x: u64| #[trigger] g.gm().contains_key(x) implies (id_set(
                cs@.take(ii + 1),
            ).contains(x) || exists|j: int|
                0 <= j < ii + 1 && (#[trigger] cs@[j]).parents@.contains(x)) by {
                if !g0.gm().contains_key(x) && x != cid {
                    assert(cs@[ii].parents@.contains(x));
                }
            }
            assert forall|x: u64| (id_set(cs@.take(ii + 1)).contains(x) || exists|j: int|
                0 <= j < ii + 1 && (#[trigger] cs@[j]).parents@.contains(x)) implies g.gm(
            ).contains_key(x) by {
                if id_set(cs@.take(ii + 1)).contains(x) {
                    if x != cid {
                        assert(g0.gm().contains_key(x));
                    }
                } else {
                    let j = choose|j: int|
                        0 <= j < ii + 1 && (#[trigger] cs@[j]).parents@.contains(x);
                    if j < ii {
                        assert(g0.gm().contains_key(x));
                    } else {
                        assert(cs@[ii].parents@.contains(x));
                    }
                }
            }
        }
        i = i + 1;
    }
    proof {
        assert(cs@.take(cs@.len() as int) =~= cs@);
    }
    g
}

/// Builds the bidirectional graph of every commit reachable from the
/// repository's reference tips. Fails with `MissingCommit` exactly when a
/// reachable id has no commit record.
pub fn graph_from_refs(store: &Store) -> (r: Result<Graph, StoreError>)
    requires
        store.wf(),
    ensures
        match r {
            Ok(g) => {
                &&& g.wf()
                &&& forall|x: u64|
                    #[trigger] g.is_added(x) <==> reachable(
                        store.commits@,
                        ref_tip_set(store.refs@),
                        x,
                    )
                &&& forall|x: u64| #[trigger] g.gm().contains_key(x) <==> g.is_added(x)
                &&& forall|x: u64|
                    #[trigger] g.is_added(x) ==> store.commits@.contains_key(x) && g.gm()[
                        x
                    ].parents == store.commits@[x].parents@
            },
            Err(e) => match e {
                StoreError::MissingCommit(x) => reachable(
                    store.commits@,
                    ref_tip_set(store.refs@),
                    x,
                ) && !store.commits@.contains_key(x),
            },
        },
{
    let ghost m = store.commits@;
    let ghost tips = ref_tip_set(store.refs@);
    let roots = root_commits_by_refs(store);
    let vs = match traverse_from_roots(store, &roots) {
        Ok(v) => v,
        Err(e) => {
            return Err(e);
        },
    };
    let g = build_graph(&vs);
    proof {
        assert(id_set(roots@) == tips);
        assert forall|x: u64| #[trigger] g.is_added(x) implies reachable(m, tips, x)
            && store.commits@.contains_key(x) && g.gm()[x].parents == m[x].parents@ by {
            let i = choose|i: int| 0 <= i < vs@.len() && (#[trigger] vs@[i]).id == x;
            assert(g.gm()[vs@[i].id].parents == vs@[i].parents@);
            assert(vs@[i]@ == m[x]@);
        }
        assert forall|x: u64| reachable(m, tips, x) implies g.is_added(x) by {
            assert(id_set(vs@).contains(x));
        }
        assert forall|x: u64| #[trigger] g.gm().contains_key(x) implies g.is_added(x) by {
            if !id_set(vs@).contains(x) {
                let i = choose|i: int| 0 <= i < vs@.len() && (#[trigger] vs@[i]).parents@.contains(x);
                let y = vs@[i].id;
                assert(m.contains_key(y) && vs@[i]@ == m[y]@);
                assert(m[y].parents@.contains(x));
                assert(step(m, y, x));
                assert(reachable(m, tips, y));
                lemma_reachable_step(m, tips, y, x);
            }
        }
    }
    Ok(g)
}

/// Builds the bidirectional graph of *every* commit object in the store,
/// reachable from a reference or not. Parents of recorded commits that have
/// no record of their own stay as placeholder nodes.
pub fn graph_from_all(store: &Store) -> (g: Graph)
    requires
        store.wf(),
    ensures
        g.wf(),
        forall|x: u64| #[trigger] g.is_added(x) <==> store.commits@.contains_key(x),
        forall|x: u64|
            #[trigger] g.is_added(x) ==> g.gm()[x].parents == store.commits@[x].parents@,
        forall|x: u64|
            #[trigger] g.gm().contains_key(x) <==> store.commits@.contains_key(x) || exists|y: u64|
                store.commits@.contains_key(y) && #[trigger] store.commits@[y].parents@.contains(x),
{
    let ghost m = store.commits@;
    let cs = commits_only(store);
    let g = build_graph(&cs);
    proof {
        assert forall|x: u64| #[trigger] g.is_added(x) && true implies g.gm()[x].parents
            == m[x].parents@ by {
            let i = choose|i: int| 0 <= i < cs@.len() && (#[trigger] cs@[i]).id == x;
            assert(g.gm()[cs@[i].id].parents == cs@[i].parents@);
            assert(cs@[i]@ == m[x]@);
        }
        assert forall|x: u64| #[trigger] g.gm().contains_key(x) implies (m.contains_key(x)
            || exists|y: u64|
            m.contains_key(y) && #[trigger] m[y].parents@.contains(x)) by {
            if !id_set(cs@).contains(x) {
                let i = choose|i: int| 0 <= i < cs@.len() && (#[trigger] cs@[i]).parents@.contains(x);
                let y = cs@[i].id;
                assert(m.contains_key(y) && cs@[i]@ == m[y]@);
                assert(m[y].parents@.contains(x));
            }
        }
        assert forall|x: u64| (m.contains_key(x) || exists|y: u64|
            m.contains_key(y) && #[trigger] m[y].parents@.contains(x)) implies g.gm().contains_key(
            x,
        ) by {
            if !m.contains_key(x) {
                let y = choose|y: u64| m.contains_key(y) && #[trigger] m[y].parents@.contains(x);
                assert(id_set(cs@).contains(y));
                let i = choose|i: int| 0 <= i < cs@.len() && (#[trigger] cs@[i]).id == y;
                assert(cs@[i]@ == m[y]@);
                assert(cs@[i].parents@.contains(x));
            }
        }
    }
    g
}

/// Of a sequence of commit ids, those unreachable from `tips`, in order.
pub open spec fn unreachable_ids(ids: Seq<u64>, m: Map<u64, Commit>, tips: Set<u64>) -> Seq<u64>
    decreases ids.len(),
{
    if ids.len() == 0 {
        Seq::<u64>::empty()
    } else {
        unreachable_ids(ids.drop_last(), m, tips) + if !reachable(m, tips, ids.last()) {
            seq![ids.last()]
        } else {
            Seq::<u64>::empty()
        }
    }
}

proof fn lemma_unreachable_ids_take_step(
    ids: Seq<u64>,
    m: Map<u64, Commit>,
    tips: Set<u64>,
    i: int,
)
    requires
        0 <= i < ids.len(),
    ensures
        unreachable_ids(ids.take(i + 1), m, tips) == unreachable_ids(ids.take(i), m, tips) + if !reachable(
            m,
            tips,
            ids[i],
        ) {
            seq![ids[i]]
        } else {
            Seq::<u64>::empty()
        },
{
    assert(ids.take(i + 1).drop_last() =~= ids.take(i));
    assert(ids.take(i + 1).last() == ids[i]);
}

/// The lost set: every commit physically present in the store but
/// unreachable from any reference — orphans that normal history traversal
/// cannot find — sorted by commit timestamp ascending, commits with equal
/// timestamps in object enumeration order.
///
/// Returns `Ok` exactly when the reference-reachability traversal itself
/// succeeds; the result then holds, once each, precisely the commits whose
/// id no reference tip reaches, each carrying the store's record, in
/// nondecreasing timestamp order.
pub fn lost(store: &Store) -> (r: Result<Vec<Commit>, StoreError>)
    requires
        store.wf(),
    ensures
        match r {
            Ok(cs) => {
                &&& forall|i: int, j: int|
                    0 <= i < j < cs@.len() ==> (#[trigger] cs@[i]).id != (#[trigger] cs@[j]).id
                &&& forall|i: int|
                    0 <= i < cs@.len() ==> store.commits@.contains_key((#[trigger] cs@[i]).id)
                        && cs@[i]@ == store.commits@[cs@[i].id]@
                &&& forall|x: u64|
                    #[trigger] id_set(cs@).contains(x) <==> store.commits@.contains_key(x)
                        && !reachable(store.commits@, ref_tip_set(store.refs@), x)
                &&& forall|i: int, j: int| 0 <= i <= j < cs@.len() ==> cs@[i].time <= cs@[j].time
                &&& forall|i: int, j: int|
                    0 <= i < j < cs@.len() && (#[trigger] cs@[i]).time == (
                    #[trigger] cs@[j]).time ==> pos_of(
                        unreachable_ids(
                            commit_ids_of(store.objects@),
                            store.commits@,
                            ref_tip_set(store.refs@),
                        ),
                        cs@[i].id,
                    ) < pos_of(
                        unreachable_ids(
                            commit_ids_of(store.objects@),
                            store.commits@,
                            ref_tip_set(store.refs@),
                        ),
                        cs@[j].id,
                    )
            },
            Err(e) => match e {
                StoreError::MissingCommit(x) => reachable(
                    store.commits@,
                    ref_tip_set(store.refs@),
                    x,
                ) && !store.commits@.contains_key(x),
            },
        },
{
    let ghost m = store.commits@;
    let ghost tips = ref_tip_set(store.refs@);
    let all = commits_only(store);
    let roots = root_commits_by_refs(store);
    let vs = match traverse_from_roots(store, &roots) {
        Ok(v) => v,
        Err(e) => {
            return Err(e);
        },
    };
    let mut seen: HashMap<u64, ()> = HashMap::new();
    let mut i: usize = 0;
    while i < vs.len()
        invariant
            i <= vs@.len(),
            forall|x: u64|
                #[trigger] seen@.contains_key(x) <==> exists|j: int|
                    0 <= j < i && (#[trigger] vs@[j]).id == x,
        decreases vs@.len() - i,
    {
        seen.insert(vs[i].id, ());
        proof {
            assert forall|x: u64| #[trigger] seen@.contains_key(x) implies exists|j: int|
                0 <= j < i + 1 && (#[trigger] vs@[j]).id == x by {
                if x == vs@[i as int].id {
                    assert(0 <= i < i + 1 && vs@[i as int].id == x);
                }
            }
        }
        i = i + 1;
    }
    proof {
        assert forall|x: u64| #[trigger] seen@.contains_key(x) <==> reachable(m, tips, x) by {
            if seen@.contains_key(x) {
                let j = choose|j: int| 0 <= j < vs@.len() && (#[trigger] vs@[j]).id == x;
            }
            if reachable(m, tips, x) {
                assert(id_set(vs@).contains(x));
                let j = choose|j: int| 0 <= j < vs@.len() && (#[trigger] vs@[j]).id == x;
            }
        }
    }
    let mut found: Vec<Commit> = Vec::new();
    proof {
        assert(ids_of_seq(found@) =~= unreachable_ids(ids_of_seq(all@).take(0), m, tips)) by {
            assert(ids_of_seq(all@).take(0) =~= Seq::<u64>::empty());
        }
    }
    let mut i: usize = 0;
    while i < all.len()
        invariant
            store.wf(),
            m == store.commits@,
            tips == ref_tip_set(store.refs@),
            i <= all@.len(),
            forall|x: u64| #[trigger] seen@.contains_key(x) <==> reachable(m, tips, x),
            forall|a: int, b: int|
                0 <= a < b < all@.len() ==> (#[trigger] all@[a]).id != (#[trigger] all@[b]).id,
            forall|a: int|
                0 <= a < all@.len() ==> m.contains_key((#[trigger] all@[a]).id) && all@[a]@
                    == m[all@[a].id]@,
            forall|x: u64| #[trigger] id_set(all@).contains(x) <==> m.contains_key(x),
            forall|a: int, b: int|
                0 <= a < b < found@.len() ==> (#[trigger] found@[a]).id != (
                #[trigger] found@[b]).id,
            forall|a: int|
                0 <= a < found@.len() ==> m.contains_key((#[trigger] found@[a]).id) && found@[a]@
                    == m[found@[a].id]@,
            forall|x: u64|
                #[trigger] id_set(found@).contains(x) <==> exists|j: int|
                    0 <= j < i && (#[trigger] all@[j]).id == x && !reachable(m, tips, x),
            ids_of_seq(found@) == unreachable_ids(ids_of_seq(all@).take(i as int), m, tips),
        decreases all@.len() - i,
    {
        let ghost found0 = found@;
        if !seen.contains_key(&all[i].id) {
            found.push(all[i].duplicate());
            proof {
                lemma_id_set_push(found0, found@.last());
                assert forall|a: int, b: int|
                    0 <= a < b < found@.len() implies (#[trigger] found@[a]).id != (
                #[trigger] found@[b]).id by {
                    if b == found@.len() - 1 {
                        if found@[a].id == found@[b].id {
                            assert(id_set(found0).contains(found@[b].id)) by {
                                assert(found0[a].id == found@[b].id);
                            }
                            let j = choose|j: int|
                                0 <= j < i && (#[trigger] all@[j]).id == found@[b].id && !reachable(
                                    m,
                                    tips,
                                    found@[b].id,
                                );
                            assert(all@[j].id == all@[i as int].id);
                        }
                    }
                }
            }
        }
        proof {
            assert forall|x: u64| #[trigger] id_set(found@).contains(x) implies exists|j: int|
                0 <= j < i + 1 && (#[trigger] all@[j]).id == x && !reachable(m, tips, x) by {
                if id_set(found0).contains(x) {
                    let j = choose|j: int|
                        0 <= j < i && (#[trigger] all@[j]).id == x && !reachable(m, tips, x);
                } else {
                    assert(x == all@[i as int].id && !seen@.contains_key(x));
                    assert(0 <= i < i + 1 && all@[i as int].id == x);
                }
            }
            assert forall|x: u64| (exists|j: int|
                0 <= j < i + 1 && (#[trigger] all@[j]).id == x && !reachable(m, tips, x)) implies id_set(
                found@,
            ).contains(x) by {
                let j = choose|j: int|
                    0 <= j < i + 1 && (#[trigger] all@[j]).id == x && !reachable(m, tips, x);
                if j < i {
                    assert(id_set(found0).contains(x));
                    let a = choose|a: int| 0 <= a < found0.len() && (#[trigger] found0[a]).id == x;
                    assert(found@[a].id == x);
                } else {
                    assert(!seen@.contains_key(x));
                    assert(found@.last().id == x);
                }
            }
            assert(ids_of_seq(all@)[i as int] == all@[i as int].id);
            lemma_unreachable_ids_take_step(ids_of_seq(all@), m, tips, i as int);
            if !seen@.contains_key(all@[i as int].id) {
                assert(!reachable(m, tips, all@[i as int].id));
                assert(found@ == found0.push(found@.last()));
                assert(ids_of_seq(found@) =~= ids_of_seq(found0) + seq![all@[i as int].id]);
            } else {
                assert(ids_of_seq(found@) =~= unreachable_ids(
                    ids_of_seq(all@).take(i + 1 as int),
                    m,
                    tips,
                ));
            }
        }
        i = i + 1;
    }
    let ghost foundg = found@;
    proof {
        assert(ids_of_seq(all@).take(ids_of_seq(all@).len() as int) =~= ids_of_seq(all@));
        assert(ids_of_seq(all@) =~= commit_ids_of(store.objects@));
        assert(ids_of_seq(foundg) == unreachable_ids(commit_ids_of(store.objects@), m, tips));
    }
    let sorted = sort_by_time(found);
    proof {
        assert forall|i: int| 0 <= i < sorted@.len() implies m.contains_key(
            (#[trigger] sorted@[i]).id,
        ) && sorted@[i]@ == m[sorted@[i].id]@ by {
            assert(seq_has_view(foundg, sorted@[i]@));
            let j = choose|j: int| 0 <= j < foundg.len() && (#[trigger] foundg[j])@ == sorted@[i]@;
            assert(m.contains_key(foundg[j].id) && foundg[j]@ == m[foundg[j].id]@);
        }
        assert forall|x: u64| #[trigger] id_set(sorted@).contains(x) implies m.contains_key(x)
            && !reachable(m, tips, x) by {
            let j = choose|j: int| 0 <= j < all@.len() && (#[trigger] all@[j]).id == x && !reachable(
                m,
                tips,
                x,
            );
        }
        assert forall|x: u64| m.contains_key(x) && !reachable(m, tips, x) implies id_set(
            sorted@,
        ).contains(x) by {
            assert(id_set(all@).contains(x));
            let j = choose|j: int| 0 <= j < all@.len() && (#[trigger] all@[j]).id == x;
        }
    }
    Ok(sorted)
}

/// Sorts commits by timestamp, ascending, stably: the result holds exactly
/// the input's commits (same ids, each id's record unchanged) in
/// nondecreasing time order, and commits with equal timestamps keep their
/// input order.
fn sort_by_time(input: Vec<Commit>) -> (r: Vec<Commit>)
    requires
        forall|i: int, j: int|
            0 <= i < j < input@.len() ==> (#[trigger] input@[i]).id != (#[trigger] input@[j]).id,
    ensures
        r@.len() == input@.len(),
        forall|i: int, j: int|
            0 <= i < j < r@.len() ==> (#[trigger] r@[i]).id != (#[trigger] r@[j]).id,
        id_set(r@) == id_set(input@),
        forall|i: int, j: int| 0 <= i <= j < r@.len() ==> r@[i].time <= r@[j].time,
        forall|i: int| 0 <= i < r@.len() ==> seq_has_view(input@, (#[trigger] r@[i])@),
        forall|i: int, j: int|
            0 <= i < j < r@.len() && (#[trigger] r@[i]).time == (#[trigger] r@[j]).time ==> pos_of(
                ids_of_seq(input@),
                r@[i].id,
            ) < pos_of(ids_of_seq(input@), r@[j].id),
{
    let mut r: Vec<Commit> = Vec::new();
    let mut i: usize = 0;
    while i < input.len()
        invariant
            forall|a: int, b: int|
                0 <= a < b < input@.len() ==> (#[trigger] input@[a]).id != (
                #[trigger] input@[b]).id,
            i <= input@.len(),
            r@.len() == i,
            id_set(r@) == id_set(input@.take(i as int)),
            forall|a: int, b: int|
                0 <= a < b < r@.len() ==> (#[trigger] r@[a]).id != (#[trigger] r@[b]).id,
            forall|a: int, b: int| 0 <= a <= b < r@.len() ==> r@[a].time <= r@[b].time,
            forall|a: int| 0 <= a < r@.len() ==> seq_has_view(input@, (#[trigger] r@[a])@),
            forall|a: int|
                0 <= a < r@.len() ==> 0 <= pos_of(ids_of_seq(input@), (#[trigger] r@[a]).id) < i,
            forall|a: int, b: int|
                0 <= a < b < r@.len() && (#[trigger] r@[a]).time == (#[trigger] r@[b]).time
                    ==> pos_of(ids_of_seq(input@), r@[a].id) < pos_of(ids_of_seq(input@), r@[b].id),
        decreases input@.len() - i,
    {
        proof {
            assert forall|a: int, b: int|
                0 <= a < b < ids_of_seq(input@).len() implies ids_of_seq(input@)[a]
                != ids_of_seq(input@)[b] by {
                assert(ids_of_seq(input@)[a] == input@[a].id);
                assert(ids_of_seq(input@)[b] == input@[b].id);
            }
            assert(ids_of_seq(input@)[i as int] == input@[i as int].id);
            lemma_pos_of_distinct(ids_of_seq(input@), i as int);
        }
        let c = input[i].duplicate();
        let ghost r0 = r@;
        let mut pos: usize = 0;
        while pos < r.len() && r[pos].time <= c.time
            invariant
                r@ == r0,
                pos <= r@.len(),
                c@ == input@[i as int]@,
                forall|a: int| 0 <= a < pos ==> r@[a].time <= c.time,
            decreases r@.len() - pos,
        {
            pos = pos + 1;
        }
        r.insert(pos, c);
        proof {
            r0.insert_ensures(pos as int, c);
            assert(input@.take(i + 1 as int) =~= input@.take(i as int).push(input@[i as int]));
            lemma_id_set_push(input@.take(i as int), input@[i as int]);
            assert forall|x: u64| #[trigger] id_set(r@).contains(x) implies id_set(
                input@.take(i as int),
            ).insert(c.id).contains(x) by {
                let a = choose|a: int| 0 <= a < r@.len() && (#[trigger] r@[a]).id == x;
                if a < pos {
                    assert(r0[a].id == x);
                    assert(id_set(r0).contains(x));
                } else if a > pos {
                    assert(r0[a - 1].id == x);
                    assert(id_set(r0).contains(x));
                }
            }
            assert forall|x: u64| id_set(input@.take(i as int)).insert(c.id).contains(
                x,
            ) implies id_set(r@).contains(x) by {
                if x == c.id {
                    assert(r@[pos as int].id == x);
                } else {
                    let a = choose|a: int| 0 <= a < r0.len() && (#[trigger] r0[a]).id == x;
                    if a < pos {
                        assert(r@[a].id == x);
                    } else {
                        assert(r@[a + 1].id == x);
                    }
                }
            }
            assert(id_set(r@) =~= id_set(input@.take(i + 1 as int)));
            assert forall|a: int, b: int| 0 <= a < b < r@.len() implies (#[trigger] r@[a]).id != (
            #[trigger] r@[b]).id by {
                if r@[a].id == r@[b].id {
                    if a == pos || b == pos {
                        let other: int = if a == pos {
                            b
                        } else {
                            a
                        };
                        let o_pre: int = if other < pos {
                            other
                        } else {
                            other - 1
                        };
                        assert(r0[o_pre].id == c.id);
                        assert(id_set(r0).contains(c.id));
                        let j = choose|j: int|
                            0 <= j < i && (#[trigger] input@.take(i as int)[j]).id == c.id;
                        assert(input@[j].id == input@[i as int].id);
                    } else {
                        let a_pre: int = if a < pos {
                            a
                        } else {
                            a - 1
                        };
                        let b_pre: int = if b < pos {
                            b
                        } else {
                            b - 1
                        };
                        assert(r0[a_pre].id == r0[b_pre].id && a_pre != b_pre);
                    }
                }
            }
            assert forall|a: int| 0 <= a < r@.len() implies seq_has_view(
                input@,
                (#[trigger] r@[a])@,
            ) by {
                if a == pos {
                    assert(input@[i as int]@ == r@[a]@);
                } else {
                    let a_pre: int = if a < pos {
                        a
                    } else {
                        a - 1
                    };
                    assert(r@[a] == r0[a_pre]);
                    assert(seq_has_view(input@, r0[a_pre]@));
                }
            }
            assert forall|a: int| 0 <= a < r@.len() implies 0 <= pos_of(
                ids_of_seq(input@),
                (#[trigger] r@[a]).id,
            ) < i + 1 by {
                if a == pos {
                    assert(r@[a].id == input@[i as int].id);
                } else {
                    let a_pre: int = if a < pos {
                        a
                    } else {
                        a - 1
                    };
                    assert(r@[a] == r0[a_pre]);
                }
            }
            assert forall|a: int, b: int|
                0 <= a < b < r@.len() && (#[trigger] r@[a]).time == (#[trigger] r@[b]).time implies
                pos_of(ids_of_seq(input@), r@[a].id) < pos_of(ids_of_seq(input@), r@[b].id) by {
                if pos < r0.len() {
                    assert(r0[pos as int].time > c.time);
                }
                if b == pos {
                    assert(r@[a] == r0[a]);
                    assert(pos_of(ids_of_seq(input@), r0[a].id) < i);
                    assert(r@[b].id == input@[i as int].id);
                } else if a == pos {
                    assert(r@[b] == r0[b - 1]);
                    assert(r0[pos as int].time <= r0[b - 1].time);
                    assert(false);
                } else {
                    let a_pre: int = if a < pos {
                        a
                    } else {
                        a - 1
                    };
                    let b_pre: int = if b < pos {
                        b
                    } else {
                        b - 1
                    };
                    assert(r@[a] == r0[a_pre] && r@[b] == r0[b_pre]);
                    assert(a_pre < b_pre);
                }
            }
            assert forall|a: int, b: int| 0 <= a <= b < r@.len() implies r@[a].time
                <= r@[b].time by {
                if pos < r0.len() {
                    assert(r0[pos as int].time > c.time);
                }
                if a < pos && b == pos {
                    assert(r@[a] == r0[a]);
                } else if a == pos && b > pos {
                    assert(r@[b] == r0[b - 1]);
                    if (b - 1) >= pos {
                        assert(r0[pos as int].time <= r0[b - 1].time);
                    }
                }
            }
        }
        i = i + 1;
    }
    proof {
        assert(input@.take(input@.len() as int) =~= input@);
    }
    r
}

} // verus!
