//! The ambiguity classifier: a breadth-first traversal of the forest
//! reachable from a root node that decides whether any reachable node is
//! locally ambiguous, visiting each distinct node at most once however many
//! derivations share it.

use vstd::prelude::*;
use vstd::set_lib::lemma_int_range;
use vstd::set_lib::lemma_len_subset;
use vstd::set_lib::set_int_range;

use crate::forest::Forest;
use crate::forest::MoreThanOne;
use crate::forest::ShapeKind;

verus! {

/// `p` is a path in `f`: a non-empty run of valid nodes, each a shape-defined
/// child of the one before it.
pub open spec fn is_path(f: Forest, p: Seq<int>) -> bool {
    &&& p.len() >= 1
    &&& (forall|i: int| 0 <= i < p.len() ==> f.valid_node(#[trigger] p[i]))
    &&& (forall|i: int| 0 <= i < p.len() - 1 ==> #[trigger] f.child_edge(p[i], p[i + 1]))
}

/// `n` is reachable from `root`: some path leads from `root` to `n`.
/// A node reaches itself by the one-node path.
pub open spec fn reachable(f: Forest, root: int, n: int) -> bool {
    exists|p: Seq<int>| #[trigger] is_path(f, p) && p.first() == root && p.last() == n
}

/// The set of nodes reachable from `root`.
pub open spec fn reachable_set(f: Forest, root: int) -> Set<int> {
    Set::new(|n: int| reachable(f, root, n))
}

/// The forest rooted at `root` denotes exactly one derivation: no reachable
/// node is locally ambiguous.
pub open spec fn forest_unambiguous(f: Forest, root: int) -> bool {
    forall|n: int| #[trigger] reachable(f, root, n) ==> !f.ambiguous_at(n)
}

pub proof fn lemma_reachable_self(f: Forest, root: int)
    requires
        f.valid_node(root),
    ensures
        reachable(f, root, root),
{
    let p = seq![root];
    assert(is_path(f, p));
}

pub proof fn lemma_reachable_valid(f: Forest, root: int, n: int)
    requires
        reachable(f, root, n),
    ensures
        f.valid_node(n),
{
    let p = choose|p: Seq<int>| is_path(f, p) && p.first() == root && p.last() == n;
    assert(f.valid_node(p[p.len() - 1]));
}

/// Reachability extends along one child edge.
pub proof fn lemma_reachable_step(f: Forest, root: int, n: int, c: int)
    requires
        reachable(f, root, n),
        f.child_edge(n, c),
        f.valid_node(c),
    ensures
        reachable(f, root, c),
{
    let p = choose|p: Seq<int>| is_path(f, p) && p.first() == root && p.last() == n;
    let q = p.push(c);
    assert forall|i: int| 0 <= i < q.len() implies f.valid_node(#[trigger] q[i]) by {
        if i < p.len() {
            assert(f.valid_node(p[i]));
        }
    }
    assert forall|i: int| 0 <= i < q.len() - 1 implies #[trigger] f.child_edge(q[i], q[i + 1]) by {
        if i < p.len() - 1 {
            assert(f.child_edge(p[i], p[i + 1]));
        } else {
            assert(q[i] == p.last() && q[i + 1] == c);
        }
    }
    assert(is_path(f, q) && q.first() == root && q.last() == c);
}

/// A set that holds the root and is closed under child edges holds the last
/// node of every path starting at the root.
proof fn lemma_closed_set_covers_path(f: Forest, root: int, s: Set<int>, p: Seq<int>)
    requires
        is_path(f, p),
        p.first() == root,
        s.contains(root),
        forall|a: int, b: int| s.contains(a) && #[trigger] f.child_edge(a, b) ==> s.contains(b),
    ensures
        s.contains(p.last()),
    decreases p.len(),
{
    if p.len() == 1 {
        assert(p.last() == root);
    } else {
        let q = p.drop_last();
        assert(is_path(f, q)) by {
            assert forall|i: int| 0 <= i < q.len() implies f.valid_node(#[trigger] q[i]) by {
                assert(f.valid_node(p[i]));
            }
            assert forall|i: int| 0 <= i < q.len() - 1 implies #[trigger] f.child_edge(
                q[i],
                q[i + 1],
            ) by {
                assert(f.child_edge(p[i], p[i + 1]));
            }
        }
        lemma_closed_set_covers_path(f, root, s, q);
        let j = p.len() - 2;
        assert(f.child_edge(p[j], p[j + 1]));
        assert(q.last() == p[j] && p.last() == p[j + 1]);
    }
}

/// A set that holds the root and is closed under child edges holds every
/// reachable node.
pub proof fn lemma_closed_set_covers(f: Forest, root: int, s: Set<int>, n: int)
    requires
        reachable(f, root, n),
        s.contains(root),
        forall|a: int, b: int| s.contains(a) && #[trigger] f.child_edge(a, b) ==> s.contains(b),
    ensures
        s.contains(n),
{
    let p = choose|p: Seq<int>| is_path(f, p) && p.first() == root && p.last() == n;
    lemma_closed_set_covers_path(f, root, s, p);
}

/// Only finitely many nodes are reachable: at most as many as the forest
/// holds.
pub proof fn lemma_reachable_set_finite(f: Forest, root: int)
    ensures
        reachable_set(f, root).finite(),
        reachable_set(f, root).len() <= f.nodes@.len(),
{
    let n = f.nodes@.len() as int;
    assert forall|x: int| reachable_set(f, root).contains(x) implies set_int_range(
        0,
        n,
    ).contains(x) by {
        lemma_reachable_valid(f, root, x);
    }
    lemma_int_range(0, n);
    lemma_len_subset(reachable_set(f, root), set_int_range(0, n));
}

/// `c` occurs among the node ids of `q`.
spec fn seq_has_node(q: Seq<usize>, c: int) -> bool {
    exists|k: int| 0 <= k < q.len() && c == (#[trigger] q[k]) as int
}

/// A duplicate-free run of node ids drawn from a forest of `n` nodes holds at
/// most `n` entries.
proof fn lemma_bounded_no_dup_len(q: Seq<usize>, n: nat)
    requires
        q.no_duplicates(),
        forall|i: int| 0 <= i < q.len() ==> ((#[trigger] q[i]) as nat) < n,
    ensures
        q.len() <= n,
{
    let m = q.map_values(|x: usize| x as int);
    assert(m.no_duplicates()) by {
        assert forall|i: int, j: int|
            0 <= i < m.len() && 0 <= j < m.len() && i != j implies m[i] != m[j] by {
            assert(q[i] != q[j]);
        }
    }
    m.unique_seq_to_set();
    assert forall|x: int| m.to_set().contains(x) implies set_int_range(0, n as int).contains(
        x,
    ) by {
        let k = choose|k: int| 0 <= k < m.len() && m[k] == x;
        assert(((q[k]) as nat) < n);
    }
    lemma_int_range(0, n as int);
    lemma_len_subset(m.to_set(), set_int_range(0, n as int));
}

/// Mark `c` as seen and append it to the traversal queue, unless it was seen
/// before; either way `c` is in the queue afterwards, and the queue stays a
/// duplicate-free run of reachable nodes mirrored exactly by `seen`.
fn enqueue_child(f: &Forest, root: usize, seen: &mut Vec<bool>, queue: &mut Vec<usize>, c: usize)
    requires
        root < f.nodes@.len(),
        c < f.nodes@.len(),
        old(seen)@.len() == f.nodes@.len(),
        old(queue)@.no_duplicates(),
        forall|i: int| 0 <= i < old(queue)@.len()
            ==> ((#[trigger] old(queue)@[i]) as nat) < f.nodes@.len(),
        forall|i: int| 0 <= i < old(queue)@.len()
            ==> reachable(*f, root as int, (#[trigger] old(queue)@[i]) as int),
        forall|j: int| 0 <= j < old(seen)@.len()
            ==> ((#[trigger] old(seen)@[j]) <==> seq_has_node(old(queue)@, j)),
        reachable(*f, root as int, c as int),
    ensures
        final(seen)@.len() == f.nodes@.len(),
        final(queue)@.no_duplicates(),
        forall|i: int| 0 <= i < final(queue)@.len()
            ==> ((#[trigger] final(queue)@[i]) as nat) < f.nodes@.len(),
        forall|i: int| 0 <= i < final(queue)@.len()
            ==> reachable(*f, root as int, (#[trigger] final(queue)@[i]) as int),
        forall|j: int| 0 <= j < final(seen)@.len()
            ==> ((#[trigger] final(seen)@[j]) <==> seq_has_node(final(queue)@, j)),
        old(queue)@.len() <= final(queue)@.len(),
        forall|i: int| 0 <= i < old(queue)@.len()
            ==> #[trigger] final(queue)@[i] == old(queue)@[i],
        seq_has_node(final(queue)@, c as int),
        forall|x: int| seq_has_node(old(queue)@, x) ==> seq_has_node(final(queue)@, x),
{
    if !seen[c] {
        proof {
            assert(!seq_has_node(queue@, c as int));
        }
        seen[c] = true;
        queue.push(c);
        proof {
            let q0 = old(queue)@;
            let q1 = queue@;
            assert(q1 == q0.push(c));
            assert(q1.no_duplicates()) by {
                assert forall|i: int, j: int|
                    0 <= i < q1.len() && 0 <= j < q1.len() && i != j implies q1[i] != q1[j] by {
                    if i < q0.len() && j < q0.len() {
                        assert(q0[i] != q0[j]);
                    } else if i < q0.len() {
                        assert(q1[j] == c);
                        assert(!(c == q0[i] as int) || !seq_has_node(q0, c as int));
                    } else {
                        assert(q1[i] == c);
                        assert(!(c == q0[j] as int) || !seq_has_node(q0, c as int));
                    }
                }
            }
            assert(seq_has_node(q1, c as int)) by {
                assert(q1[q0.len() as int] == c);
            }
            assert forall|x: int| seq_has_node(q0, x) implies seq_has_node(q1, x) by {
                let k = choose|k: int| 0 <= k < q0.len() && x == (q0[k]) as int;
                assert(q1[k] == q0[k]);
            }
            assert forall|j: int| 0 <= j < seen@.len() implies ((#[trigger] seen@[j])
                <==> seq_has_node(q1, j)) by {
                if j == c as int {
                } else {
                    assert(seen@[j] == old(seen)@[j]);
                    if seq_has_node(q1, j) {
                        let k = choose|k: int| 0 <= k < q1.len() && j == (q1[k]) as int;
                        assert(k < q0.len());
                        assert(seq_has_node(q0, j));
                    }
                }
            }
        }
    } else {
        proof {
            assert(seq_has_node(queue@, c as int));
        }
    }
}

/// A duplicate-free run of node ids, each reachable from `root`, holds at
/// most as many entries as there are distinct reachable nodes.
proof fn lemma_no_dup_reachable_len(f: Forest, root: int, q: Seq<usize>)
    requires
        q.no_duplicates(),
        forall|i: int| 0 <= i < q.len() ==> reachable(f, root, (#[trigger] q[i]) as int),
    ensures
        q.len() <= reachable_set(f, root).len(),
{
    let m = q.map_values(|x: usize| x as int);
    assert(m.no_duplicates()) by {
        assert forall|i: int, j: int|
            0 <= i < m.len() && 0 <= j < m.len() && i != j implies m[i] != m[j] by {
            assert(q[i] != q[j]);
        }
    }
    m.unique_seq_to_set();
    assert forall|x: int| m.to_set().contains(x) implies reachable_set(f, root).contains(x) by {
        let k = choose|k: int| 0 <= k < m.len() && m[k] == x;
        assert(reachable(f, root, (q[k]) as int));
    }
    lemma_reachable_set_finite(f, root);
    lemma_len_subset(m.to_set(), reachable_set(f, root));
}

/// Decide whether the forest reachable from `root` denotes exactly one
/// derivation, and report how many nodes the traversal visited.
///
/// The traversal is breadth-first over distinct nodes: a node already seen is
/// never re-enqueued, so however many derivations share a node, it is visited
/// at most once, and the visit count never exceeds the number of distinct
/// reachable nodes. The first locally ambiguous node ends the traversal at
/// once.
pub fn ambiguity_check_visits(f: &Forest, root: usize) -> (r: (Result<(), MoreThanOne>, usize))
    requires
        f.wf(),
        root < f.nodes@.len(),
    ensures
        r.0 is Ok <==> forest_unambiguous(*f, root as int),
        r.1 <= reachable_set(*f, root as int).len(),
        r.1 <= f.nodes@.len(),
{
    let n = f.nodes.len();
    let mut seen: Vec<bool> = Vec::new();
    let mut i: usize = 0;
    while i < n
        invariant
            i <= n,
            seen@.len() == i,
            forall|j: int| 0 <= j < i ==> !(#[trigger] seen@[j]),
        decreases n - i,
    {
        seen.push(false);
        i = i + 1;
    }

    let mut queue: Vec<usize> = Vec::new();
    queue.push(root);
    seen[root] = true;
    proof {
        lemma_reachable_self(*f, root as int);
        assert(seq_has_node(queue@, root as int)) by {
            assert(queue@[0] == root);
        }
        assert forall|j: int| 0 <= j < seen@.len() implies ((#[trigger] seen@[j]) <==> seq_has_node(
            queue@,
            j,
        )) by {
            if seq_has_node(queue@, j) {
                let k = choose|k: int| 0 <= k < queue@.len() && j == (queue@[k]) as int;
                assert(k == 0);
            }
        }
    }

    let mut head: usize = 0;
    while head < queue.len()
        invariant
            f.wf(),
            root < f.nodes@.len(),
            seen@.len() == f.nodes@.len(),
            head <= queue@.len(),
            queue@.len() <= f.nodes@.len(),
            queue@.no_duplicates(),
            seq_has_node(queue@, root as int),
            forall|i: int| 0 <= i < queue@.len()
                ==> ((#[trigger] queue@[i]) as nat) < f.nodes@.len(),
            forall|i: int| 0 <= i < queue@.len()
                ==> reachable(*f, root as int, (#[trigger] queue@[i]) as int),
            forall|j: int| 0 <= j < seen@.len()
                ==> ((#[trigger] seen@[j]) <==> seq_has_node(queue@, j)),
            forall|i: int| 0 <= i < head ==> !f.ambiguous_at((#[trigger] queue@[i]) as int),
            forall|i: int, c: int| 0 <= i < head
                && #[trigger] f.child_edge((queue@[i]) as int, c)
                ==> seq_has_node(queue@, c),
        decreases f.nodes@.len() - queue@.len(), queue@.len() - head,
    {
        let source = queue[head];
        let ghost snode = source as int;
        let ghost q_at_pop = queue@;
        proof {
            assert(reachable(*f, root as int, snode));
        }
        match f.shape_kind(source) {
            ShapeKind::Opaque => {
                proof {
                    assert(forall|x: int| !f.child_edge(snode, x));
                }
            },
            ShapeKind::Alias => {
                let c = f.unpack_alias(source);
                proof {
                    lemma_reachable_step(*f, root as int, snode, c as int);
                }
                enqueue_child(f, root, &mut seen, &mut queue, c);
            },
            ShapeKind::Opt => {
                if let Some(c) = f.unpack_opt(source) {
                    proof {
                        lemma_reachable_step(*f, root as int, snode, c as int);
                    }
                    enqueue_child(f, root, &mut seen, &mut queue, c);
                }
            },
            ShapeKind::Choice => {
                match f.one_choice(source) {
                    Ok(c) => {
                        proof {
                            lemma_reachable_step(*f, root as int, snode, c as int);
                        }
                        enqueue_child(f, root, &mut seen, &mut queue, c);
                    },
                    Err(e) => {
                        proof {
                            lemma_no_dup_reachable_len(*f, root as int, queue@);
                            assert(!forest_unambiguous(*f, root as int)) by {
                                assert(reachable(*f, root as int, snode));
                                assert(f.ambiguous_at(snode));
                            }
                        }
                        return (Err(e), head + 1);
                    },
                }
            },
            ShapeKind::Split => {
                match f.one_split(source) {
                    Ok(p) => {
                        let (a, b) = p;
                        proof {
                            lemma_reachable_step(*f, root as int, snode, a as int);
                            lemma_reachable_step(*f, root as int, snode, b as int);
                        }
                        enqueue_child(f, root, &mut seen, &mut queue, a);
                        enqueue_child(f, root, &mut seen, &mut queue, b);
                    },
                    Err(e) => {
                        proof {
                            lemma_no_dup_reachable_len(*f, root as int, queue@);
                            assert(!forest_unambiguous(*f, root as int)) by {
                                assert(reachable(*f, root as int, snode));
                                assert(f.ambiguous_at(snode));
                            }
                        }
                        return (Err(e), head + 1);
                    },
                }
            },
        }
        proof {
            assert(queue@[head as int] == source);
            assert(!f.ambiguous_at(snode));
            assert forall|c: int| #[trigger] f.child_edge(snode, c) implies seq_has_node(
                queue@,
                c,
            ) by {
            }
            assert forall|i: int, c: int|
                0 <= i < head + 1 && #[trigger] f.child_edge((queue@[i]) as int, c)
                implies seq_has_node(queue@, c) by {
                if i < head {
                    assert(queue@[i] == q_at_pop[i]);
                    assert(seq_has_node(q_at_pop, c) ==> seq_has_node(queue@, c));
                }
            }
            assert(queue@.len() <= f.nodes@.len()) by {
                lemma_bounded_no_dup_len(queue@, f.nodes@.len());
            }
        }
        head = head + 1;
    }

    proof {
        let ghost s = Set::new(|x: int| seq_has_node(queue@, x));
        assert(s.contains(root as int));
        assert forall|a: int, b: int| s.contains(a) && #[trigger] f.child_edge(a, b)
            implies s.contains(b) by {
            let k = choose|k: int| 0 <= k < queue@.len() && a == (queue@[k]) as int;
            assert(f.child_edge((queue@[k]) as int, b));
            assert(seq_has_node(queue@, b));
        }
        assert forall|m: int| #[trigger] reachable(*f, root as int, m)
            implies !f.ambiguous_at(m) by {
            lemma_closed_set_covers(*f, root as int, s, m);
            let k = choose|k: int| 0 <= k < queue@.len() && m == (queue@[k]) as int;
            assert(!f.ambiguous_at((queue@[k]) as int));
        }
        lemma_no_dup_reachable_len(*f, root as int, queue@);
    }
    (Ok(()), head)
}

/// Decide whether the forest reachable from `root` denotes exactly one
/// derivation: `Ok(())` if no reachable node is locally ambiguous, the
/// more-than-one signal otherwise.
pub fn ambiguity_check(f: &Forest, root: usize) -> (r: Result<(), MoreThanOne>)
    requires
        f.wf(),
        root < f.nodes@.len(),
    ensures
        r is Ok <==> forest_unambiguous(*f, root as int),
{
    let (r, _visits) = ambiguity_check_visits(f, root);
    r
}

/// Law: classification is deterministic. Any two results that decide the same
/// forest and root agree exactly.
pub proof fn lemma_classification_deterministic(
    f: Forest,
    root: int,
    r1: Result<(), MoreThanOne>,
    r2: Result<(), MoreThanOne>,
)
    requires
        r1 is Ok <==> forest_unambiguous(f, root),
        r2 is Ok <==> forest_unambiguous(f, root),
    ensures
        r1 == r2,
{
    match (r1, r2) {
        (Ok(a), Ok(b)) => {
            assert(a =~= b);
        },
        (Err(a), Err(b)) => {
            assert(a =~= b);
        },
        _ => {
            assert(false);
        },
    }
}

} // verus!
