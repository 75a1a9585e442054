use vstd::prelude::*;

use crate::tree::Node;

verus! {

/// The number of nodes of the tree.
pub open spec fn size(node: Node) -> nat
    decreases node,
{
    match node {
        Node::Leaf { .. } => 1,
        Node::Decision { true_branch, false_branch, .. } => 1 + size(*true_branch) + size(
            *false_branch,
        ),
    }
}

/// The number of nodes of all the trees of `s`.
pub open spec fn total_size(s: Seq<&Node>) -> nat
    decreases s.len(),
{
    if s.len() == 0 {
        0
    } else {
        total_size(s.drop_last()) + size(*s.last())
    }
}

/// An edge `(from, to, yes)` between nodes numbered from 1: node `to` is
/// the branch of the decision node `from` taken when its answer is `yes`.
pub open spec fn edge_ok(nodes: Seq<&Node>, e: (usize, usize, bool)) -> bool {
    &&& 1 <= e.0 < e.1 <= nodes.len()
    &&& match *nodes[e.0 - 1] {
        Node::Decision { true_branch, false_branch, .. } => *nodes[e.1 - 1] == if e.2 {
            *true_branch
        } else {
            *false_branch
        },
        Node::Leaf { .. } => false,
    }
}

/// Node `i` (from 0) has its two outgoing edges, when it is a decision.
pub open spec fn edges_of_node(nodes: Seq<&Node>, edges: Seq<(usize, usize, bool)>, i: int) -> bool {
    (*nodes[i] is Decision) ==> (exists|k: int| 0 <= k < edges.len() && #[trigger] edges[k] == (
        (i + 1) as usize,
        edges[k].1,
        true,
    )) && (exists|k: int| 0 <= k < edges.len() && #[trigger] edges[k] == (
        (i + 1) as usize,
        edges[k].1,
        false,
    ))
}

proof fn lemma_total_size_front(a: &Node, t: Seq<&Node>)
    ensures
        total_size(seq![a] + t) == size(*a) + total_size(t),
    decreases t.len(),
{
    if t.len() == 0 {
        assert(seq![a] + t =~= seq![a]);
        assert(seq![a].drop_last() =~= Seq::<&Node>::empty());
        assert(seq![a].last() == a);
        assert(total_size(Seq::<&Node>::empty()) == 0);
    } else {
        lemma_total_size_front(a, t.drop_last());
        assert((seq![a] + t).drop_last() =~= seq![a] + t.drop_last());
        assert((seq![a] + t).last() == t.last());
    }
}

proof fn lemma_total_size_skip(s: Seq<&Node>, i: int)
    requires
        0 <= i < s.len(),
    ensures
        total_size(s.skip(i)) == size(*s[i]) + total_size(s.skip(i + 1)),
{
    assert(s.skip(i) =~= seq![s[i]] + s.skip(i + 1));
    lemma_total_size_front(s[i], s.skip(i + 1));
}

impl Node {
    /// Numbers the nodes breadth first, from 1 at the root, and lists the
    /// edges from each decision node to its two branches. Node `k` (from 1)
    /// is `r.0[k - 1]`; the `k`-th edge (from 0) leads to node `k + 2`, and
    /// the edges come in the order of the nodes they leave, two by two from
    /// each decision node: first the edge to its true branch, then the edge
    /// to its false branch, which gets the next number. The traversal
    /// keeps its own queue instead of recursing.
    pub fn breadth_first(&self) -> (r: (Vec<&Node>, Vec<(usize, usize, bool)>))
        requires
            size(*self) <= usize::MAX,
        ensures
            r.0@.len() == size(*self),
            *r.0@[0] == *self,
            r.1@.len() + 1 == r.0@.len(),
            forall|k: int| 0 <= k < r.1@.len() ==> #[trigger] r.1@[k].1 == k + 2 && edge_ok(r.0@, r.1@[k]),
            forall|k: int| 0 <= k < r.1@.len() - 1 ==> #[trigger] r.1@[k].0 <= r.1@[k + 1].0,
            forall|i: int| 0 <= i < r.0@.len() ==> #[trigger] edges_of_node(r.0@, r.1@, i),
            r.1@.len() % 2 == 0,
            forall|k: int| 0 <= k < r.1@.len() ==> (#[trigger] r.1@[k].2 <==> k % 2 == 0),
            forall|k: int|
                0 <= k < r.1@.len() && k % 2 == 0 ==> r.1@[k + 1].0 == #[trigger] r.1@[k].0,
    {
        let mut nodes: Vec<&Node> = Vec::new();
        let mut edges: Vec<(usize, usize, bool)> = Vec::new();
        nodes.push(self);
        let mut i: usize = 0;
        proof {
            assert(nodes@.skip(0) =~= nodes@);
            assert(nodes@.drop_last() =~= Seq::<&Node>::empty());
            assert(total_size(Seq::<&Node>::empty()) == 0);
        }
        while i < nodes.len()
            invariant
                1 <= nodes@.len(),
                i <= nodes@.len(),
                *nodes@[0] == *self,
                size(*self) <= usize::MAX,
                i + total_size(nodes@.skip(i as int)) == size(*self),
                edges@.len() + 1 == nodes@.len(),
                forall|k: int| 0 <= k < edges@.len() ==> #[trigger] edges@[k].1 == k + 2 && edge_ok(nodes@, edges@[k]),
                forall|k: int| 0 <= k < edges@.len() ==> #[trigger] edges@[k].0 <= i,
                forall|k: int| 0 <= k < edges@.len() - 1 ==> #[trigger] edges@[k].0 <= edges@[k + 1].0,
                forall|j: int| 0 <= j < i ==> #[trigger] edges_of_node(nodes@, edges@, j),
                edges@.len() % 2 == 0,
                forall|k: int| 0 <= k < edges@.len() ==> (#[trigger] edges@[k].2 <==> k % 2 == 0),
                forall|k: int|
                    0 <= k < edges@.len() && k % 2 == 0 ==> edges@[k + 1].0 == #[trigger] edges@[k].0,
            decreases total_size(nodes@.skip(i as int)),
        {
            proof {
                lemma_total_size_skip(nodes@, i as int);
            }
            let node = nodes[i];
            match node {
                Node::Leaf { .. } => {
                    assert(size(*nodes@[i as int]) == 1);
                },
                Node::Decision { true_branch, false_branch, .. } => {
                    let ghost old_nodes = nodes@;
                    let ghost old_edges = edges@;
                    let n = nodes.len();
                    proof {
                        assert(total_size(nodes@.skip(i + 1)) + i + 1 + size(**true_branch) + size(**false_branch) == size(*self));
                        lemma_size_positive(**true_branch);
                        lemma_size_positive(**false_branch);
                        lemma_total_size_len(nodes@.skip(i + 1));
                    }
                    nodes.push(&**true_branch);
                    nodes.push(&**false_branch);
                    edges.push((i + 1, n + 1, true));
                    edges.push((i + 1, n + 2, false));
                    proof {
                        let a = old_nodes.skip(i + 1);
                        let b = a.push(&**true_branch);
                        let c = b.push(&**false_branch);
                        assert(nodes@.skip(i + 1) =~= c);
                        assert(b.drop_last() =~= a);
                        assert(c.drop_last() =~= b);
                        assert(total_size(b) == total_size(a) + size(**true_branch));
                        assert(total_size(c) == total_size(b) + size(**false_branch));
                        assert(size(*old_nodes[i as int]) == 1 + size(**true_branch) + size(**false_branch));
                        assert forall|k: int| 0 <= k < edges@.len() implies #[trigger] edges@[k].1 == k + 2 && edge_ok(nodes@, edges@[k]) by {
                            if k < old_edges.len() {
                                assert(edges@[k] == old_edges[k]);
                                assert(edge_ok(old_nodes, old_edges[k]));
                                assert(nodes@[edges@[k].0 - 1] == old_nodes[edges@[k].0 - 1]);
                                assert(nodes@[edges@[k].1 - 1] == old_nodes[edges@[k].1 - 1]);
                            } else {
                                assert(nodes@[i as int] == node);
                            }
                        }
                        let e = old_edges.len() as int;
                        assert(e % 2 == 0 && (e + 1) % 2 == 1 && (e + 2) % 2 == 0);
                        assert forall|k: int| 0 <= k < edges@.len() implies (#[trigger] edges@[k].2 <==> k % 2 == 0) by {
                            if k < e {
                                assert(edges@[k] == old_edges[k]);
                            }
                        }
                        assert forall|k: int|
                            0 <= k < edges@.len() && k % 2 == 0 implies edges@[k + 1].0 == #[trigger] edges@[k].0 by {
                            if k < e {
                                assert(k + 1 < e);
                                assert(edges@[k] == old_edges[k]);
                                assert(edges@[k + 1] == old_edges[k + 1]);
                            }
                        }
                        assert forall|j: int| 0 <= j < i + 1 implies #[trigger] edges_of_node(nodes@, edges@, j) by {
                            if j < i {
                                assert(edges_of_node(old_nodes, old_edges, j));
                                assert(nodes@[j] == old_nodes[j]);
                                if *nodes@[j] is Decision {
                                    let k1 = choose|k: int| 0 <= k < old_edges.len() && #[trigger] old_edges[k] == ((j + 1) as usize, old_edges[k].1, true);
                                    let k2 = choose|k: int| 0 <= k < old_edges.len() && #[trigger] old_edges[k] == ((j + 1) as usize, old_edges[k].1, false);
                                    assert(edges@[k1] == old_edges[k1]);
                                    assert(edges@[k2] == old_edges[k2]);
                                }
                            } else {
                                assert(nodes@[j] == node);
                                assert(edges@[old_edges.len() as int] == ((j + 1) as usize, edges@[old_edges.len() as int].1, true));
                                assert(edges@[old_edges.len() as int + 1] == ((j + 1) as usize, edges@[old_edges.len() as int + 1].1, false));
                            }
                        }
                    }
                },
            }
            proof {
                assert(forall|j: int| 0 <= j < i + 1 ==> #[trigger] edges_of_node(nodes@, edges@, j));
            }
            i = i + 1;
        }
        assert(nodes@.skip(i as int) =~= Seq::<&Node>::empty());
        (nodes, edges)
    }
}

proof fn lemma_size_positive(node: Node)
    ensures
        size(node) >= 1,
{
}

proof fn lemma_total_size_len(s: Seq<&Node>)
    ensures
        total_size(s) >= s.len(),
    decreases s.len(),
{
    if s.len() > 0 {
        lemma_total_size_len(s.drop_last());
        lemma_size_positive(*s.last());
    }
}

} // verus!
