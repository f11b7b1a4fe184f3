//! A dynamic bounding-volume tree: the collision broad phase.
//!
//! Leaves carry a caller-chosen key and a margin-expanded bound; every
//! branch's box contains the boxes of its children, so a range query may
//! prune any subtree whose box misses the query box without ever missing an
//! overlapping leaf. The tree supports incremental upsert and removal, and a
//! randomized incremental rebalancing step driven by the pipeline's shared
//! deterministic random generator.

use vstd::prelude::*;
use vstd::seq_lib::*;
use crate::leaf::{
    has_key, keys_unique, leaf_data, lemma_contains_concat, lemma_has_key_concat,
    lemma_has_key_contains, lemma_keys_unique_concat, lemma_singleton_leaves, LeafData,
};
use crate::collision::{
    aabb_contains, aabb_merge, aabb_ok, aabb_overlaps, lemma_contains_transitive,
    lemma_merge_properties, merge, overlaps, Aabb,
};

verus! {

broadcast use lemma_contains_concat, lemma_has_key_concat, lemma_keys_unique_concat;

/// A tree node: a leaf, or a branch whose box bounds its whole subtree.
pub enum Node {
    Leaf(LeafData),
    Branch { aabb: Aabb, left: Box<Node>, right: Box<Node> },
}

/// The leaves of a subtree, in left-to-right order.
pub open spec fn node_leaves(n: Node) -> Seq<LeafData>
    decreases n,
{
    match n {
        Node::Leaf(l) => seq![l],
        Node::Branch { aabb: _, left, right } => node_leaves(*left) + node_leaves(*right),
    }
}

/// The box stored at the root of a subtree.
pub open spec fn node_aabb(n: Node) -> Aabb {
    match n {
        Node::Leaf(l) => l.aabb,
        Node::Branch { aabb, left: _, right: _ } => aabb,
    }
}

/// Structural well-formedness: every box is representable and every
/// branch's box contains its children's boxes.
pub open spec fn node_wf(n: Node) -> bool
    decreases n,
{
    match n {
        Node::Leaf(l) => aabb_ok(l.aabb),
        Node::Branch { aabb, left, right } => {
            &&& aabb_ok(aabb)
            &&& node_wf(*left)
            &&& node_wf(*right)
            &&& aabb_contains(aabb, node_aabb(*left))
            &&& aabb_contains(aabb, node_aabb(*right))
        },
    }
}

/// A query box hits a leaf when it overlaps the leaf's stored bound.
pub open spec fn hits(q: Aabb, ld: LeafData) -> bool {
    aabb_overlaps(q, ld.aabb)
}

/// Every leaf's bound is contained in its subtree's root box.
pub proof fn lemma_leaves_in_node_aabb(n: Node)
    requires
        node_wf(n),
    ensures
        forall|x: LeafData| #[trigger]
            node_leaves(n).contains(x) ==> aabb_contains(node_aabb(n), x.aabb),
    decreases n,
{
    match n {
        Node::Leaf(l) => {
            assert forall|x: LeafData| #[trigger] node_leaves(n).contains(x) implies aabb_contains(
                node_aabb(n),
                x.aabb,
            ) by {
                assert(node_leaves(n)[0] == l);
            }
        },
        Node::Branch { aabb, left, right } => {
            lemma_leaves_in_node_aabb(*left);
            lemma_leaves_in_node_aabb(*right);
            assert forall|x: LeafData| #[trigger] node_leaves(n).contains(x) implies aabb_contains(
                node_aabb(n),
                x.aabb,
            ) by {
                lemma_contains_concat(node_leaves(*left), node_leaves(*right), x);
                if node_leaves(*left).contains(x) {
                    lemma_contains_transitive(aabb, node_aabb(*left), x.aabb);
                } else {
                    lemma_contains_transitive(aabb, node_aabb(*right), x.aabb);
                }
            }
        },
    }
}

/// A well-formed subtree's root box is representable.
proof fn lemma_node_aabb_ok(n: Node)
    requires
        node_wf(n),
    ensures
        aabb_ok(node_aabb(n)),
{
    match n {
        Node::Leaf(_) => {},
        Node::Branch { aabb: _, left: _, right: _ } => {},
    }
}

/// Read the root box of a subtree.
fn node_aabb_exec(n: &Node) -> (r: Aabb)
    ensures
        r == node_aabb(*n),
{
    match n {
        Node::Leaf(l) => l.aabb,
        Node::Branch { aabb, left: _, right: _ } => *aabb,
    }
}

/// Signed area of a box, used only to pick the cheaper insertion subtree.
fn area(b: &Aabb) -> (r: i128)
    requires
        aabb_ok(*b),
    ensures
        -(0x400_0000_0000 * 0x400_0000_0000) <= r as int <= 0x400_0000_0000 * 0x400_0000_0000,
{
    let dx: i128 = b.max.x as i128 - b.min.x as i128;
    let dy: i128 = b.max.y as i128 - b.min.y as i128;
    proof {
        crate::fix::lemma_mul_bounds(dx as int, 0x400_0000_0000, dy as int, 0x400_0000_0000);
    }
    dx * dy
}

/// Insert a leaf into a subtree, descending into the child whose box grows
/// least, and growing every box along the path.
fn node_insert(n: Node, l: LeafData) -> (r: Node)
    requires
        node_wf(n),
        aabb_ok(l.aabb),
    ensures
        node_wf(r),
        node_aabb(r) == aabb_merge(node_aabb(n), l.aabb),
        node_leaves(r).len() == node_leaves(n).len() + 1,
        forall|x: LeafData| #[trigger]
            node_leaves(r).contains(x) <==> node_leaves(n).contains(x) || x == l,
        (keys_unique(node_leaves(n)) && !has_key(node_leaves(n), l.key)) ==> keys_unique(
            node_leaves(r),
        ),
        forall|k: u64| #[trigger]
            has_key(node_leaves(r), k) <==> has_key(node_leaves(n), k) || k == l.key,
    decreases n,
{
    match n {
        Node::Leaf(l0) => {
            let r = Node::Branch {
                aabb: merge(&l0.aabb, &l.aabb),
                left: Box::new(Node::Leaf(l0)),
                right: Box::new(Node::Leaf(l)),
            };
            proof {
                lemma_merge_properties(l0.aabb, l.aabb);
                assert(node_wf(Node::Leaf(l0)));
                assert(node_wf(Node::Leaf(l)));
                let s = node_leaves(r);
                assert(node_leaves(Node::Leaf(l0)) == seq![l0]);
                assert(node_leaves(Node::Leaf(l)) == seq![l]);
                assert(s =~= seq![l0] + seq![l]);
                assert(s[0] == l0 && s[1] == l && s.len() == 2);
                assert forall|x: LeafData| #[trigger]
                    s.contains(x) <==> (node_leaves(Node::Leaf(l0)).contains(x) || x == l) by {
                    assert(node_leaves(Node::Leaf(l0))[0] == l0);
                    if x == l0 {
                        assert(s.contains(x)) by { assert(s[0] == x) }
                    }
                    if x == l {
                        assert(s.contains(x)) by { assert(s[1] == x) }
                    }
                }
                assert forall|k: u64| #[trigger]
                    has_key(s, k) <==> (has_key(node_leaves(Node::Leaf(l0)), k) || k == l.key) by {
                    if has_key(s, k) {
                        let i = choose|i: int| 0 <= i < s.len() && s[i].key == k;
                    }
                    if k == l0.key {
                        assert(has_key(node_leaves(Node::Leaf(l0)), k)) by {
                            assert(node_leaves(Node::Leaf(l0))[0].key == k)
                        }
                    }
                    if has_key(node_leaves(Node::Leaf(l0)), k) {
                        assert(has_key(s, k)) by { assert(s[0].key == l0.key) }
                    }
                    if k == l.key {
                        assert(has_key(s, k)) by { assert(s[1].key == k) }
                    }
                }
            }
            r
        },
        Node::Branch { aabb, left, right } => {
            let la = node_aabb_exec(&left);
            let ra = node_aabb_exec(&right);
            proof {
                lemma_node_aabb_ok(*left);
                lemma_node_aabb_ok(*right);
                lemma_merge_properties(la, l.aabb);
                lemma_merge_properties(ra, l.aabb);
            }
            let grow_left: i128 = area(&merge(&la, &l.aabb)) - area(&la);
            let grow_right: i128 = area(&merge(&ra, &l.aabb)) - area(&ra);
            proof {
                lemma_merge_properties(la, l.aabb);
                lemma_merge_properties(ra, l.aabb);
                lemma_merge_properties(aabb, l.aabb);
            }
            let ghost old_n = Node::Branch { aabb, left, right };
            if grow_left <= grow_right {
                let new_left = node_insert(*left, l);
                let r = Node::Branch {
                    aabb: merge(&aabb, &l.aabb),
                    left: Box::new(new_left),
                    right,
                };
                proof {
                    lemma_insert_branch_post(old_n, r, l, true);
                }
                r
            } else {
                let new_right = node_insert(*right, l);
                let r = Node::Branch {
                    aabb: merge(&aabb, &l.aabb),
                    left,
                    right: Box::new(new_right),
                };
                proof {
                    lemma_insert_branch_post(old_n, r, l, false);
                }
                r
            }
        },
    }
}

/// Rebuilding one child after an insertion preserves the subtree contracts.
proof fn lemma_insert_branch_post(n: Node, r: Node, l: LeafData, went_left: bool)
    requires
        n matches Node::Branch { aabb: _, left: _, right: _ },
        r matches Node::Branch { aabb: _, left: _, right: _ },
        node_wf(n),
        aabb_ok(l.aabb),
        node_aabb(r) == aabb_merge(node_aabb(n), l.aabb),
        ({
            let (nl, nr) = branch_children(n);
            let (rl, rr) = branch_children(r);
            if went_left {
                &&& rr == nr
                &&& node_wf(rl)
                &&& node_aabb(rl) == aabb_merge(node_aabb(nl), l.aabb)
                &&& node_leaves(rl).len() == node_leaves(nl).len() + 1
                &&& forall|x: LeafData| #[trigger]
                    node_leaves(rl).contains(x) <==> node_leaves(nl).contains(x) || x == l
                &&& (keys_unique(node_leaves(nl)) && !has_key(node_leaves(nl), l.key))
                    ==> keys_unique(node_leaves(rl))
                &&& forall|k: u64| #[trigger]
                    has_key(node_leaves(rl), k) <==> has_key(node_leaves(nl), k) || k == l.key
            } else {
                &&& rl == nl
                &&& node_wf(rr)
                &&& node_aabb(rr) == aabb_merge(node_aabb(nr), l.aabb)
                &&& node_leaves(rr).len() == node_leaves(nr).len() + 1
                &&& forall|x: LeafData| #[trigger]
                    node_leaves(rr).contains(x) <==> node_leaves(nr).contains(x) || x == l
                &&& (keys_unique(node_leaves(nr)) && !has_key(node_leaves(nr), l.key))
                    ==> keys_unique(node_leaves(rr))
                &&& forall|k: u64| #[trigger]
                    has_key(node_leaves(rr), k) <==> has_key(node_leaves(nr), k) || k == l.key
            }
        }),
    ensures
        node_wf(r),
        node_leaves(r).len() == node_leaves(n).len() + 1,
        forall|x: LeafData| #[trigger]
            node_leaves(r).contains(x) <==> node_leaves(n).contains(x) || x == l,
        (keys_unique(node_leaves(n)) && !has_key(node_leaves(n), l.key)) ==> keys_unique(
            node_leaves(r),
        ),
        forall|k: u64| #[trigger]
            has_key(node_leaves(r), k) <==> has_key(node_leaves(n), k) || k == l.key,
{
    let (nl, nr) = branch_children(n);
    let (rl, rr) = branch_children(r);
    let a = node_leaves(nl);
    let b = node_leaves(nr);
    let a2 = node_leaves(rl);
    let b2 = node_leaves(rr);
    assert(node_leaves(n) == a + b);
    assert(node_leaves(r) == a2 + b2);
    lemma_merge_properties(node_aabb(n), l.aabb);
    lemma_merge_properties(node_aabb(nl), l.aabb);
    lemma_merge_properties(node_aabb(nr), l.aabb);
    if keys_unique(node_leaves(n)) && !has_key(node_leaves(n), l.key) {
        assert(keys_unique(a + b));
        assert(!has_key(a, l.key) && !has_key(b, l.key));
        assert(keys_unique(a2) && keys_unique(b2));
        assert forall|k: u64| !(#[trigger] has_key(a2, k) && has_key(b2, k)) by {
            if has_key(a2, k) && has_key(b2, k) {
                if went_left {
                    assert(has_key(a, k) || k == l.key);
                } else {
                    assert(has_key(b, k) || k == l.key);
                }
            }
        }
        assert(keys_unique(a2 + b2));
    }
}

/// The children of a branch node.
pub open spec fn branch_children(n: Node) -> (Node, Node) {
    match n {
        Node::Branch { aabb: _, left, right } => (*left, *right),
        Node::Leaf(l) => (Node::Leaf(l), Node::Leaf(l)),
    }
}

/// Remove the leaf with key `k` from a subtree, if present. The flag says
/// whether a leaf was removed; when the whole subtree was that one leaf the
/// node disappears.
fn node_remove(n: Node, k: u64) -> (res: (Option<Node>, bool))
    requires
        node_wf(n),
        keys_unique(node_leaves(n)),
    ensures
        res.1 == has_key(node_leaves(n), k),
        !res.1 ==> res.0 == Some(n),
        res.1 ==> match res.0 {
            Option::Some(m) => {
                &&& node_wf(m)
                &&& keys_unique(node_leaves(m))
                &&& aabb_contains(node_aabb(n), node_aabb(m))
                &&& node_leaves(m).len() == node_leaves(n).len() - 1
                &&& forall|x: LeafData| #[trigger]
                    node_leaves(m).contains(x) <==> (node_leaves(n).contains(x) && x.key != k)
                &&& forall|kk: u64| #[trigger]
                    has_key(node_leaves(m), kk) <==> (has_key(node_leaves(n), kk) && kk != k)
            },
            Option::None => node_leaves(n).len() == 1 && node_leaves(n)[0].key == k,
        },
    decreases n,
{
    match n {
        Node::Leaf(l) => {
            proof {
                assert(node_leaves(Node::Leaf(l))[0] == l);
            }
            if l.key == k {
                (Option::None, true)
            } else {
                proof {
                    assert(!has_key(node_leaves(Node::Leaf(l)), k)) by {
                        if has_key(node_leaves(Node::Leaf(l)), k) {
                            let i = choose|i: int|
                                0 <= i < node_leaves(Node::Leaf(l)).len() && node_leaves(
                                    Node::Leaf(l),
                                )[i].key == k;
                            assert(i == 0);
                        }
                    }
                }
                (Option::Some(Node::Leaf(l)), false)
            }
        },
        Node::Branch { aabb, left, right } => {
            let ghost n0 = Node::Branch { aabb, left, right };
            let ghost a = node_leaves(*left);
            let ghost b = node_leaves(*right);
            proof {
                assert(node_leaves(n0) == a + b);
            }
            let (l_opt, l_removed) = node_remove(*left, k);
            if l_removed {
                match l_opt {
                    Option::None => {
                        proof {
                            lemma_singleton_leaves(a);
                            lemma_remove_side_gone(a, b, k, true);
                        }
                        (Option::Some(*right), true)
                    },
                    Option::Some(l2) => {
                        let r = Node::Branch { aabb, left: Box::new(l2), right };
                        proof {
                            lemma_remove_side_kept(a, b, node_leaves(l2), k, true);
                            assert(node_leaves(r) == node_leaves(l2) + b);
                        }
                        (Option::Some(r), true)
                    },
                }
            } else {
                let left_back: Node = match l_opt {
                    Option::Some(x) => x,
                    Option::None => vstd::pervasive::unreached(),
                };
                let (r_opt, r_removed) = node_remove(*right, k);
                if r_removed {
                    match r_opt {
                        Option::None => {
                            proof {
                                lemma_singleton_leaves(b);
                                lemma_remove_side_gone(a, b, k, false);
                            }
                            (Option::Some(left_back), true)
                        },
                        Option::Some(r2) => {
                            let r = Node::Branch {
                                aabb,
                                left: Box::new(left_back),
                                right: Box::new(r2),
                            };
                            proof {
                                lemma_remove_side_kept(a, b, node_leaves(r2), k, false);
                                assert(node_leaves(r) == a + node_leaves(r2));
                            }
                            (Option::Some(r), true)
                        },
                    }
                } else {
                    let right_back: Node = match r_opt {
                        Option::Some(x) => x,
                        Option::None => vstd::pervasive::unreached(),
                    };
                    let r = Node::Branch {
                        aabb,
                        left: Box::new(left_back),
                        right: Box::new(right_back),
                    };
                    proof {
                        assert(r == n0);
                    }
                    (Option::Some(r), false)
                }
            }
        },
    }
}

/// After a removal that consumed one whole side of a branch, the other side
/// is exactly the branch's leaves with key `k` taken out.
proof fn lemma_remove_side_gone(a: Seq<LeafData>, b: Seq<LeafData>, k: u64, left_gone: bool)
    requires
        keys_unique(a + b),
        left_gone ==> a.len() == 1 && a[0].key == k,
        !left_gone ==> b.len() == 1 && b[0].key == k,
    ensures
        left_gone ==> {
            &&& forall|x: LeafData| #[trigger] b.contains(x) <==> ((a + b).contains(x) && x.key != k)
            &&& forall|kk: u64| #[trigger] has_key(b, kk) <==> (has_key(a + b, kk) && kk != k)
        },
        !left_gone ==> {
            &&& forall|x: LeafData| #[trigger] a.contains(x) <==> ((a + b).contains(x) && x.key != k)
            &&& forall|kk: u64| #[trigger] has_key(a, kk) <==> (has_key(a + b, kk) && kk != k)
        },
{
    if left_gone {
        lemma_singleton_leaves(a);
        assert(has_key(a, k));
        assert forall|x: LeafData| #[trigger] b.contains(x) implies x.key != k by {
            if x.key == k {
                lemma_has_key_contains(b, k);
            }
        }
    } else {
        lemma_singleton_leaves(b);
        assert(has_key(b, k));
        assert forall|x: LeafData| #[trigger] a.contains(x) implies x.key != k by {
            if x.key == k {
                lemma_has_key_contains(a, k);
            }
        }
    }
}

/// After a removal inside one side of a branch, the rebuilt branch's leaves
/// are exactly the old leaves with key `k` taken out.
proof fn lemma_remove_side_kept(
    a: Seq<LeafData>,
    b: Seq<LeafData>,
    s2: Seq<LeafData>,
    k: u64,
    went_left: bool,
)
    requires
        keys_unique(a + b),
        went_left ==> {
            &&& keys_unique(s2)
            &&& s2.len() == a.len() - 1
            &&& forall|x: LeafData| #[trigger] s2.contains(x) <==> (a.contains(x) && x.key != k)
            &&& forall|kk: u64| #[trigger] has_key(s2, kk) <==> (has_key(a, kk) && kk != k)
            &&& has_key(a, k)
        },
        !went_left ==> {
            &&& keys_unique(s2)
            &&& s2.len() == b.len() - 1
            &&& forall|x: LeafData| #[trigger] s2.contains(x) <==> (b.contains(x) && x.key != k)
            &&& forall|kk: u64| #[trigger] has_key(s2, kk) <==> (has_key(b, kk) && kk != k)
            &&& has_key(b, k)
        },
    ensures
        went_left ==> {
            &&& keys_unique(s2 + b)
            &&& forall|x: LeafData| #[trigger]
                (s2 + b).contains(x) <==> ((a + b).contains(x) && x.key != k)
            &&& forall|kk: u64| #[trigger]
                has_key(s2 + b, kk) <==> (has_key(a + b, kk) && kk != k)
        },
        !went_left ==> {
            &&& keys_unique(a + s2)
            &&& forall|x: LeafData| #[trigger]
                (a + s2).contains(x) <==> ((a + b).contains(x) && x.key != k)
            &&& forall|kk: u64| #[trigger]
                has_key(a + s2, kk) <==> (has_key(a + b, kk) && kk != k)
        },
{
    if went_left {
        assert forall|x: LeafData| #[trigger] b.contains(x) implies x.key != k by {
            if x.key == k {
                lemma_has_key_contains(b, k);
            }
        }
        assert forall|x: LeafData| #[trigger]
            (s2 + b).contains(x) <==> ((a + b).contains(x) && x.key != k) by {}
    } else {
        assert forall|x: LeafData| #[trigger] a.contains(x) implies x.key != k by {
            if x.key == k {
                lemma_has_key_contains(a, k);
            }
        }
        assert forall|x: LeafData| #[trigger]
            (a + s2).contains(x) <==> ((a + b).contains(x) && x.key != k) by {}
    }
}

/// Keep only the leaves of `s` whose bound overlaps `q`, in order.
pub open spec fn query_filter(q: Aabb, s: Seq<LeafData>) -> Seq<LeafData> {
    s.filter(|ld: LeafData| hits(q, ld))
}

/// What `query_filter` keeps: exactly the overlapped leaves, and nothing
/// else.
pub proof fn lemma_query_filter_props(q: Aabb, s: Seq<LeafData>)
    ensures
        forall|x: LeafData| #[trigger]
            query_filter(q, s).contains(x) <==> (s.contains(x) && hits(q, x)),
        query_filter(q, s).len() <= s.len(),
{
    let pred = |ld: LeafData| hits(q, ld);
    s.lemma_filter_len(pred);
    assert forall|x: LeafData| #[trigger]
        query_filter(q, s).contains(x) <==> (s.contains(x) && hits(q, x)) by {
        if query_filter(q, s).contains(x) {
            s.lemma_filter_contains_rev(pred, x);
        }
        if s.contains(x) && hits(q, x) {
            let i = choose|i: int| 0 <= i < s.len() && s[i] == x;
            s.lemma_filter_contains(pred, i);
        }
    }
}

/// Collect the overlapped leaves of a subtree into `out`, pruning any
/// subtree whose box misses the query box.
fn node_query(n: &Node, q: &Aabb, out: &mut Vec<LeafData>)
    requires
        node_wf(*n),
    ensures
        final(out)@ == old(out)@ + query_filter(*q, node_leaves(*n)),
    decreases *n,
{
    let ghost pred = |ld: LeafData| hits(*q, ld);
    match n {
        Node::Leaf(l) => {
            if overlaps(q, &l.aabb) {
                out.push(*l);
                proof {
                    reveal_with_fuel(Seq::filter, 3);
                    assert(query_filter(*q, node_leaves(*n)) =~= seq![*l]);
                    assert(final(out)@ =~= old(out)@ + query_filter(*q, node_leaves(*n)));
                }
            } else {
                proof {
                    reveal_with_fuel(Seq::filter, 3);
                    assert(query_filter(*q, node_leaves(*n)) =~= Seq::<LeafData>::empty());
                    assert(final(out)@ =~= old(out)@ + query_filter(*q, node_leaves(*n)));
                }
            }
        },
        Node::Branch { aabb, left, right } => {
            if overlaps(q, aabb) {
                let ghost mid = *out;
                node_query(left, q, out);
                node_query(right, q, out);
                proof {
                    Seq::filter_distributes_over_add(node_leaves(**left), node_leaves(**right), pred);
                    assert(final(out)@ =~= old(out)@ + query_filter(*q, node_leaves(*n)));
                }
            } else {
                proof {
                    lemma_leaves_in_node_aabb(*n);
                    assert forall|i: int| 0 <= i < node_leaves(*n).len() implies !pred(
                        #[trigger] node_leaves(*n)[i],
                    ) by {
                        assert(node_leaves(*n).contains(node_leaves(*n)[i]));
                    }
                    assert(node_leaves(*n).all(|x: LeafData| !pred(x)));
                    node_leaves(*n).lemma_all_neg_filter_empty(pred);
                    assert(query_filter(*q, node_leaves(*n)).len() == 0);
                    assert(final(out)@ =~= old(out)@ + query_filter(*q, node_leaves(*n)));
                }
            }
        },
    }
}

/// Collect every leaf of a subtree into `out`, in order.
fn node_values(n: &Node, out: &mut Vec<LeafData>)
    ensures
        final(out)@ == old(out)@ + node_leaves(*n),
    decreases *n,
{
    match n {
        Node::Leaf(l) => {
            out.push(*l);
            proof {
                assert(final(out)@ =~= old(out)@ + node_leaves(*n));
            }
        },
        Node::Branch { aabb: _, left, right } => {
            node_values(left, out);
            node_values(right, out);
            proof {
                assert(final(out)@ =~= old(out)@ + node_leaves(*n));
            }
        },
    }
}

/// One randomized incremental rebalancing step: descend along bits of `r`
/// and perform a rotation where the shape allows one. Rotations reassociate
/// subtrees, so the stored leaves are untouched.
fn node_tick(n: Node, r: u32) -> (m: Node)
    requires
        node_wf(n),
    ensures
        node_wf(m),
        node_leaves(m) == node_leaves(n),
        node_aabb(m) == node_aabb(n),
    decreases n,
{
    match n {
        Node::Leaf(l) => Node::Leaf(l),
        Node::Branch { aabb, left, right } => {
            let ghost n0 = Node::Branch { aabb, left, right };
            if r % 4 == 0 {
                match *right {
                    Node::Branch { aabb: outer_right_aabb, left: mid, right: far } => {
                        let ghost aseq = node_leaves(*left);
                        let ghost bseq = node_leaves(*mid);
                        let ghost cseq = node_leaves(*far);
                        let left_aabb = node_aabb_exec(&left);
                        let mid_aabb = node_aabb_exec(&mid);
                        let inner = merge(&left_aabb, &mid_aabb);
                        let ghost inner_node = Node::Branch { aabb: inner, left, right: mid };
                        let m = Node::Branch {
                            aabb,
                            left: Box::new(
                                Node::Branch { aabb: inner, left, right: mid },
                            ),
                            right: far,
                        };
                        proof {
                            let rsub = Node::Branch {
                                aabb: outer_right_aabb,
                                left: mid,
                                right: far,
                            };
                            assert(node_wf(rsub));
                            lemma_merge_properties(left_aabb, mid_aabb);
                            lemma_node_aabb_ok(*left);
                            lemma_node_aabb_ok(*mid);
                            assert(node_wf(inner_node));
                            assert(node_leaves(rsub) == bseq + cseq);
                            assert(node_leaves(n0) == aseq + (bseq + cseq));
                            assert(node_leaves(inner_node) == aseq + bseq);
                            assert(node_leaves(m) == (aseq + bseq) + cseq);
                            assert((aseq + bseq) + cseq =~= aseq + (bseq + cseq));
                        }
                        m
                    },
                    Node::Leaf(l) => Node::Branch { aabb, left, right: Box::new(Node::Leaf(l)) },
                }
            } else if r % 4 == 1 {
                match *left {
                    Node::Branch { aabb: outer_left_aabb, left: far, right: mid } => {
                        let ghost aseq = node_leaves(*far);
                        let ghost bseq = node_leaves(*mid);
                        let ghost cseq = node_leaves(*right);
                        let right_aabb = node_aabb_exec(&right);
                        let mid_aabb = node_aabb_exec(&mid);
                        let inner = merge(&mid_aabb, &right_aabb);
                        let ghost inner_node = Node::Branch { aabb: inner, left: mid, right };
                        let m = Node::Branch {
                            aabb,
                            left: far,
                            right: Box::new(
                                Node::Branch { aabb: inner, left: mid, right },
                            ),
                        };
                        proof {
                            let lsub = Node::Branch {
                                aabb: outer_left_aabb,
                                left: far,
                                right: mid,
                            };
                            assert(node_wf(lsub));
                            lemma_merge_properties(mid_aabb, right_aabb);
                            lemma_node_aabb_ok(*mid);
                            lemma_node_aabb_ok(*right);
                            assert(node_wf(inner_node));
                            assert(node_leaves(lsub) == aseq + bseq);
                            assert(node_leaves(n0) == (aseq + bseq) + cseq);
                            assert(node_leaves(inner_node) == bseq + cseq);
                            assert(node_leaves(m) == aseq + (bseq + cseq));
                            assert((aseq + bseq) + cseq =~= aseq + (bseq + cseq));
                        }
                        m
                    },
                    Node::Leaf(l) => Node::Branch { aabb, left: Box::new(Node::Leaf(l)), right },
                }
            } else if r % 4 == 2 {
                let new_left = node_tick(*left, r / 4);
                Node::Branch { aabb, left: Box::new(new_left), right }
            } else {
                let new_right = node_tick(*right, r / 4);
                Node::Branch { aabb, left, right: Box::new(new_right) }
            }
        },
    }
}

/// The broad-phase index: an incrementally maintained bounding-volume tree
/// over keyed leaves with unique keys.
pub struct Dbvt {
    root: Option<Node>,
}

impl Dbvt {
    /// The stored leaves, in tree order.
    pub closed spec fn leaves(self) -> Seq<LeafData> {
        match self.root {
            Option::None => Seq::empty(),
            Option::Some(n) => node_leaves(n),
        }
    }

    /// Structural well-formedness plus key uniqueness.
    pub closed spec fn wf(self) -> bool {
        match self.root {
            Option::None => true,
            Option::Some(n) => node_wf(n) && keys_unique(node_leaves(n)),
        }
    }

    /// An empty tree.
    pub fn new() -> (t: Dbvt)
        ensures
            t.wf(),
            t.leaves() == Seq::<LeafData>::empty(),
    {
        Dbvt { root: Option::None }
    }

    /// Remove the leaf with key `key`, if present.
    pub fn remove(&mut self, key: u64)
        requires
            old(self).wf(),
        ensures
            final(self).wf(),
            forall|x: LeafData| #[trigger]
                final(self).leaves().contains(x) <==> (old(self).leaves().contains(x) && x.key
                    != key),
            forall|kk: u64| #[trigger]
                has_key(final(self).leaves(), kk) <==> (has_key(old(self).leaves(), kk) && kk
                    != key),
            final(self).leaves().len() == if has_key(old(self).leaves(), key) {
                old(self).leaves().len() - 1
            } else {
                old(self).leaves().len() as int
            },
    {
        let root = self.root.take();
        match root {
            Option::None => {
                proof {
                    assert(!has_key(old(self).leaves(), key));
                }
            },
            Option::Some(n) => {
                let (m, removed) = node_remove(n, key);
                self.root = m;
                proof {
                    if removed {
                        if self.root is None {
                            lemma_singleton_leaves(node_leaves(n));
                        }
                    } else {
                        assert forall|x: LeafData| #[trigger]
                            node_leaves(n).contains(x) implies x.key != key by {
                            if x.key == key {
                                lemma_has_key_contains(node_leaves(n), key);
                            }
                        }
                    }
                }
            },
        }
    }

    /// Insert or refresh the leaf with key `key` so that it carries exactly
    /// the bound `aabb`.
    pub fn upsert(&mut self, key: u64, aabb: Aabb)
        requires
            old(self).wf(),
            aabb_ok(aabb),
        ensures
            final(self).wf(),
            forall|x: LeafData| #[trigger]
                final(self).leaves().contains(x) <==> ((old(self).leaves().contains(x) && x.key
                    != key) || x == leaf_data(key, aabb)),
            forall|kk: u64| #[trigger]
                has_key(final(self).leaves(), kk) <==> (has_key(old(self).leaves(), kk) || kk
                    == key),
            final(self).leaves().contains(leaf_data(key, aabb)),
    {
        self.remove(key);
        let l = LeafData { key, aabb };
        let root = self.root.take();
        match root {
            Option::None => {
                self.root = Option::Some(Node::Leaf(l));
                proof {
                    lemma_singleton_leaves(node_leaves(Node::Leaf(l)));
                    assert(node_leaves(Node::Leaf(l))[0] == l);
                }
            },
            Option::Some(n) => {
                let m = node_insert(n, l);
                self.root = Option::Some(m);
            },
        }
    }

    /// All leaves whose stored bound overlaps `q`, in tree order.
    pub fn query(&self, q: &Aabb) -> (r: Vec<LeafData>)
        requires
            self.wf(),
        ensures
            r@ == query_filter(*q, self.leaves()),
    {
        let mut out: Vec<LeafData> = Vec::new();
        match &self.root {
            Option::None => {
                proof {
                    reveal_with_fuel(Seq::filter, 2);
                    assert(out@ =~= query_filter(*q, self.leaves()));
                }
            },
            Option::Some(n) => {
                node_query(n, q, &mut out);
                proof {
                    assert(out@ =~= query_filter(*q, self.leaves()));
                }
            },
        }
        out
    }

    /// Every stored leaf, in tree order.
    pub fn values(&self) -> (r: Vec<LeafData>)
        ensures
            r@ == self.leaves(),
    {
        let mut out: Vec<LeafData> = Vec::new();
        match &self.root {
            Option::None => {},
            Option::Some(n) => {
                node_values(n, &mut out);
                proof {
                    assert(out@ =~= self.leaves());
                }
            },
        }
        out
    }

    /// A well-formed tree's leaves carry pairwise distinct keys.
    pub proof fn lemma_wf_keys_unique(self)
        requires
            self.wf(),
        ensures
            keys_unique(self.leaves()),
    {
    }

    /// One randomized incremental rebalancing step, driven by one draw from
    /// the pipeline's random generator. The stored leaves are unchanged.
    pub fn tick(&mut self, r: u32)
        requires
            old(self).wf(),
        ensures
            final(self).wf(),
            final(self).leaves() == old(self).leaves(),
    {
        let root = self.root.take();
        match root {
            Option::None => {},
            Option::Some(n) => {
                let m = node_tick(n, r);
                self.root = Option::Some(m);
            },
        }
    }
}

} // verus!
