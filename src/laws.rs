use vstd::prelude::*;
use crate::order::{ascending, lemma_ascending_unique, lemma_sort_ascending, lex_le};
use crate::tree::{
    branch_line, children, claimants, claims, forest, lemma_children_within,
    lemma_claimants_within, lemma_sort_multiset, lemma_unvisited_shrinks, node_addrs, rendered,
    rule, unvisited, within, Node,
};

verus! {

broadcast use vstd::seq_lib::group_to_multiset_ensures;

/// No two nodes of the collection carry the same address.
pub open spec fn distinct_addrs(nodes: Seq<Node>) -> bool {
    forall|i: int, j: int|
        0 <= i < j < nodes.len() ==> #[trigger] nodes[i].address@ != #[trigger] nodes[j].address@
}

/// The children of any node come in ascending byte-wise order of address.
pub proof fn lemma_siblings_ascending(nodes: Seq<Node>, cur: Seq<u8>)
    ensures
        ascending(children(nodes, cur)),
{
    lemma_sort_ascending(claimants(nodes, cur));
}

proof fn lemma_claimants_once(nodes: Seq<Node>, cur: Seq<u8>, a: Seq<u8>)
    requires
        distinct_addrs(nodes),
    ensures
        claimants(nodes, cur).to_multiset().count(a) <= 1,
    decreases nodes.len(),
{
    if nodes.len() > 0 {
        let init = nodes.drop_last();
        assert(distinct_addrs(init)) by {
            assert forall|i: int, j: int| 0 <= i < j < init.len() implies #[trigger] init[i].address@
                != #[trigger] init[j].address@ by {
                assert(nodes[i] == init[i] && nodes[j] == init[j]);
            }
        }
        lemma_claimants_once(init, cur, a);
        let last = nodes.last().address@;
        if a == last {
            lemma_claimants_within(init, cur);
            let c = claimants(init, cur);
            if c.contains(a) {
                let k = choose|k: int| 0 <= k < c.len() && c[k] == a;
                assert(node_addrs(init).contains(c[k]));
                let m = init.map_values(|n: Node| n.address@);
                let i = choose|i: int| 0 <= i < m.len() && #[trigger] m[i] == a;
                assert(nodes[i].address@ == nodes[nodes.len() - 1].address@);
            }
        }
    }
}

/// Where no two nodes share an address, the children of any node come in
/// strictly ascending byte-wise order of address.
pub proof fn lemma_siblings_strictly_ascending(nodes: Seq<Node>, cur: Seq<u8>)
    requires
        distinct_addrs(nodes),
    ensures
        forall|i: int|
            0 <= i < children(nodes, cur).len() - 1 ==> lex_le(
                #[trigger] children(nodes, cur)[i],
                children(nodes, cur)[i + 1],
            ) && children(nodes, cur)[i] != children(nodes, cur)[i + 1],
{
    let k = children(nodes, cur);
    lemma_siblings_ascending(nodes, cur);
    lemma_sort_multiset(claimants(nodes, cur));
    assert forall|i: int| 0 <= i < k.len() - 1 implies #[trigger] k[i] != k[i + 1] by {
        if k[i] == k[i + 1] {
            let a = k[i];
            lemma_claimants_once(nodes, cur, a);
            let r = k.remove(i);
            assert(r[i] == a);
            assert(r.contains(a));
            assert(r.to_multiset() =~= k.to_multiset().remove(a));
            assert(r.to_multiset().count(a) > 0);
            assert(k.to_multiset().remove(a).count(a) > 0);
            assert(k.to_multiset().count(a) >= 2);
        }
    }
}

/// An empty collection renders no line, whatever the root.
pub proof fn lemma_empty_collection(root: Seq<u8>)
    ensures
        rendered(Seq::<Node>::empty(), root) == Seq::<Seq<char>>::empty(),
{
    assert(claimants(Seq::<Node>::empty(), root).len() == 0);
}

/// A root that no node names as its parent renders no line.
pub proof fn lemma_unclaimed_root(nodes: Seq<Node>, root: Seq<u8>)
    requires
        claimants(nodes, root).len() == 0,
    ensures
        rendered(nodes, root) == Seq::<Seq<char>>::empty(),
{
    assert(children(nodes, root).len() == 0) by {
        lemma_sort_ascending(claimants(nodes, root));
    }
}

/// A child that is already among its ancestors is printed once, marked as a
/// loop, with nothing below it; its later siblings follow.
pub proof fn lemma_loop_marked(
    nodes: Seq<Node>,
    path: Seq<Seq<u8>>,
    kids: Seq<Seq<u8>>,
    indent: Seq<char>,
)
    requires
        within(nodes, kids),
        kids.len() > 0,
        path.contains(kids[0]),
    ensures
        forest(nodes, path, kids, indent) == seq![branch_line(indent, kids.len() == 1, kids[0], true)]
            + forest(nodes, path, kids.drop_first(), indent),
{
    assert(node_addrs(nodes).contains(kids[0]));
    assert(kids.drop_first().len() > 0 ==> node_addrs(nodes).contains(kids.drop_first()[0]));
}

/// A child not yet among its ancestors is printed with `|- ` unless it is the
/// last of its siblings, `` `- `` if it is; its own subtree follows, indented
/// with a vertical rule under all but the last sibling; then its later siblings.
pub proof fn lemma_branch_glyphs(
    nodes: Seq<Node>,
    path: Seq<Seq<u8>>,
    kids: Seq<Seq<u8>>,
    indent: Seq<char>,
)
    requires
        within(nodes, kids),
        kids.len() > 0,
        !path.contains(kids[0]),
    ensures
        forest(nodes, path, kids, indent) == seq![branch_line(indent, kids.len() == 1, kids[0], false)]
            + forest(nodes, path.push(kids[0]), children(nodes, kids[0]), indent + rule(kids.len() == 1))
            + forest(nodes, path, kids.drop_first(), indent),
{
    assert(node_addrs(nodes).contains(kids[0]));
    assert(kids.drop_first().len() > 0 ==> node_addrs(nodes).contains(kids.drop_first()[0]));
    lemma_children_within(nodes, kids[0]);
}

proof fn lemma_claimants_remove(s: Seq<Node>, cur: Seq<u8>, j: int)
    requires
        0 <= j < s.len(),
    ensures
        claimants(s, cur).to_multiset() == if claims(s[j], cur) {
            claimants(s.remove(j), cur).to_multiset().insert(s[j].address@)
        } else {
            claimants(s.remove(j), cur).to_multiset()
        },
    decreases s.len(),
{
    let t = s.remove(j);
    if j == s.len() - 1 {
        assert(t =~= s.drop_last());
    } else {
        assert(t.drop_last() =~= s.drop_last().remove(j));
        assert(t.last() == s.last());
        assert(s.drop_last()[j] == s[j]);
        lemma_claimants_remove(s.drop_last(), cur, j);
        let c = claimants(s.drop_last().remove(j), cur).to_multiset();
        if claims(s[j], cur) && claims(s.last(), cur) {
            assert(c.insert(s[j].address@).insert(s.last().address@) =~= c.insert(
                s.last().address@,
            ).insert(s[j].address@));
        }
    }
}

proof fn lemma_claimants_permutation(n1: Seq<Node>, n2: Seq<Node>, cur: Seq<u8>)
    requires
        n1.to_multiset() == n2.to_multiset(),
    ensures
        claimants(n1, cur).to_multiset() == claimants(n2, cur).to_multiset(),
    decreases n1.len(),
{
    n1.to_multiset_ensures();
    n2.to_multiset_ensures();
    if n1.len() == 0 {
        assert(n2.len() == 0);
        assert(n1 =~= n2);
    } else {
        let x = n1.last();
        let init = n1.drop_last();
        assert(n1 =~= init.push(x));
        assert(n1.contains(x));
        assert(n1.to_multiset().count(x) > 0);
        assert(n2.contains(x));
        let j = choose|j: int| 0 <= j < n2.len() && n2[j] == x;
        let r2 = n2.remove(j);
        assert(r2.to_multiset() =~= n2.to_multiset().remove(x));
        assert(init.to_multiset() =~= r2.to_multiset());
        lemma_claimants_permutation(init, r2, cur);
        lemma_claimants_remove(n2, cur, j);
    }
}

proof fn lemma_node_addrs_permutation(n1: Seq<Node>, n2: Seq<Node>)
    requires
        n1.to_multiset() == n2.to_multiset(),
    ensures
        node_addrs(n1) == node_addrs(n2),
{
    n1.to_multiset_ensures();
    n2.to_multiset_ensures();
    let m1 = n1.map_values(|n: Node| n.address@);
    let m2 = n2.map_values(|n: Node| n.address@);
    assert forall|a: Seq<u8>| node_addrs(n1).contains(a) implies node_addrs(n2).contains(a) by {
        let i = choose|i: int| 0 <= i < m1.len() && #[trigger] m1[i] == a;
        assert(n1.contains(n1[i]));
        assert(n1.to_multiset().count(n1[i]) > 0);
        assert(n2.contains(n1[i]));
        let k = choose|k: int| 0 <= k < n2.len() && n2[k] == n1[i];
        assert(m2[k] == a);
    }
    assert forall|a: Seq<u8>| node_addrs(n2).contains(a) implies node_addrs(n1).contains(a) by {
        let i = choose|i: int| 0 <= i < m2.len() && #[trigger] m2[i] == a;
        assert(n2.contains(n2[i]));
        assert(n2.to_multiset().count(n2[i]) > 0);
        assert(n1.contains(n2[i]));
        let k = choose|k: int| 0 <= k < n1.len() && n1[k] == n2[i];
        assert(m1[k] == a);
    }
    assert(node_addrs(n1) =~= node_addrs(n2));
}

proof fn lemma_children_permutation(n1: Seq<Node>, n2: Seq<Node>, cur: Seq<u8>)
    requires
        n1.to_multiset() == n2.to_multiset(),
    ensures
        children(n1, cur) == children(n2, cur),
{
    lemma_claimants_permutation(n1, n2, cur);
    lemma_sort_multiset(claimants(n1, cur));
    lemma_sort_multiset(claimants(n2, cur));
    lemma_sort_ascending(claimants(n1, cur));
    lemma_sort_ascending(claimants(n2, cur));
    lemma_ascending_unique(children(n1, cur), children(n2, cur));
}

proof fn lemma_forest_permutation(
    n1: Seq<Node>,
    n2: Seq<Node>,
    path: Seq<Seq<u8>>,
    kids: Seq<Seq<u8>>,
    indent: Seq<char>,
)
    requires
        n1.to_multiset() == n2.to_multiset(),
        within(n1, kids),
    ensures
        forest(n1, path, kids, indent) == forest(n2, path, kids, indent),
    decreases unvisited(n1, path), kids.len(),
{
    if kids.len() > 0 {
        let c = kids[0];
        lemma_node_addrs_permutation(n1, n2);
        assert(node_addrs(n1).contains(c));
        let rest = kids.drop_first();
        assert(rest.len() > 0 ==> node_addrs(n1).contains(rest[0]));
        lemma_forest_permutation(n1, n2, path, rest, indent);
        if !path.contains(c) {
            lemma_unvisited_shrinks(n1, path, c);
            lemma_children_within(n1, c);
            lemma_children_within(n2, c);
            lemma_children_permutation(n1, n2, c);
            lemma_forest_permutation(
                n1,
                n2,
                path.push(c),
                children(n1, c),
                indent + rule(kids.len() == 1),
            );
        }
    }
}

/// The rendered tree does not depend on the order in which the nodes are
/// listed: two collections holding the same nodes render the same lines.
pub proof fn lemma_render_order_free(n1: Seq<Node>, n2: Seq<Node>, root: Seq<u8>)
    requires
        n1.to_multiset() == n2.to_multiset(),
    ensures
        rendered(n1, root) == rendered(n2, root),
{
    lemma_children_within(n1, root);
    lemma_children_permutation(n1, n2, root);
    lemma_forest_permutation(
        n1,
        n2,
        Seq::<Seq<u8>>::empty().push(root),
        children(n1, root),
        crate::tree::top_indent(),
    );
}

} // verus!
