use vstd::prelude::*;
use vstd::seq_lib::lemma_multiset_commutative;
use vstd::seq_lib::seq_to_set_is_finite;
use crate::hex::{format_byte_array, hex_colon};
use crate::order::{bytes_eq, bytes_le, insert_sorted, lex_le, sort_addrs};

verus! {

broadcast use vstd::seq_lib::group_to_multiset_ensures;

/// A mesh node: its hardware address and, where the attribute was present and
/// decoded as an address, the address of its routing parent.
pub struct Node {
    pub address: Vec<u8>,
    pub parent: Option<Vec<u8>>,
}

/// `n` names `target` as its parent.
pub open spec fn claims(n: Node, target: Seq<u8>) -> bool {
    match n.parent {
        Some(p) => p@ == target,
        None => false,
    }
}

/// The addresses of the nodes that name `cur` as their parent, in collection order.
pub open spec fn claimants(nodes: Seq<Node>, cur: Seq<u8>) -> Seq<Seq<u8>>
    decreases nodes.len(),
{
    if nodes.len() == 0 {
        Seq::empty()
    } else {
        let rest = claimants(nodes.drop_last(), cur);
        if claims(nodes.last(), cur) {
            rest.push(nodes.last().address@)
        } else {
            rest
        }
    }
}

/// The children of `cur`, in ascending byte-wise order of address.
pub open spec fn children(nodes: Seq<Node>, cur: Seq<u8>) -> Seq<Seq<u8>> {
    sort_addrs(claimants(nodes, cur))
}

/// Every address that some node of the collection carries as its own.
pub open spec fn node_addrs(nodes: Seq<Node>) -> Set<Seq<u8>> {
    nodes.map_values(|n: Node| n.address@).to_set()
}

/// Every address of `kids` belongs to a node of the collection.
pub open spec fn within(nodes: Seq<Node>, kids: Seq<Seq<u8>>) -> bool {
    forall|i: int| 0 <= i < kids.len() ==> node_addrs(nodes).contains(#[trigger] kids[i])
}

/// How many node addresses are not yet on the ancestor path.
pub open spec fn unvisited(nodes: Seq<Node>, path: Seq<Seq<u8>>) -> nat {
    node_addrs(nodes).difference(path.to_set()).len()
}

/// The branch glyph and the space after it.
pub open spec fn glyph(last: bool) -> Seq<char> {
    if last {
        seq!['`', '-', ' ']
    } else {
        seq!['|', '-', ' ']
    }
}

/// What follows an address that is already on the ancestor path.
pub open spec fn loop_mark() -> Seq<char> {
    seq![' ', '(', 'l', 'o', 'o', 'p', '!', ')']
}

/// What a subtree's indentation adds under a child: a vertical rule unless it is the last.
pub open spec fn rule(last: bool) -> Seq<char> {
    if last {
        seq![' ', ' ', ' ', ' ', ' ']
    } else {
        seq!['|', ' ', ' ', ' ', ' ']
    }
}

/// The line printed for one child.
pub open spec fn branch_line(indent: Seq<char>, last: bool, addr: Seq<u8>, looped: bool) -> Seq<
    char,
> {
    indent + glyph(last) + hex_colon(addr) + if looped {
        loop_mark()
    } else {
        Seq::empty()
    }
}

/// The lines for the siblings `kids`, each followed by its own subtree, where
/// `path` holds the ancestors of the siblings, their parent included. It is
/// defined for siblings that are addresses of nodes of the collection, as the
/// children of any address are; descent stops at an address already on the
/// path, so the recursion ends with each new ancestor.
pub open spec fn forest(
    nodes: Seq<Node>,
    path: Seq<Seq<u8>>,
    kids: Seq<Seq<u8>>,
    indent: Seq<char>,
) -> Seq<Seq<char>>
    decreases unvisited(nodes, path), kids.len(),
    when kids.len() > 0 ==> node_addrs(nodes).contains(kids[0])
    via forest_decreases
{
    if kids.len() == 0 {
        Seq::empty()
    } else {
        let c = kids[0];
        let last = kids.len() == 1;
        let rest = forest(nodes, path, kids.drop_first(), indent);
        if path.contains(c) {
            seq![branch_line(indent, last, c, true)] + rest
        } else {
            seq![branch_line(indent, last, c, false)] + forest(
                nodes,
                path.push(c),
                children(nodes, c),
                indent + rule(last),
            ) + rest
        }
    }
}

/// Each descent puts one more node address on the path.
#[via_fn]
proof fn forest_decreases(
    nodes: Seq<Node>,
    path: Seq<Seq<u8>>,
    kids: Seq<Seq<u8>>,
    indent: Seq<char>,
) {
    if kids.len() > 0 && !path.contains(kids[0]) {
        lemma_unvisited_shrinks(nodes, path, kids[0]);
    }
}

/// The lines below `cur`, whose ancestors are `parents`.
pub open spec fn tree(
    nodes: Seq<Node>,
    parents: Seq<Seq<u8>>,
    cur: Seq<u8>,
    indent: Seq<char>,
) -> Seq<Seq<char>> {
    forest(nodes, parents.push(cur), children(nodes, cur), indent)
}

/// The indentation of the top level of a rendered tree.
pub open spec fn top_indent() -> Seq<char> {
    seq![' ', ' ']
}

/// The whole tree under `root`.
pub open spec fn rendered(nodes: Seq<Node>, root: Seq<u8>) -> Seq<Seq<char>> {
    tree(nodes, Seq::empty(), root, top_indent())
}

/// The addresses that a vector of borrowed addresses holds.
pub open spec fn addrs(v: Seq<&Vec<u8>>) -> Seq<Seq<u8>> {
    v.map_values(|a: &Vec<u8>| a@)
}

/// The text of each line of a sink.
pub open spec fn lines(v: Seq<String>) -> Seq<Seq<char>> {
    v.map_values(|l: String| l@)
}

/// Adding a node address that is not yet on the path leaves fewer addresses unvisited.
pub proof fn lemma_unvisited_shrinks(nodes: Seq<Node>, path: Seq<Seq<u8>>, c: Seq<u8>)
    requires
        node_addrs(nodes).contains(c),
        !path.contains(c),
    ensures
        unvisited(nodes, path.push(c)) < unvisited(nodes, path),
{
    let s = node_addrs(nodes);
    let d = s.difference(path.to_set());
    seq_to_set_is_finite(nodes.map_values(|n: Node| n.address@));
    path.lemma_push_to_set_commute(c);
    assert(s.difference(path.push(c).to_set()) =~= d.remove(c));
    assert(d.contains(c));
}

proof fn lemma_insert_sorted_multiset(x: Seq<u8>, s: Seq<Seq<u8>>)
    ensures
        insert_sorted(x, s).to_multiset() =~= s.to_multiset().insert(x),
    decreases s.len(),
{
    if s.len() == 0 {
        assert(seq![x] =~= Seq::<Seq<u8>>::empty().push(x));
    } else {
        assert(s =~= seq![s[0]] + s.drop_first());
        lemma_multiset_commutative(seq![s[0]], s.drop_first());
        if lex_le(x, s[0]) {
            lemma_multiset_commutative(seq![x], s);
            assert(seq![x] =~= Seq::<Seq<u8>>::empty().push(x));
        } else {
            lemma_insert_sorted_multiset(x, s.drop_first());
            lemma_multiset_commutative(seq![s[0]], insert_sorted(x, s.drop_first()));
        }
    }
}

pub proof fn lemma_sort_multiset(s: Seq<Seq<u8>>)
    ensures
        sort_addrs(s).to_multiset() =~= s.to_multiset(),
    decreases s.len(),
{
    if s.len() > 0 {
        lemma_sort_multiset(s.drop_last());
        lemma_insert_sorted_multiset(s.last(), sort_addrs(s.drop_last()));
        assert(s =~= s.drop_last().push(s.last()));
    }
}

pub proof fn lemma_claimants_within(nodes: Seq<Node>, cur: Seq<u8>)
    ensures
        within(nodes, claimants(nodes, cur)),
    decreases nodes.len(),
{
    if nodes.len() > 0 {
        let init = nodes.drop_last();
        lemma_claimants_within(init, cur);
        let m = nodes.map_values(|n: Node| n.address@);
        assert forall|a: Seq<u8>| node_addrs(init).contains(a) implies node_addrs(
            nodes,
        ).contains(a) by {
            let mi = init.map_values(|n: Node| n.address@);
            assert(mi.contains(a));
            let i = choose|i: int| 0 <= i < mi.len() && #[trigger] mi[i] == a;
            assert(m[i] == a);
        }
        assert(m[nodes.len() - 1] == nodes.last().address@);
    }
}

pub proof fn lemma_children_within(nodes: Seq<Node>, cur: Seq<u8>)
    ensures
        within(nodes, children(nodes, cur)),
{
    let c = claimants(nodes, cur);
    let k = children(nodes, cur);
    lemma_claimants_within(nodes, cur);
    lemma_sort_multiset(c);
    assert forall|i: int| 0 <= i < k.len() implies node_addrs(nodes).contains(#[trigger] k[i]) by {
        assert(k.contains(k[i]));
        assert(k.to_multiset().count(k[i]) > 0);
        assert(c.contains(k[i]));
    }
}

proof fn lemma_insert_at(x: Seq<u8>, s: Seq<Seq<u8>>, j: int)
    requires
        0 <= j <= s.len(),
        forall|k: int| 0 <= k < j ==> !lex_le(x, #[trigger] s[k]),
        j < s.len() ==> lex_le(x, s[j]),
    ensures
        insert_sorted(x, s) == s.insert(j, x),
    decreases j,
{
    if j == 0 {
        assert(insert_sorted(x, s) =~= s.insert(j, x));
    } else {
        assert(!lex_le(x, s[0]));
        lemma_insert_at(x, s.drop_first(), j - 1);
        assert(insert_sorted(x, s) =~= s.insert(j, x));
    }
}

/// Tells whether `node` names `target` as its parent.
pub fn is_parent(node: &Node, target: &Vec<u8>) -> (r: bool)
    ensures
        r == claims(*node, target@),
{
    match &node.parent {
        Some(p) => bytes_eq(p, target),
        None => false,
    }
}

fn insert_child<'a>(kids: &mut Vec<&'a Vec<u8>>, x: &'a Vec<u8>)
    ensures
        addrs(final(kids)@) == insert_sorted(x@, addrs(old(kids)@)),
{
    let mut j: usize = 0;
    while j < kids.len() && !bytes_le(x, kids[j])
        invariant
            j <= kids.len(),
            forall|k: int| 0 <= k < j ==> !lex_le(x@, #[trigger] addrs(kids@)[k]),
        decreases kids.len() - j,
    {
        j = j + 1;
    }
    proof {
        lemma_insert_at(x@, addrs(kids@), j as int);
    }
    let ghost before = kids@;
    kids.insert(j, x);
    assert(addrs(kids@) =~= addrs(before).insert(j as int, x@));
}

/// The addresses of the nodes that name `cur` as their parent, in ascending
/// byte-wise order.
pub fn find_children<'a>(links: &'a Vec<Node>, cur: &Vec<u8>) -> (r: Vec<&'a Vec<u8>>)
    ensures
        addrs(r@) == children(links@, cur@),
{
    let mut kids: Vec<&'a Vec<u8>> = Vec::new();
    let mut i: usize = 0;
    assert(addrs(kids@) =~= Seq::empty());
    while i < links.len()
        invariant
            i <= links.len(),
            addrs(kids@) == sort_addrs(claimants(links@.take(i as int), cur@)),
        decreases links.len() - i,
    {
        let n: &Node = &links[i];
        let ghost t = links@.take(i + 1);
        assert(t.drop_last() =~= links@.take(i as int));
        assert(t.last() == links@[i as int]);
        if is_parent(n, cur) {
            insert_child(&mut kids, &n.address);
            let ghost c = claimants(t, cur@);
            assert(c.drop_last() =~= claimants(links@.take(i as int), cur@));
        }
        i = i + 1;
    }
    assert(links@.take(i as int) =~= links@);
    kids
}

fn on_path(path: &Vec<&Vec<u8>>, c: &Vec<u8>) -> (r: bool)
    ensures
        r == addrs(path@).contains(c@),
{
    let mut i: usize = 0;
    while i < path.len()
        invariant
            i <= path.len(),
            forall|k: int| 0 <= k < i ==> #[trigger] addrs(path@)[k] != c@,
        decreases path.len() - i,
    {
        if bytes_eq(path[i], c) {
            assert(addrs(path@)[i as int] == c@);
            return true;
        }
        i = i + 1;
    }
    false
}

fn extend_path<'a>(parents: &Vec<&'a Vec<u8>>, cur: &'a Vec<u8>) -> (r: Vec<&'a Vec<u8>>)
    ensures
        addrs(r@) == addrs(parents@).push(cur@),
{
    let mut r: Vec<&'a Vec<u8>> = Vec::new();
    let mut i: usize = 0;
    while i < parents.len()
        invariant
            i <= parents.len(),
            addrs(r@) =~= addrs(parents@).take(i as int),
        decreases parents.len() - i,
    {
        r.push(parents[i]);
        assert(addrs(parents@).take(i + 1) =~= addrs(parents@).take(i as int).push(
            parents@[i as int]@,
        ));
        i = i + 1;
    }
    assert(addrs(parents@).take(i as int) =~= addrs(parents@));
    r.push(cur);
    assert(addrs(r@) =~= addrs(parents@).push(cur@));
    r
}

/// Appends to `out` one line per node below `cur`, depth first: the children of
/// each node in ascending order of address, `|- ` before all but the last and
/// `` `- `` before the last, their subtrees indented under them. A child already
/// among its ancestors (`parents` and `cur`) gets ` (loop!)` and no subtree.
pub fn print_rpl_tree(
    links: &Vec<Node>,
    parents: &Vec<&Vec<u8>>,
    cur: &Vec<u8>,
    indent: &str,
    out: &mut Vec<String>,
)
    ensures
        lines(final(out)@) == lines(old(out)@) + tree(links@, addrs(parents@), cur@, indent@),
    decreases unvisited(links@, addrs(parents@).push(cur@)),
{
    let kids = find_children(links, cur);
    let new_parents = extend_path(parents, cur);
    let ghost path = addrs(new_parents@);
    let ghost all = addrs(kids@);
    let ghost start = lines(out@);
    proof {
        lemma_children_within(links@, cur@);
        assert(all.skip(0) =~= all);
    }
    let n: usize = kids.len();
    let mut k: usize = 0;
    while k < n
        invariant
            k <= n,
            n == kids.len(),
            path == addrs(new_parents@),
            path == addrs(parents@).push(cur@),
            all == addrs(kids@),
            all == children(links@, cur@),
            within(links@, all),
            lines(out@) + forest(links@, path, all.skip(k as int), indent@) == start + forest(
                links@,
                path,
                all,
                indent@,
            ),
        decreases n - k,
    {
        let c: &Vec<u8> = kids[k];
        let last: bool = k + 1 == n;
        let ghost here = all.skip(k as int);
        let ghost prev = lines(out@);
        assert(here.drop_first() =~= all.skip(k + 1));
        assert(here[0] == c@);
        assert(node_addrs(links@).contains(here[0]));
        proof {
            reveal_strlit("`- ");
            reveal_strlit("|- ");
            reveal_strlit(" (loop!)");
            reveal_strlit("     ");
            reveal_strlit("|    ");
        }
        let mut line: String = String::from_str(indent);
        if last {
            line.append("`- ");
        } else {
            line.append("|- ");
        }
        let text: String = format_byte_array(c);
        line.append(text.as_str());
        if on_path(&new_parents, c) {
            line.append(" (loop!)");
            assert(line@ =~= branch_line(indent@, last, c@, true));
            out.push(line);
            let ghost bl = branch_line(indent@, last, c@, true);
            let ghost rest = forest(links@, path, all.skip(k + 1), indent@);
            assert(lines(out@) =~= prev.push(bl));
            assert(forest(links@, path, here, indent@) == seq![bl] + rest);
            assert(lines(out@) + rest =~= prev + (seq![bl] + rest));
        } else {
            assert(line@ =~= branch_line(indent@, last, c@, false));
            out.push(line);
            assert(lines(out@) =~= prev.push(branch_line(indent@, last, c@, false)));
            let mut sub: String = String::from_str(indent);
            if last {
                sub.append("     ");
            } else {
                sub.append("|    ");
            }
            assert(sub@ =~= indent@ + rule(last));
            proof {
                lemma_unvisited_shrinks(links@, path, c@);
            }
            print_rpl_tree(links, &new_parents, c, sub.as_str(), out);
            let ghost bl = branch_line(indent@, last, c@, false);
            let ghost below = tree(links@, path, c@, sub@);
            let ghost rest = forest(links@, path, all.skip(k + 1), indent@);
            proof {
                lemma_children_within(links@, c@);
            }
            assert(forest(links@, path, here, indent@) == seq![bl] + below + rest);
            assert(lines(out@) + rest =~= prev + (seq![bl] + below + rest));
        }
        k = k + 1;
    }
    assert(all.skip(k as int) =~= Seq::<Seq<u8>>::empty());
}

/// The tree under `root` as text lines, two spaces of indentation at the top level.
pub fn render(nodes: &Vec<Node>, root: &Vec<u8>) -> (r: Vec<String>)
    ensures
        lines(r@) == rendered(nodes@, root@),
{
    let mut out: Vec<String> = Vec::new();
    let parents: Vec<&Vec<u8>> = Vec::new();
    proof {
        reveal_strlit("  ");
    }
    let ghost start = lines(out@);
    assert(start =~= Seq::empty());
    print_rpl_tree(nodes, &parents, root, "  ", &mut out);
    assert(addrs(parents@) =~= Seq::empty());
    assert("  "@ =~= top_indent());
    assert(lines(out@) =~= start + rendered(nodes@, root@));
    out
}

} // verus!
