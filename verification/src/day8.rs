//! A tree written as a list of numbers: the sum of all its metadata, and the
//! value of its root.

use crate::text::{as_usize, chars_of, decimal, opt_view, read_usize, split, split_text, trim,
    trimmed, usize_string, views};
use vstd::prelude::*;

verus! {

/// A node of the tree: its children and its metadata entries.
#[derive(Debug)]
pub struct Node {
    pub child_nodes: Vec<Node>,
    pub metadata: Vec<usize>,
}

/// A tree as plain values.
pub struct Tree {
    pub children: Seq<Tree>,
    pub metadata: Seq<usize>,
}

/// The node as plain values.
pub open spec fn tree_of(node: Node) -> Tree
    decreases node, 0nat,
{
    Tree {
        children: trees_of(node.child_nodes, node.child_nodes.len() as nat),
        metadata: node.metadata@,
    }
}

/// The first `n` of the nodes as plain values.
pub open spec fn trees_of(nodes: Vec<Node>, n: nat) -> Seq<Tree>
    decreases nodes, n,
{
    if n == 0 || n > nodes.len() {
        seq![]
    } else {
        trees_of(nodes, (n - 1) as nat).push(tree_of(nodes[n - 1]))
    }
}

/// The number that piece `i` of the input writes, once trimmed.
pub open spec fn token(pieces: Seq<Seq<char>>, i: int) -> Option<usize> {
    if 0 <= i < pieces.len() {
        as_usize(trim(pieces[i]))
    } else {
        None
    }
}

/// The metadata entries written from piece `pos` on, `count` of them.
pub open spec fn entries_at(pieces: Seq<Seq<char>>, pos: int, count: nat) -> Option<Seq<usize>>
    decreases count,
{
    if count == 0 {
        Some(seq![])
    } else {
        match (entries_at(pieces, pos, (count - 1) as nat), token(pieces, pos + count - 1)) {
            (Some(before), Some(v)) => Some(before.push(v)),
            _ => None,
        }
    }
}

/// The tree written from piece `pos` on, and the piece after it: the number
/// of children, the number of metadata entries, the children one after the
/// other, and the entries.
pub open spec fn tree_at(pieces: Seq<Seq<char>>, pos: nat) -> Option<(Tree, nat)>
    decreases pieces.len() - pos, 0nat,
{
    if pos + 2 > pieces.len() {
        None
    } else {
        match (token(pieces, pos as int), token(pieces, pos as int + 1)) {
            (Some(kids), Some(entries)) => match trees_at(pieces, pos + 2, kids as nat) {
                Some((children, after)) => match entries_at(pieces, after as int, entries as nat) {
                    Some(metadata) => Some((Tree { children, metadata }, after + entries as nat)),
                    None => None,
                },
                None => None,
            },
            _ => None,
        }
    }
}

/// The `count` trees written one after the other from piece `pos` on, and
/// the piece after them.
pub open spec fn trees_at(pieces: Seq<Seq<char>>, pos: nat, count: nat) -> Option<(Seq<Tree>, nat)>
    decreases pieces.len() - pos, 1 + count,
{
    if count == 0 {
        Some((seq![], pos))
    } else if pos >= pieces.len() {
        None
    } else {
        match tree_at(pieces, pos) {
            Some((first, after)) => if pos < after <= pieces.len() {
                match trees_at(pieces, after, (count - 1) as nat) {
                    Some((rest, end)) => Some((seq![first] + rest, end)),
                    None => None,
                }
            } else {
                None
            },
            None => None,
        }
    }
}

/// The sum of the entries.
pub open spec fn entries_sum(m: Seq<usize>) -> nat
    decreases m.len(),
{
    if m.len() == 0 {
        0
    } else {
        entries_sum(m.drop_last()) + m.last() as nat
    }
}

/// The sum of all metadata entries of the tree.
pub open spec fn total(t: Tree) -> nat
    decreases t, 0nat,
{
    entries_sum(t.metadata) + totals(t.children, t.children.len())
}

/// The sum of all metadata entries of the first `n` trees.
pub open spec fn totals(ts: Seq<Tree>, n: nat) -> nat
    decreases ts, n,
{
    if n == 0 || n > ts.len() {
        0
    } else {
        totals(ts, (n - 1) as nat) + total(ts[n - 1])
    }
}

/// The value of the tree. Without children it is the sum of the metadata
/// entries. With children each entry names a child, counting from one, and
/// the value is the sum of the values of the children named, a child as
/// often as it is named; an entry beyond the children adds nothing. `None`
/// where an entry that should name a child is zero.
pub open spec fn value_of(t: Tree) -> Option<nat>
    decreases t, t.metadata.len() + 1,
{
    if t.children.len() == 0 {
        Some(entries_sum(t.metadata))
    } else {
        named_value(t, t.metadata.len())
    }
}

/// The sum of the values of the children that the first `n` entries name.
pub open spec fn named_value(t: Tree, n: nat) -> Option<nat>
    decreases t, n,
{
    if n == 0 || n > t.metadata.len() {
        Some(0)
    } else {
        let entry = t.metadata[n - 1];
        match named_value(t, (n - 1) as nat) {
            Some(before) => if entry == 0 {
                None
            } else if entry - 1 < t.children.len() {
                match value_of(t.children[entry - 1]) {
                    Some(v) => Some(before + v),
                    None => None,
                }
            } else {
                Some(before)
            },
            None => None,
        }
    }
}

/// A tree written in the pieces ends within them, two pieces or more after
/// its start.
pub proof fn tree_at_advances(pieces: Seq<Seq<char>>, pos: nat)
    ensures
        tree_at(pieces, pos) is Some ==> pos + 2 <= tree_at(pieces, pos).unwrap().1 <= pieces.len(),
    decreases pieces.len() - pos, 0nat,
{
    if pos + 2 <= pieces.len() {
        match (token(pieces, pos as int), token(pieces, pos as int + 1)) {
            (Some(kids), Some(entries)) => {
                trees_at_advances(pieces, pos + 2, kids as nat);
                match trees_at(pieces, pos + 2, kids as nat) {
                    Some((children, after)) => {
                        entries_within(pieces, after as int, entries as nat);
                    },
                    None => {},
                }
            },
            _ => {},
        }
    }
}

/// Trees written one after the other end within the pieces, at or after
/// their start, and are as many as were asked for.
pub proof fn trees_at_advances(pieces: Seq<Seq<char>>, pos: nat, count: nat)
    requires
        pos <= pieces.len(),
    ensures
        trees_at(pieces, pos, count) is Some ==> pos <= trees_at(pieces, pos, count).unwrap().1
            <= pieces.len() && trees_at(pieces, pos, count).unwrap().0.len() == count,
    decreases pieces.len() - pos, 1 + count,
{
    if count > 0 && pos < pieces.len() {
        tree_at_advances(pieces, pos);
        match tree_at(pieces, pos) {
            Some((first, after)) => {
                if pos < after <= pieces.len() {
                    trees_at_advances(pieces, after, (count - 1) as nat);
                }
            },
            None => {},
        }
    }
}

/// Entries that are written stand within the pieces.
pub proof fn entries_within(pieces: Seq<Seq<char>>, pos: int, count: nat)
    requires
        0 <= pos <= pieces.len(),
    ensures
        entries_at(pieces, pos, count) is Some ==> pos + count <= pieces.len() && entries_at(
            pieces,
            pos,
            count,
        ).unwrap().len() == count,
    decreases count,
{
    if count > 0 {
        entries_within(pieces, pos, (count - 1) as nat);
    }
}

/// Reads the number that piece `i` writes.
pub fn read_token(pieces: &Vec<Vec<char>>, i: usize) -> (r: Option<usize>)
    ensures
        r == token(views(pieces@), i as int),
{
    if i >= pieces.len() {
        return None;
    }
    assert(views(pieces@)[i as int] == pieces[i as int]@);
    read_usize(&trimmed(&pieces[i]))
}

/// Reads the tree written from piece `pos` on. Gives the tree and the piece
/// after it.
pub fn parse_node(pieces: &Vec<Vec<char>>, pos: usize) -> (r: Option<(Node, usize)>)
    ensures
        match r {
            Some((node, after)) => tree_at(views(pieces@), pos as nat) == Some(
                (tree_of(node), after as nat),
            ),
            None => tree_at(views(pieces@), pos as nat) is None,
        },
    decreases pieces.len() - pos,
{
    let ghost ps = views(pieces@);
    if pos >= pieces.len() || pieces.len() - pos < 2 {
        return None;
    }
    let (kids, entries) = match (read_token(pieces, pos), read_token(pieces, pos + 1)) {
        (Some(k), Some(e)) => (k, e),
        _ => {
            return None;
        },
    };
    let mut child_nodes: Vec<Node> = Vec::new();
    let mut cur: usize = pos + 2;
    let mut k: usize = 0;
    assert(trees_of(child_nodes, 0) =~= seq![]);
    while k < kids
        invariant
            k <= kids,
            ps == views(pieces@),
            token(ps, pos as int) == Some(kids),
            token(ps, pos + 1) == Some(entries),
            pos + 2 <= cur <= pieces.len(),
            child_nodes.len() == k,
            match trees_at(ps, cur as nat, (kids - k) as nat) {
                Some((rest, end)) => trees_at(ps, (pos + 2) as nat, kids as nat) == Some(
                    (trees_of(child_nodes, k as nat) + rest, end),
                ),
                None => trees_at(ps, (pos + 2) as nat, kids as nat) is None,
            },
        decreases kids - k,
    {
        if cur >= pieces.len() {
            return None;
        }
        proof {
            tree_at_advances(ps, cur as nat);
        }
        let (child, after) = match parse_node(pieces, cur) {
            Some(x) => x,
            None => {
                return None;
            },
        };
        let ghost before = trees_of(child_nodes, k as nat);
        let ghost old_nodes = child_nodes;
        child_nodes.push(child);
        proof {
            trees_of_prefix(old_nodes, child_nodes, k as nat);
            assert(trees_of(child_nodes, (k + 1) as nat) == before.push(tree_of(child)));
            match trees_at(ps, after as nat, (kids - k - 1) as nat) {
                Some((rest, end)) => {
                    assert(before + (seq![tree_of(child)] + rest) =~= before.push(tree_of(child))
                        + rest);
                },
                None => {},
            }
        }
        cur = after;
        k += 1;
    }
    assert(trees_at(ps, cur as nat, 0) == Some((Seq::<Tree>::empty(), cur as nat)));
    assert(trees_of(child_nodes, kids as nat) + Seq::<Tree>::empty() =~= trees_of(
        child_nodes,
        kids as nat,
    ));
    let mut metadata: Vec<usize> = Vec::new();
    let mut m: usize = 0;
    while m < entries
        invariant
            m <= entries,
            ps == views(pieces@),
            token(ps, pos as int) == Some(kids),
            token(ps, pos + 1) == Some(entries),
            pos + 2 <= cur <= pieces.len(),
            trees_at(ps, (pos + 2) as nat, kids as nat) == Some(
                (trees_of(child_nodes, kids as nat), cur as nat),
            ),
            entries_at(ps, cur as int, m as nat) == Some(metadata@),
        decreases entries - m,
    {
        if cur >= pieces.len() || m >= pieces.len() - cur {
            proof {
                entries_within(ps, cur as int, entries as nat);
            }
            return None;
        }
        match read_token(pieces, cur + m) {
            Some(v) => metadata.push(v),
            None => {
                proof {
                    entries_cut(ps, cur as int, (m + 1) as nat, entries as nat);
                }
                return None;
            },
        }
        m += 1;
    }
    proof {
        entries_within(ps, cur as int, entries as nat);
    }
    Some((Node { child_nodes, metadata }, cur + entries))
}

/// Once an entry is missing, no longer list of entries is written.
pub proof fn entries_cut(pieces: Seq<Seq<char>>, pos: int, k: nat, n: nat)
    requires
        k <= n,
        entries_at(pieces, pos, k) is None,
    ensures
        entries_at(pieces, pos, n) is None,
    decreases n - k,
{
    if k < n {
        entries_cut(pieces, pos, k, (n - 1) as nat);
    }
}

/// The first nodes as plain values do not change when a node is added.
pub proof fn trees_of_prefix(old_nodes: Vec<Node>, new_nodes: Vec<Node>, n: nat)
    requires
        n <= old_nodes.len(),
        new_nodes.len() >= old_nodes.len(),
        forall|i: int| 0 <= i < old_nodes.len() ==> #[trigger] new_nodes[i] == old_nodes[i],
    ensures
        trees_of(new_nodes, n) == trees_of(old_nodes, n),
    decreases n,
{
    if n > 0 {
        trees_of_prefix(old_nodes, new_nodes, (n - 1) as nat);
    }
}

/// The first `n` nodes as plain values, one by one.
pub proof fn trees_of_index(nodes: Vec<Node>, n: nat, i: int)
    requires
        0 <= i < n <= nodes.len(),
    ensures
        trees_of(nodes, n).len() == n,
        trees_of(nodes, n)[i] == tree_of(nodes[i]),
    decreases n,
{
    trees_of_len(nodes, n);
    if i < n - 1 {
        trees_of_index(nodes, (n - 1) as nat, i);
    } else {
        trees_of_len(nodes, (n - 1) as nat);
    }
}

/// The first `n` nodes as plain values are `n` trees.
pub proof fn trees_of_len(nodes: Vec<Node>, n: nat)
    requires
        n <= nodes.len(),
    ensures
        trees_of(nodes, n).len() == n,
    decreases n,
{
    if n > 0 {
        trees_of_len(nodes, (n - 1) as nat);
    }
}

/// The sum over some of the trees is no more than the sum over more.
pub proof fn totals_grow(ts: Seq<Tree>, k: nat, n: nat)
    requires
        k <= n <= ts.len(),
    ensures
        totals(ts, k) <= totals(ts, n),
    decreases n - k,
{
    if k < n {
        totals_grow(ts, k, (n - 1) as nat);
    }
}

/// The sum of some of the entries is no more than the sum of all.
pub proof fn entries_sum_grows(m: Seq<usize>, k: int)
    requires
        0 <= k <= m.len(),
    ensures
        entries_sum(m.take(k)) <= entries_sum(m),
    decreases m.len(),
{
    if k < m.len() {
        assert(m.drop_last().take(k) == m.take(k));
        entries_sum_grows(m.drop_last(), k);
    } else {
        assert(m.take(k) == m);
    }
}

/// The sum of the entries, where it fits in a `usize`.
pub fn sum_entries(m: &Vec<usize>) -> (r: Option<usize>)
    ensures
        match r {
            Some(v) => v == entries_sum(m@),
            None => entries_sum(m@) > usize::MAX,
        },
{
    let mut acc: usize = 0;
    let mut i: usize = 0;
    while i < m.len()
        invariant
            i <= m.len(),
            acc == entries_sum(m@.take(i as int)),
        decreases m.len() - i,
    {
        assert(m@.take(i + 1).drop_last() == m@.take(i as int));
        proof {
            entries_sum_grows(m@, i + 1);
        }
        acc = match acc.checked_add(m[i]) {
            Some(v) => v,
            None => {
                return None;
            },
        };
        i += 1;
    }
    assert(m@.take(m.len() as int) == m@);
    Some(acc)
}

/// The sum of all metadata entries of the tree, where it fits in a `usize`.
pub fn sum_metadata(node: &Node) -> (r: Option<usize>)
    ensures
        match r {
            Some(v) => v == total(tree_of(*node)),
            None => total(tree_of(*node)) > usize::MAX,
        },
    decreases node,
{
    let ghost t = tree_of(*node);
    let n: usize = node.child_nodes.len();
    proof {
        trees_of_len(node.child_nodes, n as nat);
    }
    let mut acc: usize = match sum_entries(&node.metadata) {
        Some(v) => v,
        None => {
            return None;
        },
    };
    let mut k: usize = 0;
    while k < n
        invariant
            k <= n,
            n == node.child_nodes.len(),
            t == tree_of(*node),
            t.children.len() == n,
            acc == entries_sum(t.metadata) + totals(t.children, k as nat),
        decreases n - k,
    {
        proof {
            trees_of_index(node.child_nodes, n as nat, k as int);
            totals_grow(t.children, (k + 1) as nat, n as nat);
        }
        let below = match sum_metadata(&node.child_nodes[k]) {
            Some(v) => v,
            None => {
                return None;
            },
        };
        acc = match acc.checked_add(below) {
            Some(v) => v,
            None => {
                return None;
            },
        };
        k += 1;
    }
    Some(acc)
}

/// Once an entry is zero where it should name a child, the value is
/// undefined; otherwise the value over some entries is no more than over
/// more.
pub proof fn named_value_grows(t: Tree, k: nat, n: nat)
    requires
        k <= n <= t.metadata.len(),
    ensures
        named_value(t, k) is None ==> named_value(t, n) is None,
        named_value(t, n) is Some ==> named_value(t, k) is Some && named_value(t, k).unwrap()
            <= named_value(t, n).unwrap(),
    decreases n - k,
{
    if k < n {
        named_value_grows(t, k, (n - 1) as nat);
    }
}

/// The value of the tree. `None` where an entry that should name a child is
/// zero, or the value does not fit in a `usize`.
pub fn value(node: &Node) -> (r: Option<usize>)
    ensures
        r == (match value_of(tree_of(*node)) {
            Some(v) => if v <= usize::MAX {
                Some(v as usize)
            } else {
                None
            },
            None => None,
        }),
    decreases node,
{
    let ghost t = tree_of(*node);
    let kids: usize = node.child_nodes.len();
    proof {
        trees_of_len(node.child_nodes, kids as nat);
    }
    if kids == 0 {
        return sum_entries(&node.metadata);
    }
    let n: usize = node.metadata.len();
    let mut acc: usize = 0;
    let mut k: usize = 0;
    while k < n
        invariant
            k <= n,
            n == node.metadata.len(),
            kids == node.child_nodes.len(),
            kids > 0,
            t == tree_of(*node),
            t.children.len() == kids,
            named_value(t, k as nat) == Some(acc as nat),
        decreases n - k,
    {
        let entry = node.metadata[k];
        proof {
            named_value_grows(t, (k + 1) as nat, n as nat);
        }
        if entry == 0 {
            return None;
        }
        if entry - 1 < kids {
            proof {
                trees_of_index(node.child_nodes, kids as nat, entry - 1);
            }
            let below = match value(&node.child_nodes[entry - 1]) {
                Some(v) => v,
                None => {
                    return None;
                },
            };
            acc = match acc.checked_add(below) {
                Some(v) => v,
                None => {
                    return None;
                },
            };
        }
        k += 1;
    }
    Some(acc)
}

/// The pieces of the input between single spaces.
pub open spec fn pieces_of(input: Seq<char>) -> Seq<Seq<char>> {
    split(input, seq![' '])
}

/// The sum of all metadata entries of the tree that the input writes, in
/// decimal, together with the tree. What follows the tree in the input is
/// not looked at. `None` where the input writes no tree, or the sum does not
/// fit in a `usize`.
pub fn part1(input: &str) -> (r: Option<(String, Node)>)
    ensures
        match tree_at(pieces_of(input@), 0) {
            Some((t, _)) => match r {
                Some((s, root)) => tree_of(root) == t && total(t) <= usize::MAX && s@ == decimal(
                    total(t),
                ),
                None => total(t) > usize::MAX,
            },
            None => r is None,
        },
{
    let chars = chars_of(input);
    let mut sep: Vec<char> = Vec::new();
    sep.push(' ');
    assert(sep@ =~= seq![' ']);
    let pieces = split_text(&chars, &sep);
    let (root, _) = match parse_node(&pieces, 0) {
        Some(x) => x,
        None => {
            return None;
        },
    };
    match sum_metadata(&root) {
        Some(v) => Some((usize_string(v), root)),
        None => None,
    }
}

/// What part two answers for a tree.
pub open spec fn value_text(t: Tree) -> Option<Seq<char>> {
    match value_of(t) {
        Some(v) => if v <= usize::MAX {
            Some(decimal(v))
        } else {
            None
        },
        None => None,
    }
}

/// The value of the tree, in decimal. `None` where an entry that should name
/// a child is zero, or the value does not fit in a `usize`.
pub fn part2(_input: &str, root: Node) -> (r: Option<String>)
    ensures
        opt_view(r) == value_text(tree_of(root)),
{
    match value(&root) {
        Some(v) => Some(usize_string(v)),
        None => None,
    }
}

} // verus!
