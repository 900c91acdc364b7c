//! The order in which the separate nodes of a trie are visited: from the
//! least path to the greatest, none left out.

use crate::da_spec::{
    cut_last, da_wf, first_child_from, is_node, lemma_child_is_node, lemma_first_child_from,
    lemma_node_set_finite, node_set, spec_first_separate, spec_has_children, spec_next_separate,
    spec_walk,
};
use crate::darray::DACell;
use crate::shape::lemma_reach_label;
use crate::trie_spec::{
    is_prefix, lemma_reach_is_node, lemma_reach_prefix, lemma_reach_unique, reach, symbols_before,
};
use crate::types::TrieChar;
use vstd::prelude::*;
use vstd::set_lib::lemma_len_subset;

verus! {

/// Whether a string leads to a separate node.
pub open spec fn is_leaf_path(c: Seq<DACell>, v: Seq<TrieChar>) -> bool {
    reach(c, v) matches Some(x) && c[x].base < 0
}

/// Every node but the root that is not separate has an edge.
pub open spec fn no_dead_ends(c: Seq<DACell>) -> bool {
    forall|x: int| #[trigger] is_node(c, x) && x != 2 && c[x].base >= 0 ==> spec_has_children(c, x)
}

/// The nodes on the way of the first `i` symbols of `u`.
pub open spec fn path_nodes(c: Seq<DACell>, u: Seq<TrieChar>, i: int) -> Set<int>
    decreases i,
{
    if i <= 0 {
        set![2int]
    } else {
        path_nodes(c, u, i - 1).insert(reach(c, u.take(i)).unwrap())
    }
}

/// The nodes on a way are as many as its symbols and one more.
pub proof fn lemma_path_nodes(c: Seq<DACell>, u: Seq<TrieChar>, i: int)
    requires
        da_wf(c),
        reach(c, u) is Some,
        0 <= i <= u.len(),
    ensures
        path_nodes(c, u, i).finite(),
        path_nodes(c, u, i).len() == i + 1,
        path_nodes(c, u, i).subset_of(node_set(c)),
        forall|x: int|
            path_nodes(c, u, i).contains(x) ==> exists|j: int|
                0 <= j <= i && #[trigger] reach(c, u.take(j)) == Some(x),
    decreases i,
{
    assert(is_node(c, 2));
    if i <= 0 {
        assert(u.take(0) =~= Seq::<TrieChar>::empty());
        assert(reach(c, u.take(0)) == Some(2int));
    } else {
        lemma_path_nodes(c, u, i - 1);
        lemma_reach_prefix(c, u, i);
        let x = reach(c, u.take(i)).unwrap();
        lemma_reach_is_node(c, u.take(i));
        let before = path_nodes(c, u, i - 1);
        if before.contains(x) {
            let j = choose|j: int| 0 <= j <= i - 1 && #[trigger] reach(c, u.take(j)) == Some(x);
            lemma_reach_unique(c, u.take(i), u.take(j));
            assert(u.take(i).len() == i && u.take(j).len() == j);
        }
        assert forall|y: int| path_nodes(c, u, i).contains(y) implies exists|j: int|
            0 <= j <= i && #[trigger] reach(c, u.take(j)) == Some(y) by {
            if y == x {
                assert(reach(c, u.take(i)) == Some(y));
            } else {
                assert(before.contains(y));
                let j = choose|j: int| 0 <= j <= i - 1 && #[trigger] reach(c, u.take(j)) == Some(y);
                assert(reach(c, u.take(j)) == Some(y));
            }
        }
    }
}

/// A string that leads to a node has fewer symbols than there are cells.
pub proof fn lemma_path_short(c: Seq<DACell>, u: Seq<TrieChar>)
    requires
        da_wf(c),
        reach(c, u) is Some,
    ensures
        u.len() < c.len(),
{
    lemma_path_nodes(c, u, u.len() as int);
    lemma_node_set_finite(c);
    lemma_len_subset(path_nodes(c, u, u.len() as int), node_set(c));
}

/// Going down from a node that has an edge, or is separate, comes to a
/// separate node, with fuel for the way.
pub proof fn lemma_first_separate_found(c: Seq<DACell>, s: int, fuel: nat, u: Seq<TrieChar>)
    requires
        da_wf(c),
        no_dead_ends(c),
        reach(c, u) == Some(s),
        fuel + u.len() >= c.len(),
        c[s].base < 0 || spec_has_children(c, s),
    ensures
        spec_first_separate(c, s, fuel).0 is Some,
    decreases fuel,
{
    lemma_reach_is_node(c, u);
    lemma_path_short(c, u);
    if c[s].base >= 0 {
        let l = first_child_from(c, s, 0);
        lemma_first_child_from(c, s, 0);
        let ch = choose|ch: TrieChar| spec_walk(c, s, ch) is Some;
        assert(l <= ch);
        let t = c[s].base + l;
        lemma_child_is_node(c, s, t);
        assert(u.push(l as TrieChar).drop_last() =~= u);
        assert(reach(c, u.push(l as TrieChar)) == Some(t));
        lemma_first_separate_found(c, t, (fuel - 1) as nat, u.push(l as TrieChar));
    }
}

/// The separate node that going down from a node comes to has the least
/// path of all separate nodes under that node.
pub proof fn lemma_first_separate_least(
    c: Seq<DACell>,
    s: int,
    fuel: nat,
    u: Seq<TrieChar>,
    v: Seq<TrieChar>,
)
    requires
        da_wf(c),
        no_dead_ends(c),
        reach(c, u) == Some(s),
        fuel + u.len() >= c.len(),
        is_leaf_path(c, v),
        is_prefix(u, v),
    ensures
        spec_first_separate(c, s, fuel).0 is Some,
        u + spec_first_separate(c, s, fuel).1 == v || symbols_before(
            u + spec_first_separate(c, s, fuel).1,
            v,
        ),
    decreases fuel,
{
    let m = u.len() as int;
    lemma_reach_is_node(c, u);
    lemma_path_short(c, u);
    if c[s].base < 0 {
        assert(u + Seq::<TrieChar>::empty() =~= u);
        if v.len() > m {
            lemma_reach_prefix(c, v, m);
        }
        assert(v =~= v.take(m));
    } else {
        assert(v.len() > m) by {
            if v.len() == m {
                assert(v =~= v.take(m));
            }
        }
        lemma_reach_prefix(c, v, m);
        lemma_reach_prefix(c, v, m + 1);
        let lv = v[m];
        assert(spec_walk(c, s, lv) is Some);
        let l = first_child_from(c, s, 0);
        lemma_first_child_from(c, s, 0);
        assert(l <= lv);
        let t = c[s].base + l;
        lemma_child_is_node(c, s, t);
        let down = u.push(l as TrieChar);
        assert(down.drop_last() =~= u);
        assert(reach(c, down) == Some(t));
        let rest = spec_first_separate(c, t, (fuel - 1) as nat).1;
        assert(down + rest =~= u + (seq![l as TrieChar] + rest));
        if l == lv {
            assert(v.take(m + 1) =~= down);
            lemma_first_separate_least(c, t, (fuel - 1) as nat, down, v);
        } else {
            lemma_first_separate_found(c, t, (fuel - 1) as nat, down);
            let k = down + rest;
            assert(k.take(m) =~= v.take(m));
            assert(k[m] == l);
        }
    }
}

/// The separate node after a node has the least path of all separate nodes
/// whose path comes after the path of that node.
pub proof fn lemma_next_separate_least(
    c: Seq<DACell>,
    sep: int,
    key: Seq<TrieChar>,
    fuel: nat,
    v: Seq<TrieChar>,
)
    requires
        da_wf(c),
        no_dead_ends(c),
        reach(c, key) == Some(sep),
        fuel >= key.len(),
        is_leaf_path(c, v),
        symbols_before(key, v),
    ensures
        spec_next_separate(c, 2, sep, key, fuel).0 is Some,
        spec_next_separate(c, 2, sep, key, fuel).1 == v || symbols_before(
            spec_next_separate(c, 2, sep, key, fuel).1,
            v,
        ),
    decreases fuel,
{
    let j = choose|j: int|
        0 <= j < key.len() && j < v.len() && #[trigger] key.take(j) == v.take(j) && key[j] < v[j];
    let n = key.len() as int;
    lemma_reach_label(c, key);
    lemma_reach_is_node(c, key);
    let up = key.drop_last();
    let parent = c[sep].check as int;
    lemma_reach_is_node(c, up);
    lemma_path_short(c, up);
    let base = c[parent].base as int;
    let label = sep - base;
    assert(label == key.last());
    let l = first_child_from(c, parent, label + 1);
    lemma_first_child_from(c, parent, label + 1);
    assert(cut_last(key) == up);
    let out = spec_next_separate(c, 2, sep, key, fuel);
    if j == n - 1 {
        // the path of `v` leaves the parent by a greater label
        assert(v.take(n - 1) =~= up);
        lemma_reach_prefix(c, v, n - 1);
        lemma_reach_prefix(c, v, n);
        let lv = v[n - 1];
        assert(spec_walk(c, parent, lv) is Some);
        assert(l <= lv);
        let t = base + l;
        lemma_child_is_node(c, parent, t);
        let down = up.push(l as TrieChar);
        assert(down.drop_last() =~= up);
        assert(reach(c, down) == Some(t));
        let rest = spec_first_separate(c, t, c.len()).1;
        assert(out.1 == down + rest);
        if l == lv {
            assert(v.take(n) =~= down);
            lemma_first_separate_least(c, t, c.len(), down, v);
        } else {
            lemma_first_separate_found(c, t, c.len(), down);
            let k = down + rest;
            assert(k.take(n - 1) =~= v.take(n - 1));
            assert(k[n - 1] == l);
        }
    } else {
        // the path of `v` has left the path of `key` above the parent
        assert(up.take(j) =~= key.take(j));
        assert(up[j] == key[j]);
        if l < 256 {
            let t = base + l;
            lemma_child_is_node(c, parent, t);
            let down = up.push(l as TrieChar);
            assert(down.drop_last() =~= up);
            assert(reach(c, down) == Some(t));
            let rest = spec_first_separate(c, t, c.len()).1;
            lemma_first_separate_found(c, t, c.len(), down);
            let k = down + rest;
            assert(out.1 == k);
            assert(k.take(j) =~= up.take(j));
            assert(k[j] == up[j]);
        } else {
            lemma_next_separate_least(c, parent, up, (fuel - 1) as nat, v);
        }
    }
}

} // verus!
