//! The shape of the nodes of a trie: which labels their edges have, and
//! what stands at the end of a path.

use crate::da_spec::{
    branch_inserted, da_wf, free_list_ok, header_ok, is_node, lemma_child_is_node,
    lemma_free_cell_ok, lemma_free_leaf_wf, lemma_node_set_finite, lemma_node_set_shrinks,
    lemma_walk_stable, moved, node_at, node_set, parent_ok, pool_grown, prunable, spec_free_cell,
    spec_has_children, spec_prune_upto, spec_walk,
};
use crate::darray::DACell;
use crate::tail::TailEntry;
use crate::trie_spec::{
    lemma_leaf_base_wf, lemma_no_edge_without_base, lemma_reach_is_node, lemma_walk_after_insert,
    reach, same_but_leaf,
};
use crate::types::{TrieChar, TRIE_CHAR_TERM};
use vstd::prelude::*;

verus! {

/// The label of the edge that leads to the node `x`.
pub open spec fn label_of(c: Seq<DACell>, x: int) -> int {
    x - c[c[x].check as int].base
}

/// The symbols that stand for the characters of an alphabet.
pub ghost struct SymRange {
    /// The least of them.
    pub lo: int,
    /// The greatest of them.
    pub hi: int,
}

/// Whether `s` is the symbol of a character of the alphabet.
pub open spec fn is_symbol(s: int, r: SymRange) -> bool {
    r.lo <= s <= r.hi
}

/// Whether `s` is the terminator or the symbol of a character of the
/// alphabet.
pub open spec fn is_symbol_or_term(s: int, r: SymRange) -> bool {
    s == 0 || is_symbol(s, r)
}

/// Whether every symbol of a suffix is the terminator or the symbol of a
/// character of the alphabet.
pub open spec fn suffix_in_alphabet(sfx: Seq<TrieChar>, n: SymRange) -> bool {
    forall|i: int| 0 <= i < sfx.len() ==> is_symbol_or_term(#[trigger] sfx[i] as int, n)
}

/// The shape of one node of a trie over an alphabet with the symbols `n`.
/// The label of its edge is one of the symbols or the terminator. A
/// separate node has a suffix of such symbols, and the lone terminator as
/// its suffix if the terminator leads to it. A node that is not separate
/// has an edge, and the terminator does not lead to it. Of the root, only
/// the suffix is asked, should it be separate.
pub open spec fn node_shape<T>(c: Seq<DACell>, tl: Seq<TailEntry<T>>, n: SymRange, x: int) -> bool {
    if x == 2 {
        c[2].base < 0 ==> suffix_in_alphabet(tl[-(c[2].base as int)].suffix.unwrap(), n)
    } else if c[x].base < 0 {
        &&& is_symbol_or_term(label_of(c, x), n)
        &&& suffix_in_alphabet(tl[-(c[x].base as int)].suffix.unwrap(), n)
        &&& label_of(c, x) == 0 ==> tl[-(c[x].base as int)].suffix.unwrap() == seq![
            TRIE_CHAR_TERM,
        ]
    } else {
        is_symbol(label_of(c, x), n) && spec_has_children(c, x)
    }
}

/// Every node but `e` has its shape.
pub open spec fn shape_ok_but<T>(c: Seq<DACell>, tl: Seq<TailEntry<T>>, n: SymRange, e: int) -> bool {
    forall|x: int| #[trigger] is_node(c, x) && x != e ==> node_shape(c, tl, n, x)
}

/// Every node has its shape.
pub open spec fn shape_ok<T>(c: Seq<DACell>, tl: Seq<TailEntry<T>>, n: SymRange) -> bool {
    forall|x: int| #[trigger] is_node(c, x) ==> node_shape(c, tl, n, x)
}

/// The node that a string leads to is the root if the string is empty, and
/// has the last symbol of the string as its label if not.
pub proof fn lemma_reach_label(c: Seq<DACell>, u: Seq<TrieChar>)
    requires
        da_wf(c),
        reach(c, u) is Some,
    ensures
        u.len() == 0 <==> reach(c, u) == Some(2int),
        u.len() > 0 ==> label_of(c, reach(c, u).unwrap()) == u.last() && reach(
            c,
            u.drop_last(),
        ) == Some(c[reach(c, u).unwrap()].check as int),
{
    if u.len() > 0 {
        let p = reach(c, u.drop_last()).unwrap();
        let x = reach(c, u).unwrap();
        assert(spec_walk(c, p, u.last()) == Some(x));
        lemma_reach_is_node(c, u.drop_last());
        lemma_child_is_node(c, p, x);
    }
}

/// Growing the pool keeps the shape of the nodes.
pub proof fn lemma_shape_grown<T>(
    c0: Seq<DACell>,
    c1: Seq<DACell>,
    tl: Seq<TailEntry<T>>,
    n: SymRange,
    e: int,
)
    requires
        da_wf(c0),
        header_ok(c1),
        free_list_ok(c1),
        pool_grown(c0, c1),
        shape_ok_but(c0, tl, n, e),
    ensures
        shape_ok_but(c1, tl, n, e),
{
    assert(is_node(c0, 2));
    assert forall|x: int| #[trigger] is_node(c1, x) && x != e implies node_shape(c1, tl, n, x) by {
        assert(is_node(c0, x));
        assert(c1[x] == c0[x]);
        if x != 2 {
            assert(parent_ok(c0, x));
            let p = c0[x].check as int;
            assert(is_node(c0, p));
            assert(c1[p] == c0[p]);
            if c0[x].base >= 0 {
                let ch = choose|ch: TrieChar| spec_walk(c0, x, ch) is Some;
                lemma_walk_stable(c0, c1, x, ch);
            }
        }
    }
}

/// A change of the tail that keeps the suffixes of the entries that
/// separate nodes point at keeps the shape of the nodes.
pub proof fn lemma_shape_tail_change<T>(
    c: Seq<DACell>,
    tl: Seq<TailEntry<T>>,
    tl2: Seq<TailEntry<T>>,
    n: SymRange,
    e: int,
)
    requires
        shape_ok_but(c, tl, n, e),
        forall|x: int|
            #[trigger] is_node(c, x) && x != e && c[x].base < 0 ==> tl2[-(c[x].base as int)].suffix
                == tl[-(c[x].base as int)].suffix,
    ensures
        shape_ok_but(c, tl2, n, e),
{
    assert forall|x: int| #[trigger] is_node(c, x) && x != e implies node_shape(c, tl2, n, x) by {
        assert(node_shape(c, tl, n, x));
    }
}

/// After a branch has been inserted under `s`, every node but the new one
/// has its shape, if every node but `s` had it and the label of `s` allows
/// it an edge; the new node has the label of the branch.
#[verifier::rlimit(80)]
#[verifier::spinoff_prover]
pub proof fn lemma_shape_insert<T>(
    c0: Seq<DACell>,
    c1: Seq<DACell>,
    tl: Seq<TailEntry<T>>,
    n: SymRange,
    s: int,
    ch: TrieChar,
    nd: int,
)
    requires
        da_wf(c0),
        da_wf(c1),
        is_node(c0, s),
        spec_walk(c0, s, ch) is None,
        branch_inserted(c0, c1, s, ch, nd),
        shape_ok_but(c0, tl, n, s),
        s == 2 || is_symbol(label_of(c0, s), n),
        is_symbol_or_term(ch as int, n),
    ensures
        shape_ok_but(c1, tl, n, nd),
        label_of(c1, nd) == ch,
        c1[nd].check == s,
        nd != 2,
{
    let nb = c1[s].base as int;
    let ob = c0[s].base as int;
    assert(is_node(c0, 2));
    lemma_walk_after_insert(c0, c1, s, ch, nd, s, ch);
    assert forall|y: int| #[trigger] is_node(c1, y) && y != nd implies node_shape(c1, tl, n, y) by {
        let x = if c1[y].check == s {
            y - nb + ob
        } else {
            y
        };
        assert(node_at(c0, x) && moved(c0, s, nb, x) == y);
        assert(is_node(c0, x));
        lemma_walk_after_insert(c0, c1, s, ch, nd, x, ch);
        if x == 2 {
            assert(y == 2);
            if s != 2 {
                assert(node_shape(c0, tl, n, 2));
            }
        } else {
            assert(y != 2) by {
                if y == 2 {
                    assert(x == y);
                }
            }
            assert(parent_ok(c0, x));
            let p = c0[x].check as int;
            assert(is_node(c0, p));
            lemma_walk_after_insert(c0, c1, s, ch, nd, p, ch);
            assert(c1[y].check == moved(c0, s, nb, p));
            assert(label_of(c1, y) == label_of(c0, x)) by {
                if p == s {
                } else {
                }
            }
            if x == s {
                assert(spec_walk(c1, s, ch) == Some(nd));
            } else {
                assert(node_shape(c0, tl, n, x));
                if c0[x].base >= 0 {
                    let l = choose|l: TrieChar| spec_walk(c0, x, l) is Some;
                    lemma_walk_after_insert(c0, c1, s, ch, nd, x, l);
                    assert(spec_walk(c1, y, l) is Some);
                }
            }
        }
    }
}

/// Pointing a node that has no edge at a tail entry gives it its shape, if
/// the suffix of the entry suits its label; the other nodes keep theirs.
pub proof fn lemma_shape_link<T>(
    c: Seq<DACell>,
    d: Seq<DACell>,
    tl: Seq<TailEntry<T>>,
    n: SymRange,
    x0: int,
)
    requires
        da_wf(c),
        same_but_leaf(c, d, x0),
        shape_ok_but(c, tl, n, x0),
        d[x0].base < 0,
        suffix_in_alphabet(tl[-(d[x0].base as int)].suffix.unwrap(), n),
        x0 == 2 || (is_symbol_or_term(label_of(c, x0), n) && (label_of(c, x0) == 0 ==> tl[-(
        d[x0].base as int)].suffix.unwrap() == seq![TRIE_CHAR_TERM])),
    ensures
        shape_ok(d, tl, n),
{
    lemma_leaf_base_wf(c, d, x0);
    assert(is_node(c, 2));
    assert forall|x: int| #[trigger] is_node(d, x) implies node_shape(d, tl, n, x) by {
        assert(is_node(c, x));
        if x != 2 {
            assert(parent_ok(c, x));
            let p = c[x].check as int;
            assert(p != x0) by {
                if p == x0 {
                    lemma_child_is_node(c, x0, x);
                    if c[x0].base > 0 {
                        assert(spec_walk(c, x0, (x - c[x0].base) as TrieChar) is Some);
                    }
                }
            }
            assert(label_of(d, x) == label_of(c, x));
        }
        if x != x0 {
            assert(node_shape(c, tl, n, x));
            if x != 2 && c[x].base >= 0 {
                let l = choose|l: TrieChar| spec_walk(c, x, l) is Some;
                let t = c[x].base + l;
                assert(d[t].check == c[t].check);
                assert(spec_walk(d, x, l) is Some);
            }
        }
    }
}

/// Taking the tail entry from a separate node leaves the other nodes their
/// shape.
pub proof fn lemma_shape_unlink<T>(
    c: Seq<DACell>,
    d: Seq<DACell>,
    tl: Seq<TailEntry<T>>,
    n: SymRange,
    x0: int,
)
    requires
        da_wf(c),
        same_but_leaf(c, d, x0),
        shape_ok(c, tl, n),
    ensures
        shape_ok_but(d, tl, n, x0),
        x0 != 2 ==> label_of(d, x0) == label_of(c, x0) && is_symbol_or_term(label_of(c, x0), n),
{
    lemma_leaf_base_wf(c, d, x0);
    assert(is_node(c, 2));
    assert(node_shape(c, tl, n, x0));
    assert forall|x: int| #[trigger] is_node(d, x) && x != x0 implies node_shape(d, tl, n, x) by {
        assert(is_node(c, x));
        assert(node_shape(c, tl, n, x));
        if x != 2 {
            assert(parent_ok(c, x));
            let p = c[x].check as int;
            assert(p != x0) by {
                if p == x0 {
                    lemma_child_is_node(c, x0, x);
                    if c[x0].base > 0 {
                        assert(spec_walk(c, x0, (x - c[x0].base) as TrieChar) is Some);
                    }
                }
            }
            if c[x].base >= 0 {
                let l = choose|l: TrieChar| spec_walk(c, x, l) is Some;
                let t = c[x].base + l;
                assert(d[t].check == c[t].check);
                assert(spec_walk(d, x, l) is Some);
            }
        }
    }
    if x0 != 2 {
        assert(parent_ok(c, x0));
    }
}

/// Freeing a node that has no edge leaves every node but its parent its
/// shape; the parent keeps its label.
pub proof fn lemma_shape_free<T>(
    c: Seq<DACell>,
    tl: Seq<TailEntry<T>>,
    n: SymRange,
    s: int,
)
    requires
        da_wf(c),
        3 <= s < c.len(),
        c[s].check >= 0,
        c[s].base >= 0,
        !spec_has_children(c, s),
        shape_ok_but(c, tl, n, s),
    ensures
        shape_ok_but(spec_free_cell(c, s), tl, n, c[s].check as int),
        c[s].check != 2 ==> label_of(spec_free_cell(c, s), c[s].check as int) == label_of(
            c,
            c[s].check as int,
        ) && is_symbol(label_of(c, c[s].check as int), n),
{
    let d = spec_free_cell(c, s);
    let q = c[s].check as int;
    lemma_free_leaf_wf(c, s);
    lemma_free_cell_ok(c, s);
    assert(is_node(c, 2));
    assert(is_node(c, s));
    assert(parent_ok(c, s));
    assert(is_node(c, q));
    assert(d[q] == c[q]);
    if q != 2 {
        assert(node_shape(c, tl, n, q));
        assert(parent_ok(c, q));
        let pq = c[q].check as int;
        assert(is_node(c, pq));
        assert(d[pq] == c[pq]);
    }
    assert forall|x: int| #[trigger] is_node(d, x) && x != q implies node_shape(d, tl, n, x) by {
        assert(is_node(c, x));
        assert(d[x] == c[x]);
        assert(node_shape(c, tl, n, x));
        if x != 2 {
            assert(parent_ok(c, x));
            let p = c[x].check as int;
            assert(is_node(c, p));
            assert(d[p] == c[p]);
            if c[x].base >= 0 {
                let l = choose|l: TrieChar| spec_walk(c, x, l) is Some;
                let t = c[x].base + l;
                lemma_child_is_node(c, x, t);
                assert(t != s);
                assert(d[t] == c[t]);
                assert(spec_walk(d, x, l) is Some);
            }
        }
    }
}

/// Pruning from a node whose shape is at stake, with fuel for every node,
/// leaves every node its shape, where pruning stops before `p` or `p` has
/// its shape anyway; where it stops at `p`, every node but `p` has it.
pub proof fn lemma_shape_prune<T>(
    c: Seq<DACell>,
    tl: Seq<TailEntry<T>>,
    n: SymRange,
    p: int,
    s: int,
    fuel: nat,
)
    requires
        da_wf(c),
        is_node(c, s),
        shape_ok_but(c, tl, n, s),
        c[s].base >= 0,
        s == 2 || !spec_has_children(c, s) || is_symbol(label_of(c, s), n),
        node_set(c).len() <= fuel,
    ensures
        shape_ok_but(spec_prune_upto(c, p, s, fuel), tl, n, p),
        p == 2 ==> shape_ok(spec_prune_upto(c, p, s, fuel), tl, n),
    decreases fuel,
{
    assert(is_node(c, 2));
    lemma_node_set_finite(c);
    assert(node_set(c).contains(s));
    assert(fuel > 0) by {
        if node_set(c).len() == 0 {
            assert(node_set(c) =~= Set::<int>::empty());
        }
    }
    if prunable(c, p, s) {
        let d = spec_free_cell(c, s);
        let q = c[s].check as int;
        lemma_free_leaf_wf(c, s);
        lemma_shape_free(c, tl, n, s);
        lemma_node_set_shrinks(c, d, s);
        assert(parent_ok(c, s));
        assert(is_node(c, q));
        assert(is_node(d, q));
        assert(d[q] == c[q]);
        assert(c[q].base > 0);
        lemma_shape_prune(d, tl, n, p, q, (fuel - 1) as nat);
    } else {
        // pruning stops here: at `p`, at the root, or at a node with an edge
        if s != p && s != 2 {
            assert(spec_has_children(c, s));
            assert(node_shape(c, tl, n, s));
        }
        assert forall|x: int| #[trigger] is_node(c, x) && x != p implies node_shape(c, tl, n, x) by {
            if x == s {
                if s == 2 {
                    assert(c[2].base >= 0);
                }
            }
        }
        if p == 2 {
            assert forall|x: int| #[trigger] is_node(c, x) implies node_shape(c, tl, n, x) by {
                if x == 2 {
                    if s != 2 {
                        assert(node_shape(c, tl, n, 2));
                    }
                }
            }
        }
    }
}

/// Pruning from a node that has no edge up to the root, with fuel for
/// every node, leaves every node its shape.
pub proof fn lemma_shape_prune_leaf<T>(
    c: Seq<DACell>,
    tl: Seq<TailEntry<T>>,
    n: SymRange,
    s: int,
    fuel: nat,
)
    requires
        da_wf(c),
        is_node(c, s),
        shape_ok_but(c, tl, n, s),
        c[s].base == 0,
        node_set(c).len() <= fuel,
    ensures
        shape_ok(spec_prune_upto(c, 2, s, fuel), tl, n),
{
    lemma_no_edge_without_base(c, s, 0);
    assert(!spec_has_children(c, s)) by {
        if spec_has_children(c, s) {
            let ch = choose|ch: TrieChar| spec_walk(c, s, ch) is Some;
            lemma_no_edge_without_base(c, s, ch);
        }
    }
    lemma_shape_prune(c, tl, n, 2, s, fuel);
}

} // verus!
