//! What the cells and the tail entries of a trie say together: which node a
//! string of symbols leads to, and which tail entry holds a key.

use crate::da_spec::{
    first_child_from, lemma_first_child_from, spec_first_separate, spec_next_separate,
    branch_inserted, da_wf, free_list_ok, header_ok, is_free, is_node, lemma_child_is_node,
    lemma_free_cell_ok, lemma_free_leaf_wf, lemma_free_list_frame, lemma_node_set_finite,
    lemma_node_set_shrinks, lemma_prune_wf, node_set, lemma_walk_stable, moved, node_at,
    on_free_list, parent_ok, pool_grown, prunable, spec_free_cell, spec_has_children,
    spec_prune_upto, spec_walk,
};
use crate::darray::DACell;
use crate::tail::{is_word, tail_used, TailEntry};
use crate::types::{TrieChar, TRIE_CHAR_TERM};
use vstd::prelude::*;

verus! {

/// The node that the symbols of `u` lead to from the root, through nodes
/// that are not separate.
pub open spec fn reach(c: Seq<DACell>, u: Seq<TrieChar>) -> Option<int>
    decreases u.len(),
{
    if u.len() == 0 {
        Some(2int)
    } else {
        match reach(c, u.drop_last()) {
            Some(x) => if c[x].base < 0 {
                None
            } else {
                spec_walk(c, x, u.last())
            },
            None => None,
        }
    }
}

/// Whether the suffix `sfx` is what stands for the word `w` from its
/// position `k` on: the rest of the word, or the lone terminator once the
/// whole word has been read.
pub open spec fn tail_matches(sfx: Option<Seq<TrieChar>>, w: Seq<TrieChar>, k: int) -> bool {
    sfx == Some(
        if k >= w.len() {
            seq![TRIE_CHAR_TERM]
        } else {
            w.skip(k)
        },
    )
}

/// The tail entry that holds the word `w`, looking from its position `k`
/// on: at the first separate node on the path of `w`, the entry it points
/// at, if that entry holds the rest of `w`.
pub open spec fn find_from<T>(c: Seq<DACell>, tl: Seq<TailEntry<T>>, w: Seq<TrieChar>, k: int) -> Option<
    int,
>
    decreases w.len() - k,
{
    match reach(c, w.take(k)) {
        None => None,
        Some(x) => if c[x].base < 0 {
            if tail_used(tl, -c[x].base) && tail_matches(tl[-c[x].base].suffix, w, k) {
                Some(-c[x].base)
            } else {
                None
            }
        } else if k >= w.len() {
            None
        } else {
            find_from(c, tl, w, k + 1)
        },
    }
}

/// The tail entry that holds the word `w`.
pub open spec fn find<T>(c: Seq<DACell>, tl: Seq<TailEntry<T>>, w: Seq<TrieChar>) -> Option<int> {
    find_from(c, tl, w, 0)
}

/// Whether `u` is the beginning of `w`.
pub open spec fn is_prefix(u: Seq<TrieChar>, w: Seq<TrieChar>) -> bool {
    u.len() <= w.len() && w.take(u.len() as int) == u
}

/// A node that symbols lead to is a node.
pub proof fn lemma_reach_is_node(c: Seq<DACell>, u: Seq<TrieChar>)
    requires
        da_wf(c),
    ensures
        reach(c, u) matches Some(x) ==> is_node(c, x),
    decreases u.len(),
{
    assert(is_node(c, 2));
    if u.len() > 0 {
        lemma_reach_is_node(c, u.drop_last());
        if reach(c, u) is Some {
            let p = reach(c, u.drop_last()).unwrap();
            let t = reach(c, u).unwrap();
            lemma_child_is_node(c, p, t);
        }
    }
}

/// A string that leads somewhere leads somewhere from each of its
/// beginnings, through nodes that are not separate.
pub proof fn lemma_reach_prefix(c: Seq<DACell>, u: Seq<TrieChar>, k: int)
    requires
        0 <= k <= u.len(),
        reach(c, u) is Some,
    ensures
        reach(c, u.take(k)) is Some,
        k < u.len() ==> c[reach(c, u.take(k)).unwrap()].base >= 0,
        k < u.len() ==> reach(c, u.take(k + 1)) == spec_walk(
            c,
            reach(c, u.take(k)).unwrap(),
            u[k],
        ),
    decreases u.len() - k,
{
    if k == u.len() {
        assert(u.take(k) =~= u);
    } else {
        lemma_reach_prefix(c, u, k + 1);
        assert(u.take(k + 1).drop_last() =~= u.take(k));
        assert(u.take(k + 1).last() == u[k]);
    }
}

/// Two strings that lead to the same node are the same string.
pub proof fn lemma_reach_unique(c: Seq<DACell>, u1: Seq<TrieChar>, u2: Seq<TrieChar>)
    requires
        da_wf(c),
        reach(c, u1) is Some,
        reach(c, u1) == reach(c, u2),
    ensures
        u1 == u2,
    decreases u1.len(),
{
    if u1.len() == 0 {
        if u2.len() > 0 {
            let p = reach(c, u2.drop_last()).unwrap();
            assert(spec_walk(c, p, u2.last()) == Some(2int));
            assert(c[2].check == p);
        }
        assert(u1 =~= u2);
    } else if u2.len() == 0 {
        let p = reach(c, u1.drop_last()).unwrap();
        assert(spec_walk(c, p, u1.last()) == Some(2int));
        assert(c[2].check == p);
    } else {
        let pa = reach(c, u1.drop_last()).unwrap();
        let pb = reach(c, u2.drop_last()).unwrap();
        let t = reach(c, u1).unwrap();
        assert(c[t].check == pa && c[t].check == pb);
        assert(u1.last() == u2.last());
        lemma_reach_unique(c, u1.drop_last(), u2.drop_last());
        assert(u1 =~= u1.drop_last().push(u1.last()));
        assert(u2 =~= u2.drop_last().push(u2.last()));
    }
}

/// A word passes through the node that `u` leads to exactly when it begins
/// with `u`.
pub proof fn lemma_passes_iff_prefix(c: Seq<DACell>, u: Seq<TrieChar>, w: Seq<TrieChar>, k: int)
    requires
        da_wf(c),
        reach(c, u) is Some,
        0 <= k <= w.len(),
    ensures
        reach(c, w.take(k)) == reach(c, u) <==> (k == u.len() && is_prefix(u, w)),
{
    if reach(c, w.take(k)) == reach(c, u) {
        lemma_reach_unique(c, u, w.take(k));
    }
    if k == u.len() && is_prefix(u, w) {
    }
}

/// No edge leaves a node whose BASE is not positive.
pub proof fn lemma_no_edge_without_base(c: Seq<DACell>, x: int, l: TrieChar)
    requires
        da_wf(c),
        is_node(c, x),
        c[x].base <= 0,
    ensures
        spec_walk(c, x, l) is None,
        forall|t: int| 0 <= t < c.len() ==> (#[trigger] c[t]).check != x,
{
    assert forall|t: int| 0 <= t < c.len() implies (#[trigger] c[t]).check != x by {
        if c[t].check == x {
            lemma_child_is_node(c, x, t);
        }
    }
}

/// Inserting a branch sends two nodes to two cells.
pub proof fn lemma_moved_injective(
    c0: Seq<DACell>,
    c1: Seq<DACell>,
    s: int,
    ch: TrieChar,
    nd: int,
    x1: int,
    x2: int,
)
    requires
        branch_inserted(c0, c1, s, ch, nd),
        is_node(c0, x1),
        is_node(c0, x2),
        moved(c0, s, c1[s].base as int, x1) == moved(c0, s, c1[s].base as int, x2),
    ensures
        x1 == x2,
{
}

/// The edges after a branch has been inserted: those there were, between
/// the cells the nodes have moved to, and the new one.
#[verifier::rlimit(60)]
#[verifier::spinoff_prover]
pub proof fn lemma_walk_after_insert(
    c0: Seq<DACell>,
    c1: Seq<DACell>,
    s: int,
    ch: TrieChar,
    nd: int,
    x: int,
    l: TrieChar,
)
    requires
        da_wf(c0),
        da_wf(c1),
        is_node(c0, s),
        is_node(c0, x),
        spec_walk(c0, s, ch) is None,
        branch_inserted(c0, c1, s, ch, nd),
    ensures
        spec_walk(c1, moved(c0, s, c1[s].base as int, x), l) == (if x == s && l == ch {
            Some(nd)
        } else {
            match spec_walk(c0, x, l) {
                Some(t) => Some(moved(c0, s, c1[s].base as int, t)),
                None => None,
            }
        }),
        x != s ==> c1[moved(c0, s, c1[s].base as int, x)].base == c0[x].base,
        moved(c0, s, c1[s].base as int, s) == s,
        moved(c0, s, c1[s].base as int, 2) == 2,
{
    let nb = c1[s].base as int;
    let ob = c0[s].base as int;
    let xm = moved(c0, s, nb, x);
    assert(is_node(c0, 2));
    assert(moved(c0, s, nb, s) == s) by {
        if s != 2 {
            assert(parent_ok(c0, s));
        }
    }
    assert(node_at(c1, xm));
    assert(is_node(c1, xm));
    if spec_walk(c0, x, l) is Some {
        let t = spec_walk(c0, x, l).unwrap();
        lemma_child_is_node(c0, x, t);
        let y = moved(c0, s, nb, t);
        assert(node_at(c1, y));
        assert(c1[y].check == moved(c0, s, nb, c0[t].check as int));
        assert(y == c1[xm].base + l);
    }
    if spec_walk(c1, xm, l) is Some {
        let y = spec_walk(c1, xm, l).unwrap();
        lemma_child_is_node(c1, xm, y);
        if y == nd {
            assert(c1[nd].check == s);
            lemma_moved_injective(c0, c1, s, ch, nd, x, s);
        } else {
            let t = if c1[y].check == s {
                y - nb + ob
            } else {
                y
            };
            assert(node_at(c0, t) && moved(c0, s, nb, t) == y);
            assert(is_node(c0, t));
            assert(t != 2) by {
                if t == 2 {
                    assert(c1[2].check == 0);
                }
            }
            assert(parent_ok(c0, t));
            let p = c0[t].check as int;
            assert(is_node(c0, p));
            assert(c1[y].check == moved(c0, s, nb, p));
            lemma_moved_injective(c0, c1, s, ch, nd, x, p);
            assert(spec_walk(c0, x, l) == Some(t));
        }
    }
}

/// Where strings lead after a branch has been inserted under `s`, which `u`
/// leads to: where they led, at the cells the nodes have moved to, and `u`
/// with the new label to the new node.
pub proof fn lemma_reach_after_insert(
    c0: Seq<DACell>,
    c1: Seq<DACell>,
    s: int,
    ch: TrieChar,
    nd: int,
    u: Seq<TrieChar>,
    v: Seq<TrieChar>,
)
    requires
        da_wf(c0),
        da_wf(c1),
        is_node(c0, s),
        spec_walk(c0, s, ch) is None,
        branch_inserted(c0, c1, s, ch, nd),
        reach(c0, u) == Some(s),
    ensures
        reach(c1, v) == (if v == u.push(ch) {
            Some(nd)
        } else {
            match reach(c0, v) {
                Some(x) => Some(moved(c0, s, c1[s].base as int, x)),
                None => None,
            }
        }),
    decreases v.len(),
{
    let nb = c1[s].base as int;
    lemma_walk_after_insert(c0, c1, s, ch, nd, s, ch);
    if v.len() > 0 {
        let vp = v.drop_last();
        let l = v.last();
        lemma_reach_after_insert(c0, c1, s, ch, nd, u, vp);
        lemma_reach_is_node(c0, vp);
        assert(v =~= vp.push(l));
        if vp == u.push(ch) {
            // through the new node, which no edge leaves
            assert(reach(c1, vp) == Some(nd));
            assert(is_node(c1, nd));
            lemma_no_edge_without_base(c1, nd, l);
            assert(u.push(ch).drop_last() =~= u);
            assert(reach(c0, vp) is None) by {
                if c0[s].base >= 0 {
                } else {
                }
            }
        } else {
            match reach(c0, vp) {
                None => {
                    assert(reach(c1, vp) is None);
                    if v == u.push(ch) {
                        assert(vp =~= u);
                    }
                },
                Some(x) => {
                    lemma_walk_after_insert(c0, c1, s, ch, nd, x, l);
                    if x == s {
                        lemma_reach_unique(c0, u, vp);
                        if c0[s].base < 0 {
                            lemma_no_edge_without_base(c0, s, l);
                        }
                    } else {
                        if v == u.push(ch) {
                            assert(vp =~= u);
                        }
                    }
                },
            }
        }
    } else {
        assert(u.push(ch).len() > 0);
    }
}

/// Growing the pool changes nothing of where strings lead.
pub proof fn lemma_reach_grown(c0: Seq<DACell>, c1: Seq<DACell>, v: Seq<TrieChar>)
    requires
        da_wf(c0),
        header_ok(c1),
        free_list_ok(c1),
        pool_grown(c0, c1),
    ensures
        reach(c1, v) == reach(c0, v),
        reach(c0, v) matches Some(x) ==> c1[x] == c0[x],
    decreases v.len(),
{
    assert(is_node(c0, 2));
    if v.len() > 0 {
        lemma_reach_grown(c0, c1, v.drop_last());
        lemma_reach_is_node(c0, v.drop_last());
        if reach(c0, v.drop_last()) is Some {
            lemma_walk_stable(c0, c1, reach(c0, v.drop_last()).unwrap(), v.last());
        }
    }
    lemma_reach_is_node(c0, v);
}

/// Whether two arrays of cells hold the same nodes in the same cells but
/// for `x0`, which no edge leaves in either and which keeps its CHECK.
pub open spec fn same_but_leaf(c: Seq<DACell>, d: Seq<DACell>, x0: int) -> bool {
    &&& d.len() == c.len()
    &&& is_node(c, x0)
    &&& d[x0].check == c[x0].check
    &&& c[x0].base <= 0 || forall|l: TrieChar| spec_walk(c, x0, l) is None
    &&& d[x0].base <= 0
    &&& forall|t: int| 0 <= t < c.len() && t != x0 ==> #[trigger] d[t] == c[t]
}

/// Changing the BASE of a node that no edge leaves, to one that is not
/// positive, changes nothing of where strings lead.
pub proof fn lemma_reach_leaf_base(c: Seq<DACell>, d: Seq<DACell>, x0: int, v: Seq<TrieChar>)
    requires
        da_wf(c),
        same_but_leaf(c, d, x0),
    ensures
        reach(d, v) == reach(c, v),
    decreases v.len(),
{
    if v.len() > 0 {
        let vp = v.drop_last();
        let l = v.last();
        lemma_reach_leaf_base(c, d, x0, vp);
        lemma_reach_is_node(c, vp);
        if reach(c, vp) is Some {
            let x = reach(c, vp).unwrap();
            if x == x0 {
                if c[x0].base <= 0 {
                    lemma_no_edge_without_base(c, x0, l);
                }
                if d[x0].base == 0 {
                    let t = l as int;
                    if 0 <= t < d.len() && d[t].check == x0 {
                        assert(c[t].check == x0);
                        lemma_child_is_node(c, x0, t);
                        if c[x0].base > 0 {
                            assert(spec_walk(c, x0, (t - c[x0].base) as TrieChar) is Some);
                        }
                    }
                }
            } else {
                let t = c[x].base + l;
                if 0 <= t < c.len() && t == x0 {
                    assert(d[t].check == c[t].check);
                }
            }
        }
    }
}

/// Keeping the tree in order when the BASE of a node that no edge leaves
/// changes to one that is not positive.
pub proof fn lemma_leaf_base_wf(c: Seq<DACell>, d: Seq<DACell>, x0: int)
    requires
        da_wf(c),
        same_but_leaf(c, d, x0),
    ensures
        da_wf(d),
        forall|t: int| is_node(d, t) <==> is_node(c, t),
{
    assert(on_free_list(c, 1));
    assert forall|i: int| #[trigger] on_free_list(c, i) implies d[i] == c[i] by {}
    lemma_free_list_frame(c, d);
    assert(is_node(c, 2));
    assert forall|t: int| #[trigger] is_node(d, t) && t != 2 implies parent_ok(d, t) by {
        assert(is_node(c, t));
        assert(parent_ok(c, t));
        let p = c[t].check as int;
        if p == x0 {
            lemma_child_is_node(c, x0, t);
            if c[x0].base > 0 {
                assert(spec_walk(c, x0, (t - c[x0].base) as TrieChar) is Some);
            }
        }
    }
    assert forall|t: int| #[trigger] is_node(d, t) implies d[t].base <= d.len() by {
        assert(is_node(c, t));
    }
}

/// Where strings lead after the cell of a node that no edge leaves has been
/// freed: where they led, but to that node.
pub proof fn lemma_reach_after_free(c: Seq<DACell>, s: int, v: Seq<TrieChar>)
    requires
        da_wf(c),
        3 <= s < c.len(),
        c[s].check >= 0,
        !spec_has_children(c, s),
    ensures
        reach(spec_free_cell(c, s), v) == (if reach(c, v) == Some(s) {
            None
        } else {
            reach(c, v)
        }),
    decreases v.len(),
{
    let d = spec_free_cell(c, s);
    lemma_free_leaf_wf(c, s);
    lemma_free_cell_ok(c, s);
    assert(is_node(c, s));
    assert(is_free(d, s));
    if v.len() > 0 {
        let vp = v.drop_last();
        let l = v.last();
        lemma_reach_after_free(c, s, vp);
        lemma_reach_is_node(c, vp);
        if reach(c, vp) is Some {
            let x = reach(c, vp).unwrap();
            if x == s {
                if c[s].base >= 0 {
                    assert(spec_walk(c, s, l) is None);
                }
            } else {
                assert(d[x] == c[x]);
                let t = c[x].base + l;
                if 0 <= t < c.len() && t != s {
                    if c[t].check == x {
                        lemma_child_is_node(c, x, t);
                        assert(d[t] == c[t]);
                    }
                    if d[t].check == x {
                        lemma_child_is_node(d, x, t);
                        assert(is_node(c, t));
                        assert(d[t] == c[t]);
                    }
                }
            }
        }
    }
}

/// Whether the word `w` ends at its position `k` in a node that holds
/// nothing: one that is not separate, with no edge for the next symbol.
pub open spec fn dead_end(c: Seq<DACell>, w: Seq<TrieChar>, k: int) -> bool {
    &&& reach(c, w.take(k)) matches Some(x) && c[x].base >= 0
    &&& k < w.len() ==> reach(c, w.take(k + 1)) is None
}

/// Whether looking for `w` goes the same way at position `k` in two tries:
/// in both the path has ended, or in both it stands at a node that is
/// separate in both or in neither, and a separate one points at the same
/// tail entry with the same suffix.
pub open spec fn step_agrees<T>(
    c: Seq<DACell>,
    tl: Seq<TailEntry<T>>,
    c2: Seq<DACell>,
    tl2: Seq<TailEntry<T>>,
    w: Seq<TrieChar>,
    k: int,
) -> bool {
    match (reach(c, w.take(k)), reach(c2, w.take(k))) {
        (None, None) => true,
        (Some(x), Some(y)) => {
            &&& c[x].base < 0 <==> c2[y].base < 0
            &&& c[x].base < 0 ==> {
                &&& c[x].base == c2[y].base
                &&& tail_used(tl, -c[x].base) == tail_used(tl2, -c[x].base)
                &&& tl[-c[x].base].suffix == tl2[-c[x].base].suffix
            }
        },
        (None, Some(_)) => dead_end(c2, w, k),
        (Some(_), None) => dead_end(c, w, k),
    }
}

/// Nothing is found from a dead end on.
pub proof fn lemma_dead_end<T>(c: Seq<DACell>, tl: Seq<TailEntry<T>>, w: Seq<TrieChar>, k: int)
    requires
        0 <= k <= w.len(),
        dead_end(c, w, k),
    ensures
        find_from(c, tl, w, k) is None,
{
    if k < w.len() {
        assert(find_from(c, tl, w, k + 1) is None);
    }
}

/// Once the path of a word has ended, nothing is found.
pub proof fn lemma_find_none<T>(c: Seq<DACell>, tl: Seq<TailEntry<T>>, w: Seq<TrieChar>, k: int)
    requires
        0 <= k <= w.len(),
        reach(c, w.take(k)) is None,
    ensures
        find_from(c, tl, w, k) is None,
        k < w.len() ==> reach(c, w.take(k + 1)) is None,
{
    if k < w.len() {
        assert(w.take(k + 1).drop_last() =~= w.take(k));
    }
}

/// Two tries in which looking for `w` goes the same way from `k0` on find
/// the same.
pub proof fn lemma_find_congruent<T>(
    c: Seq<DACell>,
    tl: Seq<TailEntry<T>>,
    c2: Seq<DACell>,
    tl2: Seq<TailEntry<T>>,
    w: Seq<TrieChar>,
    k0: int,
)
    requires
        0 <= k0 <= w.len(),
        forall|k: int| k0 <= k <= w.len() ==> #[trigger] step_agrees(c, tl, c2, tl2, w, k),
    ensures
        find_from(c2, tl2, w, k0) == find_from(c, tl, w, k0),
    decreases w.len() - k0,
{
    assert(step_agrees(c, tl, c2, tl2, w, k0));
    if k0 < w.len() {
        lemma_find_congruent(c, tl, c2, tl2, w, k0 + 1);
    }
    match (reach(c, w.take(k0)), reach(c2, w.take(k0))) {
        (None, Some(_)) => {
            lemma_dead_end(c2, tl2, w, k0);
        },
        (Some(_), None) => {
            lemma_dead_end(c, tl, w, k0);
        },
        _ => {},
    }
}

/// Looking for a word may start where its path is known to have come.
pub proof fn lemma_find_skip<T>(
    c: Seq<DACell>,
    tl: Seq<TailEntry<T>>,
    w: Seq<TrieChar>,
    k0: int,
    m: int,
)
    requires
        0 <= k0 <= m <= w.len(),
        reach(c, w.take(m)) is Some,
    ensures
        find_from(c, tl, w, k0) == find_from(c, tl, w, m),
    decreases m - k0,
{
    if k0 < m {
        lemma_reach_prefix(c, w.take(m), k0);
        assert(w.take(m).take(k0) =~= w.take(k0));
        lemma_find_skip(c, tl, w, k0 + 1, m);
    }
}

/// Where a found word was found: at a separate node on its path, whose
/// tail entry holds the rest of the word.
pub proof fn lemma_find_witness<T>(
    c: Seq<DACell>,
    tl: Seq<TailEntry<T>>,
    w: Seq<TrieChar>,
    k0: int,
) -> (k: int)
    requires
        0 <= k0 <= w.len(),
        find_from(c, tl, w, k0) is Some,
    ensures
        k0 <= k <= w.len(),
        reach(c, w.take(k)) is Some,
        c[reach(c, w.take(k)).unwrap()].base < 0,
        find_from(c, tl, w, k0) == Some(-c[reach(c, w.take(k)).unwrap()].base as int),
        tail_used(tl, -c[reach(c, w.take(k)).unwrap()].base),
        tail_matches(tl[-c[reach(c, w.take(k)).unwrap()].base].suffix, w, k),
    decreases w.len() - k0,
{
    let x = reach(c, w.take(k0)).unwrap();
    if c[x].base < 0 {
        k0
    } else {
        lemma_find_witness(c, tl, w, k0 + 1)
    }
}

/// What two words have after the same position is the same when the same
/// suffix stands for it.
pub proof fn lemma_tail_matches_unique(
    sfx: Option<Seq<TrieChar>>,
    w1: Seq<TrieChar>,
    w2: Seq<TrieChar>,
    k: int,
)
    requires
        is_word(w1),
        is_word(w2),
        0 <= k <= w1.len(),
        k <= w2.len(),
        w1.take(k) == w2.take(k),
        tail_matches(sfx, w1, k),
        tail_matches(sfx, w2, k),
    ensures
        w1 == w2,
{
    if k < w1.len() && k < w2.len() {
        assert(w1.skip(k) == w2.skip(k));
        assert(w1 =~= w1.take(k) + w1.skip(k));
        assert(w2 =~= w2.take(k) + w2.skip(k));
    } else if k >= w1.len() && k >= w2.len() {
        assert(w1 =~= w1.take(k));
        assert(w2 =~= w2.take(k));
    } else if k >= w1.len() {
        assert(w2.skip(k) == seq![TRIE_CHAR_TERM]);
        assert(w2.skip(k).len() == 1);
        assert(w1 =~= w1.take(k));
        assert(w2.take(k)[k - 1] == w1[k - 1]);
        assert(w2[k - 1] == TRIE_CHAR_TERM);
    } else {
        assert(w1.skip(k) == seq![TRIE_CHAR_TERM]);
        assert(w1.skip(k).len() == 1);
        assert(w2 =~= w2.take(k));
        assert(w1.take(k)[k - 1] == w2[k - 1]);
        assert(w1[k - 1] == TRIE_CHAR_TERM);
    }
}

/// Separate nodes point at tail entries in use, each at its own.
pub open spec fn leaves_ok<T>(c: Seq<DACell>, tl: Seq<TailEntry<T>>) -> bool {
    &&& forall|x: int|
        #[trigger] is_node(c, x) && c[x].base < 0 ==> tail_used(tl, -c[x].base) && tl[-(c[x].base
            as int)].data is Some
    &&& forall|x: int, y: int|
        #[trigger] is_node(c, x) && #[trigger] is_node(c, y) && c[x].base < 0 && c[x].base
            == c[y].base ==> x == y
}

/// Two words that the same tail entry holds are the same word.
pub proof fn lemma_find_injective<T>(
    c: Seq<DACell>,
    tl: Seq<TailEntry<T>>,
    w1: Seq<TrieChar>,
    w2: Seq<TrieChar>,
)
    requires
        da_wf(c),
        leaves_ok(c, tl),
        is_word(w1),
        is_word(w2),
        find(c, tl, w1) is Some,
        find(c, tl, w1) == find(c, tl, w2),
    ensures
        w1 == w2,
{
    let k1 = lemma_find_witness(c, tl, w1, 0);
    let k2 = lemma_find_witness(c, tl, w2, 0);
    let x1 = reach(c, w1.take(k1)).unwrap();
    let x2 = reach(c, w2.take(k2)).unwrap();
    lemma_reach_is_node(c, w1.take(k1));
    lemma_reach_is_node(c, w2.take(k2));
    assert(x1 == x2);
    lemma_reach_unique(c, w1.take(k1), w2.take(k2));
    assert(w1.take(k1).len() == k1 && w2.take(k2).len() == k2);
    lemma_tail_matches_unique(tl[-c[x1].base].suffix, w1, w2, k1);
}

/// Growing the pool changes nothing of what is found.
pub proof fn lemma_find_grown<T>(
    c0: Seq<DACell>,
    c1: Seq<DACell>,
    tl: Seq<TailEntry<T>>,
    w: Seq<TrieChar>,
)
    requires
        da_wf(c0),
        header_ok(c1),
        free_list_ok(c1),
        pool_grown(c0, c1),
    ensures
        find(c1, tl, w) == find(c0, tl, w),
{
    assert forall|k: int| 0 <= k <= w.len() implies #[trigger] step_agrees(
        c0,
        tl,
        c1,
        tl,
        w,
        k,
    ) by {
        lemma_reach_grown(c0, c1, w.take(k));
    }
    lemma_find_congruent(c0, tl, c1, tl, w, 0);
}

/// Whether two tails are the same to every separate node: the entry it
/// points at is in use in both or in neither, with the same suffix.
pub open spec fn same_for_leaves<T>(
    c: Seq<DACell>,
    tl: Seq<TailEntry<T>>,
    tl2: Seq<TailEntry<T>>,
) -> bool {
    forall|x: int|
        #[trigger] is_node(c, x) && c[x].base < 0 ==> tail_used(tl, -c[x].base) == tail_used(
            tl2,
            -c[x].base,
        ) && tl[-(c[x].base as int)].suffix == tl2[-(c[x].base as int)].suffix
}

/// A change of the tail that no separate node sees changes nothing of what
/// is found.
pub proof fn lemma_find_tail_change<T>(
    c: Seq<DACell>,
    tl: Seq<TailEntry<T>>,
    tl2: Seq<TailEntry<T>>,
    w: Seq<TrieChar>,
)
    requires
        da_wf(c),
        same_for_leaves(c, tl, tl2),
    ensures
        find(c, tl2, w) == find(c, tl, w),
{
    assert forall|k: int| 0 <= k <= w.len() implies #[trigger] step_agrees(c, tl, c, tl2, w, k) by {
        lemma_reach_is_node(c, w.take(k));
    }
    lemma_find_congruent(c, tl, c, tl2, w, 0);
}

/// What is found after a branch has been inserted under `s`, which `u`
/// leads to: what was found, but that nothing is found any more through
/// `s` if it was separate.
pub proof fn lemma_find_after_insert<T>(
    c0: Seq<DACell>,
    c1: Seq<DACell>,
    tl: Seq<TailEntry<T>>,
    s: int,
    ch: TrieChar,
    nd: int,
    u: Seq<TrieChar>,
    w: Seq<TrieChar>,
)
    requires
        da_wf(c0),
        da_wf(c1),
        is_node(c0, s),
        spec_walk(c0, s, ch) is None,
        branch_inserted(c0, c1, s, ch, nd),
        reach(c0, u) == Some(s),
    ensures
        find(c1, tl, w) == (if c0[s].base < 0 && is_prefix(u, w) {
            None
        } else {
            find(c0, tl, w)
        }),
{
    let m = u.len() as int;
    lemma_walk_after_insert(c0, c1, s, ch, nd, s, ch);
    if c0[s].base < 0 && is_prefix(u, w) {
        lemma_reach_after_insert(c0, c1, s, ch, nd, u, w.take(m));
        assert(w.take(m) != u.push(ch));
        assert(reach(c1, w.take(m)) == Some(s));
        lemma_find_skip(c1, tl, w, 0, m);
        if m < w.len() {
            lemma_reach_after_insert(c0, c1, s, ch, nd, u, w.take(m + 1));
            assert(w.take(m + 1).drop_last() =~= w.take(m));
            assert(reach(c0, w.take(m + 1)) is None);
            if w.take(m + 1) == u.push(ch) {
                lemma_new_node_dead_end(c0, c1, tl, s, ch, nd, u, w, m + 1);
            } else {
                lemma_find_none(c1, tl, w, m + 1);
            }
        }
    } else {
        assert forall|k: int| 0 <= k <= w.len() implies #[trigger] step_agrees(
            c0,
            tl,
            c1,
            tl,
            w,
            k,
        ) by {
            lemma_reach_after_insert(c0, c1, s, ch, nd, u, w.take(k));
            lemma_reach_is_node(c0, w.take(k));
            match reach(c0, w.take(k)) {
                Some(x) => {
                    assert(w.take(k) != u.push(ch)) by {
                        if w.take(k) == u.push(ch) {
                            assert(u.push(ch).drop_last() =~= u);
                        }
                    }
                    lemma_walk_after_insert(c0, c1, s, ch, nd, x, ch);
                    if x == s {
                        lemma_passes_iff_prefix(c0, u, w, k);
                    }
                },
                None => {
                    if w.take(k) == u.push(ch) {
                        lemma_new_node_dead_end(c0, c1, tl, s, ch, nd, u, w, k);
                    }
                },
            }
        }
        lemma_find_congruent(c0, tl, c1, tl, w, 0);
    }
}

/// A word that comes to the node a branch was inserted for finds nothing
/// there.
proof fn lemma_new_node_dead_end<T>(
    c0: Seq<DACell>,
    c1: Seq<DACell>,
    tl: Seq<TailEntry<T>>,
    s: int,
    ch: TrieChar,
    nd: int,
    u: Seq<TrieChar>,
    w: Seq<TrieChar>,
    k: int,
)
    requires
        da_wf(c0),
        da_wf(c1),
        is_node(c0, s),
        spec_walk(c0, s, ch) is None,
        branch_inserted(c0, c1, s, ch, nd),
        reach(c0, u) == Some(s),
        0 <= k <= w.len(),
        w.take(k) == u.push(ch),
    ensures
        dead_end(c1, w, k),
        find_from(c1, tl, w, k) is None,
{
    lemma_reach_after_insert(c0, c1, s, ch, nd, u, w.take(k));
    if k < w.len() {
        lemma_reach_after_insert(c0, c1, s, ch, nd, u, w.take(k + 1));
        assert(w.take(k + 1).drop_last() =~= w.take(k));
        assert(u.push(ch).drop_last() =~= u);
        assert(reach(c0, w.take(k)) is None);
        assert(reach(c0, w.take(k + 1)) is None);
        assert(w.take(k + 1).len() != u.push(ch).len());
    }
    lemma_dead_end(c1, tl, w, k);
}

/// What is found after the BASE of a node that no edge leaves, and that
/// `ux` leads to, has changed to one that is not positive: a word that
/// begins with `ux` is found in the tail entry the node now points at, if
/// that holds its rest, and not at all otherwise; every other word is found
/// as before.
pub proof fn lemma_find_leaf_base<T>(
    c: Seq<DACell>,
    d: Seq<DACell>,
    tl: Seq<TailEntry<T>>,
    x0: int,
    ux: Seq<TrieChar>,
    w: Seq<TrieChar>,
)
    requires
        da_wf(c),
        same_but_leaf(c, d, x0),
        reach(c, ux) == Some(x0),
    ensures
        find(d, tl, w) == (if is_prefix(ux, w) {
            if d[x0].base < 0 && tail_used(tl, -d[x0].base) && tail_matches(
                tl[-(d[x0].base as int)].suffix,
                w,
                ux.len() as int,
            ) {
                Some(-d[x0].base as int)
            } else {
                None
            }
        } else {
            find(c, tl, w)
        }),
{
    let m = ux.len() as int;
    lemma_leaf_base_wf(c, d, x0);
    if is_prefix(ux, w) {
        lemma_reach_leaf_base(c, d, x0, w.take(m));
        lemma_find_skip(d, tl, w, 0, m);
        if d[x0].base >= 0 {
            if m < w.len() {
                assert(w.take(m + 1).drop_last() =~= w.take(m));
                assert(is_node(d, x0));
                lemma_no_edge_without_base(d, x0, w[m]);
                assert(reach(d, w.take(m + 1)) is None);
            }
            lemma_dead_end(d, tl, w, m);
        }
    } else {
        assert forall|k: int| 0 <= k <= w.len() implies #[trigger] step_agrees(c, tl, d, tl, w, k) by {
            lemma_reach_leaf_base(c, d, x0, w.take(k));
            lemma_passes_iff_prefix(c, ux, w, k);
        }
        lemma_find_congruent(c, tl, d, tl, w, 0);
    }
}

/// Freeing the cell of a node that no edge leaves and that is not separate
/// changes nothing of what is found.
pub proof fn lemma_find_after_free<T>(
    c: Seq<DACell>,
    tl: Seq<TailEntry<T>>,
    s: int,
    w: Seq<TrieChar>,
)
    requires
        da_wf(c),
        3 <= s < c.len(),
        c[s].check >= 0,
        c[s].base >= 0,
        !spec_has_children(c, s),
    ensures
        find(spec_free_cell(c, s), tl, w) == find(c, tl, w),
{
    let d = spec_free_cell(c, s);
    lemma_free_leaf_wf(c, s);
    assert forall|k: int| 0 <= k <= w.len() implies #[trigger] step_agrees(c, tl, d, tl, w, k) by {
        lemma_reach_after_free(c, s, w.take(k));
        lemma_reach_is_node(c, w.take(k));
        if reach(c, w.take(k)) == Some(s) {
            if k < w.len() {
                assert(w.take(k + 1).drop_last() =~= w.take(k));
                assert(spec_walk(c, s, w[k]) is None);
            }
        }
    }
    lemma_find_congruent(c, tl, d, tl, w, 0);
}

/// Pruning frees no separate node when it does not start at one: every node
/// that is left is as it was.
pub proof fn lemma_prune_nodes(c: Seq<DACell>, p: int, s: int, fuel: nat)
    requires
        da_wf(c),
        prunable(c, p, s) ==> c[s].base >= 0,
    ensures
        forall|x: int| #[trigger]
            is_node(spec_prune_upto(c, p, s, fuel), x) ==> is_node(c, x) && spec_prune_upto(
                c,
                p,
                s,
                fuel,
            )[x] == c[x],
        forall|x: int|
            #[trigger] is_node(c, x) && c[x].base < 0 ==> is_node(
                spec_prune_upto(c, p, s, fuel),
                x,
            ),
    decreases fuel,
{
    if fuel != 0 && prunable(c, p, s) {
        let d = spec_free_cell(c, s);
        lemma_free_leaf_wf(c, s);
        assert(is_node(c, s));
        assert(parent_ok(c, s));
        let q = c[s].check as int;
        assert(is_node(c, q));
        assert(d[q] == c[q]);
        lemma_prune_nodes(d, p, q, (fuel - 1) as nat);
        let e = spec_prune_upto(d, p, q, (fuel - 1) as nat);
        assert forall|x: int| #[trigger] is_node(e, x) implies is_node(c, x) && e[x] == c[x] by {
            assert(is_node(d, x));
        }
        assert forall|x: int| #[trigger] is_node(c, x) && c[x].base < 0 implies is_node(e, x) by {
            assert(is_node(d, x));
            assert(d[x] == c[x]);
        }
    }
}

/// Pruning that does not start at a separate node changes nothing of what
/// is found.
pub proof fn lemma_find_after_prune<T>(
    c: Seq<DACell>,
    tl: Seq<TailEntry<T>>,
    p: int,
    s: int,
    fuel: nat,
    w: Seq<TrieChar>,
)
    requires
        da_wf(c),
        prunable(c, p, s) ==> c[s].base >= 0,
    ensures
        find(spec_prune_upto(c, p, s, fuel), tl, w) == find(c, tl, w),
    decreases fuel,
{
    if fuel != 0 && prunable(c, p, s) {
        let d = spec_free_cell(c, s);
        lemma_free_leaf_wf(c, s);
        lemma_find_after_free(c, tl, s, w);
        assert(is_node(c, s));
        assert(parent_ok(c, s));
        let q = c[s].check as int;
        assert(is_node(c, q));
        assert(d[q] == c[q]);
        lemma_find_after_prune(d, tl, p, q, (fuel - 1) as nat, w);
    }
}

/// No node points at the tail entry `t`.
pub open spec fn unreferenced(c: Seq<DACell>, t: int) -> bool {
    forall|x: int| #[trigger] is_node(c, x) ==> c[x].base != -t
}

/// No separate node points at a tail entry that is not in use.
pub proof fn lemma_unused_unreferenced<T>(c: Seq<DACell>, tl: Seq<TailEntry<T>>, t: int)
    requires
        leaves_ok(c, tl),
        t >= 1,
        !tail_used(tl, t),
    ensures
        unreferenced(c, t),
{
}

/// Growing the pool keeps the separate nodes as they are.
pub proof fn lemma_grown_leaves<T>(c0: Seq<DACell>, c1: Seq<DACell>, tl: Seq<TailEntry<T>>, t: int)
    requires
        pool_grown(c0, c1),
        leaves_ok(c0, tl),
    ensures
        leaves_ok(c1, tl),
        unreferenced(c0, t) ==> unreferenced(c1, t),
{
    assert forall|x: int| #[trigger] is_node(c1, x) implies is_node(c0, x) && c1[x] == c0[x] by {}
    assert forall|x: int, y: int|
        #[trigger] is_node(c1, x) && #[trigger] is_node(c1, y) && c1[x].base < 0 && c1[x].base
            == c1[y].base implies x == y by {
        assert(is_node(c0, x) && is_node(c0, y));
    }
}

/// Inserting a branch keeps the separate nodes pointing where they did,
/// but for the node the branch was inserted under, which is separate no
/// more.
pub proof fn lemma_insert_leaves<T>(
    c0: Seq<DACell>,
    c1: Seq<DACell>,
    tl: Seq<TailEntry<T>>,
    s: int,
    ch: TrieChar,
    nd: int,
    t: int,
)
    requires
        da_wf(c0),
        is_node(c0, s),
        branch_inserted(c0, c1, s, ch, nd),
        leaves_ok(c0, tl),
        t >= 1,
    ensures
        leaves_ok(c1, tl),
        c0[s].base == -t ==> unreferenced(c1, t),
        unreferenced(c0, t) ==> unreferenced(c1, t),
{
    let nb = c1[s].base as int;
    let ob = c0[s].base as int;
    assert(is_node(c0, 2));
    assert(moved(c0, s, nb, s) == s) by {
        if s != 2 {
            assert(parent_ok(c0, s));
        }
    }
    assert forall|y: int| #[trigger] is_node(c1, y) && c1[y].base < 0 implies {
        let x = if c1[y].check == s {
            y - nb + ob
        } else {
            y
        };
        is_node(c0, x) && x != s && moved(c0, s, nb, x) == y && c0[x].base == c1[y].base
    } by {
        let x = if c1[y].check == s {
            y - nb + ob
        } else {
            y
        };
        assert(node_at(c0, x) && moved(c0, s, nb, x) == y);
        assert(is_node(c0, x));
    }
    assert forall|y: int| #[trigger] is_node(c1, y) && c1[y].base < 0 implies tail_used(
        tl,
        -c1[y].base,
    ) && tl[-(c1[y].base as int)].data is Some by {
        let x = if c1[y].check == s {
            y - nb + ob
        } else {
            y
        };
        assert(is_node(c0, x));
    }
    assert forall|y1: int, y2: int|
        #[trigger] is_node(c1, y1) && #[trigger] is_node(c1, y2) && c1[y1].base < 0 && c1[y1].base
            == c1[y2].base implies y1 == y2 by {
        let x1 = if c1[y1].check == s {
            y1 - nb + ob
        } else {
            y1
        };
        let x2 = if c1[y2].check == s {
            y2 - nb + ob
        } else {
            y2
        };
        assert(is_node(c0, x1) && is_node(c0, x2));
    }
    assert forall|y: int| #[trigger] is_node(c1, y) && (c0[s].base == -t || unreferenced(
        c0,
        t,
    )) implies c1[y].base != -t by {
        if c1[y].base == -t {
            let x = if c1[y].check == s {
                y - nb + ob
            } else {
                y
            };
            assert(is_node(c0, x) && x != s && c0[x].base == -t);
        }
    }
}

/// Pruning that does not start at a separate node keeps the separate nodes
/// pointing where they did.
pub proof fn lemma_prune_leaves<T>(
    c: Seq<DACell>,
    tl: Seq<TailEntry<T>>,
    p: int,
    s: int,
    fuel: nat,
    t: int,
)
    requires
        da_wf(c),
        leaves_ok(c, tl),
        prunable(c, p, s) ==> c[s].base >= 0,
    ensures
        leaves_ok(spec_prune_upto(c, p, s, fuel), tl),
        unreferenced(c, t) ==> unreferenced(spec_prune_upto(c, p, s, fuel), t),
{
    let d = spec_prune_upto(c, p, s, fuel);
    lemma_prune_nodes(c, p, s, fuel);
    assert forall|x: int, y: int|
        #[trigger] is_node(d, x) && #[trigger] is_node(d, y) && d[x].base < 0 && d[x].base
            == d[y].base implies x == y by {
        assert(is_node(c, x) && is_node(c, y));
    }
}

/// A change of the tail that keeps what the separate nodes point at in use,
/// with a payload, keeps the separate nodes in order.
pub proof fn lemma_tail_change_leaves<T>(
    c: Seq<DACell>,
    tl: Seq<TailEntry<T>>,
    tl2: Seq<TailEntry<T>>,
)
    requires
        leaves_ok(c, tl),
        forall|t: int| #[trigger] tail_used(tl, t) ==> tail_used(tl2, t),
        forall|t: int| #[trigger] tail_used(tl, t) && tl[t].data is Some ==> tl2[t].data is Some,
    ensures
        leaves_ok(c, tl2),
{
    assert forall|x: int| #[trigger] is_node(c, x) && c[x].base < 0 implies tail_used(
        tl2,
        -c[x].base,
    ) && tl2[-(c[x].base as int)].data is Some by {
        assert(tail_used(tl, -c[x].base));
    }
}

/// Pointing a node that no edge leaves, and that `ux` leads to, at a tail
/// entry that no node points at: the words that begin with `ux` and go on
/// as the entry says are found there, every other word as before.
pub proof fn lemma_link_leaf<T>(
    c: Seq<DACell>,
    d: Seq<DACell>,
    tl: Seq<TailEntry<T>>,
    x0: int,
    t: int,
    ux: Seq<TrieChar>,
)
    requires
        da_wf(c),
        leaves_ok(c, tl),
        same_but_leaf(c, d, x0),
        c[x0].base >= 0,
        d[x0].base == -t,
        t >= 1,
        tail_used(tl, t),
        tl[t].data is Some,
        unreferenced(c, t),
        reach(c, ux) == Some(x0),
    ensures
        da_wf(d),
        leaves_ok(d, tl),
        reach(d, ux) == Some(x0),
        forall|w: Seq<TrieChar>|
            #[trigger] find(d, tl, w) == (if is_prefix(ux, w) && tail_matches(
                tl[t].suffix,
                w,
                ux.len() as int,
            ) {
                Some(t)
            } else {
                find(c, tl, w)
            }),
{
    lemma_leaf_base_wf(c, d, x0);
    lemma_reach_leaf_base(c, d, x0, ux);
    assert forall|x: int, y: int|
        #[trigger] is_node(d, x) && #[trigger] is_node(d, y) && d[x].base < 0 && d[x].base
            == d[y].base implies x == y by {
        assert(is_node(c, x) && is_node(c, y));
    }
    assert forall|x: int| #[trigger] is_node(d, x) && d[x].base < 0 implies tail_used(
        tl,
        -d[x].base,
    ) && tl[-(d[x].base as int)].data is Some by {
        assert(is_node(c, x));
    }
    assert forall|w: Seq<TrieChar>|
        #[trigger] find(d, tl, w) == (if is_prefix(ux, w) && tail_matches(
            tl[t].suffix,
            w,
            ux.len() as int,
        ) {
            Some(t)
        } else {
            find(c, tl, w)
        }) by {
        lemma_find_leaf_base(c, d, tl, x0, ux, w);
        if is_prefix(ux, w) {
            // in c the node holds nothing
            let m = ux.len() as int;
            lemma_find_skip(c, tl, w, 0, m);
            if m < w.len() {
                assert(w.take(m + 1).drop_last() =~= w.take(m));
                if c[x0].base <= 0 {
                    lemma_no_edge_without_base(c, x0, w[m]);
                }
                assert(reach(c, w.take(m + 1)) is None);
            }
            lemma_dead_end(c, tl, w, m);
        }
    }
}

/// The one word that begins with `u`, goes on with `ch`, and whose rest a
/// suffix stored for `rest` stands for, is `u`, `ch` and `rest`; where `ch`
/// is the terminator, it is `u` and `ch`.
pub proof fn lemma_word_at_leaf(
    u: Seq<TrieChar>,
    ch: TrieChar,
    rest: Seq<TrieChar>,
    w: Seq<TrieChar>,
)
    requires
        is_word(w),
        is_word(rest),
        ch == TRIE_CHAR_TERM ==> rest == seq![TRIE_CHAR_TERM],
    ensures
        (is_prefix(u.push(ch), w) && tail_matches(Some(rest), w, u.len() as int + 1)) <==> w == (if ch
            == TRIE_CHAR_TERM {
            u.push(ch)
        } else {
            u.push(ch) + rest
        }),
{
    let k = u.len() as int + 1;
    let full = if ch == TRIE_CHAR_TERM {
        u.push(ch)
    } else {
        u.push(ch) + rest
    };
    if is_prefix(u.push(ch), w) && tail_matches(Some(rest), w, k) {
        assert(w.take(k)[k - 1] == ch);
        assert(w[k - 1] == ch);
        if ch == TRIE_CHAR_TERM {
            assert(w.len() == k);
            assert(w =~= w.take(k));
        } else {
            assert(k < w.len());
            assert(w =~= w.take(k) + w.skip(k));
        }
    }
    if w == full {
        assert(w.take(k) =~= u.push(ch));
        if ch != TRIE_CHAR_TERM {
            assert(w.skip(k) =~= rest);
        }
    }
}

/// Where strings lead after pruning that does not start at a separate node:
/// where they led, but to the nodes that were freed.
pub proof fn lemma_reach_after_prune(c: Seq<DACell>, p: int, s: int, fuel: nat, v: Seq<TrieChar>)
    requires
        da_wf(c),
    ensures
        reach(spec_prune_upto(c, p, s, fuel), v) == (match reach(c, v) {
            Some(x) => if is_node(spec_prune_upto(c, p, s, fuel), x) {
                Some(x)
            } else {
                None
            },
            None => None,
        }),
        is_node(c, p) ==> is_node(spec_prune_upto(c, p, s, fuel), p) && spec_prune_upto(
            c,
            p,
            s,
            fuel,
        )[p] == c[p],
    decreases fuel,
{
    lemma_reach_is_node(c, v);
    if fuel != 0 && prunable(c, p, s) {
        let d = spec_free_cell(c, s);
        lemma_free_leaf_wf(c, s);
        lemma_reach_after_free(c, s, v);
        lemma_reach_after_prune(d, p, c[s].check as int, (fuel - 1) as nat, v);
        lemma_prune_wf(d, p, c[s].check as int, (fuel - 1) as nat);
        lemma_prune_freed_stay(d, p, c[s].check as int, (fuel - 1) as nat, s);
        if reach(c, v) is Some {
            let x = reach(c, v).unwrap();
            if x != s {
                assert(is_node(d, x));
            }
        }
        if is_node(c, p) {
            assert(is_node(d, p));
        }
    }
}

/// Pruning makes no cell a node.
pub proof fn lemma_prune_freed_stay(c: Seq<DACell>, p: int, s: int, fuel: nat, x: int)
    requires
        da_wf(c),
        !is_node(c, x),
    ensures
        !is_node(spec_prune_upto(c, p, s, fuel), x),
    decreases fuel,
{
    if fuel != 0 && prunable(c, p, s) {
        let d = spec_free_cell(c, s);
        lemma_free_leaf_wf(c, s);
        assert(!is_node(d, x)) by {
            if x != s {
                assert(is_node(d, x) <==> is_node(c, x));
            }
        }
        lemma_prune_freed_stay(d, p, c[s].check as int, (fuel - 1) as nat, x);
    }
}

/// A chain of nodes hangs under its first: each is the only child of the
/// one before, the last has no child and is not separate.
pub open spec fn chain_ok(c: Seq<DACell>, chain: Seq<int>) -> bool {
    &&& chain.len() >= 1
    &&& forall|i: int|
        1 <= i < chain.len() ==> is_node(c, #[trigger] chain[i]) && chain[i] >= 3 && chain[i]
            != chain[0] && c[chain[i]].check == chain[i - 1]
    &&& forall|x: int, i: int|
        #[trigger] is_node(c, x) && 0 <= i < chain.len() - 1 && c[x].check == #[trigger] chain[i]
            ==> x == chain[i + 1]
    &&& chain.len() >= 2 ==> c[chain.last()].base >= 0 && forall|x: int| #[trigger]
        is_node(c, x) ==> c[x].check != chain.last()
}

/// Pruning from the last node of a chain up to its first frees the chain
/// but the first, which is left without a child.
pub proof fn lemma_prune_chain(c: Seq<DACell>, chain: Seq<int>, fuel: nat)
    requires
        da_wf(c),
        chain_ok(c, chain),
        is_node(c, chain[0]),
        chain.len() >= 2,
        node_set(c).len() <= fuel,
    ensures
        forall|x: int| #[trigger]
            is_node(spec_prune_upto(c, chain[0], chain.last(), fuel), x) ==> spec_prune_upto(
                c,
                chain[0],
                chain.last(),
                fuel,
            )[x].check != chain[0],
    decreases chain.len(),
{
    let p = chain[0];
    let s = chain.last();
    let n = chain.len() as int;
    assert(s == chain[n - 1]);
    assert(is_node(c, s));
    lemma_node_set_finite(c);
    assert(node_set(c).contains(s));
    assert(fuel > 0) by {
        if node_set(c).len() == 0 {
            assert(node_set(c) =~= Set::<int>::empty());
        }
    }
    assert(!spec_has_children(c, s)) by {
        if spec_has_children(c, s) {
            let ch = choose|ch: TrieChar| spec_walk(c, s, ch) is Some;
            lemma_child_is_node(c, s, spec_walk(c, s, ch).unwrap());
        }
    }
    assert(prunable(c, p, s));
    let d = spec_free_cell(c, s);
    lemma_free_leaf_wf(c, s);
    lemma_free_cell_ok(c, s);
    lemma_node_set_shrinks(c, d, s);
    let q = c[s].check as int;
    assert(q == chain[n - 2]);
    let rest = chain.drop_last();
    assert(spec_prune_upto(c, p, s, fuel) == spec_prune_upto(d, p, q, (fuel - 1) as nat));
    if n == 2 {
        // the first node is left: nothing more is freed
        assert(q == p);
        assert(!prunable(d, p, q));
        assert(spec_prune_upto(d, p, q, (fuel - 1) as nat) == d);
        assert forall|x: int| #[trigger] is_node(d, x) implies d[x].check != p by {
            assert(is_node(c, x));
            assert(d[x] == c[x]);
            if c[x].check == p {
                assert(c[x].check == chain[0]);
                assert(x == chain[1]);
            }
        }
    } else {
        assert(chain_ok(d, rest)) by {
            assert forall|i: int| 1 <= i < rest.len() implies is_node(d, #[trigger] rest[i])
                && rest[i] >= 3 && rest[i] != rest[0] && d[rest[i]].check == rest[i - 1] by {
                assert(rest[i] == chain[i]);
                assert(is_node(c, chain[i]));
                if chain[i] == s {
                    // then the last node would have a child
                    assert(c[chain[i + 1]].check == chain[i]);
                    assert(is_node(c, chain[i + 1]));
                }
                assert(d[chain[i]] == c[chain[i]]);
            }
            assert forall|x: int, i: int|
                #[trigger] is_node(d, x) && 0 <= i < rest.len() - 1 && d[x].check
                    == #[trigger] rest[i] implies x == rest[i + 1] by {
                assert(is_node(c, x));
                assert(d[x] == c[x]);
                assert(rest[i] == chain[i]);
            }
            assert(rest.last() == q);
            assert(is_node(c, q));
            assert(parent_ok(c, s));
            assert(d[q] == c[q]) by {
                if q == s {
                }
            }
            assert forall|x: int| #[trigger] is_node(d, x) implies d[x].check != rest.last() by {
                assert(is_node(c, x));
                assert(d[x] == c[x]);
                if c[x].check == q {
                    assert(c[x].check == chain[n - 2]);
                    assert(x == chain[n - 1]);
                }
            }
        }
        assert(is_node(d, p)) by {
            assert(p != s);
        }
        lemma_prune_chain(d, rest, (fuel - 1) as nat);
        assert(rest[0] == p);
        assert(rest.last() == q);
    }
}

/// Growing the pool keeps a chain as it is.
pub proof fn lemma_chain_grown(c: Seq<DACell>, c1: Seq<DACell>, chain: Seq<int>)
    requires
        pool_grown(c, c1),
        chain_ok(c, chain),
        is_node(c, chain[0]),
    ensures
        chain_ok(c1, chain),
        is_node(c1, chain[0]),
        c1[chain[0]] == c[chain[0]],
        c1[chain.last()] == c[chain.last()],
{
    assert forall|x: int| #[trigger] is_node(c1, x) implies is_node(c, x) && c1[x] == c[x] by {}
    assert forall|i: int| 1 <= i < chain.len() implies is_node(c1, #[trigger] chain[i]) && chain[i]
        >= 3 && chain[i] != chain[0] && c1[chain[i]].check == chain[i - 1] by {
        assert(is_node(c, chain[i]));
    }
    if chain.len() >= 2 {
        assert(is_node(c, chain[chain.len() - 1]));
    }
}

/// A branch inserted under the last node of a chain, which had no child,
/// makes the chain longer by the new node; every other node stays as it
/// was.
pub proof fn lemma_chain_extend(
    c: Seq<DACell>,
    c1: Seq<DACell>,
    chain: Seq<int>,
    ch: TrieChar,
    nd: int,
)
    requires
        da_wf(c),
        da_wf(c1),
        chain_ok(c, chain),
        is_node(c, chain[0]),
        is_node(c, chain.last()),
        c[chain.last()].base <= 0,
        branch_inserted(c, c1, chain.last(), ch, nd),
    ensures
        chain_ok(c1, chain.push(nd)),
        is_node(c1, chain[0]),
        forall|x: int| #[trigger] is_node(c, x) && x != chain.last() ==> c1[x] == c[x],
        c1[chain.last()].check == c[chain.last()].check,
        forall|x: int| #[trigger] is_node(c1, x) && x != nd ==> is_node(c, x),
{
    let s = chain.last();
    let nb = c1[s].base as int;
    let n = chain.len() as int;
    let longer = chain.push(nd);
    assert(is_node(c, 2));
    assert forall|x: int| 0 <= x < c.len() implies (#[trigger] c[x]).check != s by {
        lemma_no_edge_without_base(c, s, 0);
    }
    assert forall|x: int| moved(c, s, nb, x) == x by {}
    assert forall|x: int| #[trigger] is_node(c, x) implies node_at(c1, x) && c1[x].check
        == c[x].check && (x != s ==> c1[x].base == c[x].base) by {
        assert(moved(c, s, nb, x) == x);
        assert(moved(c, s, nb, c[x].check as int) == c[x].check);
    }
    assert forall|x: int| #[trigger] is_node(c1, x) && x != nd implies is_node(c, x) by {
        assert(c1[x].check != s) by {
            if c1[x].check == s {
                let x0 = x - nb + c[s].base;
                assert(node_at(c, x0) && moved(c, s, nb, x0) == x);
                assert(is_node(c, x));
            }
        }
    }
    assert forall|i: int| 1 <= i < longer.len() implies is_node(c1, #[trigger] longer[i])
        && longer[i] >= 3 && longer[i] != longer[0] && c1[longer[i]].check == longer[i - 1] by {
        if i < n {
            assert(longer[i] == chain[i]);
            assert(is_node(c, chain[i]));
        } else {
            assert(longer[i] == nd);
            assert(longer[i - 1] == s);
            assert(is_node(c1, nd));
        }
    }
    assert forall|x: int, i: int|
        #[trigger] is_node(c1, x) && 0 <= i < longer.len() - 1 && c1[x].check
            == #[trigger] longer[i] implies x == longer[i + 1] by {
        assert(longer[i] == chain[i]);
        if x == nd {
            // the new node hangs under the last of the old chain
            if i < n - 1 {
                assert(is_node(c, chain[i + 1]));
                assert(c[chain[i + 1]].check == chain[i]);
            }
        } else {
            assert(is_node(c, x));
            assert(c1[x].check == c[x].check);
            if i < n - 1 {
                assert(x == chain[i + 1]);
            }
        }
    }
    assert forall|x: int| #[trigger] is_node(c1, x) implies c1[x].check != longer.last() by {
        if c1[x].check == nd {
            if x != nd {
                assert(is_node(c, x));
                assert(is_node(c, c[x].check as int)) by {
                    if x != 2 {
                        assert(parent_ok(c, x));
                    }
                }
            } else {
                assert(c1[nd].check == s);
            }
        }
    }
}

/// The first separate node under a node that `u` leads to is led to by `u`
/// and the labels gone down.
pub proof fn lemma_first_separate_reach(c: Seq<DACell>, s: int, fuel: nat, u: Seq<TrieChar>)
    requires
        da_wf(c),
        reach(c, u) == Some(s),
        spec_first_separate(c, s, fuel).0 is Some,
    ensures
        reach(c, u + spec_first_separate(c, s, fuel).1) == spec_first_separate(c, s, fuel).0,
        c[spec_first_separate(c, s, fuel).0.unwrap()].base < 0,
    decreases fuel,
{
    lemma_reach_is_node(c, u);
    if c[s].base < 0 {
        assert(u + Seq::<TrieChar>::empty() =~= u);
    } else {
        let l = first_child_from(c, s, 0);
        lemma_first_child_from(c, s, 0);
        let t = c[s].base + l;
        let rest = spec_first_separate(c, t, (fuel - 1) as nat).1;
        assert(u.push(l as TrieChar).drop_last() =~= u);
        assert(reach(c, u.push(l as TrieChar)) == Some(t));
        lemma_first_separate_reach(c, t, (fuel - 1) as nat, u.push(l as TrieChar));
        assert(u.push(l as TrieChar) + rest =~= u + (seq![l as TrieChar] + rest));
    }
}

/// Whether the string `a` comes before the string `b` in the order of
/// their symbols, at a symbol at which they differ.
pub open spec fn symbols_before(a: Seq<TrieChar>, b: Seq<TrieChar>) -> bool {
    exists|j: int|
        0 <= j < a.len() && j < b.len() && #[trigger] a.take(j) == b.take(j) && a[j] < b[j]
}

/// The separate node after the one that `key` leads to is led to by the
/// new key buffer, which comes after `key` in the order of the symbols.
pub proof fn lemma_next_separate_reach(c: Seq<DACell>, sep: int, key: Seq<TrieChar>, fuel: nat)
    requires
        da_wf(c),
        reach(c, key) == Some(sep),
        spec_next_separate(c, 2, sep, key, fuel).0 is Some,
    ensures
        reach(c, spec_next_separate(c, 2, sep, key, fuel).1) == spec_next_separate(
            c,
            2,
            sep,
            key,
            fuel,
        ).0,
        c[spec_next_separate(c, 2, sep, key, fuel).0.unwrap()].base < 0,
        symbols_before(key, spec_next_separate(c, 2, sep, key, fuel).1),
    decreases fuel,
{
    let out = spec_next_separate(c, 2, sep, key, fuel);
    assert(key.len() > 0) by {
        if key.len() == 0 {
            assert(sep == 2);
        }
    }
    let up = key.drop_last();
    let parent = c[sep].check as int;
    assert(reach(c, up) == Some(parent));
    lemma_reach_is_node(c, up);
    let base = c[parent].base as int;
    assert(key.last() == sep - base);
    let l = first_child_from(c, parent, sep - base + 1);
    lemma_first_child_from(c, parent, sep - base + 1);
    let n = key.len() as int;
    if l < 256 {
        let t = base + l;
        let down = spec_first_separate(c, t, c.len());
        assert(up.push(l as TrieChar).drop_last() =~= up);
        assert(reach(c, up.push(l as TrieChar)) == Some(t));
        lemma_first_separate_reach(c, t, c.len(), up.push(l as TrieChar));
        let newkey = up.push(l as TrieChar) + down.1;
        assert(out.1 == newkey);
        assert(key.take(n - 1) =~= newkey.take(n - 1));
        assert(newkey[n - 1] == l);
    } else {
        lemma_next_separate_reach(c, parent, up, (fuel - 1) as nat);
        let newkey = out.1;
        let j = choose|j: int|
            0 <= j < up.len() && j < newkey.len() && #[trigger] up.take(j) == newkey.take(j)
                && up[j] < newkey[j];
        assert(key.take(j) =~= up.take(j));
        assert(key[j] == up[j]);
    }
}

} // verus!
