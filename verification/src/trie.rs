//! The trie: the alphabet, the double array and the tail pool together, as
//! a map from keys to payloads.

use crate::alpha_map::ALPHABET_MAX;
use crate::iter_laws::{
    chars_before, iter_stands, law_iteration_ascends, law_iteration_order,
    law_iteration_step_least, law_iteration_yields_entries,
};
use crate::range_set::flatten_ranges;
use crate::alpha_map::{
    alpha_map_bytes, lemma_alpha_map_round_trip, ranges_valid, spec_read_alpha_map, AlphaMap,
};
use crate::da_codec::{cells_bytes, lemma_darray_round_trip, spec_read_darray};
use crate::da_spec::{
    spec_first_separate, spec_next_separate, spec_output_symbols, DA_BRANCH_GROWTH, DA_POOL_BEGIN,
    DA_SIGNATURE_BASE,
};
use crate::shape::{
    label_of, lemma_reach_label, lemma_shape_grown, lemma_shape_insert, lemma_shape_link,
    lemma_shape_prune, lemma_shape_prune_leaf, lemma_shape_tail_change, lemma_shape_unlink,
    node_shape, is_symbol, is_symbol_or_term, shape_ok, shape_ok_but, suffix_in_alphabet, SymRange,
};
use crate::types::TRIE_INDEX_MAX;
use crate::tail::{lemma_tail_round_trip, spec_add_suffix, spec_read_tail, tail_bytes};
use crate::types::{
    lemma_i32_payload_round_trips, payload_round_trips, TrieDeserializable, TrieError,
    TrieSerializable,
};
use crate::da_spec::{
    da_wf, is_node, lemma_branch_inserted_tree, lemma_child_is_node, lemma_node_set_finite,
    lemma_prune_wf, moved, parent_ok, prunable, set_base_of, spec_prune_upto, spec_walk,
};
use crate::darray::{DACell, DArray};
use crate::tail::{
    entries_full, lemma_tail_delete_wf, spec_tail_delete, first_term, is_word, lemma_add_suffix_wf,
    lemma_first_term, spec_walk_char, tail_used, tail_wf, terminated, Tail, TailEntry,
    TAIL_SUFFIX_MAX,
};
use crate::trie_spec::{
    find, is_prefix, leaves_ok, lemma_find_after_insert, lemma_find_after_prune, lemma_find_grown,
    lemma_find_none, lemma_find_skip, lemma_find_tail_change, lemma_grown_leaves,
    lemma_insert_leaves, lemma_link_leaf, lemma_prune_leaves, lemma_reach_after_insert,
    lemma_reach_is_node, lemma_tail_change_leaves, lemma_unused_unreferenced, lemma_word_at_leaf,
    reach, same_but_leaf, same_for_leaves, tail_matches, unreferenced, chain_ok, lemma_chain_extend,
    lemma_chain_grown, lemma_no_edge_without_base, lemma_prune_chain, lemma_reach_after_prune,
    lemma_reach_grown, lemma_reach_leaf_base, lemma_walk_after_insert, lemma_find_injective,
    lemma_find_leaf_base, lemma_find_witness, lemma_leaf_base_wf, lemma_prune_nodes,
    lemma_tail_matches_unique,
};
use vstd::slice::{slice_subrange, slice_to_vec};
use crate::types::{AlphaChar, TrieChar, TrieIndex, TRIE_CHAR_TERM};
use vstd::prelude::*;

verus! {

/// Where the key in `key` ends: at its first 0, or where `key` ends.
pub open spec fn key_len(key: Seq<AlphaChar>) -> int
    decreases key.len(),
{
    if key.len() == 0 {
        0
    } else if key[0] == 0 {
        0
    } else {
        1 + key_len(key.drop_first())
    }
}

/// The key in `key`: its characters before the first 0.
pub open spec fn key_of(key: Seq<AlphaChar>) -> Seq<AlphaChar> {
    key.take(key_len(key))
}

/// `key_len` points at the first 0.
pub proof fn lemma_key_len(key: Seq<AlphaChar>)
    ensures
        0 <= key_len(key) <= key.len(),
        forall|i: int| 0 <= i < key_len(key) ==> key[i] != 0,
        key_len(key) < key.len() ==> key[key_len(key)] == 0,
    decreases key.len(),
{
    if key.len() > 0 && key[0] != 0 {
        let r = key.drop_first();
        lemma_key_len(r);
        assert forall|i: int| 0 <= i < key_len(key) implies key[i] != 0 by {
            if i > 0 {
                assert(key[i] == r[i - 1]);
            }
        }
        if key_len(key) < key.len() {
            assert(key[key_len(key)] == r[key_len(r)]);
        }
    }
}

/// A position with no 0 before it, at a 0 or at the end, is where the key
/// ends.
pub proof fn lemma_key_len_is(key: Seq<AlphaChar>, i: int)
    requires
        0 <= i <= key.len(),
        forall|j: int| 0 <= j < i ==> key[j] != 0,
        i == key.len() || key[i] == 0,
    ensures
        key_len(key) == i,
{
    lemma_key_len(key);
}

/// A key without a 0 is all of itself.
pub proof fn lemma_key_of_plain(key: Seq<AlphaChar>)
    requires
        forall|j: int| 0 <= j < key.len() ==> key[j] != 0,
    ensures
        key_of(key) == key,
        key_len(key) == key.len(),
{
    lemma_key_len_is(key, key.len() as int);
    assert(key.take(key.len() as int) =~= key);
}

/// The packed symbol of a character of the alphabet.
pub open spec fn sym_of(am: AlphaMap, ch: AlphaChar) -> TrieChar {
    am.spec_char_to_trie(ch).unwrap() as TrieChar
}

/// Whether every character of the key in `key` is in the alphabet.
pub open spec fn encodable(am: AlphaMap, key: Seq<AlphaChar>) -> bool {
    forall|j: int| 0 <= j < key_len(key) ==> am.spec_char_to_trie(#[trigger] key[j]) is Some
}

/// The packed symbols of the first `n` characters of `key`.
pub open spec fn syms_of(am: AlphaMap, key: Seq<AlphaChar>, n: int) -> Seq<TrieChar> {
    Seq::new(n as nat, |j: int| sym_of(am, key[j]))
}

/// The word of the key in `key`: its packed symbols and the terminator.
pub open spec fn word_of(am: AlphaMap, key: Seq<AlphaChar>) -> Seq<TrieChar> {
    syms_of(am, key, key_len(key)).push(TRIE_CHAR_TERM)
}

/// The word of an encodable key is a word, and it starts with the symbols
/// of the key's characters.
pub proof fn lemma_word_of(am: AlphaMap, key: Seq<AlphaChar>)
    requires
        am.wf(),
        encodable(am, key),
    ensures
        is_word(word_of(am, key)),
        word_of(am, key).len() == key_len(key) + 1,
        forall|i: int|
            0 <= i <= key_len(key) ==> #[trigger] word_of(am, key).take(i) == syms_of(am, key, i),
        forall|i: int| 0 <= i < key_len(key) ==> word_of(am, key)[i] == sym_of(am, key[i]),
{
    lemma_key_len(key);
    let w = word_of(am, key);
    assert forall|i: int| 0 <= i < w.len() - 1 implies w[i] != TRIE_CHAR_TERM by {
        am.lemma_symbols(key[i], key[i]);
    }
    assert forall|i: int| 0 <= i <= key_len(key) implies #[trigger] w.take(i) == syms_of(
        am,
        key,
        i,
    ) by {
        assert(w.take(i) =~= syms_of(am, key, i));
    }
}

/// Two encodable keys with the same word are the same key.
pub proof fn lemma_word_of_injective(am: AlphaMap, k1: Seq<AlphaChar>, k2: Seq<AlphaChar>)
    requires
        am.wf(),
        encodable(am, k1),
        encodable(am, k2),
        word_of(am, k1) == word_of(am, k2),
    ensures
        key_of(k1) == key_of(k2),
{
    lemma_key_len(k1);
    lemma_key_len(k2);
    lemma_word_of(am, k1);
    lemma_word_of(am, k2);
    let n = key_len(k1);
    assert(key_len(k2) == n);
    assert forall|i: int| 0 <= i < n implies k1[i] == k2[i] by {
        assert(word_of(am, k1)[i] == word_of(am, k2)[i]);
        assert(am.spec_char_to_trie(k1[i]) is Some);
        assert(am.spec_char_to_trie(k2[i]) is Some);
        am.lemma_symbols(k1[i], k1[i]);
        am.lemma_symbols(k2[i], k2[i]);
        assert(word_of(am, k1)[i] == syms_of(am, k1, n)[i]);
        assert(word_of(am, k2)[i] == syms_of(am, k2, n)[i]);
        assert(sym_of(am, k1[i]) == sym_of(am, k2[i]));
        assert(am.spec_char_to_trie(k1[i]).unwrap() == am.spec_char_to_trie(k2[i]).unwrap());
        am.lemma_symbols(k1[i], k2[i]);
    }
    assert(key_of(k1) =~= key_of(k2));
}

/// How far the key in `key` leads into a trie.
pub enum Located {
    /// A character of the key is not in the alphabet.
    NotInAlphabet,
    /// The branches end at `node`, before the character at `pos` of the key
    /// (the terminator, where `pos` is the length of the key).
    NoEdge { node: TrieIndex, pos: usize },
    /// The terminator of the key leads to `node`, which is not separate.
    Blocked { node: TrieIndex },
    /// The separate node `node` stands for the key from `pos` on (from
    /// behind its terminator, where `after_term` holds), and its tail entry
    /// holds something else.
    Mismatch { node: TrieIndex, pos: usize, after_term: bool },
    /// The separate node `node` stands for the key from `pos` on (from
    /// behind its terminator, where `after_term` holds), and its tail entry
    /// `tail` holds the rest of the key.
    Found { node: TrieIndex, tail: TrieIndex, pos: usize, after_term: bool },
}

/// The symbols that lead to the node which stands for the key from `pos`
/// on, or from behind its terminator.
pub open spec fn path_of(am: AlphaMap, key: Seq<AlphaChar>, pos: int, after_term: bool) -> Seq<
    TrieChar,
> {
    if after_term {
        word_of(am, key)
    } else {
        syms_of(am, key, pos)
    }
}

/// What `locate` says of the key in `key`.
pub open spec fn located_ok<T>(
    am: AlphaMap,
    c: Seq<DACell>,
    tl: Seq<TailEntry<T>>,
    key: Seq<AlphaChar>,
    r: Located,
) -> bool {
    match r {
        Located::NotInAlphabet => !encodable(am, key),
        Located::NoEdge { node, pos } => {
            &&& pos <= key_len(key)
            &&& forall|j: int| 0 <= j < pos ==> am.spec_char_to_trie(#[trigger] key[j]) is Some
            &&& pos < key_len(key) ==> am.spec_char_to_trie(key[pos as int]) is Some
            &&& reach(c, syms_of(am, key, pos as int)) == Some(node as int)
            &&& c[node as int].base >= 0
            &&& spec_walk(
                c,
                node as int,
                if pos < key_len(key) {
                    sym_of(am, key[pos as int])
                } else {
                    TRIE_CHAR_TERM
                },
            ) is None
        },
        Located::Blocked { node } => {
            &&& encodable(am, key)
            &&& reach(c, word_of(am, key)) == Some(node as int)
            &&& c[node as int].base >= 0
        },
        Located::Mismatch { node, pos, after_term } => {
            &&& pos <= key_len(key)
            &&& after_term ==> pos == key_len(key) && encodable(am, key)
            &&& forall|j: int| 0 <= j < pos ==> am.spec_char_to_trie(#[trigger] key[j]) is Some
            &&& reach(c, path_of(am, key, pos as int, after_term)) == Some(node as int)
            &&& c[node as int].base < 0
            &&& encodable(am, key) ==> !(tail_used(tl, -c[node as int].base) && tail_matches(
                tl[-(c[node as int].base as int)].suffix,
                word_of(am, key),
                path_of(am, key, pos as int, after_term).len() as int,
            ))
        },
        Located::Found { node, tail, pos, after_term } => {
            &&& pos <= key_len(key)
            &&& after_term ==> pos == key_len(key)
            &&& encodable(am, key)
            &&& reach(c, path_of(am, key, pos as int, after_term)) == Some(node as int)
            &&& c[node as int].base < 0
            &&& tail == -c[node as int].base
            &&& tail_used(tl, tail as int)
            &&& tail_matches(
                tl[tail as int].suffix,
                word_of(am, key),
                path_of(am, key, pos as int, after_term).len() as int,
            )
        },
    }
}

/// What `locate` says decides what the trie holds for the key.
pub proof fn lemma_located<T>(
    am: AlphaMap,
    c: Seq<DACell>,
    tl: Seq<TailEntry<T>>,
    key: Seq<AlphaChar>,
    r: Located,
)
    requires
        am.wf(),
        da_wf(c),
        located_ok(am, c, tl, key, r),
        encodable(am, key),
    ensures
        find(c, tl, word_of(am, key)) == (match r {
            Located::Found { node, tail, pos, after_term } => Some(tail as int),
            _ => None,
        }),
{
    let w = word_of(am, key);
    lemma_word_of(am, key);
    lemma_key_len(key);
    match r {
        Located::NotInAlphabet => {},
        Located::NoEdge { node, pos } => {
            let p = pos as int;
            assert(w.take(p) == syms_of(am, key, p));
            lemma_find_skip(c, tl, w, 0, p);
            assert(w.take(p + 1).drop_last() =~= w.take(p));
            assert(w.take(p + 1).last() == w[p]);
            if p < key_len(key) {
                assert(w[p] == sym_of(am, key[p]));
            }
            assert(reach(c, w.take(p + 1)) is None);
            lemma_find_none(c, tl, w, p + 1);
        },
        Located::Blocked { node } => {
            assert(w.take(w.len() as int) =~= w);
            lemma_find_skip(c, tl, w, 0, w.len() as int);
        },
        Located::Mismatch { node, pos, after_term } => {
            let m = path_of(am, key, pos as int, after_term).len() as int;
            assert(w.take(m) == path_of(am, key, pos as int, after_term)) by {
                if after_term {
                    assert(w.take(m) =~= w);
                } else {
                    assert(w.take(pos as int) == syms_of(am, key, pos as int));
                }
            }
            lemma_find_skip(c, tl, w, 0, m);
        },
        Located::Found { node, tail, pos, after_term } => {
            let m = path_of(am, key, pos as int, after_term).len() as int;
            assert(w.take(m) == path_of(am, key, pos as int, after_term)) by {
                if after_term {
                    assert(w.take(m) =~= w);
                } else {
                    assert(w.take(pos as int) == syms_of(am, key, pos as int));
                }
            }
            lemma_find_skip(c, tl, w, 0, m);
        },
    }
}

/// A trie that is only read.
pub struct ROTrie<TrieData> {
    alpha_map: AlphaMap,
    da: DArray,
    tail: Tail<TrieData>,
}

/// A trie: a map from keys over an alphabet to payloads.
pub struct Trie<TrieData> {
    ro: ROTrie<TrieData>,
    is_dirty: bool,
}

/// The invariant of the structure behind a trie.
pub open spec fn trie_wf<T>(c: Seq<DACell>, tl: Seq<TailEntry<T>>) -> bool {
    da_wf(c) && tail_wf(tl) && leaves_ok(c, tl) && entries_full(tl)
}

/// The payload of the key in `key`, if the trie holds it.
pub open spec fn spec_lookup<T>(
    am: AlphaMap,
    c: Seq<DACell>,
    tl: Seq<TailEntry<T>>,
    key: Seq<AlphaChar>,
) -> Option<T> {
    if encodable(am, key) {
        match find(c, tl, word_of(am, key)) {
            Some(t) => tl[t].data,
            None => None,
        }
    } else {
        None
    }
}

/// Pruning from a node that is not separate changes nothing of what is
/// found.
pub proof fn lemma_find_after_prune_all<T>(
    c: Seq<DACell>,
    tl: Seq<TailEntry<T>>,
    p: int,
    s: int,
    fuel: nat,
)
    requires
        da_wf(c),
        prunable(c, p, s) ==> c[s].base >= 0,
    ensures
        forall|w: Seq<TrieChar>|
            #[trigger] find(spec_prune_upto(c, p, s, fuel), tl, w) == find(c, tl, w),
{
    assert forall|w: Seq<TrieChar>|
        #[trigger] find(spec_prune_upto(c, p, s, fuel), tl, w) == find(c, tl, w) by {
        lemma_find_after_prune(c, tl, p, s, fuel, w);
    }
}

/// Whether a key is in the alphabet, and its word, depend on the key alone,
/// not on what follows its end.
pub proof fn lemma_same_key(am: AlphaMap, k1: Seq<AlphaChar>, k2: Seq<AlphaChar>)
    requires
        key_of(k1) == key_of(k2),
    ensures
        encodable(am, k1) == encodable(am, k2),
        word_of(am, k1) == word_of(am, k2),
        key_len(k1) == key_len(k2),
{
    lemma_key_len(k1);
    lemma_key_len(k2);
    let n = key_len(k1);
    assert(key_of(k1).len() == n);
    assert(key_len(k2) == n);
    assert forall|j: int| 0 <= j < n implies k1[j] == k2[j] by {
        assert(key_of(k1)[j] == k1[j]);
        assert(key_of(k2)[j] == k2[j]);
    }
    assert(syms_of(am, k1, n) =~= syms_of(am, k2, n));
    if encodable(am, k1) {
        assert forall|j: int| 0 <= j < key_len(k2) implies am.spec_char_to_trie(
            #[trigger] k2[j],
        ) is Some by {
            assert(am.spec_char_to_trie(k1[j]) is Some);
        }
    }
    if encodable(am, k2) {
        assert forall|j: int| 0 <= j < key_len(k1) implies am.spec_char_to_trie(
            #[trigger] k1[j],
        ) is Some by {
            assert(am.spec_char_to_trie(k2[j]) is Some);
        }
    }
}

/// After a key has been added, it has its payload, and every other key has
/// what it had.
pub proof fn lemma_lookup_added<T>(
    am: AlphaMap,
    c0: Seq<DACell>,
    tl0: Seq<TailEntry<T>>,
    c1: Seq<DACell>,
    tl1: Seq<TailEntry<T>>,
    key: Seq<AlphaChar>,
    t_new: int,
    data: T,
    k2: Seq<AlphaChar>,
)
    requires
        am.wf(),
        encodable(am, key),
        key_added(c0, tl0, c1, tl1, word_of(am, key), t_new, data),
    ensures
        spec_lookup(am, c1, tl1, k2) == (if key_of(k2) == key_of(key) {
            Some(data)
        } else {
            spec_lookup(am, c0, tl0, k2)
        }),
{
    if key_of(k2) == key_of(key) {
        lemma_same_key(am, k2, key);
        lemma_word_of(am, key);
    } else if encodable(am, k2) {
        lemma_word_of(am, k2);
        let w2 = word_of(am, k2);
        if w2 == word_of(am, key) {
            lemma_word_of_injective(am, k2, key);
        }
        assert(find(c1, tl1, w2) == find(c0, tl0, w2));
        if find(c0, tl0, w2) is Some {
            let k = lemma_find_witness(c0, tl0, w2, 0);
        }
    }
}

/// A trie that holds what another holds has the same payload for every
/// key.
pub proof fn lemma_lookup_kept<T>(
    am: AlphaMap,
    c0: Seq<DACell>,
    tl0: Seq<TailEntry<T>>,
    c1: Seq<DACell>,
    tl1: Seq<TailEntry<T>>,
    k2: Seq<AlphaChar>,
)
    requires
        am.wf(),
        map_kept(c0, tl0, c1, tl1),
    ensures
        spec_lookup(am, c1, tl1, k2) == spec_lookup(am, c0, tl0, k2),
{
    if encodable(am, k2) {
        lemma_word_of(am, k2);
        let w2 = word_of(am, k2);
        assert(find(c1, tl1, w2) == find(c0, tl0, w2));
        if find(c0, tl0, w2) is Some {
            let k = lemma_find_witness(c0, tl0, w2, 0);
        }
    }
}

/// After the tail entry that holds a key has been given a payload, the key
/// has that payload, and every other key has what it had.
pub proof fn lemma_lookup_overwritten<T>(
    am: AlphaMap,
    c: Seq<DACell>,
    tl0: Seq<TailEntry<T>>,
    tl1: Seq<TailEntry<T>>,
    key: Seq<AlphaChar>,
    t: int,
    data: T,
    k2: Seq<AlphaChar>,
)
    requires
        am.wf(),
        trie_wf(c, tl0),
        tail_wf(tl1),
        encodable(am, key),
        find(c, tl0, word_of(am, key)) == Some(t),
        tail_used(tl0, t),
        tl1 == tl0.update(
            t,
            TailEntry { next_free: tl0[t].next_free, suffix: tl0[t].suffix, data: Some(data) },
        ),
    ensures
        trie_wf(c, tl1),
        spec_lookup(am, c, tl1, k2) == (if key_of(k2) == key_of(key) {
            Some(data)
        } else {
            spec_lookup(am, c, tl0, k2)
        }),
{
    lemma_tail_change_leaves(c, tl0, tl1);
    assert(same_for_leaves(c, tl0, tl1));
    assert(entries_full(tl1)) by {
        assert forall|i: int| #[trigger] tail_used(tl1, i) implies tl1[i].data is Some by {
            assert(tail_used(tl0, i));
        }
    }
    lemma_word_of(am, key);
    lemma_find_tail_change(c, tl0, tl1, word_of(am, key));
    if key_of(k2) == key_of(key) {
        lemma_same_key(am, k2, key);
        assert(find(c, tl1, word_of(am, k2)) == Some(t));
        assert(tl1[t].data == Some(data));
    } else if encodable(am, k2) {
        lemma_word_of(am, k2);
        let w2 = word_of(am, k2);
        lemma_find_tail_change(c, tl0, tl1, w2);
        if find(c, tl0, w2) is Some {
            let k = lemma_find_witness(c, tl0, w2, 0);
            let t2 = find(c, tl0, w2).unwrap();
            if t2 == t {
                lemma_find_injective(c, tl0, w2, word_of(am, key));
                lemma_word_of_injective(am, k2, key);
            }
            assert(tl1[t2] == tl0[t2]);
        }
    }
}

/// After the separate node that holds a key has been cut off, its tail
/// entry emptied and the path pruned, the key is gone, and every other key
/// has what it had.
#[verifier::rlimit(80)]
#[verifier::spinoff_prover]
pub proof fn lemma_lookup_deleted<T>(
    am: AlphaMap,
    c0: Seq<DACell>,
    tl0: Seq<TailEntry<T>>,
    key: Seq<AlphaChar>,
    node: int,
    t: int,
    ux: Seq<TrieChar>,
    k2: Seq<AlphaChar>,
)
    requires
        am.wf(),
        trie_wf(c0, tl0),
        encodable(am, key),
        is_prefix(ux, word_of(am, key)),
        reach(c0, ux) == Some(node),
        c0[node].base == -t,
        t >= 1,
        tail_used(tl0, t),
        tail_matches(tl0[t].suffix, word_of(am, key), ux.len() as int),
    ensures
        trie_wf(
            spec_prune_upto(set_base_of(c0, node, 0), 2, node, c0.len()),
            spec_tail_delete(tl0, t),
        ),
        unreferenced(spec_prune_upto(set_base_of(c0, node, 0), 2, node, c0.len()), t),
        !tail_used(spec_tail_delete(tl0, t), t),
        find(c0, tl0, word_of(am, key)) == Some(t),
        spec_lookup(
            am,
            spec_prune_upto(set_base_of(c0, node, 0), 2, node, c0.len()),
            spec_tail_delete(tl0, t),
            k2,
        ) == (if key_of(k2) == key_of(key) {
            None
        } else {
            spec_lookup(am, c0, tl0, k2)
        }),
{
    let w0 = word_of(am, key);
    let c1 = set_base_of(c0, node, 0);
    let c2 = spec_prune_upto(c1, 2, node, c0.len());
    let tl1 = spec_tail_delete(tl0, t);
    let m = ux.len() as int;
    lemma_word_of(am, key);
    lemma_reach_is_node(c0, ux);
    lemma_tail_delete_wf(tl0, t);
    lemma_no_edge_without_base(c0, node, 0);
    assert(same_but_leaf(c0, c1, node));
    lemma_leaf_base_wf(c0, c1, node);
    lemma_prune_wf(c1, 2, node, c0.len());
    lemma_prune_nodes(c1, 2, node, c0.len());
    lemma_find_skip(c0, tl0, w0, 0, m);
    assert(find(c0, tl0, w0) == Some(t));
    // the separate nodes that are left point at entries that are left
    assert forall|x: int| #[trigger] is_node(c2, x) && c2[x].base < 0 implies tail_used(
        tl1,
        -c2[x].base,
    ) && tl1[-(c2[x].base as int)].data is Some && c2[x].base != -t by {
        assert(is_node(c1, x) && c2[x] == c1[x]);
        assert(x != node);
        assert(is_node(c0, x) && c1[x] == c0[x]);
        assert(is_node(c0, node));
        assert(tail_used(tl0, -c0[x].base));
    }
    assert forall|x: int, y: int|
        #[trigger] is_node(c2, x) && #[trigger] is_node(c2, y) && c2[x].base < 0 && c2[x].base
            == c2[y].base implies x == y by {
        assert(is_node(c1, x) && c2[x] == c1[x]);
        assert(is_node(c1, y) && c2[y] == c1[y]);
        assert(is_node(c0, x) && is_node(c0, y));
    }
    assert forall|x: int| #[trigger] is_node(c2, x) implies c2[x].base != -t by {
        if c2[x].base == -t {
        }
    }
    assert(same_for_leaves(c1, tl0, tl1)) by {
        assert forall|x: int| #[trigger] is_node(c1, x) && c1[x].base < 0 implies tail_used(
            tl0,
            -c1[x].base,
        ) == tail_used(tl1, -c1[x].base) && tl0[-(c1[x].base as int)].suffix == tl1[-(c1[x].base
            as int)].suffix by {
            assert(x != node);
            assert(is_node(c0, x) && c1[x] == c0[x]);
            assert(is_node(c0, node));
            assert(tail_used(tl0, -c0[x].base));
        }
    }
    if key_of(k2) == key_of(key) {
        lemma_same_key(am, k2, key);
    }
    if encodable(am, k2) {
        lemma_word_of(am, k2);
        let w2 = word_of(am, k2);
        lemma_find_after_prune(c1, tl1, 2, node, c0.len(), w2);
        lemma_find_tail_change(c1, tl0, tl1, w2);
        lemma_find_leaf_base(c0, c1, tl0, node, ux, w2);
        if w2 == w0 {
            lemma_word_of_injective(am, k2, key);
        } else {
            if is_prefix(ux, w2) {
                lemma_find_skip(c0, tl0, w2, 0, m);
                if tail_matches(tl0[t].suffix, w2, m) {
                    lemma_tail_matches_unique(tl0[t].suffix, w2, w0, m);
                }
            }
            if find(c0, tl0, w2) is Some {
                let k = lemma_find_witness(c0, tl0, w2, 0);
                if find(c0, tl0, w2) == Some(t) {
                    lemma_find_injective(c0, tl0, w2, w0);
                }
            }
        }
    }
}

/// Whether the second trie holds what the first holds: every word is found
/// as before, and every tail entry in use keeps its payload.
pub open spec fn map_kept<T>(
    c: Seq<DACell>,
    tl: Seq<TailEntry<T>>,
    c2: Seq<DACell>,
    tl2: Seq<TailEntry<T>>,
) -> bool {
    &&& trie_wf(c2, tl2)
    &&& forall|t: int| #[trigger] tail_used(tl, t) ==> tail_used(tl2, t) && tl2[t].data == tl[t].data
    &&& forall|w: Seq<TrieChar>| is_word(w) ==> #[trigger] find(c2, tl2, w) == find(c, tl, w)
}

/// Whether the second trie holds what the first holds and the word `w0`
/// besides, in the tail entry `t_new` with the payload `data`.
pub open spec fn key_added<T>(
    c: Seq<DACell>,
    tl: Seq<TailEntry<T>>,
    c2: Seq<DACell>,
    tl2: Seq<TailEntry<T>>,
    w0: Seq<TrieChar>,
    t_new: int,
    data: T,
) -> bool {
    &&& trie_wf(c2, tl2)
    &&& !tail_used(tl, t_new)
    &&& tail_used(tl2, t_new)
    &&& tl2[t_new].data == Some(data)
    &&& forall|t: int| #[trigger] tail_used(tl, t) ==> tail_used(tl2, t) && tl2[t].data == tl[t].data
    &&& forall|w: Seq<TrieChar>|
        is_word(w) ==> #[trigger] find(c2, tl2, w) == (if w == w0 {
            Some(t_new)
        } else {
            find(c, tl, w)
        })
}

/// A key added to a trie that holds what another holds is a key added to
/// that other; a trie that then holds as much holds what the other holds.
pub proof fn lemma_added_after_kept<T>(
    c0: Seq<DACell>,
    tl0: Seq<TailEntry<T>>,
    c3: Seq<DACell>,
    tl1: Seq<TailEntry<T>>,
    c4: Seq<DACell>,
    tl4: Seq<TailEntry<T>>,
    w0: Seq<TrieChar>,
    t_new: int,
    data: T,
    added: bool,
)
    requires
        forall|w: Seq<TrieChar>| is_word(w) ==> #[trigger] find(c3, tl1, w) == find(c0, tl0, w),
        forall|t: int| #[trigger] tail_used(tl0, t) ==> tail_used(tl1, t) && tl1[t].data == tl0[t].data,
        added ==> key_added(c3, tl1, c4, tl4, w0, t_new, data),
        !added ==> map_kept(c3, tl1, c4, tl4),
    ensures
        added ==> key_added(c0, tl0, c4, tl4, w0, t_new, data),
        !added ==> map_kept(c0, tl0, c4, tl4),
{
    if added {
        if tail_used(tl0, t_new) {
            assert(tail_used(tl1, t_new));
        }
        assert forall|t: int| #[trigger] tail_used(tl0, t) implies tail_used(tl4, t) && tl4[t].data
            == tl0[t].data by {
            assert(tail_used(tl1, t));
        }
        assert forall|w: Seq<TrieChar>| is_word(w) implies #[trigger] find(c4, tl4, w) == (if w
            == w0 {
            Some(t_new)
        } else {
            find(c0, tl0, w)
        }) by {
            assert(find(c3, tl1, w) == find(c0, tl0, w));
        }
    } else {
        assert forall|t: int| #[trigger] tail_used(tl0, t) implies tail_used(tl4, t) && tl4[t].data
            == tl0[t].data by {
            assert(tail_used(tl1, t));
        }
        assert forall|w: Seq<TrieChar>| is_word(w) implies #[trigger] find(c4, tl4, w) == find(
            c0,
            tl0,
            w,
        ) by {
            assert(find(c3, tl1, w) == find(c0, tl0, w));
        }
    }
}

/// The symbols that stand for the characters of keys over an alphabet with
/// the given ranges: from 1 up to the number of characters, but that the
/// symbol of the character 0, which no key holds, is not among them.
pub open spec fn symbols_of_ranges(ranges: Seq<(AlphaChar, AlphaChar)>) -> SymRange {
    SymRange {
        lo: if flatten_ranges(ranges).contains(0) {
            2
        } else {
            1
        },
        hi: flatten_ranges(ranges).len() as int,
    }
}

/// The symbols of the word of a key are symbols of characters of the
/// alphabet, but for the terminator at its end.
pub proof fn lemma_word_symbols(am: AlphaMap, key: Seq<AlphaChar>)
    requires
        am.wf(),
        encodable(am, key),
    ensures
        forall|j: int|
            0 <= j < key_len(key) ==> is_symbol(
                #[trigger] word_of(am, key)[j] as int,
                symbols_of_ranges(am.ranges()),
            ),
        suffix_in_alphabet(word_of(am, key), symbols_of_ranges(am.ranges())),
{
    let w = word_of(am, key);
    let r = symbols_of_ranges(am.ranges());
    lemma_word_of(am, key);
    lemma_key_len(key);
    assert forall|j: int| 0 <= j < key_len(key) implies is_symbol(#[trigger] w[j] as int, r) by {
        assert(am.spec_char_to_trie(key[j]) is Some);
        am.lemma_symbol_proper(key[j]);
        am.lemma_symbols(key[j], key[j]);
        assert(w[j] == sym_of(am, key[j]));
    }
    assert forall|i: int| 0 <= i < w.len() implies is_symbol_or_term(#[trigger] w[i] as int, r) by {
        if i < key_len(key) {
            assert(is_symbol(w[i] as int, r));
        }
    }
}

/// Whether the pool of cells has room for `n + 1` new children.
pub open spec fn room_for(c: Seq<DACell>, n: int) -> bool {
    c.len() + DA_BRANCH_GROWTH * n + 255 < TRIE_INDEX_MAX
}

/// Whether the tail pool has room for one more entry.
pub open spec fn tail_has_room<T>(tl: Seq<TailEntry<T>>) -> bool {
    tl[0].next_free != 0 || tl.len() < TRIE_INDEX_MAX
}

/// How a trie stands while the separate node that `u` leads to is split:
/// under it hangs a chain of new nodes, one for each of the first symbols
/// of its old suffix `sigma`. Until the first of them is there, the trie
/// holds what it held; from then on it holds nothing under `u`, and no
/// node points at the old tail entry.
#[verifier::opaque]
pub open spec fn tail_split_inv<T>(
    c0: Seq<DACell>,
    tl0: Seq<TailEntry<T>>,
    c: Seq<DACell>,
    u: Seq<TrieChar>,
    sigma: Seq<TrieChar>,
    chain: Seq<int>,
    t_old: int,
) -> bool {
    let q = chain.len() - 1;
    &&& da_wf(c)
    &&& leaves_ok(c, tl0)
    &&& chain_ok(c, chain)
    &&& is_node(c, chain[0])
    &&& q <= sigma.len()
    &&& reach(c, u) == Some(chain[0])
    &&& reach(c, u + sigma.take(q)) == Some(chain.last())
    &&& if q == 0 {
        &&& c[chain[0]].base == -t_old
        &&& forall|w: Seq<TrieChar>| #[trigger] find(c, tl0, w) == find(c0, tl0, w)
    } else {
        &&& c[chain.last()].base == 0
        &&& c[chain[0]].base > 0
        &&& unreferenced(c, t_old)
        &&& forall|w: Seq<TrieChar>|
            #[trigger] find(c, tl0, w) == (if is_prefix(u, w) {
                None
            } else {
                find(c0, tl0, w)
            })
    }
}

/// What a word finds once the old tail entry of a split node hangs under
/// the chain with the rest of its suffix: what it found before the split.
pub proof fn lemma_split_word<T>(
    c0: Seq<DACell>,
    tl0: Seq<TailEntry<T>>,
    u: Seq<TrieChar>,
    sigma: Seq<TrieChar>,
    old_rest: Seq<TrieChar>,
    q: int,
    sep: int,
    t_old: int,
    w: Seq<TrieChar>,
    found_mid: Option<int>,
    found_end: Option<int>,
)
    requires
        is_word(w),
        is_word(sigma),
        is_word(old_rest),
        0 <= q < sigma.len(),
        forall|i: int| 0 <= i < u.len() ==> u[i] != TRIE_CHAR_TERM,
        reach(c0, u) == Some(sep),
        c0[sep].base == -t_old,
        tail_used(tl0, t_old),
        tl0[t_old].suffix == Some(sigma),
        old_rest == (if sigma[q] != TRIE_CHAR_TERM {
            sigma.skip(q + 1)
        } else {
            seq![TRIE_CHAR_TERM]
        }),
        found_mid == (if is_prefix(u, w) {
            None
        } else {
            find(c0, tl0, w)
        }),
        found_end == (if is_prefix((u + sigma.take(q)).push(sigma[q]), w) && tail_matches(
            Some(old_rest),
            w,
            (u + sigma.take(q)).push(sigma[q]).len() as int,
        ) {
            Some(t_old)
        } else {
            found_mid
        }),
    ensures
        found_end == find(c0, tl0, w),
{
    let uq = u + sigma.take(q);
    let och = sigma[q];
    lemma_word_at_leaf(uq, och, old_rest, w);
    let full = if och == TRIE_CHAR_TERM {
        uq.push(och)
    } else {
        uq.push(och) + old_rest
    };
    if och == TRIE_CHAR_TERM {
        assert(q == sigma.len() - 1);
    }
    assert(full =~= u + sigma);
    if is_prefix(u, w) {
        lemma_find_skip(c0, tl0, w, 0, u.len() as int);
        if u.len() >= w.len() {
            assert(w.take(u.len() as int) =~= w);
            assert(u[u.len() - 1] == TRIE_CHAR_TERM);
        }
        if w == u + sigma {
            assert(w.skip(u.len() as int) =~= sigma);
        } else if tail_matches(tl0[t_old].suffix, w, u.len() as int) {
            assert(w =~= w.take(u.len() as int) + w.skip(u.len() as int));
        }
    } else {
        if w == u + sigma {
            assert(w.take(u.len() as int) =~= u);
        }
    }
}

/// The trie after the old tail entry of a split node has been given the
/// rest of its suffix and hangs under the last node of the chain: every
/// node has its shape.
pub proof fn lemma_split_shape<T>(
    c0: Seq<DACell>,
    tl0: Seq<TailEntry<T>>,
    c2: Seq<DACell>,
    tl1: Seq<TailEntry<T>>,
    c3: Seq<DACell>,
    u: Seq<TrieChar>,
    sigma: Seq<TrieChar>,
    old_rest: Seq<TrieChar>,
    longer: Seq<int>,
    t_old: int,
    n: SymRange,
)
    requires
        longer.len() >= 2,
        longer.len() - 2 < sigma.len(),
        t_old >= 1,
        tail_wf(tl0),
        tail_used(tl0, t_old),
        tail_split_inv(c0, tl0, c2, u, sigma, longer, t_old),
        shape_ok_but(c2, tl0, n, longer.last()),
        label_of(c2, longer.last()) == sigma[longer.len() - 2],
        suffix_in_alphabet(sigma, n),
        old_rest == (if sigma[longer.len() - 2] != TRIE_CHAR_TERM {
            sigma.skip(longer.len() - 1)
        } else {
            seq![TRIE_CHAR_TERM]
        }),
        tl1 == tl0.update(
            t_old,
            TailEntry { next_free: tl0[t_old].next_free, suffix: Some(old_rest), data: tl0[t_old].data },
        ),
        c3 == set_base_of(c2, longer.last(), (-t_old) as TrieIndex),
    ensures
        shape_ok(c3, tl1, n),
{
    reveal(tail_split_inv);
    let old_da = longer.last();
    assert(is_node(c2, old_da));
    assert forall|x: int|
        #[trigger] is_node(c2, x) && x != old_da && c2[x].base < 0 implies tl1[-(c2[x].base
        as int)].suffix == tl0[-(c2[x].base as int)].suffix by {
        assert(c2[x].base != -t_old);
    }
    lemma_shape_tail_change(c2, tl0, tl1, n, old_da);
    assert(same_but_leaf(c2, c3, old_da));
    assert forall|i: int| 0 <= i < old_rest.len() implies is_symbol_or_term(
        #[trigger] old_rest[i] as int,
        n,
    ) by {
        if sigma[longer.len() - 2] != TRIE_CHAR_TERM {
            assert(old_rest[i] == sigma[longer.len() - 1 + i]);
        }
    }
    lemma_shape_link(c2, c3, tl1, n, old_da);
}

/// The trie after the old tail entry of a split node has been given the
/// rest of its suffix and hangs under the last node of the chain: its
/// structure is in order, the node under which the suffixes part has the
/// one edge of the old suffix, and a word finds the old entry if it goes on
/// as the old suffix did, nothing else under `u`, and what it found before
/// elsewhere.
#[verifier::rlimit(100)]
#[verifier::spinoff_prover]
pub proof fn lemma_split_relinked_struct<T>(
    c0: Seq<DACell>,
    tl0: Seq<TailEntry<T>>,
    c2: Seq<DACell>,
    tl1: Seq<TailEntry<T>>,
    c3: Seq<DACell>,
    u: Seq<TrieChar>,
    sigma: Seq<TrieChar>,
    old_rest: Seq<TrieChar>,
    longer: Seq<int>,
    t_old: int,
    s: int,
)
    requires
        longer.len() >= 2,
        s == longer[longer.len() - 2],
        trie_wf(c0, tl0),
        reach(c0, u) == Some(longer[0]),
        c0[longer[0]].base == -t_old,
        t_old >= 1,
        tail_used(tl0, t_old),
        tl0[t_old].suffix == Some(sigma),
        tail_split_inv(c0, tl0, c2, u, sigma, longer, t_old),
        longer.len() - 2 < sigma.len(),
        tail_wf(tl1),
        tl1 == tl0.update(
            t_old,
            TailEntry { next_free: tl0[t_old].next_free, suffix: Some(old_rest), data: tl0[t_old].data },
        ),
        c3 == set_base_of(c2, longer.last(), (-t_old) as TrieIndex),
    ensures
        trie_wf(c3, tl1),
        forall|t: int| #[trigger] tail_used(tl0, t) ==> tail_used(tl1, t) && tl1[t].data == tl0[t].data,
        is_node(c3, s),
        c3[s].base > 0,
        reach(c3, u + sigma.take(longer.len() - 2)) == Some(s),
        forall|l: TrieChar| l != sigma[longer.len() - 2] ==> spec_walk(c3, s, l) is None,
        forall|w: Seq<TrieChar>|
            #[trigger] find(c3, tl1, w) == (if is_prefix(
                (u + sigma.take(longer.len() - 2)).push(sigma[longer.len() - 2]),
                w,
            ) && tail_matches(
                Some(old_rest),
                w,
                (u + sigma.take(longer.len() - 2)).push(sigma[longer.len() - 2]).len() as int,
            ) {
                Some(t_old)
            } else if is_prefix(u, w) {
                None
            } else {
                find(c0, tl0, w)
            }),
{
    reveal(tail_split_inv);
    let q = longer.len() - 2;
    let old_da = longer.last();
    let och = sigma[q];
    let uq = u + sigma.take(q);
    assert(old_da == longer[q + 1]);
    assert(is_node(c2, old_da));
    assert(c2[old_da].check == s);
    lemma_tail_change_leaves(c2, tl0, tl1);
    assert(same_for_leaves(c2, tl0, tl1));
    assert(entries_full(tl1)) by {
        assert forall|i: int| #[trigger] tail_used(tl1, i) implies tl1[i].data is Some by {
            assert(tail_used(tl0, i));
        }
    }
    assert(same_but_leaf(c2, c3, old_da));
    assert(u + sigma.take(q + 1) =~= uq.push(och));
    lemma_reach_is_node(c0, u);
    assert(is_node(c0, longer[0]));
    assert(tl0[t_old].data is Some);
    lemma_link_leaf(c2, c3, tl1, old_da, t_old, uq.push(och));
    assert(uq.push(och).drop_last() =~= uq);
    assert(reach(c2, uq) == Some(s));
    lemma_reach_leaf_base(c2, c3, old_da, uq);
    lemma_reach_is_node(c2, uq);
    assert(c3[s] == c2[s]);
    assert(c2[s].base > 0) by {
        assert(is_node(c2, 2));
        assert(parent_ok(c2, old_da));
    }
    assert forall|l: TrieChar| l != och implies spec_walk(c3, s, l) is None by {
        if spec_walk(c3, s, l) is Some {
            let t = spec_walk(c3, s, l).unwrap();
            lemma_child_is_node(c3, s, t);
            assert(c2[t].check == s);
            assert(is_node(c2, t));
            assert(c2[t].check == longer[q]);
            assert(t == longer[q + 1]);
            assert(spec_walk(c2, s, och) == Some(old_da));
        }
    }
    assert forall|w: Seq<TrieChar>|
        #[trigger] find(c3, tl1, w) == (if is_prefix(uq.push(och), w) && tail_matches(
            Some(old_rest),
            w,
            uq.push(och).len() as int,
        ) {
            Some(t_old)
        } else if is_prefix(u, w) {
            None
        } else {
            find(c0, tl0, w)
        }) by {
        lemma_find_tail_change(c2, tl0, tl1, w);
        assert(find(c2, tl0, w) == (if is_prefix(u, w) {
            None
        } else {
            find(c0, tl0, w)
        }));
    }
}

/// The trie after the old tail entry of a split node has been given the
/// rest of its suffix and hangs under the last node of the chain: it holds
/// what the trie held before the split, and the node under which the
/// suffixes part has the one edge of the old suffix.
pub proof fn lemma_split_relinked<T>(
    c0: Seq<DACell>,
    tl0: Seq<TailEntry<T>>,
    c2: Seq<DACell>,
    tl1: Seq<TailEntry<T>>,
    c3: Seq<DACell>,
    u: Seq<TrieChar>,
    sigma: Seq<TrieChar>,
    old_rest: Seq<TrieChar>,
    longer: Seq<int>,
    t_old: int,
    s: int,
)
    requires
        longer.len() >= 2,
        s == longer[longer.len() - 2],
        trie_wf(c0, tl0),
        reach(c0, u) == Some(longer[0]),
        c0[longer[0]].base == -t_old,
        t_old >= 1,
        forall|i: int| 0 <= i < u.len() ==> u[i] != TRIE_CHAR_TERM,
        tail_used(tl0, t_old),
        tl0[t_old].suffix == Some(sigma),
        tail_split_inv(c0, tl0, c2, u, sigma, longer, t_old),
        longer.len() - 2 < sigma.len(),
        is_word(old_rest),
        old_rest == (if sigma[longer.len() - 2] != TRIE_CHAR_TERM {
            sigma.skip(longer.len() - 1)
        } else {
            seq![TRIE_CHAR_TERM]
        }),
        tail_wf(tl1),
        tl1 == tl0.update(
            t_old,
            TailEntry { next_free: tl0[t_old].next_free, suffix: Some(old_rest), data: tl0[t_old].data },
        ),
        c3 == set_base_of(c2, longer.last(), (-t_old) as TrieIndex),
    ensures
        trie_wf(c3, tl1),
        forall|w: Seq<TrieChar>| is_word(w) ==> #[trigger] find(c3, tl1, w) == find(c0, tl0, w),
        forall|t: int| #[trigger] tail_used(tl0, t) ==> tail_used(tl1, t) && tl1[t].data == tl0[t].data,
        is_node(c3, s),
        c3[s].base > 0,
        reach(c3, u + sigma.take(longer.len() - 2)) == Some(s),
        forall|l: TrieChar| l != sigma[longer.len() - 2] ==> spec_walk(c3, s, l) is None,
{
    lemma_split_relinked_struct(c0, tl0, c2, tl1, c3, u, sigma, old_rest, longer, t_old, s);
    let q = longer.len() - 2;
    assert(is_word(sigma));
    assert forall|w: Seq<TrieChar>| is_word(w) implies #[trigger] find(c3, tl1, w) == find(
        c0,
        tl0,
        w,
    ) by {
        lemma_split_word(
            c0,
            tl0,
            u,
            sigma,
            old_rest,
            q,
            longer[0],
            t_old,
            w,
            if is_prefix(u, w) {
                None
            } else {
                find(c0, tl0, w)
            },
            find(c3, tl1, w),
        );
    }
}

impl<TrieData> ROTrie<TrieData> {
    /// The alphabet of the trie.
    pub closed spec fn alphabet(&self) -> AlphaMap {
        self.alpha_map
    }

    /// The cells of the double array.
    pub closed spec fn cells(&self) -> Seq<DACell> {
        self.da@
    }

    /// The entries of the tail pool.
    pub closed spec fn entries(&self) -> Seq<TailEntry<TrieData>> {
        self.tail@
    }

    /// The symbols that stand for the characters of the keys of the trie.
    pub open spec fn symbols(&self) -> SymRange {
        symbols_of_ranges(self.alphabet().ranges())
    }

    /// The invariant of the trie.
    pub open spec fn wf(&self) -> bool {
        &&& self.alphabet().wf()
        &&& trie_wf(self.cells(), self.entries())
        &&& shape_ok(self.cells(), self.entries(), self.symbols())
    }

    /// The payload of the key in `key`, if the trie holds it.
    pub open spec fn spec_retrieve(&self, key: Seq<AlphaChar>) -> Option<TrieData> {
        spec_lookup(self.alphabet(), self.cells(), self.entries(), key)
    }

    /// The tail entry that holds the key in `key`, if the trie holds it.
    pub open spec fn spec_tail_of(&self, key: Seq<AlphaChar>) -> Option<int> {
        if encodable(self.alphabet(), key) {
            find(self.cells(), self.entries(), word_of(self.alphabet(), key))
        } else {
            None
        }
    }

    /// The trie as a map from keys to payloads. A key is a string of
    /// characters other than 0.
    pub open spec fn to_map(&self) -> Map<Seq<AlphaChar>, TrieData> {
        Map::new(
            |k: Seq<AlphaChar>| key_of(k) == k && self.spec_retrieve(k) is Some,
            |k: Seq<AlphaChar>| self.spec_retrieve(k).unwrap(),
        )
    }

    /// What storing `data` under the key in `key` makes of the trie
    /// `before`, where `r` says whether the trie has changed: a key that is
    /// not in the alphabet is refused; a key that the trie holds gets the
    /// payload if `is_overwrite` holds, and is refused otherwise; after a
    /// change the key has the payload, and every other key has what it had.
    pub open spec fn stored(
        before: Self,
        after: Self,
        key: Seq<AlphaChar>,
        data: TrieData,
        is_overwrite: bool,
        r: bool,
    ) -> bool {
        &&& after.wf()
        &&& after.alphabet() == before.alphabet()
        &&& !encodable(before.alphabet(), key) ==> !r
        &&& before.spec_retrieve(key) is Some ==> r == is_overwrite
        &&& !encodable(before.alphabet(), key) || (before.spec_retrieve(key) is Some
            && !is_overwrite) ==> after == before
        &&& after.cells().len() <= before.cells().len() + DA_BRANCH_GROWTH * (key_len(key) + 2)
        &&& after.entries().len() <= before.entries().len() + 1
        &&& forall|k2: Seq<AlphaChar>|
            #[trigger] after.spec_retrieve(k2) == (if r && key_of(k2) == key_of(key) {
                Some(data)
            } else {
                before.spec_retrieve(k2)
            })
    }

    /// Whether a store of the key in `key` is owed success: the key is in
    /// the alphabet, and either the trie holds it and may overwrite it, or
    /// the trie does not hold it and the pools have room for it.
    pub open spec fn store_owed(&self, key: Seq<AlphaChar>, is_overwrite: bool) -> bool {
        &&& encodable(self.alphabet(), key)
        &&& if self.spec_retrieve(key) is Some {
            is_overwrite
        } else {
            &&& room_for(self.cells(), key_len(key) + 1)
            &&& key_len(key) <= TAIL_SUFFIX_MAX
            &&& tail_has_room(self.entries())
        }
    }

    /// What deleting the key in `key` makes of the trie `before`, where `r`
    /// says whether the trie held the key: the key is gone, every other key
    /// has what it had, and the tail entry that held the key is unused, with
    /// no node pointing at it.
    pub open spec fn deleted(before: Self, after: Self, key: Seq<AlphaChar>, r: bool) -> bool {
        &&& after.wf()
        &&& after.alphabet() == before.alphabet()
        &&& r == before.spec_retrieve(key) is Some
        &&& !r ==> after == before
        &&& after.cells().len() == before.cells().len()
        &&& after.entries().len() == before.entries().len()
        &&& forall|k2: Seq<AlphaChar>|
            #[trigger] after.spec_retrieve(k2) == (if key_of(k2) == key_of(key) {
                None
            } else {
                before.spec_retrieve(k2)
            })
        &&& before.spec_tail_of(key) matches Some(t) ==> !tail_used(after.entries(), t)
            && unreferenced(after.cells(), t)
    }

    /// An empty trie over the alphabet `alpha_map`.
    pub fn new(alpha_map: AlphaMap) -> (r: Self)
        requires
            alpha_map.wf(),
        ensures
            r.wf(),
            r.alphabet() == alpha_map,
            r.cells() == seq![
                DACell { base: DA_SIGNATURE_BASE, check: 3 },
                DACell { base: -1i32, check: -1i32 },
                DACell { base: DA_POOL_BEGIN, check: 0 },
            ],
            r.entries() == seq![TailEntry::<TrieData> { next_free: 0, suffix: None, data: None }],
            forall|key: Seq<AlphaChar>| r.spec_retrieve(key) is None,
            r.to_map() == Map::<Seq<AlphaChar>, TrieData>::empty(),
    {
        let r = ROTrie { alpha_map, da: DArray::new(), tail: Tail::new() };
        proof {
            let c = r.da@;
            let tl = r.tail@;
            assert forall|x: int| #[trigger] is_node(c, x) implies x == 2 by {}
            assert forall|key: Seq<AlphaChar>| r.spec_retrieve(key) is None by {
                if encodable(alpha_map, key) {
                    let w = word_of(alpha_map, key);
                    assert(w.take(0) =~= Seq::<TrieChar>::empty());
                    assert(w.take(1).drop_last() =~= w.take(0));
                    assert(spec_walk(c, 2, w.take(1).last()) is None);
                    lemma_find_none(c, tl, w, 1);
                }
            }
            assert(r.to_map() =~= Map::<Seq<AlphaChar>, TrieData>::empty());
        }
        r
    }

    /// Follows the key in `key` through the branches and, from the separate
    /// node it comes to, along the suffix in the tail.
    pub fn locate(&self, key: &[AlphaChar]) -> (r: Located)
        requires
            self.wf(),
        ensures
            located_ok(self.alphabet(), self.cells(), self.entries(), key@, r),
    {
        let ghost am = self.alpha_map;
        let ghost c = self.da@;
        let ghost tl = self.tail@;
        let mut s: TrieIndex = self.da.get_root();
        let mut i: usize = 0;
        let mut after_term: bool = false;
        proof {
            lemma_key_len(key@);
            assert(syms_of(am, key@, 0) =~= Seq::<TrieChar>::empty());
        }
        // through the branches
        loop
            invariant_except_break
                !after_term,
            invariant
                self.wf(),
                am == self.alpha_map,
                c == self.da@,
                tl == self.tail@,
                0 <= i <= key_len(key@) <= key@.len(),
                after_term ==> i == key_len(key@) && encodable(am, key@),
                forall|j: int| 0 <= j < i ==> am.spec_char_to_trie(#[trigger] key@[j]) is Some,
                forall|j: int| 0 <= j < key_len(key@) ==> key@[j] != 0,
                key_len(key@) < key@.len() ==> key@[key_len(key@)] == 0,
                reach(c, path_of(am, key@, i as int, after_term)) == Some(s as int),
            ensures
                c[s as int].base < 0 || after_term,
            decreases key_len(key@) - i,
        {
            if self.da.is_separate(s) {
                break ;
            }
            let ch: AlphaChar = if i < key.len() {
                key[i]
            } else {
                0
            };
            proof {
                if ch == 0 {
                    lemma_key_len_is(key@, i as int);
                }
                am.lemma_symbols(ch, ch);
                lemma_reach_is_node(c, syms_of(am, key@, i as int));
            }
            let tc: TrieIndex = match self.alpha_map.char_to_trie(ch) {
                Some(tc) => tc,
                None => {
                    return Located::NotInAlphabet;
                },
            };
            let next: TrieIndex = match self.da.walk(s, tc as TrieChar) {
                Some(t) => t,
                None => {
                    return Located::NoEdge { node: s, pos: i };
                },
            };
            proof {
                if ch == 0 {
                    assert(word_of(am, key@).drop_last() =~= syms_of(am, key@, i as int));
                    assert(word_of(am, key@).last() == TRIE_CHAR_TERM);
                } else {
                    assert(syms_of(am, key@, i + 1).drop_last() =~= syms_of(am, key@, i as int));
                    assert(syms_of(am, key@, i + 1).last() == sym_of(am, key@[i as int]));
                }
            }
            s = next;
            if ch == 0 {
                after_term = true;
                break ;
            }
            i = i + 1;
        }
        proof {
            lemma_reach_is_node(c, path_of(am, key@, i as int, after_term));
        }
        if !self.da.is_separate(s) {
            return Located::Blocked { node: s };
        }
        // along the suffix
        let t: TrieIndex = self.da.get_tail_index(s);
        let mut j: usize = i;
        let mut idx: i16 = 0;
        loop
            invariant
                self.wf(),
                am == self.alpha_map,
                c == self.da@,
                tl == self.tail@,
                0 <= i <= j <= key_len(key@) <= key@.len(),
                after_term ==> i == key_len(key@) && encodable(am, key@),
                forall|q: int| 0 <= q < j ==> am.spec_char_to_trie(#[trigger] key@[q]) is Some,
                forall|q: int| 0 <= q < key_len(key@) ==> key@[q] != 0,
                key_len(key@) < key@.len() ==> key@[key_len(key@)] == 0,
                reach(c, path_of(am, key@, i as int, after_term)) == Some(s as int),
                is_node(c, s as int),
                c[s as int].base < 0,
                t == (if c[s as int].base > i32::MIN {
                    (-c[s as int].base) as TrieIndex
                } else {
                    0
                }),
                idx == j - i,
                j > i ==> tail_used(tl, t as int),
                tail_used(tl, t as int) ==> idx <= tl[t as int].suffix.unwrap().len(),
                forall|q: int|
                    0 <= q < idx ==> tl[t as int].suffix.unwrap()[q] == sym_of(am, key@[i + q]),
            decreases key_len(key@) - j,
        {
            let ch: AlphaChar = if j < key.len() {
                key[j]
            } else {
                0
            };
            proof {
                if ch == 0 {
                    lemma_key_len_is(key@, j as int);
                }
                am.lemma_symbols(ch, ch);
            }
            let tc: TrieIndex = match self.alpha_map.char_to_trie(ch) {
                Some(tc) => tc,
                None => {
                    return Located::NotInAlphabet;
                },
            };
            proof {
                if encodable(am, key@) {
                    lemma_word_of(am, key@);
                    let w = word_of(am, key@);
                    if !after_term {
                        assert(w.skip(i as int)[idx as int] == w[j as int]);
                        if j < key_len(key@) {
                            assert(w[j as int] == sym_of(am, key@[j as int]));
                        }
                    }
                }
            }
            match self.tail.walk_char(t, idx, tc as TrieChar) {
                Some(n) => {
                    idx = n;
                },
                None => {
                    return Located::Mismatch { node: s, pos: i, after_term };
                },
            }
            if ch == 0 {
                proof {
                    let stored = tl[t as int].suffix.unwrap();
                    let w = word_of(am, key@);
                    assert(tail_used(tl, t as int));
                    assert(is_word(stored));
                    assert(stored[j - i] == TRIE_CHAR_TERM);
                    assert(stored.len() == j - i + 1);
                    assert(encodable(am, key@));
                    lemma_word_of(am, key@);
                    if after_term {
                        assert(stored =~= seq![TRIE_CHAR_TERM]);
                    } else {
                        assert forall|q: int| 0 <= q < stored.len() implies stored[q] == w.skip(
                            i as int,
                        )[q] by {
                            if q < j - i {
                                assert(w[i + q] == sym_of(am, key@[i + q]));
                            }
                        }
                        assert(stored =~= w.skip(i as int));
                    }
                }
                return Located::Found { node: s, tail: t, pos: i, after_term };
            }
            j = j + 1;
        }
    }

    /// The payload of the key in `key`, if the trie holds the key.
    pub fn retrieve(&self, key: &[AlphaChar]) -> (r: Option<&TrieData>)
        requires
            self.wf(),
        ensures
            match r {
                Some(d) => self.spec_retrieve(key@) == Some(*d),
                None => self.spec_retrieve(key@) is None,
            },
    {
        let found = self.locate(key);
        proof {
            if encodable(self.alpha_map, key@) {
                lemma_located(self.alpha_map, self.da@, self.tail@, key@, found);
            }
        }
        match found {
            Located::Found { node, tail, pos, after_term } => self.tail.get_data(tail),
            _ => None,
        }
    }

    /// Hangs the word that `u` and `suffix` make under the node `sep_node`,
    /// which `u` leads to and which has no edge for the first symbol of
    /// `suffix`: a new separate node under that symbol, and the rest of
    /// `suffix` in a new tail entry with the payload `data`.
    fn branch_in_branch(
        &mut self,
        sep_node: TrieIndex,
        suffix: &[TrieChar],
        data: TrieData,
        Ghost(u): Ghost<Seq<TrieChar>>,
    ) -> (r: (bool, Ghost<int>))
        requires
            old(self).wf(),
            is_node(old(self).cells(), sep_node as int),
            old(self).cells()[sep_node as int].base >= 0,
            reach(old(self).cells(), u) == Some(sep_node as int),
            is_word(suffix@),
            suffix_in_alphabet(suffix@, old(self).symbols()),
            spec_walk(old(self).cells(), sep_node as int, suffix@[0]) is None,
        ensures
            final(self).alphabet() == old(self).alphabet(),
            r.0 ==> key_added(
                old(self).cells(),
                old(self).entries(),
                final(self).cells(),
                final(self).entries(),
                u + suffix@,
                r.1@,
                data,
            ),
            !r.0 ==> map_kept(
                old(self).cells(),
                old(self).entries(),
                final(self).cells(),
                final(self).entries(),
            ),
            shape_ok(final(self).cells(), final(self).entries(), old(self).symbols()),
            final(self).cells().len() <= old(self).cells().len() + DA_BRANCH_GROWTH,
            final(self).entries().len() <= old(self).entries().len() + 1,
            room_for(old(self).cells(), 0) && suffix@.len() <= TAIL_SUFFIX_MAX + 1 && tail_has_room(
                old(self).entries(),
            ) ==> r.0,
    {
        let ghost c0 = self.da@;
        let ghost tl0 = self.tail@;
        let ghost n = self.symbols();
        let ch: TrieChar = suffix[0];
        let rest: &[TrieChar] = if ch != TRIE_CHAR_TERM {
            slice_subrange(suffix, 1, suffix.len())
        } else {
            suffix
        };
        proof {
            lemma_first_term(rest@);
            if ch != TRIE_CHAR_TERM {
                assert(is_word(rest@)) by {
                    assert forall|i: int| 0 <= i < rest@.len() - 1 implies rest@[i]
                        != TRIE_CHAR_TERM by {
                        assert(rest@[i] == suffix@[i + 1]);
                    }
                    assert(rest@.last() == suffix@.last());
                }
                assert forall|i: int| 0 <= i < rest@.len() implies is_symbol_or_term(
                    #[trigger] rest@[i] as int,
                    n,
                ) by {
                    assert(rest@[i] == suffix@[i + 1]);
                }
            } else {
                assert(suffix@.len() == 1);
                assert(rest@ =~= seq![TRIE_CHAR_TERM]);
            }
            assert(terminated(rest@) == rest@);
            assert(first_term(rest@) == rest@.len() - 1);
            assert(is_symbol_or_term(suffix@[0] as int, n));
        }
        if !self.tail.has_room_for(rest) {
            return (false, Ghost(0));
        }
        let new_da: TrieIndex = match self.da.insert_branch(sep_node, ch) {
            Some(nd) => nd,
            None => {
                proof {
                    lemma_grown_leaves(c0, self.da@, tl0, 1);
                    lemma_shape_grown(c0, self.da@, tl0, n, -1);
                    assert forall|w: Seq<TrieChar>| is_word(w) implies #[trigger] find(
                        self.da@,
                        tl0,
                        w,
                    ) == find(c0, tl0, w) by {
                        lemma_find_grown(c0, self.da@, tl0, w);
                    }
                }
                return (false, Ghost(0));
            },
        };
        let ghost c1 = self.da@;
        proof {
            lemma_branch_inserted_tree(c0, c1, sep_node as int, ch, new_da as int);
            lemma_insert_leaves(c0, c1, tl0, sep_node as int, ch, new_da as int, 1);
            lemma_reach_after_insert(c0, c1, sep_node as int, ch, new_da as int, u, u.push(ch));
            assert forall|w: Seq<TrieChar>| #[trigger] find(c1, tl0, w) == find(c0, tl0, w) by {
                lemma_find_after_insert(c0, c1, tl0, sep_node as int, ch, new_da as int, u, w);
            }
            assert(node_shape(c0, tl0, n, sep_node as int));
            lemma_shape_insert(c0, c1, tl0, n, sep_node as int, ch, new_da as int);
        }
        let new_tail: TrieIndex = self.tail.add_suffix(rest);
        let ghost tl1 = self.tail@;
        proof {
            lemma_add_suffix_wf(tl0, rest@);
            assert(tl1 == spec_add_suffix(tl0, rest@));
            assert(tl1.len() <= tl0.len() + 1);
        }
        self.tail.set_data(new_tail, data);
        let ghost tl2 = self.tail@;
        assert(tl2.len() == tl1.len());
        self.da.set_tail_index(new_da, new_tail);
        let ghost c2 = self.da@;
        proof {
            let t = new_tail as int;
            lemma_unused_unreferenced(c1, tl0, t);
            assert(entries_full(tl2)) by {
                assert forall|i: int| #[trigger] tail_used(tl2, i) implies tl2[i].data is Some by {
                    assert(tail_used(tl1, i));
                    if i != t {
                        assert(tail_used(tl0, i));
                    }
                }
            }
            lemma_tail_change_leaves(c1, tl0, tl2);
            assert(same_for_leaves(c1, tl0, tl2));
            assert(same_but_leaf(c1, c2, new_da as int)) by {
                assert(is_node(c1, new_da as int));
            }
            lemma_link_leaf(c1, c2, tl2, new_da as int, t, u.push(ch));
            assert forall|x: int|
                #[trigger] is_node(c1, x) && x != new_da && c1[x].base < 0 implies tl2[-(c1[x].base
                as int)].suffix == tl0[-(c1[x].base as int)].suffix by {
                assert(tail_used(tl0, -c1[x].base));
            }
            lemma_shape_tail_change(c1, tl0, tl2, n, new_da as int);
            lemma_shape_link(c1, c2, tl2, n, new_da as int);
            assert forall|w: Seq<TrieChar>| is_word(w) implies #[trigger] find(c2, tl2, w) == (if w
                == u + suffix@ {
                Some(t)
            } else {
                find(c0, tl0, w)
            }) by {
                lemma_find_tail_change(c1, tl0, tl2, w);
                lemma_word_at_leaf(u, ch, rest@, w);
                assert(find(c1, tl0, w) == find(c0, tl0, w));
                if ch == TRIE_CHAR_TERM {
                    assert(u + suffix@ =~= u.push(ch));
                } else {
                    assert(u + suffix@ =~= u.push(ch) + rest@);
                }
            }
        }
        (true, Ghost(new_tail as int))
    }

    /// Hangs one more node on the chain under a separate node that is being
    /// split: a child of the last node `s`, under the label `ch`.
    #[verifier::rlimit(60)]
    #[verifier::spinoff_prover]
    fn extend_chain(
        &mut self,
        s: TrieIndex,
        ch: TrieChar,
        Ghost(c0): Ghost<Seq<DACell>>,
        Ghost(u): Ghost<Seq<TrieChar>>,
        Ghost(sigma): Ghost<Seq<TrieChar>>,
        Ghost(chain): Ghost<Seq<int>>,
        Ghost(t_old): Ghost<int>,
    ) -> (r: Option<TrieIndex>)
        requires
            old(self).alphabet().wf(),
            tail_wf(old(self).entries()),
            tail_split_inv(c0, old(self).entries(), old(self).cells(), u, sigma, chain, t_old),
            s == chain.last(),
            chain.len() - 1 < sigma.len(),
            ch == sigma[chain.len() - 1],
            t_old >= 1,
            shape_ok_but(old(self).cells(), old(self).entries(), old(self).symbols(), s as int),
            forall|i: int| 0 <= i < u.len() ==> is_symbol(#[trigger] u[i] as int, old(self).symbols()),
            forall|i: int|
                0 <= i < chain.len() - 1 ==> is_symbol(
                    #[trigger] sigma[i] as int,
                    old(self).symbols(),
                ),
            is_symbol_or_term(ch as int, old(self).symbols()),
        ensures
            final(self).alphabet() == old(self).alphabet(),
            final(self).entries() == old(self).entries(),
            final(self).cells().len() <= old(self).cells().len() + DA_BRANCH_GROWTH,
            room_for(old(self).cells(), 0) ==> r is Some,
            match r {
                Some(nd) => shape_ok_but(
                    final(self).cells(),
                    old(self).entries(),
                    old(self).symbols(),
                    nd as int,
                ) && label_of(final(self).cells(), nd as int) == ch,
                None => shape_ok_but(
                    final(self).cells(),
                    old(self).entries(),
                    old(self).symbols(),
                    s as int,
                ),
            },
            match r {
                Some(nd) => tail_split_inv(
                    c0,
                    old(self).entries(),
                    final(self).cells(),
                    u,
                    sigma,
                    chain.push(nd as int),
                    t_old,
                ) && final(self).cells()[s as int].base > 0 && is_node(
                    final(self).cells(),
                    nd as int,
                ),
                None => tail_split_inv(
                    c0,
                    old(self).entries(),
                    final(self).cells(),
                    u,
                    sigma,
                    chain,
                    t_old,
                ),
            },
    {
        let ghost c = self.da@;
        let ghost tl0 = self.tail@;
        let ghost q = chain.len() - 1;
        let ghost uq = u + sigma.take(q);
        let ghost n = self.symbols();
        proof {
            reveal(tail_split_inv);
            assert(is_node(c, s as int)) by {
                lemma_reach_is_node(c, uq);
            }
            lemma_no_edge_without_base(c, s as int, ch);
            lemma_reach_label(c, uq);
            if uq.len() > 0 {
                if q > 0 {
                    assert(uq.last() == sigma[q - 1]);
                } else {
                    assert(uq =~= u);
                }
            }
        }
        match self.da.insert_branch(s, ch) {
            None => {
                proof {
                    let c1 = self.da@;
                    lemma_shape_grown(c, c1, tl0, n, s as int);
                    lemma_chain_grown(c, c1, chain);
                    lemma_grown_leaves(c, c1, tl0, t_old);
                    lemma_reach_grown(c, c1, u);
                    lemma_reach_grown(c, c1, uq);
                    assert forall|w: Seq<TrieChar>| #[trigger] find(c1, tl0, w) == find(c, tl0, w) by {
                        lemma_find_grown(c, c1, tl0, w);
                    }
                }
                None
            },
            Some(nd) => {
                proof {
                    let c1 = self.da@;
                    lemma_branch_inserted_tree(c, c1, s as int, ch, nd as int);
                    lemma_shape_insert(c, c1, tl0, n, s as int, ch, nd as int);
                    lemma_chain_extend(c, c1, chain, ch, nd as int);
                    lemma_insert_leaves(c, c1, tl0, s as int, ch, nd as int, t_old);
                    lemma_walk_after_insert(c, c1, s as int, ch, nd as int, chain[0], ch);
                    assert(moved(c, s as int, c1[s as int].base as int, chain[0]) == chain[0])
                        by {
                        if c[chain[0]].check == s {
                            assert(is_node(c, chain[0]));
                        }
                    }
                    lemma_reach_after_insert(c, c1, s as int, ch, nd as int, uq, u);
                    assert(u != uq.push(ch)) by {
                        assert(uq.push(ch).len() > u.len());
                    }
                    lemma_reach_after_insert(c, c1, s as int, ch, nd as int, uq, uq.push(ch));
                    assert(u + sigma.take(q + 1) =~= uq.push(ch));
                    assert(chain.push(nd as int).len() - 1 == q + 1);
                    assert(chain.push(nd as int).last() == nd);
                    assert(chain.push(nd as int)[0] == chain[0]);
                    if q == 0 {
                        assert(uq =~= u);
                    }
                    assert forall|w: Seq<TrieChar>|
                        #[trigger] find(c1, tl0, w) == (if is_prefix(u, w) {
                            None
                        } else {
                            find(c0, tl0, w)
                        }) by {
                        lemma_find_after_insert(c, c1, tl0, s as int, ch, nd as int, uq, w);
                        assert(find(c, tl0, w) == find(c, tl0, w));
                    }
                }
                Some(nd)
            },
        }
    }

    /// Undoes the split of a separate node: frees the chain that hangs under
    /// it, and points it at its tail entry again.
    fn rollback_split(
        &mut self,
        sep_node: TrieIndex,
        s: TrieIndex,
        old_tail: TrieIndex,
        Ghost(c0): Ghost<Seq<DACell>>,
        Ghost(u): Ghost<Seq<TrieChar>>,
        Ghost(sigma): Ghost<Seq<TrieChar>>,
        Ghost(chain): Ghost<Seq<int>>,
    )
        requires
            old(self).alphabet().wf(),
            tail_wf(old(self).entries()),
            trie_wf(c0, old(self).entries()),
            reach(c0, u) == Some(sep_node as int),
            c0[sep_node as int].base == -old_tail,
            old_tail >= 1,
            tail_split_inv(
                c0,
                old(self).entries(),
                old(self).cells(),
                u,
                sigma,
                chain,
                old_tail as int,
            ),
            sep_node == chain[0],
            s == chain.last(),
            shape_ok(c0, old(self).entries(), old(self).symbols()),
            shape_ok_but(old(self).cells(), old(self).entries(), old(self).symbols(), s as int),
            forall|i: int| 0 <= i < u.len() ==> is_symbol(#[trigger] u[i] as int, old(self).symbols()),
            forall|i: int|
                0 <= i < chain.len() - 1 ==> is_symbol(
                    #[trigger] sigma[i] as int,
                    old(self).symbols(),
                ),
        ensures
            final(self).alphabet() == old(self).alphabet(),
            map_kept(c0, old(self).entries(), final(self).cells(), final(self).entries()),
            shape_ok(final(self).cells(), final(self).entries(), old(self).symbols()),
            final(self).cells().len() == old(self).cells().len(),
            final(self).entries() == old(self).entries(),
    {
        let ghost c = self.da@;
        let ghost tl0 = self.tail@;
        let ghost t_old = old_tail as int;
        let ghost n = self.symbols();
        let ghost d = spec_prune_upto(c, sep_node as int, s as int, c.len());
        proof {
            reveal(tail_split_inv);
            lemma_reach_is_node(c0, u);
            assert(tail_used(tl0, t_old) && tl0[t_old].data is Some);
            lemma_prune_wf(c, sep_node as int, s as int, c.len());
            assert(node_shape(c0, tl0, n, sep_node as int));
            lemma_reach_label(c0, u);
            lemma_reach_label(c, u);
            if chain.len() >= 2 {
                let q = chain.len() - 1;
                let uq = u + sigma.take(q);
                lemma_reach_label(c, uq);
                assert(uq.last() == sigma[q - 1]);
                lemma_reach_is_node(c, uq);
                lemma_node_set_finite(c);
                lemma_shape_prune(c, tl0, n, sep_node as int, s as int, c.len());
                lemma_prune_chain(c, chain, c.len());
                lemma_reach_after_prune(c, sep_node as int, s as int, c.len(), u);
                lemma_prune_leaves(c, tl0, sep_node as int, s as int, c.len(), t_old);
                lemma_find_after_prune_all(c, tl0, sep_node as int, s as int, c.len());
            } else {
                assert(s == sep_node);
                assert(d == c);
            }
        }
        self.da.prune_upto(sep_node, s);
        self.da.set_tail_index(sep_node, old_tail);
        proof {
            let e = self.da@;
            if chain.len() >= 2 {
                assert(same_but_leaf(d, e, sep_node as int)) by {
                    assert forall|l: TrieChar| spec_walk(d, sep_node as int, l) is None by {
                        if spec_walk(d, sep_node as int, l) is Some {
                            let t = spec_walk(d, sep_node as int, l).unwrap();
                            lemma_child_is_node(d, sep_node as int, t);
                        }
                    }
                }
                lemma_link_leaf(d, e, tl0, sep_node as int, t_old, u);
                lemma_reach_label(d, u);
                lemma_shape_link(d, e, tl0, n, sep_node as int);
                assert forall|w: Seq<TrieChar>| #[trigger] find(e, tl0, w) == find(c0, tl0, w) by {
                    if is_prefix(u, w) {
                        lemma_find_skip(c0, tl0, w, 0, u.len() as int);
                    }
                    assert(find(d, tl0, w) == find(c, tl0, w));
                }
            } else {
                assert(e =~= c);
                assert(node_shape(c, tl0, n, sep_node as int));
            }
        }
    }

    /// Hangs the word that `u` and `suffix` make under the separate node
    /// `sep_node`, which `u` leads to and whose tail entry holds another
    /// suffix: as far as the two suffixes agree, nodes take their place;
    /// where they part, the old tail entry keeps the rest of the old suffix
    /// under one edge, and the new suffix hangs under another.
    fn branch_in_tail(
        &mut self,
        sep_node: TrieIndex,
        suffix: &[TrieChar],
        data: TrieData,
        Ghost(u): Ghost<Seq<TrieChar>>,
    ) -> (r: (bool, Ghost<int>))
        requires
            old(self).wf(),
            is_node(old(self).cells(), sep_node as int),
            old(self).cells()[sep_node as int].base < 0,
            reach(old(self).cells(), u) == Some(sep_node as int),
            forall|i: int| 0 <= i < u.len() ==> is_symbol(#[trigger] u[i] as int, old(self).symbols()),
            is_word(suffix@),
            suffix_in_alphabet(suffix@, old(self).symbols()),
            old(self).entries()[-(old(self).cells()[sep_node as int].base as int)].suffix != Some(
                suffix@,
            ),
        ensures
            shape_ok(final(self).cells(), final(self).entries(), old(self).symbols()),
            final(self).alphabet() == old(self).alphabet(),
            r.0 ==> key_added(
                old(self).cells(),
                old(self).entries(),
                final(self).cells(),
                final(self).entries(),
                u + suffix@,
                r.1@,
                data,
            ),
            !r.0 ==> map_kept(
                old(self).cells(),
                old(self).entries(),
                final(self).cells(),
                final(self).entries(),
            ),
            room_for(old(self).cells(), suffix@.len() as int) && suffix@.len() <= TAIL_SUFFIX_MAX
                + 1 && tail_has_room(old(self).entries()) ==> r.0,
            final(self).cells().len() <= old(self).cells().len() + DA_BRANCH_GROWTH * (suffix@.len()
                + 1),
            final(self).entries().len() <= old(self).entries().len() + 1,
    {
        let ghost c0 = self.da@;
        let ghost tl0 = self.tail@;
        let old_tail: TrieIndex = self.da.get_tail_index(sep_node);
        let ghost t_old = old_tail as int;
        let old_suffix: Vec<TrieChar> = match self.tail.get_suffix(old_tail) {
            Some(w) => slice_to_vec(w),
            None => {
                return (false, Ghost(0));
            },
        };
        let ghost sigma = old_suffix@;
        let ghost n = self.symbols();
        let mut s: TrieIndex = sep_node;
        let mut q: usize = 0;
        let ghost mut chain: Seq<int> = seq![sep_node as int];
        proof {
            reveal(tail_split_inv);
            assert(node_shape(c0, tl0, n, sep_node as int));
            assert(tail_used(tl0, t_old));
            assert(is_word(sigma) && sigma.len() <= TAIL_SUFFIX_MAX);
            assert(u + sigma.take(0) =~= u);
            assert(chain_ok(c0, chain));
        }
        while q < old_suffix.len() && q < suffix.len() && old_suffix[q] == suffix[q]
            invariant
                self.alphabet().wf(),
                self.alphabet() == old(self).alphabet(),
                self.entries() == tl0,
                trie_wf(c0, tl0),
                reach(c0, u) == Some(sep_node as int),
                c0[sep_node as int].base == -old_tail,
                old_tail >= 1,
                t_old == old_tail,
                c0 == old(self).cells(),
                tl0 == old(self).entries(),
                tail_split_inv(c0, tl0, self.cells(), u, sigma, chain, t_old),
                chain.len() == q + 1,
                s == chain.last(),
                sep_node == chain[0],
                sigma == old_suffix@,
                q <= sigma.len(),
                q <= suffix@.len(),
                sigma.take(q as int) == suffix@.take(q as int),
                self.cells().len() <= c0.len() + DA_BRANCH_GROWTH * q,
                n == self.symbols(),
                shape_ok(c0, tl0, n),
                shape_ok_but(self.cells(), tl0, n, s as int),
                forall|i: int| 0 <= i < u.len() ==> is_symbol(#[trigger] u[i] as int, n),
                forall|i: int| 0 <= i < q ==> is_symbol(#[trigger] sigma[i] as int, n),
                suffix_in_alphabet(sigma, n),
                suffix_in_alphabet(suffix@, n),
                is_word(sigma),
                is_word(suffix@),
                sigma != suffix@,
            decreases sigma.len() - q,
        {
            proof {
                assert(is_symbol_or_term(sigma[q as int] as int, n));
            }
            match self.extend_chain(
                s,
                old_suffix[q],
                Ghost(c0),
                Ghost(u),
                Ghost(sigma),
                Ghost(chain),
                Ghost(t_old),
            ) {
                None => {
                    self.rollback_split(
                        sep_node,
                        s,
                        old_tail,
                        Ghost(c0),
                        Ghost(u),
                        Ghost(sigma),
                        Ghost(chain),
                    );
                    return (false, Ghost(0));
                },
                Some(t) => {
                    s = t;
                    proof {
                        chain = chain.push(t as int);
                        assert(sigma.take(q + 1) =~= sigma.take(q as int).push(sigma[q as int]));
                        assert(suffix@.take(q + 1) =~= suffix@.take(q as int).push(
                            suffix@[q as int],
                        ));
                        // a symbol shared by both suffixes is not the last of either
                        if sigma[q as int] == TRIE_CHAR_TERM {
                            assert(q == sigma.len() - 1);
                            assert(q == suffix@.len() - 1);
                            assert(sigma =~= sigma.take(q + 1));
                            assert(suffix@ =~= suffix@.take(q + 1));
                        }
                    }
                },
            }
            q = q + 1;
        }
        proof {
            // the suffixes part before either ends
            if q >= sigma.len() {
                assert(sigma.take(q as int) =~= sigma);
                if q >= suffix@.len() {
                    assert(suffix@.take(q as int) =~= suffix@);
                } else {
                    assert(suffix@.take(q as int)[q - 1] == suffix@[q - 1]);
                    assert(sigma[q - 1] == TRIE_CHAR_TERM);
                }
            } else if q >= suffix@.len() {
                assert(suffix@.take(q as int) =~= suffix@);
                assert(sigma.take(q as int)[q - 1] == sigma[q - 1]);
                assert(suffix@[q - 1] == TRIE_CHAR_TERM);
            }
            assert(q < sigma.len() && q < suffix@.len() && sigma[q as int] != suffix@[q as int]);
        }
        self.split_at(
            sep_node,
            s,
            q,
            old_suffix.as_slice(),
            suffix,
            data,
            old_tail,
            Ghost(c0),
            Ghost(u),
            Ghost(chain),
        )
    }

    /// Ends the split of a separate node at the node `s`, where the old
    /// suffix and the new one part at their position `q`: the old tail
    /// entry hangs under one edge of `s` with the rest of its suffix, the
    /// new suffix under another.
    #[verifier::rlimit(100)]
    #[verifier::spinoff_prover]
    fn split_at(
        &mut self,
        sep_node: TrieIndex,
        s: TrieIndex,
        q: usize,
        old_suffix: &[TrieChar],
        suffix: &[TrieChar],
        data: TrieData,
        old_tail: TrieIndex,
        Ghost(c0): Ghost<Seq<DACell>>,
        Ghost(u): Ghost<Seq<TrieChar>>,
        Ghost(chain): Ghost<Seq<int>>,
    ) -> (r: (bool, Ghost<int>))
        requires
            old(self).alphabet().wf(),
            tail_wf(old(self).entries()),
            old_tail >= 1,
            tail_used(old(self).entries(), old_tail as int),
            old(self).entries()[old_tail as int].suffix == Some(old_suffix@),
            forall|i: int| 0 <= i < u.len() ==> u[i] != TRIE_CHAR_TERM,
            is_word(suffix@),
            trie_wf(c0, old(self).entries()),
            reach(c0, u) == Some(sep_node as int),
            c0[sep_node as int].base == -old_tail,
            tail_split_inv(
                c0,
                old(self).entries(),
                old(self).cells(),
                u,
                old_suffix@,
                chain,
                old_tail as int,
            ),
            chain.len() == q + 1,
            s == chain.last(),
            sep_node == chain[0],
            q < old_suffix@.len(),
            q < suffix@.len(),
            old_suffix@[q as int] != suffix@[q as int],
            old_suffix@.take(q as int) == suffix@.take(q as int),
            shape_ok(c0, old(self).entries(), old(self).symbols()),
            shape_ok_but(old(self).cells(), old(self).entries(), old(self).symbols(), s as int),
            forall|i: int| 0 <= i < u.len() ==> is_symbol(#[trigger] u[i] as int, old(self).symbols()),
            forall|i: int|
                0 <= i < q ==> is_symbol(#[trigger] old_suffix@[i] as int, old(self).symbols()),
            suffix_in_alphabet(old_suffix@, old(self).symbols()),
            suffix_in_alphabet(suffix@, old(self).symbols()),
        ensures
            shape_ok(final(self).cells(), final(self).entries(), old(self).symbols()),
            final(self).alphabet() == old(self).alphabet(),
            r.0 ==> key_added(
                c0,
                old(self).entries(),
                final(self).cells(),
                final(self).entries(),
                u + suffix@,
                r.1@,
                data,
            ),
            !r.0 ==> map_kept(
                c0,
                old(self).entries(),
                final(self).cells(),
                final(self).entries(),
            ),
            room_for(old(self).cells(), 1) && suffix@.len() - q <= TAIL_SUFFIX_MAX + 1
                && tail_has_room(old(self).entries()) ==> r.0,
            final(self).cells().len() <= old(self).cells().len() + 2 * DA_BRANCH_GROWTH,
            final(self).entries().len() <= old(self).entries().len() + 1,
    {
        let ghost tl0 = self.tail@;
        let ghost sigma = old_suffix@;
        let ghost t_old = old_tail as int;
        let ghost n = self.symbols();
        let och: TrieChar = old_suffix[q];
        proof {
            assert(is_symbol_or_term(sigma[q as int] as int, n));
            assert forall|i: int| 0 <= i < u.len() implies u[i] != TRIE_CHAR_TERM by {}
        }
        let old_da: TrieIndex = match self.extend_chain(
            s,
            och,
            Ghost(c0),
            Ghost(u),
            Ghost(sigma),
            Ghost(chain),
            Ghost(t_old),
        ) {
            None => {
                self.rollback_split(
                    sep_node,
                    s,
                    old_tail,
                    Ghost(c0),
                    Ghost(u),
                    Ghost(sigma),
                    Ghost(chain),
                );
                return (false, Ghost(0));
            },
            Some(t) => t,
        };
        let ghost c2 = self.da@;
        let ghost uq = u + sigma.take(q as int);
        let ghost longer = chain.push(old_da as int);
        let old_rest: &[TrieChar] = if och != TRIE_CHAR_TERM {
            slice_subrange(old_suffix, q + 1, old_suffix.len())
        } else {
            slice_subrange(old_suffix, q, old_suffix.len())
        };
        proof {
            assert(is_word(sigma) && sigma.len() <= TAIL_SUFFIX_MAX);
            if och != TRIE_CHAR_TERM {
                assert(is_word(old_rest@)) by {
                    assert forall|i: int| 0 <= i < old_rest@.len() - 1 implies old_rest@[i]
                        != TRIE_CHAR_TERM by {
                        assert(old_rest@[i] == sigma[q + 1 + i]);
                    }
                    assert(old_rest@.last() == sigma.last());
                }
            } else {
                assert(q == sigma.len() - 1);
                assert(old_rest@ =~= seq![TRIE_CHAR_TERM]);
            }
            lemma_first_term(old_rest@);
            assert(first_term(old_rest@) < TAIL_SUFFIX_MAX);
        }
        let ok = self.tail.set_suffix(old_tail, old_rest);
        let ghost tl1 = self.tail@;
        self.da.set_tail_index(old_da, old_tail);
        let ghost c3 = self.da@;
        let new_rest: &[TrieChar] = slice_subrange(suffix, q, suffix.len());
        proof {
            assert(ok);
            assert(longer.len() == q + 2 && longer[0] == sep_node && longer[q as int] == s);
            assert(longer.last() == old_da);
            lemma_split_relinked(
                c0,
                tl0,
                c2,
                tl1,
                c3,
                u,
                sigma,
                old_rest@,
                longer,
                t_old,
                s as int,
            );
            lemma_split_shape(c0, tl0, c2, tl1, c3, u, sigma, old_rest@, longer, t_old, n);
            assert forall|i: int| 0 <= i < new_rest@.len() implies is_symbol_or_term(
                #[trigger] new_rest@[i] as int,
                n,
            ) by {
                assert(new_rest@[i] == suffix@[q + i]);
            }
            assert(is_word(new_rest@)) by {
                assert forall|i: int| 0 <= i < new_rest@.len() - 1 implies new_rest@[i]
                    != TRIE_CHAR_TERM by {
                    assert(new_rest@[i] == suffix@[q + i]);
                }
                assert(new_rest@.last() == suffix@.last());
            }
            assert(uq + new_rest@ =~= u + suffix@) by {
                assert(suffix@ =~= suffix@.take(q as int) + suffix@.skip(q as int));
            }
        }
        let (added, t_new) = self.branch_in_branch(s, new_rest, data, Ghost(uq));
        proof {
            lemma_added_after_kept(
                c0,
                tl0,
                c3,
                tl1,
                self.da@,
                self.tail@,
                u + suffix@,
                t_new@,
                data,
                added,
            );
        }
        (added, t_new)
    }

    /// The word of the key in `key` from its position `pos` on, if the key
    /// is in the alphabet.
    fn rest_word(&self, key: &[AlphaChar], pos: usize) -> (r: Option<Vec<TrieChar>>)
        requires
            self.wf(),
            pos <= key_len(key@),
            forall|j: int|
                0 <= j < pos ==> self.alphabet().spec_char_to_trie(#[trigger] key@[j]) is Some,
        ensures
            match r {
                Some(v) => encodable(self.alphabet(), key@) && v@ == word_of(
                    self.alphabet(),
                    key@,
                ).skip(pos as int),
                None => !encodable(self.alphabet(), key@),
            },
    {
        let ghost am = self.alpha_map;
        proof {
            lemma_key_len(key@);
        }
        let mut n: usize = pos;
        while n < key.len() && key[n] != 0
            invariant
                pos <= n <= key_len(key@) <= key@.len(),
                forall|j: int| 0 <= j < key_len(key@) ==> key@[j] != 0,
                key_len(key@) < key@.len() ==> key@[key_len(key@)] == 0,
            decreases key@.len() - n,
        {
            n = n + 1;
        }
        proof {
            lemma_key_len_is(key@, n as int);
        }
        let sub = slice_subrange(key, pos, n);
        let r = self.alpha_map.char_to_trie_str(sub);
        proof {
            let w = word_of(am, key@);
            if am.spec_char_to_trie_str(sub@) is Some {
                assert forall|j: int| 0 <= j < key_len(key@) implies am.spec_char_to_trie(
                    #[trigger] key@[j],
                ) is Some by {
                    if j >= pos {
                        assert(sub@[j - pos] == key@[j]);
                    }
                }
                assert(r.unwrap()@ =~= w.skip(pos as int));
            } else {
                let i = choose|i: int|
                    0 <= i < sub@.len() && !(am.spec_char_to_trie(#[trigger] sub@[i]) is Some);
                assert(sub@[i] == key@[pos + i]);
            }
        }
        r
    }

    /// Stores `data` under the key in `key`, or, where the trie holds the
    /// key already, replaces its payload if `is_overwrite` says so. Says
    /// whether the trie has changed.
    fn store_in(&mut self, key: &[AlphaChar], data: TrieData, is_overwrite: bool) -> (r: bool)
        requires
            old(self).wf(),
        ensures
            Self::stored(*old(self), *final(self), key@, data, is_overwrite, r),
            old(self).store_owed(key@, is_overwrite) ==> r,
    {
        let ghost am = self.alpha_map;
        let ghost c0 = self.da@;
        let ghost tl0 = self.tail@;
        let found = self.locate(key);
        proof {
            lemma_key_len(key@);
            if encodable(am, key@) {
                lemma_located(am, c0, tl0, key@, found);
                lemma_word_of(am, key@);
            }
        }
        proof {
            // the terminator of a key leads to a separate node with the lone
            // terminator as its suffix
            if encodable(am, key@) {
                let w = word_of(am, key@);
                if reach(c0, w) is Some {
                    let x = reach(c0, w).unwrap();
                    lemma_reach_is_node(c0, w);
                    lemma_reach_label(c0, w);
                    assert(node_shape(c0, tl0, self.symbols(), x));
                    assert(tail_used(tl0, -c0[x].base));
                }
            }
        }
        match found {
            Located::NotInAlphabet => false,
            Located::Blocked { node } => false,
            Located::NoEdge { node, pos } => {
                let rest = match self.rest_word(key, pos) {
                    Some(v) => v,
                    None => {
                        return false;
                    },
                };
                let ghost u = syms_of(am, key@, pos as int);
                proof {
                    let w = word_of(am, key@);
                    lemma_word_of(am, key@);
                    lemma_word_symbols(am, key@);
                    lemma_reach_is_node(c0, u);
                    assert(w.take(pos as int) == u);
                    assert(u + rest@ =~= w);
                    assert(rest@[0] == w[pos as int]);
                    assert(is_word(rest@)) by {
                        assert forall|i: int| 0 <= i < rest@.len() - 1 implies rest@[i]
                            != TRIE_CHAR_TERM by {
                            assert(rest@[i] == w[pos + i]);
                        }
                        assert(rest@.last() == w.last());
                    }
                    assert forall|i: int| 0 <= i < rest@.len() implies is_symbol_or_term(
                        #[trigger] rest@[i] as int,
                        self.symbols(),
                    ) by {
                        assert(rest@[i] == w[pos + i]);
                    }
                }
                let (added, t_new) = self.branch_in_branch(node, rest.as_slice(), data, Ghost(u));
                proof {
                    assert forall|k2: Seq<AlphaChar>|
                        #[trigger] self.spec_retrieve(k2) == (if added && key_of(k2) == key_of(
                            key@,
                        ) {
                            Some(data)
                        } else {
                            old(self).spec_retrieve(k2)
                        }) by {
                        if added {
                            lemma_lookup_added(
                                am,
                                c0,
                                tl0,
                                self.da@,
                                self.tail@,
                                key@,
                                t_new@,
                                data,
                                k2,
                            );
                        } else {
                            lemma_lookup_kept(am, c0, tl0, self.da@, self.tail@, k2);
                        }
                    }
                }
                added
            },
            Located::Mismatch { node, pos, after_term } => {
                if after_term {
                    return false;
                }
                let rest = match self.rest_word(key, pos) {
                    Some(v) => v,
                    None => {
                        return false;
                    },
                };
                let ghost u = syms_of(am, key@, pos as int);
                proof {
                    let w = word_of(am, key@);
                    lemma_word_of(am, key@);
                    lemma_word_symbols(am, key@);
                    lemma_reach_is_node(c0, u);
                    assert(w.take(pos as int) == u);
                    assert(u + rest@ =~= w);
                    assert(is_word(rest@)) by {
                        assert forall|i: int| 0 <= i < rest@.len() - 1 implies rest@[i]
                            != TRIE_CHAR_TERM by {
                            assert(rest@[i] == w[pos + i]);
                        }
                        assert(rest@.last() == w.last());
                    }
                    assert forall|i: int| 0 <= i < rest@.len() implies is_symbol_or_term(
                        #[trigger] rest@[i] as int,
                        self.symbols(),
                    ) by {
                        assert(rest@[i] == w[pos + i]);
                    }
                    assert forall|i: int| 0 <= i < u.len() implies is_symbol(
                        #[trigger] u[i] as int,
                        self.symbols(),
                    ) by {
                        assert(u[i] == w[i]);
                    }
                    assert(tail_used(tl0, -c0[node as int].base));
                }
                let (added, t_new) = self.branch_in_tail(node, rest.as_slice(), data, Ghost(u));
                proof {
                    assert forall|k2: Seq<AlphaChar>|
                        #[trigger] self.spec_retrieve(k2) == (if added && key_of(k2) == key_of(
                            key@,
                        ) {
                            Some(data)
                        } else {
                            old(self).spec_retrieve(k2)
                        }) by {
                        if added {
                            lemma_lookup_added(
                                am,
                                c0,
                                tl0,
                                self.da@,
                                self.tail@,
                                key@,
                                t_new@,
                                data,
                                k2,
                            );
                        } else {
                            lemma_lookup_kept(am, c0, tl0, self.da@, self.tail@, k2);
                        }
                    }
                }
                added
            },
            Located::Found { node, tail, pos, after_term } => {
                proof {
                    lemma_reach_is_node(c0, path_of(am, key@, pos as int, after_term));
                    assert(tl0[tail as int].data is Some);
                }
                if !is_overwrite {
                    return false;
                }
                self.tail.set_data(tail, data);
                proof {
                    assert forall|k2: Seq<AlphaChar>|
                        #[trigger] self.spec_retrieve(k2) == (if key_of(k2) == key_of(key@) {
                            Some(data)
                        } else {
                            old(self).spec_retrieve(k2)
                        }) by {
                        lemma_lookup_overwritten(
                            am,
                            c0,
                            tl0,
                            self.tail@,
                            key@,
                            tail as int,
                            data,
                            k2,
                        );
                    }
                    lemma_lookup_overwritten(
                        am,
                        c0,
                        tl0,
                        self.tail@,
                        key@,
                        tail as int,
                        data,
                        key@,
                    );
                }
                true
            },
        }
    }

    /// Removes the key in `key` and its payload, and says whether the trie
    /// held the key.
    fn delete_in(&mut self, key: &[AlphaChar]) -> (r: bool)
        requires
            old(self).wf(),
        ensures
            Self::deleted(*old(self), *final(self), key@, r),
    {
        let ghost am = self.alpha_map;
        let ghost c0 = self.da@;
        let ghost tl0 = self.tail@;
        let found = self.locate(key);
        proof {
            if encodable(am, key@) {
                lemma_located(am, c0, tl0, key@, found);
                lemma_word_of(am, key@);
            }
        }
        match found {
            Located::Found { node, tail, pos, after_term } => {
                let ghost ux = path_of(am, key@, pos as int, after_term);
                proof {
                    lemma_reach_is_node(c0, ux);
                    let w = word_of(am, key@);
                    if after_term {
                        assert(w.take(w.len() as int) =~= w);
                    } else {
                        assert(w.take(pos as int) == ux);
                    }
                    assert(tl0[tail as int].data is Some);
                    assert forall|k2: Seq<AlphaChar>|
                        #[trigger] spec_lookup(
                            am,
                            spec_prune_upto(set_base_of(c0, node as int, 0), 2, node as int, c0.len()),
                            spec_tail_delete(tl0, tail as int),
                            k2,
                        ) == (if key_of(k2) == key_of(key@) {
                            None
                        } else {
                            spec_lookup(am, c0, tl0, k2)
                        }) by {
                        lemma_lookup_deleted(am, c0, tl0, key@, node as int, tail as int, ux, k2);
                    }
                    lemma_lookup_deleted(am, c0, tl0, key@, node as int, tail as int, ux, key@);
                    assert(same_but_leaf(c0, set_base_of(c0, node as int, 0), node as int)) by {
                        lemma_no_edge_without_base(c0, node as int, 0);
                    }
                    lemma_leaf_base_wf(c0, set_base_of(c0, node as int, 0), node as int);
                    // the shape of the nodes that are left
                    let n = self.symbols();
                    let c1 = set_base_of(c0, node as int, 0);
                    let tl1 = spec_tail_delete(tl0, tail as int);
                    lemma_shape_unlink(c0, c1, tl0, n, node as int);
                    lemma_tail_delete_wf(tl0, tail as int);
                    assert forall|x: int|
                        #[trigger] is_node(c1, x) && x != node && c1[x].base < 0 implies tl1[-(
                    c1[x].base as int)].suffix == tl0[-(c1[x].base as int)].suffix by {
                        assert(is_node(c0, x));
                        assert(is_node(c0, node as int));
                        assert(tail_used(tl0, -c0[x].base));
                    }
                    lemma_shape_tail_change(c1, tl0, tl1, n, node as int);
                    lemma_node_set_finite(c1);
                    assert(is_node(c1, node as int));
                    lemma_no_edge_without_base(c1, node as int, 0);
                    lemma_shape_prune_leaf(c1, tl1, n, node as int, c1.len());
                    lemma_prune_wf(c1, 2, node as int, c1.len());
                    assert(tl1.len() == tl0.len());
                }
                self.tail.delete(tail);
                self.da.set_base(node, 0);
                self.da.prune(node);
                true
            },
            _ => {
                proof {
                    assert forall|k2: Seq<AlphaChar>|
                        key_of(k2) == key_of(key@) implies old(self).spec_retrieve(k2) is None by {
                        lemma_same_key(am, k2, key@);
                    }
                }
                false
            },
        }
    }
}

/// The key in `key` is itself a key: what is before its first 0 has no 0.
pub proof fn lemma_key_of_idempotent(key: Seq<AlphaChar>)
    ensures
        key_of(key_of(key)) == key_of(key),
{
    lemma_key_len(key);
    let k = key_of(key);
    assert forall|j: int| 0 <= j < k.len() implies k[j] != 0 by {
        assert(k[j] == key[j]);
    }
    lemma_key_of_plain(k);
}

/// A trie after a store is, as a map, the trie before with the key mapped
/// to the payload, if the store changed it, and the trie before, if not.
pub proof fn lemma_stored_map<T>(
    before: ROTrie<T>,
    after: ROTrie<T>,
    key: Seq<AlphaChar>,
    data: T,
    is_overwrite: bool,
    r: bool,
)
    requires
        ROTrie::stored(before, after, key, data, is_overwrite, r),
    ensures
        after.to_map() == (if r {
            before.to_map().insert(key_of(key), data)
        } else {
            before.to_map()
        }),
{
    lemma_key_of_idempotent(key);
    let expect = if r {
        before.to_map().insert(key_of(key), data)
    } else {
        before.to_map()
    };
    assert forall|k: Seq<AlphaChar>| after.to_map().dom().contains(k) == expect.dom().contains(
        k,
    ) by {
        assert(after.spec_retrieve(k) == (if r && key_of(k) == key_of(key) {
            Some(data)
        } else {
            before.spec_retrieve(k)
        }));
        if r && k == key_of(key) {
            assert(key_of(k) == k);
        }
    }
    assert forall|k: Seq<AlphaChar>| after.to_map().dom().contains(k) implies after.to_map()[k]
        == expect[k] by {
        assert(after.spec_retrieve(k) == (if r && key_of(k) == key_of(key) {
            Some(data)
        } else {
            before.spec_retrieve(k)
        }));
    }
    assert(after.to_map() =~= expect);
}

/// A trie after a delete is, as a map, the trie before without the key.
pub proof fn lemma_deleted_map<T>(before: ROTrie<T>, after: ROTrie<T>, key: Seq<AlphaChar>, r: bool)
    requires
        ROTrie::deleted(before, after, key, r),
    ensures
        after.to_map() == before.to_map().remove(key_of(key)),
{
    lemma_key_of_idempotent(key);
    let expect = before.to_map().remove(key_of(key));
    assert forall|k: Seq<AlphaChar>| after.to_map().dom().contains(k) == expect.dom().contains(
        k,
    ) by {
        assert(after.spec_retrieve(k) == (if key_of(k) == key_of(key) {
            None
        } else {
            before.spec_retrieve(k)
        }));
    }
    assert forall|k: Seq<AlphaChar>| after.to_map().dom().contains(k) implies after.to_map()[k]
        == expect[k] by {
        assert(after.spec_retrieve(k) == (if key_of(k) == key_of(key) {
            None
        } else {
            before.spec_retrieve(k)
        }));
    }
    assert(after.to_map() =~= expect);
}

/// A key that has been stored is retrieved with the payload it was stored
/// with.
pub proof fn law_store_then_retrieve<T>(
    before: ROTrie<T>,
    after: ROTrie<T>,
    key: Seq<AlphaChar>,
    data: T,
)
    requires
        ROTrie::stored(before, after, key, data, true, true),
    ensures
        after.spec_retrieve(key) == Some(data),
        after.to_map().contains_key(key_of(key)),
        after.to_map()[key_of(key)] == data,
{
    lemma_key_of_idempotent(key);
    assert(after.spec_retrieve(key) == Some(data));
    assert(after.spec_retrieve(key_of(key)) == Some(data));
}

/// Of two payloads stored under one key, the second is retrieved.
pub proof fn law_store_twice<T>(
    t0: ROTrie<T>,
    t1: ROTrie<T>,
    t2: ROTrie<T>,
    key: Seq<AlphaChar>,
    first: T,
    second: T,
    r2: bool,
)
    requires
        ROTrie::stored(t0, t1, key, first, true, true),
        ROTrie::stored(t1, t2, key, second, true, r2),
    ensures
        r2,
        t2.spec_retrieve(key) == Some(second),
{
    assert(t1.spec_retrieve(key) == Some(first));
    assert(t2.spec_retrieve(key) == (if r2 {
        Some(second)
    } else {
        t1.spec_retrieve(key)
    }));
}

/// Storing under a key that the trie holds, without leave to overwrite,
/// changes nothing: the first payload is retrieved.
pub proof fn law_store_if_absent_keeps<T>(
    t0: ROTrie<T>,
    t1: ROTrie<T>,
    t2: ROTrie<T>,
    key: Seq<AlphaChar>,
    first: T,
    second: T,
    r2: bool,
)
    requires
        ROTrie::stored(t0, t1, key, first, true, true),
        ROTrie::stored(t1, t2, key, second, false, r2),
    ensures
        !r2,
        t2.spec_retrieve(key) == Some(first),
        t2.to_map() == t1.to_map(),
{
    assert(t1.spec_retrieve(key) == Some(first));
    assert(t2.spec_retrieve(key) == t1.spec_retrieve(key));
    lemma_stored_map(t1, t2, key, second, false, r2);
}

/// A key that has been stored and deleted is not retrieved, its tail entry
/// is unused, and no node points at that entry.
pub proof fn law_store_then_delete<T>(
    t0: ROTrie<T>,
    t1: ROTrie<T>,
    t2: ROTrie<T>,
    key: Seq<AlphaChar>,
    data: T,
    r: bool,
)
    requires
        ROTrie::stored(t0, t1, key, data, true, true),
        ROTrie::deleted(t1, t2, key, r),
    ensures
        r,
        t2.spec_retrieve(key) is None,
        t1.spec_tail_of(key) is Some,
        !tail_used(t2.entries(), t1.spec_tail_of(key).unwrap()),
        unreferenced(t2.cells(), t1.spec_tail_of(key).unwrap()),
{
    assert(t1.spec_retrieve(key) == Some(data));
    assert(t2.spec_retrieve(key) is None);
}

impl<TrieData> Trie<TrieData> {
    /// The trie without the mark that says whether it has changed.
    pub closed spec fn inner(&self) -> ROTrie<TrieData> {
        self.ro
    }

    /// Whether the trie has changed since it was read or written.
    pub closed spec fn dirty(&self) -> bool {
        self.is_dirty
    }

    /// The invariant of the trie.
    pub open spec fn wf(&self) -> bool {
        self.inner().wf()
    }

    /// The payload of the key in `key`, if the trie holds it.
    pub open spec fn spec_retrieve(&self, key: Seq<AlphaChar>) -> Option<TrieData> {
        self.inner().spec_retrieve(key)
    }

    /// The trie as a map from keys to payloads.
    pub open spec fn to_map(&self) -> Map<Seq<AlphaChar>, TrieData> {
        self.inner().to_map()
    }

    /// An empty trie over the alphabet `alpha_map`.
    pub fn new(alpha_map: AlphaMap) -> (r: Self)
        requires
            alpha_map.wf(),
        ensures
            r.wf(),
            r.dirty(),
            r.inner().alphabet() == alpha_map,
            r.inner().cells() == seq![
                DACell { base: DA_SIGNATURE_BASE, check: 3 },
                DACell { base: -1i32, check: -1i32 },
                DACell { base: DA_POOL_BEGIN, check: 0 },
            ],
            r.inner().entries() == seq![
                TailEntry::<TrieData> { next_free: 0, suffix: None, data: None },
            ],
            forall|key: Seq<AlphaChar>| r.inner().spec_retrieve(key) is None,
            r.to_map() == Map::<Seq<AlphaChar>, TrieData>::empty(),
    {
        Trie { ro: ROTrie::new(alpha_map), is_dirty: true }
    }

    /// A trie that can be changed, from one that is only read.
    pub fn from_ro(ro: ROTrie<TrieData>) -> (r: Self)
        ensures
            r.inner() == ro,
            r.dirty(),
    {
        Trie { ro, is_dirty: true }
    }

    /// The trie as one that is only read.
    pub fn into_ro(self) -> (r: ROTrie<TrieData>)
        ensures
            r == self.inner(),
    {
        self.ro
    }

    /// Whether the trie has changed since it was read or written.
    pub fn is_dirty(&self) -> (r: bool)
        ensures
            r == self.dirty(),
    {
        self.is_dirty
    }

    /// Stores `data` under the key in `key`, in place of the payload the
    /// key has if it has one. Says whether it did; a key with a character
    /// outside the alphabet is refused.
    pub fn store(&mut self, key: &[AlphaChar], data: TrieData) -> (r: bool)
        requires
            old(self).wf(),
        ensures
            ROTrie::stored(old(self).inner(), final(self).inner(), key@, data, true, r),
            old(self).inner().store_owed(key@, true) ==> r,
            final(self).to_map() == (if r {
                old(self).to_map().insert(key_of(key@), data)
            } else {
                old(self).to_map()
            }),
            final(self).dirty() == (r || old(self).dirty()),
    {
        self.store_conditionally(key, data, true)
    }

    /// Stores `data` under the key in `key` unless the trie holds the key.
    /// Says whether it did.
    pub fn store_if_absent(&mut self, key: &[AlphaChar], data: TrieData) -> (r: bool)
        requires
            old(self).wf(),
        ensures
            ROTrie::stored(old(self).inner(), final(self).inner(), key@, data, false, r),
            old(self).inner().store_owed(key@, false) ==> r,
            final(self).to_map() == (if r {
                old(self).to_map().insert(key_of(key@), data)
            } else {
                old(self).to_map()
            }),
            final(self).dirty() == (r || old(self).dirty()),
    {
        self.store_conditionally(key, data, false)
    }

    /// Stores `data` under the key in `key`; where the trie holds the key,
    /// only if `is_overwrite` says so.
    fn store_conditionally(&mut self, key: &[AlphaChar], data: TrieData, is_overwrite: bool) -> (r:
        bool)
        requires
            old(self).wf(),
        ensures
            ROTrie::stored(old(self).inner(), final(self).inner(), key@, data, is_overwrite, r),
            old(self).inner().store_owed(key@, is_overwrite) ==> r,
            final(self).to_map() == (if r {
                old(self).to_map().insert(key_of(key@), data)
            } else {
                old(self).to_map()
            }),
            final(self).dirty() == (r || old(self).dirty()),
    {
        let r = self.ro.store_in(key, data, is_overwrite);
        proof {
            lemma_stored_map(old(self).inner(), self.inner(), key@, data, is_overwrite, r);
        }
        if r {
            self.is_dirty = true;
        }
        r
    }

    /// The payload of the key in `key`, if the trie holds the key.
    pub fn retrieve(&self, key: &[AlphaChar]) -> (r: Option<&TrieData>)
        requires
            self.wf(),
        ensures
            match r {
                Some(d) => self.spec_retrieve(key@) == Some(*d),
                None => self.spec_retrieve(key@) is None,
            },
    {
        self.ro.retrieve(key)
    }

    /// Removes the key in `key` and its payload, and says whether the trie
    /// held the key.
    pub fn delete(&mut self, key: &[AlphaChar]) -> (r: bool)
        requires
            old(self).wf(),
        ensures
            ROTrie::deleted(old(self).inner(), final(self).inner(), key@, r),
            final(self).to_map() == old(self).to_map().remove(key_of(key@)),
            final(self).dirty() == (r || old(self).dirty()),
    {
        let r = self.ro.delete_in(key);
        proof {
            lemma_deleted_map(old(self).inner(), self.inner(), key@, r);
        }
        if r {
            self.is_dirty = true;
        }
        r
    }
}

/// The three parts of a trie: the ranges of its alphabet, the cells of its
/// double array, and the entries of its tail pool.
pub ghost struct TrieParts<T> {
    pub ranges: Seq<(AlphaChar, AlphaChar)>,
    pub cells: Seq<DACell>,
    pub entries: Seq<TailEntry<T>>,
}

/// The serialized form of a trie: its alphabet, its double array and its
/// tail pool, one after the other.
pub open spec fn trie_bytes<T: TrieSerializable>(p: TrieParts<T>) -> Seq<u8> {
    alpha_map_bytes(p.ranges) + cells_bytes(p.cells) + tail_bytes(p.entries)
}

/// What reading a trie from the front of `bytes` gives: its parts and the
/// number of bytes they took, or the reason for which it is refused.
pub open spec fn spec_read_trie<T: TrieDeserializable>(bytes: Seq<u8>) -> Result<
    (TrieParts<T>, int),
    TrieError,
> {
    match spec_read_alpha_map(bytes) {
        Err(e) => Err(e),
        Ok((ranges, n1)) => match spec_read_darray(bytes.skip(n1)) {
            Err(e) => Err(e),
            Ok((cells, n2)) => match spec_read_tail::<T>(bytes.skip(n1 + n2)) {
                Err(e) => Err(e),
                Ok((entries, n3)) => if leaves_ok(cells, entries) && entries_full(entries)
                    && shape_ok(cells, entries, symbols_of_ranges(ranges)) {
                    Ok((TrieParts { ranges, cells, entries }, n1 + n2 + n3))
                } else {
                    Err(TrieError::InvalidStructure)
                },
            },
        },
    }
}

/// A trie whose three parts are read one after the other is read.
pub proof fn lemma_trie_read_parts<T: TrieDeserializable>(
    bytes: Seq<u8>,
    p: TrieParts<T>,
    n1: int,
    n2: int,
    n3: int,
)
    requires
        spec_read_alpha_map(bytes) == Ok::<(Seq<(AlphaChar, AlphaChar)>, int), TrieError>(
            (p.ranges, n1),
        ),
        spec_read_darray(bytes.skip(n1)) == Ok::<(Seq<DACell>, int), TrieError>((p.cells, n2)),
        spec_read_tail::<T>(bytes.skip(n1 + n2)) == Ok::<(Seq<TailEntry<T>>, int), TrieError>(
            (p.entries, n3),
        ),
        leaves_ok(p.cells, p.entries),
        entries_full(p.entries),
        shape_ok(p.cells, p.entries, symbols_of_ranges(p.ranges)),
    ensures
        spec_read_trie::<T>(bytes) == Ok::<(TrieParts<T>, int), TrieError>((p, n1 + n2 + n3)),
{
}

/// Three byte strings and a rest, and what is left of them after the
/// first, and after the first two.
pub proof fn lemma_three_parts(a: Seq<u8>, d: Seq<u8>, t: Seq<u8>, rest: Seq<u8>)
    ensures
        a + d + t + rest == a + (d + t + rest),
        (a + d + t + rest).skip(a.len() as int) == d + (t + rest),
        (a + d + t + rest).skip((a.len() + d.len()) as int) == t + rest,
        (a + d + t).len() == a.len() + d.len() + t.len(),
{
    assert(a + d + t + rest =~= a + (d + t + rest));
    assert((a + d + t + rest).skip(a.len() as int) =~= d + (t + rest));
    assert((a + d + t + rest).skip((a.len() + d.len()) as int) =~= t + rest);
}

/// Reading what a well-formed trie was serialized to gives its parts back,
/// and stops where the serialized trie ends.
pub proof fn lemma_trie_round_trip<T: TrieSerializable + TrieDeserializable>(
    p: TrieParts<T>,
    rest: Seq<u8>,
)
    requires
        ranges_valid(p.ranges),
        trie_wf(p.cells, p.entries),
        shape_ok(p.cells, p.entries, symbols_of_ranges(p.ranges)),
        payload_round_trips::<T>(),
    ensures
        spec_read_trie::<T>(trie_bytes(p) + rest) == Ok::<(TrieParts<T>, int), TrieError>(
            (p, trie_bytes(p).len() as int),
        ),
{
    let a = alpha_map_bytes(p.ranges);
    let d = cells_bytes(p.cells);
    let t = tail_bytes(p.entries);
    lemma_three_parts(a, d, t, rest);
    lemma_alpha_map_round_trip(p.ranges, d + t + rest);
    lemma_darray_round_trip(p.cells, t + rest);
    lemma_tail_round_trip(p.entries, rest);
    lemma_trie_read_parts::<T>(
        trie_bytes(p) + rest,
        p,
        a.len() as int,
        d.len() as int,
        t.len() as int,
    );
}

/// The payload of a key depends on the ranges of the alphabet, not on the
/// alphabet that holds them.
pub proof fn lemma_lookup_same_ranges<T>(
    am1: AlphaMap,
    am2: AlphaMap,
    c: Seq<DACell>,
    tl: Seq<TailEntry<T>>,
    key: Seq<AlphaChar>,
)
    requires
        am1.ranges() == am2.ranges(),
    ensures
        spec_lookup(am1, c, tl, key) == spec_lookup(am2, c, tl, key),
{
    assert forall|ch: AlphaChar| am1.spec_char_to_trie(ch) == am2.spec_char_to_trie(ch) by {}
    assert(syms_of(am1, key, key_len(key)) =~= syms_of(am2, key, key_len(key)));
}

impl<TrieData> ROTrie<TrieData> {
    /// The parts of the trie.
    pub open spec fn parts(&self) -> TrieParts<TrieData> {
        TrieParts {
            ranges: self.alphabet().ranges(),
            cells: self.cells(),
            entries: self.entries(),
        }
    }

    /// Whether the separate nodes point at tail entries in use, each at its
    /// own, and every entry in use has a payload.
    fn check_leaves(&self) -> (ok: bool)
        requires
            da_wf(self.cells()),
            tail_wf(self.entries()),
        ensures
            ok == (leaves_ok(self.cells(), self.entries()) && entries_full(self.entries())),
    {
        self.check_links()
    }

    /// Whether every symbol of `w` is the terminator or one of the symbols
    /// from `lo` to `n`.
    fn suffix_within(w: &[TrieChar], lo: usize, n: usize) -> (ok: bool)
        ensures
            ok == suffix_in_alphabet(w@, (SymRange { lo: lo as int, hi: n as int })),
    {
        let ghost r = SymRange { lo: lo as int, hi: n as int };
        let mut i: usize = 0;
        while i < w.len()
            invariant
                0 <= i <= w@.len(),
                r == (SymRange { lo: lo as int, hi: n as int }),
                forall|j: int| 0 <= j < i ==> is_symbol_or_term(#[trigger] w@[j] as int, r),
            decreases w@.len() - i,
        {
            if w[i] != 0 && (w[i] as usize > n || (w[i] as usize) < lo) {
                return false;
            }
            i = i + 1;
        }
        true
    }

    /// Whether the node `x` has its shape.
    fn check_node_shape(&self, x: usize, lo: usize, n: usize) -> (ok: bool)
        requires
            self.alphabet().wf(),
            da_wf(self.cells()),
            tail_wf(self.entries()),
            leaves_ok(self.cells(), self.entries()),
            is_node(self.cells(), x as int),
            n <= ALPHABET_MAX,
            1 <= lo <= 2,
        ensures
            ok == node_shape(
                self.cells(),
                self.entries(),
                (SymRange { lo: lo as int, hi: n as int }),
                x as int,
            ),
    {
        let ghost c = self.da@;
        let ghost tl = self.tail@;
        let base: TrieIndex = self.da.get_base(x as TrieIndex).unwrap();
        let mut label: TrieIndex = 1;
        if x != 2 {
            proof {
                assert(parent_ok(c, x as int));
            }
            let parent: TrieIndex = self.da.get_check(x as TrieIndex).unwrap();
            let pbase: TrieIndex = self.da.get_base(parent).unwrap();
            label = x as TrieIndex - pbase;
            if label != 0 && (label > n as TrieIndex || label < lo as TrieIndex) {
                return false;
            }
            if base >= 0 {
                return label != 0 && self.da.has_children(x as TrieIndex);
            }
        } else if base >= 0 {
            return true;
        }
        let t: TrieIndex = self.da.get_tail_index(x as TrieIndex);
        proof {
            assert(tail_used(tl, -c[x as int].base));
        }
        match self.tail.get_suffix(t) {
            None => false,
            Some(w) => {
                if !Self::suffix_within(w, lo, n) {
                    return false;
                }
                if x != 2 && label == 0 {
                    proof {
                        if w@.len() == 1 {
                            assert(w@ =~= seq![TRIE_CHAR_TERM]);
                        }
                    }
                    return w.len() == 1;
                }
                true
            },
        }
    }

    /// Whether every node has its shape.
    fn check_shape(&self) -> (ok: bool)
        requires
            self.alphabet().wf(),
            da_wf(self.cells()),
            tail_wf(self.entries()),
            leaves_ok(self.cells(), self.entries()),
        ensures
            ok == shape_ok(self.cells(), self.entries(), self.symbols()),
    {
        let ghost c = self.da@;
        let ghost tl = self.tail@;
        let n: usize = self.alpha_map.num_chars();
        let lo: usize = self.alpha_map.low_symbol();
        let ghost r = self.symbols();
        let len: usize = self.da.num_cells();
        let mut x: usize = 2;
        while x < len
            invariant
                self.alphabet().wf(),
                c == self.da@,
                tl == self.tail@,
                da_wf(c),
                tail_wf(tl),
                leaves_ok(c, tl),
                len == c.len(),
                r == self.symbols(),
                r == (SymRange { lo: lo as int, hi: n as int }),
                n <= ALPHABET_MAX,
                1 <= lo <= 2,
                2 <= x <= len,
                forall|y: int| #[trigger] is_node(c, y) && y < x ==> node_shape(c, tl, r, y),
            decreases len - x,
        {
            if self.da.get_check(x as TrieIndex).unwrap() >= 0 {
                proof {
                    assert(is_node(c, x as int));
                }
                if !self.check_node_shape(x, lo, n) {
                    return false;
                }
            }
            x = x + 1;
        }
        true
    }

    /// Whether the separate nodes point at tail entries in use, each at its
    /// own, and every entry in use has a payload.
    fn check_links(&self) -> (ok: bool)
        requires
            da_wf(self.cells()),
            tail_wf(self.entries()),
        ensures
            ok == (leaves_ok(self.cells(), self.entries()) && entries_full(self.entries())),
    {
        let ghost c = self.da@;
        let ghost tl = self.tail@;
        if !self.tail.check_full() {
            return false;
        }
        let n: usize = self.da.num_cells();
        let m: usize = self.tail.num_entries();
        let mut seen: Vec<bool> = vec![false; m];
        let ghost mut owner: Seq<int> = Seq::new(m as nat, |t: int| -1int);
        let mut x: usize = 2;
        while x < n
            invariant
                c == self.da@,
                tl == self.tail@,
                da_wf(c),
                tail_wf(tl),
                entries_full(tl),
                n == c.len(),
                m == tl.len(),
                2 <= x <= n,
                seen@.len() == m,
                owner.len() == m,
                forall|t: int| 0 <= t < m ==> (#[trigger] seen@[t] <==> owner[t] >= 0),
                forall|t: int|
                    0 <= t < m && #[trigger] owner[t] >= 0 ==> is_node(c, owner[t]) && owner[t] < x
                        && c[owner[t]].base == -t,
                forall|y: int|
                    #[trigger] is_node(c, y) && y < x && c[y].base < 0 ==> tail_used(
                        tl,
                        -c[y].base,
                    ) && owner[-(c[y].base as int)] == y,
            decreases n - x,
        {
            let check: TrieIndex = self.da.get_check(x as TrieIndex).unwrap();
            let base: TrieIndex = self.da.get_base(x as TrieIndex).unwrap();
            if check >= 0 && base < 0 {
                proof {
                    assert(is_node(c, x as int));
                }
                let t: TrieIndex = self.da.get_tail_index(x as TrieIndex);
                if self.tail.get_data(t).is_none() {
                    return false;
                }
                if seen[t as usize] {
                    proof {
                        let y = owner[t as int];
                        assert(is_node(c, y) && y < x && c[y].base == c[x as int].base);
                    }
                    return false;
                }
                seen.set(t as usize, true);
                proof {
                    owner = owner.update(t as int, x as int);
                }
            }
            x = x + 1;
        }
        proof {
            assert forall|a: int, b: int|
                #[trigger] is_node(c, a) && #[trigger] is_node(c, b) && c[a].base < 0 && c[a].base
                    == c[b].base implies a == b by {
                assert(owner[-(c[a].base as int)] == a);
                assert(owner[-(c[b].base as int)] == b);
            }
        }
        true
    }
}

impl<TrieData: TrieSerializable> ROTrie<TrieData> {
    /// Appends the serialized trie to `buf`: the alphabet, the double array
    /// and the tail pool.
    pub fn serialize(&self, buf: &mut Vec<u8>)
        requires
            self.wf(),
        ensures
            final(buf)@ == old(buf)@ + trie_bytes(self.parts()),
    {
        self.alpha_map.serialize(buf);
        self.da.serialize(buf);
        self.tail.serialize(buf);
        proof {
            assert(buf@ =~= old(buf)@ + trie_bytes(self.parts()));
        }
    }

    /// The number of bytes that `serialize` appends.
    pub fn serialized_size(&self) -> (n: usize)
        requires
            self.wf(),
        ensures
            n == trie_bytes(self.parts()).len(),
    {
        let mut buf: Vec<u8> = Vec::new();
        self.serialize(&mut buf);
        proof {
            assert(buf@ =~= trie_bytes(self.parts()));
        }
        buf.len()
    }
}

impl<TrieData: TrieDeserializable> ROTrie<TrieData> {
    /// Reads a trie from the front of `bytes`, and says how many bytes it
    /// took. Parts that are no well-formed trie are refused.
    pub fn from_reader(bytes: &[u8]) -> (r: Result<(Self, usize), TrieError>)
        ensures
            match spec_read_trie::<TrieData>(bytes@) {
                Ok((p, n)) => r matches Ok((trie, used)) && trie.parts() == p && used == n
                    && trie.wf() && n <= bytes@.len(),
                Err(e) => r matches Err(err) && err == e,
            },
    {
        let (alpha_map, n1) = match AlphaMap::read(bytes) {
            Ok(v) => v,
            Err(e) => {
                return Err(e);
            },
        };
        proof {
            alpha_map.lemma_wf();
            crate::alpha_map::lemma_read_len(bytes@);
        }
        let rest1 = slice_subrange(bytes, n1, bytes.len());
        assert(rest1@ =~= bytes@.skip(n1 as int));
        let (da, n2) = match DArray::read(rest1) {
            Ok(v) => v,
            Err(e) => {
                return Err(e);
            },
        };
        let rest2 = slice_subrange(bytes, n1 + n2, bytes.len());
        assert(rest2@ =~= bytes@.skip(n1 + n2));
        let (tail, n3) = match Tail::<TrieData>::read(rest2) {
            Ok(v) => v,
            Err(e) => {
                return Err(e);
            },
        };
        let trie = ROTrie { alpha_map, da, tail };
        if !trie.check_leaves() {
            return Err(TrieError::InvalidStructure);
        }
        if !trie.check_shape() {
            return Err(TrieError::InvalidStructure);
        }
        Ok((trie, n1 + n2 + n3))
    }
}

/// A trie read from what a trie was serialized to is the same map, and is
/// serialized to the same bytes.
pub proof fn law_serialize_round_trip<T: TrieSerializable + TrieDeserializable>(
    written: ROTrie<T>,
    read: ROTrie<T>,
    rest: Seq<u8>,
)
    requires
        written.wf(),
        payload_round_trips::<T>(),
        spec_read_trie::<T>(trie_bytes(written.parts()) + rest) matches Ok((p, n)) && read.parts()
            == p,
    ensures
        spec_read_trie::<T>(trie_bytes(written.parts()) + rest) == Ok::<
            (TrieParts<T>, int),
            TrieError,
        >((written.parts(), trie_bytes(written.parts()).len() as int)),
        read.parts() == written.parts(),
        read.to_map() == written.to_map(),
        trie_bytes(read.parts()) == trie_bytes(written.parts()),
{
    written.alphabet().lemma_wf();
    lemma_trie_round_trip(written.parts(), rest);
    assert forall|k: Seq<AlphaChar>| read.spec_retrieve(k) == written.spec_retrieve(k) by {
        lemma_lookup_same_ranges(
            read.alphabet(),
            written.alphabet(),
            written.cells(),
            written.entries(),
            k,
        );
    }
    assert(read.to_map() =~= written.to_map());
}

/// A trie with 32-bit integers as payloads, read from what it was
/// serialized to, is the same map, and is serialized to the same bytes.
pub proof fn law_i32_trie_round_trip(written: ROTrie<i32>, read: ROTrie<i32>, rest: Seq<u8>)
    requires
        written.wf(),
        spec_read_trie::<i32>(trie_bytes(written.parts()) + rest) matches Ok((p, n))
            && read.parts() == p,
    ensures
        read.to_map() == written.to_map(),
        trie_bytes(read.parts()) == trie_bytes(written.parts()),
{
    lemma_i32_payload_round_trips();
    law_serialize_round_trip(written, read, rest);
}

impl<TrieData: TrieSerializable> Trie<TrieData> {
    /// Appends the serialized trie to `buf`, and marks the trie as
    /// unchanged.
    pub fn serialize(&mut self, buf: &mut Vec<u8>)
        requires
            old(self).wf(),
        ensures
            final(buf)@ == old(buf)@ + trie_bytes(old(self).inner().parts()),
            final(self).inner() == old(self).inner(),
            !final(self).dirty(),
    {
        self.ro.serialize(buf);
        self.is_dirty = false;
    }

    /// The number of bytes that `serialize` appends.
    pub fn serialized_size(&self) -> (n: usize)
        requires
            self.wf(),
        ensures
            n == trie_bytes(self.inner().parts()).len(),
    {
        self.ro.serialized_size()
    }
}

impl<TrieData: TrieDeserializable> Trie<TrieData> {
    /// Reads a trie from the front of `bytes`, and says how many bytes it
    /// took. The trie is marked as unchanged.
    pub fn from_reader(bytes: &[u8]) -> (r: Result<(Self, usize), TrieError>)
        ensures
            match spec_read_trie::<TrieData>(bytes@) {
                Ok((p, n)) => r matches Ok((trie, used)) && trie.inner().parts() == p && used
                    == n && trie.wf() && !trie.dirty() && n <= bytes@.len(),
                Err(e) => r matches Err(err) && err == e,
            },
    {
        match ROTrie::from_reader(bytes) {
            Ok((ro, n)) => Ok((Trie { ro, is_dirty: false }, n)),
            Err(e) => Err(e),
        }
    }
}

/// Where a cursor stands in a trie.
pub ghost struct StateView {
    /// The node, or, in a suffix, the tail entry.
    pub index: int,
    /// The offset in the suffix.
    pub suffix_idx: int,
    /// Whether the cursor stands in a suffix.
    pub is_suffix: bool,
}

/// The tail entry that the BASE of cell `n` names: its negation, or 0 where
/// that does not exist.
pub open spec fn spec_tail_index(c: Seq<DACell>, n: int) -> int {
    if 0 <= n < c.len() && c[n].base > i32::MIN {
        -(c[n].base as int)
    } else {
        0
    }
}

/// Where a cursor stands after reading the character `ch`, if it can read
/// it: at the node the edge leads to, or at the start of the suffix of a
/// separate node, or one symbol on in the suffix.
pub open spec fn spec_state_walk<T>(
    am: AlphaMap,
    c: Seq<DACell>,
    tl: Seq<TailEntry<T>>,
    st: StateView,
    ch: AlphaChar,
) -> Option<StateView> {
    match am.spec_char_to_trie(ch) {
        None => None,
        Some(tc) => if !st.is_suffix {
            match spec_walk(c, st.index, tc as TrieChar) {
                None => None,
                Some(n) => Some(
                    if c[n].base < 0 {
                        StateView { index: spec_tail_index(c, n), suffix_idx: 0, is_suffix: true }
                    } else {
                        StateView { index: n, suffix_idx: st.suffix_idx, is_suffix: false }
                    },
                ),
            }
        } else {
            match spec_walk_char(tl, st.index, st.suffix_idx, tc as TrieChar) {
                None => None,
                Some(i) => Some(StateView { index: st.index, suffix_idx: i, is_suffix: true }),
            }
        },
    }
}

/// The payload of the key that ends where a cursor stands, if one ends
/// there.
pub open spec fn spec_state_data<T>(c: Seq<DACell>, tl: Seq<TailEntry<T>>, st: StateView) -> Option<
    T,
> {
    if !st.is_suffix {
        match spec_walk(c, st.index, TRIE_CHAR_TERM) {
            Some(n) => if c[n].base < 0 && tail_used(tl, spec_tail_index(c, n)) {
                tl[spec_tail_index(c, n)].data
            } else {
                None
            },
            None => None,
        }
    } else if spec_walk_char(tl, st.index, st.suffix_idx, TRIE_CHAR_TERM) is Some {
        tl[st.index].data
    } else {
        None
    }
}

/// The characters of the symbols before the first terminator.
pub open spec fn spec_decode(am: AlphaMap, syms: Seq<TrieChar>) -> Seq<AlphaChar> {
    Seq::new(first_term(syms) as nat, |i: int| am.spec_trie_to_char(syms[i]))
}

/// The characters that a cursor can read next: in a suffix, the one that
/// the suffix has next; at a node, those of its edges, or none if one of
/// the edges is the terminator.
pub open spec fn spec_walkable_chars<T>(
    am: AlphaMap,
    c: Seq<DACell>,
    tl: Seq<TailEntry<T>>,
    st: StateView,
) -> Seq<AlphaChar> {
    if !st.is_suffix {
        spec_decode(am, spec_output_symbols(c, st.index))
    } else if tail_used(tl, st.index) && 0 <= st.suffix_idx < tl[st.index].suffix.unwrap().len() {
        seq![am.spec_trie_to_char(tl[st.index].suffix.unwrap()[st.suffix_idx])]
    } else {
        Seq::empty()
    }
}

/// A cursor in a trie: it reads a key character by character.
pub struct TrieState<'a, TrieData> {
    trie: &'a ROTrie<TrieData>,
    index: TrieIndex,
    suffix_idx: i16,
    is_suffix: bool,
}

impl<'a, TrieData> View for TrieState<'a, TrieData> {
    type V = StateView;

    closed spec fn view(&self) -> StateView {
        StateView {
            index: self.index as int,
            suffix_idx: self.suffix_idx as int,
            is_suffix: self.is_suffix,
        }
    }
}

impl<'a, TrieData> Clone for TrieState<'a, TrieData> {
    fn clone(&self) -> (r: Self)
        ensures
            r == *self,
    {
        TrieState {
            trie: self.trie,
            index: self.index,
            suffix_idx: self.suffix_idx,
            is_suffix: self.is_suffix,
        }
    }
}

impl<'a, TrieData> TrieState<'a, TrieData> {
    /// The trie the cursor is in.
    pub closed spec fn trie(&self) -> ROTrie<TrieData> {
        *self.trie
    }

    /// A cursor at the given place.
    fn new(trie: &'a ROTrie<TrieData>, index: TrieIndex, suffix_idx: i16, is_suffix: bool) -> (r:
        Self)
        ensures
            r.trie() == *trie,
            r@ == (StateView { index: index as int, suffix_idx: suffix_idx as int, is_suffix }),
    {
        TrieState { trie, index, suffix_idx, is_suffix }
    }

    /// Puts the cursor back at the root.
    pub fn rewind(&mut self)
        ensures
            final(self).trie() == old(self).trie(),
            final(self)@ == (StateView {
                index: 2,
                suffix_idx: old(self)@.suffix_idx,
                is_suffix: false,
            }),
    {
        self.index = self.trie.da.get_root();
        self.is_suffix = false;
    }

    /// Reads the character `c`: moves the cursor along it if the trie has a
    /// key that goes on with it, and says whether it did.
    pub fn walk(&mut self, c: AlphaChar) -> (r: bool)
        requires
            old(self).trie().wf(),
        ensures
            final(self).trie() == old(self).trie(),
            match spec_state_walk(
                old(self).trie().alphabet(),
                old(self).trie().cells(),
                old(self).trie().entries(),
                old(self)@,
                c,
            ) {
                Some(v) => r && final(self)@ == v,
                None => !r && final(self)@ == old(self)@,
            },
    {
        proof {
            self.trie.alpha_map.lemma_symbols(c, c);
        }
        let tc: TrieIndex = match self.trie.alpha_map.char_to_trie(c) {
            Some(tc) => tc,
            None => {
                return false;
            },
        };
        if !self.is_suffix {
            match self.trie.da.walk(self.index, tc as TrieChar) {
                Some(next_idx) => {
                    self.index = next_idx;
                    if self.trie.da.is_separate(self.index) {
                        self.index = self.trie.da.get_tail_index(self.index);
                        self.suffix_idx = 0;
                        self.is_suffix = true;
                    }
                    true
                },
                None => false,
            }
        } else {
            match self.trie.tail.walk_char(self.index, self.suffix_idx, tc as TrieChar) {
                Some(next_idx) => {
                    self.suffix_idx = next_idx;
                    true
                },
                None => false,
            }
        }
    }

    /// Whether the cursor can read the character `c`.
    pub fn is_walkable(&self, c: AlphaChar) -> (r: bool)
        requires
            self.trie().wf(),
        ensures
            r == spec_state_walk(
                self.trie().alphabet(),
                self.trie().cells(),
                self.trie().entries(),
                self@,
                c,
            ) is Some,
    {
        proof {
            self.trie.alpha_map.lemma_symbols(c, c);
        }
        let tc: TrieIndex = match self.trie.alpha_map.char_to_trie(c) {
            Some(tc) => tc,
            None => {
                return false;
            },
        };
        if !self.is_suffix {
            self.trie.da.is_walkable(self.index, tc as TrieChar)
        } else {
            self.trie.tail.is_walkable_char(self.index, self.suffix_idx, tc as TrieChar)
        }
    }

    /// The characters of `syms` before the first terminator.
    fn decode(trie: &ROTrie<TrieData>, syms: &[TrieChar], out: &mut Vec<AlphaChar>)
        requires
            trie.wf(),
        ensures
            final(out)@ == old(out)@ + spec_decode(trie.alphabet(), syms@),
    {
        let ghost am = trie.alpha_map;
        let ghost start = out@;
        let mut i: usize = 0;
        proof {
            lemma_first_term(syms@);
        }
        while i < syms.len() && syms[i] != TRIE_CHAR_TERM
            invariant
                trie.wf(),
                am == trie.alpha_map,
                0 <= i <= first_term(syms@) <= syms@.len(),
                forall|j: int| 0 <= j < first_term(syms@) ==> syms@[j] != TRIE_CHAR_TERM,
                first_term(syms@) < syms@.len() ==> syms@[first_term(syms@)] == TRIE_CHAR_TERM,
                out@ == start + Seq::new(i as nat, |j: int| am.spec_trie_to_char(syms@[j])),
            decreases syms@.len() - i,
        {
            out.push(trie.alpha_map.trie_to_char(syms[i]));
            proof {
                assert(out@ =~= start + Seq::new(
                    (i + 1) as nat,
                    |j: int| am.spec_trie_to_char(syms@[j]),
                ));
            }
            i = i + 1;
        }
    }

    /// The characters that the cursor can read next.
    pub fn walkable_chars(&self) -> (r: Vec<AlphaChar>)
        requires
            self.trie().wf(),
        ensures
            r@ == spec_walkable_chars(
                self.trie().alphabet(),
                self.trie().cells(),
                self.trie().entries(),
                self@,
            ),
    {
        let mut out: Vec<AlphaChar> = Vec::new();
        if !self.is_suffix {
            let syms = self.trie.da.output_symbols(self.index).to_vec();
            Self::decode(self.trie, syms.as_slice(), &mut out);
            proof {
                assert(out@ =~= spec_decode(self.trie.alpha_map, syms@));
            }
        } else {
            match self.trie.tail.get_suffix(self.index) {
                Some(w) => {
                    if self.suffix_idx >= 0 && (self.suffix_idx as usize) < w.len() {
                        out.push(self.trie.alpha_map.trie_to_char(w[self.suffix_idx as usize]));
                    }
                },
                None => {},
            }
        }
        out
    }

    /// Whether the cursor stands in a suffix: only one key goes on from
    /// there.
    pub fn is_single(&self) -> (r: bool)
        ensures
            r == self@.is_suffix,
    {
        self.is_suffix
    }

    /// Whether a key ends where the cursor stands.
    pub fn is_terminal(&self) -> (r: bool)
        requires
            self.trie().wf(),
        ensures
            r == spec_state_walk(
                self.trie().alphabet(),
                self.trie().cells(),
                self.trie().entries(),
                self@,
                0,
            ) is Some,
    {
        self.is_walkable(0)
    }

    /// Whether a key ends where the cursor stands, and no other goes on.
    pub fn is_leaf(&self) -> (r: bool)
        requires
            self.trie().wf(),
        ensures
            r == (self@.is_suffix && spec_state_walk(
                self.trie().alphabet(),
                self.trie().cells(),
                self.trie().entries(),
                self@,
                0,
            ) is Some),
    {
        self.is_single() && self.is_terminal()
    }

    /// The payload of the key that ends where the cursor stands, if one
    /// ends there.
    pub fn get_data(&self) -> (r: Option<&'a TrieData>)
        requires
            self.trie().wf(),
        ensures
            match r {
                Some(d) => spec_state_data(self.trie().cells(), self.trie().entries(), self@)
                    == Some(*d),
                None => spec_state_data(self.trie().cells(), self.trie().entries(), self@) is None,
            },
    {
        if !self.is_suffix {
            match self.trie.da.walk(self.index, TRIE_CHAR_TERM) {
                Some(index) => {
                    if self.trie.da.is_separate(index) {
                        let tail_index = self.trie.da.get_tail_index(index);
                        return self.trie.tail.get_data(tail_index);
                    }
                    None
                },
                None => None,
            }
        } else {
            if self.trie.tail.is_walkable_char(self.index, self.suffix_idx, TRIE_CHAR_TERM) {
                return self.trie.tail.get_data(self.index);
            }
            None
        }
    }
}

impl<TrieData> ROTrie<TrieData> {
    /// A cursor at the root of the trie.
    pub fn root(&self) -> (r: TrieState<'_, TrieData>)
        ensures
            r.trie() == *self,
            r@ == (StateView { index: 2, suffix_idx: 0, is_suffix: false }),
    {
        TrieState::new(self, self.da.get_root(), 0, false)
    }
}

impl<TrieData> Trie<TrieData> {
    /// A cursor at the root of the trie.
    pub fn root(&self) -> (r: TrieState<'_, TrieData>)
        ensures
            r.trie() == self.inner(),
            r@ == (StateView { index: 2, suffix_idx: 0, is_suffix: false }),
    {
        self.ro.root()
    }
}

/// Where an enumeration of the keys of a trie stands.
pub ghost struct IterView {
    /// The cursor under which the keys are enumerated.
    pub root: StateView,
    /// The cursor at the key last yielded, once there is one.
    pub state: Option<StateView>,
    /// The symbols that lead from the root cursor to that key's separate
    /// node.
    pub key: Seq<TrieChar>,
}

/// Where an enumeration stands after a step, and whether the step found a
/// key. The first step goes to the first separate node under the root
/// cursor; every other step to the next one. A root cursor in a suffix has
/// one key, which the first step finds.
pub open spec fn spec_iter_next(c: Seq<DACell>, it: IterView) -> (bool, IterView) {
    match it.state {
        Some(st) => if st.is_suffix {
            (false, it)
        } else {
            let (sep, key) = spec_next_separate(c, it.root.index, st.index, it.key, c.len());
            match sep {
                Some(n) => (
                    true,
                    IterView {
                        root: it.root,
                        state: Some(
                            StateView { index: n, suffix_idx: st.suffix_idx, is_suffix: false },
                        ),
                        key,
                    },
                ),
                None => (false, IterView { root: it.root, state: it.state, key }),
            }
        },
        None => if it.root.is_suffix {
            (true, IterView { root: it.root, state: Some(it.root), key: it.key })
        } else {
            let (sep, more) = spec_first_separate(c, it.root.index, c.len());
            match sep {
                Some(n) => (
                    true,
                    IterView {
                        root: it.root,
                        state: Some(
                            StateView {
                                index: n,
                                suffix_idx: it.root.suffix_idx,
                                is_suffix: false,
                            },
                        ),
                        key: it.key + more,
                    },
                ),
                None => (
                    false,
                    IterView { root: it.root, state: Some(it.root), key: it.key + more },
                ),
            }
        },
    }
}

/// The key at which an enumeration stands, from its root cursor on, with a
/// 0 after it: the characters of the symbols that led to the separate node
/// and of the suffix in its tail entry.
pub open spec fn spec_iter_key<T>(
    am: AlphaMap,
    c: Seq<DACell>,
    tl: Seq<TailEntry<T>>,
    it: IterView,
) -> Option<Seq<AlphaChar>> {
    match it.state {
        None => None,
        Some(st) => if st.is_suffix {
            if tail_used(tl, st.index) && 0 <= st.suffix_idx <= tl[st.index].suffix.unwrap().len() {
                Some(spec_decode(am, tl[st.index].suffix.unwrap().skip(st.suffix_idx)).push(0))
            } else {
                None
            }
        } else if tail_used(tl, spec_tail_index(c, st.index)) {
            Some(
                (spec_decode(am, it.key) + spec_decode(
                    am,
                    tl[spec_tail_index(c, st.index)].suffix.unwrap(),
                )).push(0),
            )
        } else {
            None
        },
    }
}

/// The payload of the key at which an enumeration stands.
pub open spec fn spec_iter_data<T>(c: Seq<DACell>, tl: Seq<TailEntry<T>>, it: IterView) -> Option<
    T,
> {
    match it.state {
        None => None,
        Some(st) => if st.is_suffix {
            if tail_used(tl, st.index) {
                tl[st.index].data
            } else {
                None
            }
        } else if 0 <= st.index < c.len() && c[st.index].base < 0 && tail_used(
            tl,
            spec_tail_index(c, st.index),
        ) {
            tl[spec_tail_index(c, st.index)].data
        } else {
            None
        },
    }
}

/// An enumeration of the keys of a trie under a cursor, in the order of
/// their packed symbols.
pub struct TrieIterator<'a, TrieData> {
    root: TrieState<'a, TrieData>,
    state: Option<TrieState<'a, TrieData>>,
    key: Vec<TrieChar>,
}

impl<'a, TrieData> View for TrieIterator<'a, TrieData> {
    type V = IterView;

    closed spec fn view(&self) -> IterView {
        IterView {
            root: self.root@,
            state: match self.state {
                Some(st) => Some(st@),
                None => None,
            },
            key: self.key@,
        }
    }
}

impl<'a, TrieData> TrieIterator<'a, TrieData> {
    /// The trie whose keys are enumerated.
    pub closed spec fn trie(&self) -> ROTrie<TrieData> {
        self.root.trie()
    }

    /// Whether the cursors of the enumeration are cursors in its trie.
    pub closed spec fn wf(&self) -> bool {
        &&& self.root.trie().wf()
        &&& self.state matches Some(st) ==> st.trie() == self.root.trie()
    }

    /// The trie of a well-formed enumeration is well-formed.
    pub proof fn lemma_wf(&self)
        requires
            self.wf(),
        ensures
            self.trie().wf(),
    {
    }

    /// An enumeration of the keys under the cursor `root`.
    pub fn new(root: &TrieState<'a, TrieData>) -> (r: Self)
        requires
            root.trie().wf(),
        ensures
            r.wf(),
            r.trie() == root.trie(),
            r@ == (IterView { root: root@, state: None, key: Seq::empty() }),
    {
        TrieIterator { root: root.clone(), state: None, key: Vec::new() }
    }

    /// An enumeration of all the keys of `trie`.
    pub fn new_from_trie(trie: &'a ROTrie<TrieData>) -> (r: Self)
        requires
            trie.wf(),
        ensures
            r.wf(),
            r.trie() == *trie,
            r@ == (IterView {
                root: StateView { index: 2, suffix_idx: 0, is_suffix: false },
                state: None,
                key: Seq::empty(),
            }),
    {
        TrieIterator { root: trie.root(), state: None, key: Vec::new() }
    }

    /// The key at which the enumeration stands, with a 0 after it.
    pub fn key(&self) -> (r: Option<Vec<AlphaChar>>)
        requires
            self.wf(),
        ensures
            match spec_iter_key(
                self.trie().alphabet(),
                self.trie().cells(),
                self.trie().entries(),
                self@,
            ) {
                Some(k) => r matches Some(v) && v@ == k,
                None => r is None,
            },
    {
        let state = match &self.state {
            Some(st) => st,
            None => {
                return None;
            },
        };
        let mut out: Vec<AlphaChar> = Vec::new();
        if state.is_suffix {
            let suffix = match state.trie.tail.get_suffix(state.index) {
                Some(w) => w,
                None => {
                    return None;
                },
            };
            if state.suffix_idx < 0 || (state.suffix_idx as usize) > suffix.len() {
                return None;
            }
            let rest = slice_subrange(suffix, state.suffix_idx as usize, suffix.len());
            proof {
                assert(rest@ =~= suffix@.skip(state.suffix_idx as int));
            }
            TrieState::decode(state.trie, rest, &mut out);
            proof {
                assert(out@ =~= spec_decode(state.trie.alpha_map, rest@));
            }
        } else {
            let tail_idx = state.trie.da.get_tail_index(state.index);
            let suffix = match state.trie.tail.get_suffix(tail_idx) {
                Some(w) => w,
                None => {
                    return None;
                },
            };
            TrieState::decode(state.trie, self.key.as_slice(), &mut out);
            TrieState::decode(state.trie, suffix, &mut out);
            proof {
                assert(out@ =~= spec_decode(state.trie.alpha_map, self.key@) + spec_decode(
                    state.trie.alpha_map,
                    suffix@,
                ));
            }
        }
        out.push(0);
        Some(out)
    }

    /// The payload of the key at which the enumeration stands.
    pub fn data(&self) -> (r: Option<&'a TrieData>)
        requires
            self.wf(),
        ensures
            match r {
                Some(d) => spec_iter_data(self.trie().cells(), self.trie().entries(), self@)
                    == Some(*d),
                None => spec_iter_data(self.trie().cells(), self.trie().entries(), self@) is None,
            },
    {
        let state = match &self.state {
            Some(st) => st,
            None => {
                return None;
            },
        };
        let tail_index: TrieIndex;
        if !state.is_suffix {
            if !state.trie.da.is_separate(state.index) {
                return None;
            }
            tail_index = state.trie.da.get_tail_index(state.index);
        } else {
            tail_index = state.index;
        }
        state.trie.tail.get_data(tail_index)
    }

    /// Goes to the next key, and says whether there is one.
    fn iter_next(&mut self) -> (r: bool)
        requires
            old(self).wf(),
        ensures
            final(self).wf(),
            final(self).trie() == old(self).trie(),
            (r, final(self)@) == spec_iter_next(old(self).trie().cells(), old(self)@),
    {
        match self.state.take() {
            Some(mut state) => {
                if state.is_suffix {
                    self.state = Some(state);
                    return false;
                }
                match state.trie.da.next_separate(self.root.index, state.index, &mut self.key) {
                    Some(sep) => {
                        state.index = sep;
                        self.state = Some(state);
                        true
                    },
                    None => {
                        self.state = Some(state);
                        false
                    },
                }
            },
            None => {
                let mut state = self.root.clone();
                if state.is_suffix {
                    self.state = Some(state);
                    return true;
                }
                match state.trie.da.first_separate(state.index, &mut self.key) {
                    Some(sep) => {
                        state.index = sep;
                        self.state = Some(state);
                        true
                    },
                    None => {
                        self.state = Some(state);
                        false
                    },
                }
            },
        }
    }

    /// Goes to the next key and yields it with its payload, if there is
    /// one. The key has a 0 after it.
    pub fn next(&mut self) -> (r: Option<(Vec<AlphaChar>, Option<&'a TrieData>)>)
        requires
            old(self).wf(),
        ensures
            final(self).wf(),
            final(self).trie() == old(self).trie(),
            final(self)@ == spec_iter_next(old(self).trie().cells(), old(self)@).1,
            match r {
                Some((k, d)) => {
                    &&& spec_iter_next(old(self).trie().cells(), old(self)@).0
                    &&& spec_iter_key(
                        old(self).trie().alphabet(),
                        old(self).trie().cells(),
                        old(self).trie().entries(),
                        final(self)@,
                    ) == Some(k@)
                    &&& match d {
                        Some(v) => spec_iter_data(
                            old(self).trie().cells(),
                            old(self).trie().entries(),
                            final(self)@,
                        ) == Some(*v),
                        None => spec_iter_data(
                            old(self).trie().cells(),
                            old(self).trie().entries(),
                            final(self)@,
                        ) is None,
                    }
                },
                None => !spec_iter_next(old(self).trie().cells(), old(self)@).0 || spec_iter_key(
                    old(self).trie().alphabet(),
                    old(self).trie().cells(),
                    old(self).trie().entries(),
                    final(self)@,
                ) is None,
            },
            iter_stands(old(self).trie().cells(), old(self)@) ==> ({
                let trie = old(self).trie();
                let before = spec_iter_key(
                    trie.alphabet(),
                    trie.cells(),
                    trie.entries(),
                    old(self)@,
                );
                match r {
                    Some((k, d)) => {
                        &&& iter_stands(trie.cells(), final(self)@)
                        &&& k@ == key_of(k@).push(0)
                        &&& trie.to_map().contains_key(key_of(k@))
                        &&& d is Some && *d.unwrap() == trie.to_map()[key_of(k@)]
                        &&& before is Some ==> chars_before(before.unwrap(), k@)
                        &&& forall|key: Seq<AlphaChar>| #[trigger]
                            trie.to_map().contains_key(key) && (before is Some ==> chars_before(
                                before.unwrap(),
                                key.push(0),
                            )) ==> k@ == key.push(0) || chars_before(k@, key.push(0))
                    },
                    None => forall|key: Seq<AlphaChar>| #[trigger]
                        trie.to_map().contains_key(key) ==> before is Some && !chars_before(
                            before.unwrap(),
                            key.push(0),
                        ),
                }
            }),
    {
        let ghost trie = self.trie();
        let ghost it0 = self@;
        let ghost c = trie.cells();
        let ghost before = spec_iter_key(trie.alphabet(), c, trie.entries(), it0);
        proof {
            if iter_stands(c, it0) && it0.state is Some {
                law_iteration_yields_entries(trie, it0);
            }
        }
        if self.iter_next() {
            proof {
                if iter_stands(c, it0) {
                    law_iteration_ascends(trie, it0);
                    law_iteration_yields_entries(trie, self@);
                }
            }
            match self.key() {
                Some(k) => {
                    let d = self.data();
                    proof {
                        if iter_stands(c, it0) {
                            if it0.state is Some {
                                law_iteration_order(trie, it0);
                            }
                            assert forall|key: Seq<AlphaChar>| #[trigger]
                                trie.to_map().contains_key(key) && (before is Some
                                    ==> chars_before(before.unwrap(), key.push(0))) implies k@
                                == key.push(0) || chars_before(k@, key.push(0)) by {
                                law_iteration_step_least(trie, it0, key);
                            }
                        }
                    }
                    Some((k, d))
                },
                None => None,
            }
        } else {
            proof {
                if iter_stands(c, it0) {
                    assert forall|key: Seq<AlphaChar>| #[trigger]
                        trie.to_map().contains_key(key) implies before is Some && !chars_before(
                        before.unwrap(),
                        key.push(0),
                    ) by {
                        if it0.state is None || chars_before(before.unwrap(), key.push(0)) {
                            law_iteration_step_least(trie, it0, key);
                        }
                    }
                }
            }
            None
        }
    }
}

impl<TrieData> ROTrie<TrieData> {
    /// An enumeration of the keys of the trie.
    pub fn iter(&self) -> (r: TrieIterator<'_, TrieData>)
        requires
            self.wf(),
        ensures
            r.wf(),
            r.trie() == *self,
            r@ == (IterView {
                root: StateView { index: 2, suffix_idx: 0, is_suffix: false },
                state: None,
                key: Seq::empty(),
            }),
    {
        TrieIterator::new_from_trie(self)
    }
}

impl<TrieData> Trie<TrieData> {
    /// An enumeration of the keys of the trie.
    pub fn iter(&self) -> (r: TrieIterator<'_, TrieData>)
        requires
            self.wf(),
        ensures
            r.wf(),
            r.trie() == self.inner(),
            r@ == (IterView {
                root: StateView { index: 2, suffix_idx: 0, is_suffix: false },
                state: None,
                key: Seq::empty(),
            }),
    {
        self.ro.iter()
    }
}

} // verus!
