//! What an enumeration of the keys of a trie yields: every key once, in
//! ascending order.

use crate::alpha_map::AlphaMap;
use crate::da_spec::{da_wf, is_node, lemma_node_set_finite, node_set};
use crate::darray::DACell;
use crate::iter_spec::{
    is_leaf_path, lemma_first_separate_least, lemma_next_separate_least, lemma_path_short,
    no_dead_ends,
};
use crate::shape::{lemma_reach_label, node_shape, shape_ok};
use crate::tail::{is_word, tail_used, TailEntry};
use crate::shape::{is_symbol, is_symbol_or_term, SymRange};
use crate::trie::symbols_of_ranges;
use crate::tail::{first_term, lemma_first_term};
use crate::trie::{
    encodable, key_len, key_of, lemma_key_len, lemma_key_len_is, lemma_same_key, lemma_word_of,
    lemma_word_of_injective, spec_decode, spec_iter_data, spec_iter_key, spec_iter_next,
    spec_tail_index, syms_of, word_of, IterView, ROTrie, StateView,
};
use crate::types::AlphaChar;
use crate::trie_spec::{
    find, lemma_find_skip, lemma_find_witness, lemma_first_separate_reach,
    lemma_next_separate_reach, lemma_reach_is_node, lemma_reach_prefix, lemma_reach_unique, reach,
    symbols_before,
};
use crate::types::{TrieChar, TRIE_CHAR_TERM};
use vstd::prelude::*;
use vstd::set_lib::lemma_len_subset;

verus! {

/// Whether an enumeration of all the keys of a trie stands where its
/// steps put it: before the first key, or at a separate node that its key
/// buffer leads to from the root.
pub open spec fn iter_stands(c: Seq<DACell>, it: IterView) -> bool {
    &&& it.root.index == 2
    &&& !it.root.is_suffix
    &&& match it.state {
        None => it.key.len() == 0,
        Some(st) => !st.is_suffix && reach(c, it.key) == Some(st.index) && c[st.index].base < 0,
    }
}

/// An enumeration of all the keys of a trie before its first step.
pub open spec fn iter_start() -> IterView {
    IterView {
        root: StateView { index: 2, suffix_idx: 0, is_suffix: false },
        state: None,
        key: Seq::empty(),
    }
}

/// The word at which an enumeration stands: the symbols that lead to its
/// separate node, and the suffix in the tail entry of that node, unless the
/// terminator has led to the node already.
pub open spec fn iter_word<T>(c: Seq<DACell>, tl: Seq<TailEntry<T>>, it: IterView) -> Seq<
    TrieChar,
> {
    if it.key.len() > 0 && it.key.last() == TRIE_CHAR_TERM {
        it.key
    } else {
        it.key + tl[spec_tail_index(c, it.state.unwrap().index)].suffix.unwrap()
    }
}

/// Where an enumeration stands after `k` steps, and whether every one of
/// them found a key.
pub open spec fn iter_after(c: Seq<DACell>, it: IterView, k: nat) -> (bool, IterView)
    decreases k,
{
    if k == 0 {
        (true, it)
    } else {
        let (ok, next) = spec_iter_next(c, it);
        if !ok {
            (false, next)
        } else {
            iter_after(c, next, (k - 1) as nat)
        }
    }
}

/// Whether `x` is a separate node whose path comes after `key`.
pub open spec fn leaf_after(c: Seq<DACell>, key: Seq<TrieChar>, x: int) -> bool {
    exists|w: Seq<TrieChar>|
        #[trigger] reach(c, w) == Some(x) && c[x].base < 0 && symbols_before(key, w)
}

/// The separate nodes whose path comes after `key`.
pub open spec fn leaves_after(c: Seq<DACell>, key: Seq<TrieChar>) -> Set<int> {
    Set::new(|x: int| is_node(c, x) && leaf_after(c, key, x))
}

/// What comes before something that comes before a string comes before the
/// string.
pub proof fn lemma_symbols_before_trans(a: Seq<TrieChar>, b: Seq<TrieChar>, w: Seq<TrieChar>)
    requires
        symbols_before(a, b),
        symbols_before(b, w),
    ensures
        symbols_before(a, w),
{
    let i = choose|i: int|
        0 <= i < a.len() && i < b.len() && #[trigger] a.take(i) == b.take(i) && a[i] < b[i];
    let j = choose|j: int|
        0 <= j < b.len() && j < w.len() && #[trigger] b.take(j) == w.take(j) && b[j] < w[j];
    if i < j {
        assert(w.take(i) =~= w.take(j).take(i));
        assert(b.take(i) =~= b.take(j).take(i));
        assert(w[i] == w.take(j)[i] && b[i] == b.take(j)[i]);
        assert(a.take(i) == w.take(i) && a[i] < w[i]);
    } else if i == j {
        assert(a.take(i) == w.take(i) && a[i] < w[i]);
    } else {
        assert(a.take(j) =~= a.take(i).take(j));
        assert(b.take(j) =~= b.take(i).take(j));
        assert(a[j] == a.take(i)[j] && b[j] == b.take(i)[j]);
        assert(a.take(j) == w.take(j) && a[j] < w[j]);
    }
}

/// Fewer separate nodes come after a later path.
pub proof fn lemma_leaves_after_shrink(c: Seq<DACell>, key: Seq<TrieChar>, later: Seq<TrieChar>)
    requires
        da_wf(c),
        is_leaf_path(c, later),
        symbols_before(key, later),
    ensures
        leaves_after(c, key).finite(),
        leaves_after(c, later).len() < leaves_after(c, key).len(),
{
    let g1 = leaves_after(c, key);
    let g2 = leaves_after(c, later);
    let x = reach(c, later).unwrap();
    lemma_node_set_finite(c);
    assert(g1.subset_of(node_set(c)));
    lemma_len_subset(g1, node_set(c));
    lemma_reach_is_node(c, later);
    assert(leaf_after(c, key, x));
    assert(g1.contains(x));
    assert forall|y: int| g2.contains(y) implies g1.remove(x).contains(y) by {
        let w = choose|w: Seq<TrieChar>|
            #[trigger] reach(c, w) == Some(y) && c[y].base < 0 && symbols_before(later, w);
        lemma_symbols_before_trans(key, later, w);
        assert(leaf_after(c, key, y));
        if y == x {
            lemma_reach_unique(c, w, later);
            let j = choose|j: int|
                0 <= j < later.len() && j < w.len() && #[trigger] later.take(j) == w.take(j)
                    && later[j] < w[j];
        }
    }
    assert(g2.subset_of(g1.remove(x)));
    lemma_len_subset(g2, g1.remove(x));
}

/// An enumeration comes to every separate node whose path is ahead of it:
/// after some steps, all of which find a key, its key buffer is that path.
pub proof fn lemma_enum_reaches(c: Seq<DACell>, it: IterView, v: Seq<TrieChar>) -> (k: nat)
    requires
        da_wf(c),
        no_dead_ends(c),
        iter_stands(c, it),
        is_leaf_path(c, v),
        it.state is Some ==> symbols_before(it.key, v),
    ensures
        k >= 1,
        iter_after(c, it, k).0,
        iter_after(c, it, k).1.key == v,
        iter_stands(c, iter_after(c, it, k).1),
        iter_after(c, it, k).1.state is Some,
    decreases
            (if it.state is None {
                1int
            } else {
                0int
            }),
            leaves_after(c, it.key).len(),
{
    let (ok, next) = spec_iter_next(c, it);
    match it.state {
        None => {
            assert(reach(c, it.key) == Some(2int));
            assert(v.take(0) =~= it.key);
            lemma_first_separate_least(c, 2, c.len(), it.key, v);
            lemma_first_separate_reach(c, 2, c.len(), it.key);
        },
        Some(st) => {
            lemma_path_short(c, it.key);
            lemma_next_separate_least(c, st.index, it.key, c.len(), v);
            lemma_next_separate_reach(c, st.index, it.key, c.len());
            lemma_leaves_after_shrink(c, it.key, next.key);
        },
    }
    assert(ok);
    assert(iter_stands(c, next));
    if next.key == v {
        assert(iter_after(c, next, 0) == (true, next));
        1
    } else {
        let k1 = lemma_enum_reaches(c, next, v);
        (k1 + 1) as nat
    }
}

/// A step of an enumeration of all the keys of a trie that finds a key
/// finds a word that the trie holds, with the payload the trie has for it,
/// and one that comes after the word of the step before in the order of the
/// packed symbols: no word is found twice, and the words are found in
/// ascending order.
pub proof fn law_iteration_ascends<T>(trie: ROTrie<T>, it: IterView)
    requires
        trie.wf(),
        iter_stands(trie.cells(), it),
        spec_iter_next(trie.cells(), it).0,
    ensures
        iter_stands(trie.cells(), spec_iter_next(trie.cells(), it).1),
        spec_iter_next(trie.cells(), it).1.state is Some,
        find(
            trie.cells(),
            trie.entries(),
            iter_word(trie.cells(), trie.entries(), spec_iter_next(trie.cells(), it).1),
        ) == Some(
            spec_tail_index(trie.cells(), spec_iter_next(trie.cells(), it).1.state.unwrap().index),
        ),
        spec_iter_data(trie.cells(), trie.entries(), spec_iter_next(trie.cells(), it).1)
            == trie.entries()[spec_tail_index(
            trie.cells(),
            spec_iter_next(trie.cells(), it).1.state.unwrap().index,
        )].data,
        spec_iter_data(trie.cells(), trie.entries(), spec_iter_next(trie.cells(), it).1) is Some,
        it.state is Some ==> symbols_before(
            iter_word(trie.cells(), trie.entries(), it),
            iter_word(trie.cells(), trie.entries(), spec_iter_next(trie.cells(), it).1),
        ),
{
    let c = trie.cells();
    let tl = trie.entries();
    let next = spec_iter_next(c, it).1;
    match it.state {
        None => {
            assert(reach(c, it.key) == Some(2int));
            lemma_first_separate_reach(c, 2, c.len(), it.key);
        },
        Some(st) => {
            lemma_next_separate_reach(c, st.index, it.key, c.len());
        },
    }
    lemma_iter_word_found(trie, next);
    if it.state is Some {
        let w0 = iter_word(c, tl, it);
        let w = iter_word(c, tl, next);
        let j = choose|j: int|
            0 <= j < it.key.len() && j < next.key.len() && #[trigger] it.key.take(j)
                == next.key.take(j) && it.key[j] < next.key[j];
        assert(w0.take(j) =~= it.key.take(j));
        assert(w.take(j) =~= next.key.take(j));
        assert(w0[j] == it.key[j] && w[j] == next.key[j]);
    }
}

/// The word at which an enumeration stands is a word that the trie holds,
/// in the tail entry of the separate node at which it stands.
pub proof fn lemma_iter_word_found<T>(trie: ROTrie<T>, it: IterView)
    requires
        trie.wf(),
        iter_stands(trie.cells(), it),
        it.state is Some,
    ensures
        tail_used(trie.entries(), spec_tail_index(trie.cells(), it.state.unwrap().index)),
        find(trie.cells(), trie.entries(), iter_word(trie.cells(), trie.entries(), it)) == Some(
            spec_tail_index(trie.cells(), it.state.unwrap().index),
        ),
        spec_iter_data(trie.cells(), trie.entries(), it) == trie.entries()[spec_tail_index(
            trie.cells(),
            it.state.unwrap().index,
        )].data,
        spec_iter_data(trie.cells(), trie.entries(), it) is Some,
{
    let c = trie.cells();
    let tl = trie.entries();
    let x = it.state.unwrap().index;
    lemma_reach_is_node(c, it.key);
    assert(is_node(c, x));
    let t = spec_tail_index(c, x);
    assert(tail_used(tl, t));
    let sfx = tl[t].suffix.unwrap();
    let m = it.key.len() as int;
    let w = iter_word(c, tl, it);
    assert(node_shape(c, tl, trie.symbols(), x));
    lemma_reach_label(c, it.key);
    if it.key.len() > 0 && it.key.last() == TRIE_CHAR_TERM {
        assert(w.take(m) =~= it.key);
        assert(sfx == seq![TRIE_CHAR_TERM]);
    } else {
        assert(w.take(m) =~= it.key);
        assert(w.skip(m) =~= sfx);
    }
    lemma_find_skip(c, tl, w, 0, m);
}

/// An enumeration of all the keys of a trie comes to every word that the
/// trie holds: after some steps, all of which find a key, it stands at the
/// word and has its payload.
pub proof fn law_iteration_complete<T>(trie: ROTrie<T>, w: Seq<TrieChar>) -> (k: nat)
    requires
        trie.wf(),
        is_word(w),
        find(trie.cells(), trie.entries(), w) is Some,
    ensures
        k >= 1,
        iter_after(trie.cells(), iter_start(), k).0,
        iter_stands(trie.cells(), iter_after(trie.cells(), iter_start(), k).1),
        iter_after(trie.cells(), iter_start(), k).1.state is Some,
        iter_word(trie.cells(), trie.entries(), iter_after(trie.cells(), iter_start(), k).1) == w,
        spec_iter_data(trie.cells(), trie.entries(), iter_after(trie.cells(), iter_start(), k).1)
            == trie.entries()[find(trie.cells(), trie.entries(), w).unwrap()].data,
{
    let c = trie.cells();
    let tl = trie.entries();
    let m = lemma_find_witness(c, tl, w, 0);
    let v = w.take(m);
    let x = reach(c, v).unwrap();
    lemma_shape_no_dead_ends(c, tl, trie.symbols());
    let k = lemma_enum_reaches(c, iter_start(), v);
    let it = iter_after(c, iter_start(), k).1;
    lemma_iter_word_found(trie, it);
    let sfx = tl[spec_tail_index(c, x)].suffix.unwrap();
    assert(v.len() == m);
    if v.len() > 0 && v.last() == TRIE_CHAR_TERM {
        assert(v[m - 1] == w[m - 1]);
        assert(m == w.len());
        assert(v =~= w);
    } else {
        if m >= w.len() {
            assert(v =~= w);
        }
        assert(w =~= v + w.skip(m));
    }
    k
}

/// In a trie whose nodes have their shape, every node but the root that is
/// not separate has an edge.
pub proof fn lemma_shape_no_dead_ends<T>(c: Seq<DACell>, tl: Seq<TailEntry<T>>, n: SymRange)
    requires
        shape_ok(c, tl, n),
    ensures
        no_dead_ends(c),
{
    assert forall|x: int| #[trigger] is_node(c, x) && x != 2 && c[x].base >= 0 implies crate::da_spec::spec_has_children(
        c,
        x,
    ) by {
        assert(node_shape(c, tl, n, x));
    }
}

/// Whether a word is made of symbols of characters of the alphabet, and
/// the terminator at its end.
pub open spec fn word_in_alphabet(w: Seq<TrieChar>, n: SymRange) -> bool {
    &&& is_word(w)
    &&& forall|i: int| 0 <= i < w.len() - 1 ==> is_symbol(#[trigger] w[i] as int, n)
}

/// The characters of a word: those of its symbols before the terminator.
pub open spec fn word_chars(am: AlphaMap, w: Seq<TrieChar>) -> Seq<AlphaChar> {
    Seq::new((w.len() - 1) as nat, |i: int| am.spec_trie_to_char(w[i]))
}

/// The symbols that lead to a node are symbols of characters of the
/// alphabet, but that the last may be the terminator.
pub proof fn lemma_path_symbols<T>(
    c: Seq<DACell>,
    tl: Seq<TailEntry<T>>,
    n: SymRange,
    key: Seq<TrieChar>,
    i: int,
)
    requires
        da_wf(c),
        shape_ok(c, tl, n),
        reach(c, key) is Some,
        0 <= i < key.len(),
    ensures
        is_symbol_or_term(key[i] as int, n),
        i < key.len() - 1 ==> is_symbol(key[i] as int, n),
{
    crate::trie_spec::lemma_reach_prefix(c, key, i + 1);
    let u = key.take(i + 1);
    let x = reach(c, u).unwrap();
    lemma_reach_is_node(c, u);
    lemma_reach_label(c, u);
    assert(u.last() == key[i]);
    assert(node_shape(c, tl, n, x));
}

/// A word of symbols of the alphabet is the word of its characters, which
/// are characters of the alphabet other than 0.
pub proof fn lemma_word_chars(am: AlphaMap, w: Seq<TrieChar>)
    requires
        am.wf(),
        word_in_alphabet(w, symbols_of_ranges(am.ranges())),
    ensures
        spec_decode(am, w) == word_chars(am, w),
        key_len(word_chars(am, w).push(0)) == w.len() - 1,
        key_of(word_chars(am, w).push(0)) == word_chars(am, w),
        key_of(word_chars(am, w)) == word_chars(am, w),
        encodable(am, word_chars(am, w).push(0)),
        word_of(am, word_chars(am, w).push(0)) == w,
{
    let chars = word_chars(am, w);
    let kk = chars.push(0);
    let m = w.len() - 1;
    lemma_first_term(w);
    assert(first_term(w) == m) by {
        if first_term(w) < m {
            assert(w[first_term(w)] == TRIE_CHAR_TERM);
        }
    }
    assert(spec_decode(am, w) =~= chars);
    assert forall|i: int| 0 <= i < m implies chars[i] != 0 && am.spec_char_to_trie(chars[i])
        == Some(w[i] as i32) by {
        assert(is_symbol(w[i] as int, symbols_of_ranges(am.ranges())));
        am.lemma_proper_symbol_char(w[i]);
        am.lemma_symbol_of_char(w[i]);
    }
    assert forall|j: int| 0 <= j < m implies kk[j] != 0 by {
        assert(kk[j] == chars[j]);
    }
    lemma_key_len_is(kk, m);
    lemma_key_len_is(chars, m);
    assert(key_of(kk) =~= chars);
    assert(key_of(chars) =~= chars);
    assert forall|j: int| 0 <= j < key_len(kk) implies am.spec_char_to_trie(#[trigger] kk[j])
        is Some by {
        assert(kk[j] == chars[j]);
    }
    assert(syms_of(am, kk, m) =~= w.take(m)) by {
        assert forall|j: int| 0 <= j < m implies syms_of(am, kk, m)[j] == w[j] by {
            assert(kk[j] == chars[j]);
        }
    }
    assert(word_of(am, kk) =~= w);
}

/// The word at which an enumeration stands is made of symbols of the
/// alphabet, and the key that the enumeration yields there is the key of
/// that word.
pub proof fn lemma_iter_key_of_word<T>(trie: ROTrie<T>, it: IterView)
    requires
        trie.wf(),
        iter_stands(trie.cells(), it),
        it.state is Some,
    ensures
        word_in_alphabet(iter_word(trie.cells(), trie.entries(), it), trie.symbols()),
        spec_iter_key(trie.alphabet(), trie.cells(), trie.entries(), it) == Some(
            word_chars(trie.alphabet(), iter_word(trie.cells(), trie.entries(), it)).push(0),
        ),
{
    let am = trie.alphabet();
    let c = trie.cells();
    let tl = trie.entries();
    let n = trie.symbols();
    let x = it.state.unwrap().index;
    let key = it.key;
    let m = key.len() as int;
    lemma_iter_word_found(trie, it);
    lemma_reach_is_node(c, key);
    let t = spec_tail_index(c, x);
    let sfx = tl[t].suffix.unwrap();
    assert(node_shape(c, tl, n, x));
    lemma_reach_label(c, key);
    assert(is_word(sfx));
    let w = iter_word(c, tl, it);
    assert forall|i: int| 0 <= i < m implies is_symbol_or_term(key[i] as int, n) && (i < m - 1
        ==> is_symbol(key[i] as int, n)) by {
        lemma_path_symbols(c, tl, n, key, i);
    }
    lemma_first_term(key);
    lemma_first_term(sfx);
    if m > 0 && key.last() == TRIE_CHAR_TERM {
        assert(sfx == seq![TRIE_CHAR_TERM]);
        assert(first_term(key) == m - 1) by {
            if first_term(key) < m - 1 {
                assert(key[first_term(key)] == TRIE_CHAR_TERM);
            }
        }
        assert(first_term(sfx) == 0);
        assert((spec_decode(am, key) + spec_decode(am, sfx)) =~= word_chars(am, w));
    } else {
        assert(first_term(key) == m) by {
            if first_term(key) < m {
                assert(key[first_term(key)] == TRIE_CHAR_TERM);
            }
        }
        assert(first_term(sfx) == sfx.len() - 1) by {
            if first_term(sfx) < sfx.len() - 1 {
                assert(sfx[first_term(sfx)] == TRIE_CHAR_TERM);
            }
        }
        assert forall|i: int| 0 <= i < w.len() - 1 implies is_symbol(#[trigger] w[i] as int, n) by {
            if i >= m {
                assert(w[i] == sfx[i - m]);
                assert(is_symbol_or_term(sfx[i - m] as int, n));
            }
        }
        assert(w.last() == sfx.last());
        assert((spec_decode(am, key) + spec_decode(am, sfx)) =~= word_chars(am, w));
    }
}

/// What an enumeration of all the keys of a trie yields at a key is an
/// entry of the trie as a map: the key, with a 0 after it, and the payload
/// that the trie has for the key.
pub proof fn law_iteration_yields_entries<T>(trie: ROTrie<T>, it: IterView)
    requires
        trie.wf(),
        iter_stands(trie.cells(), it),
        it.state is Some,
    ensures
        spec_iter_key(trie.alphabet(), trie.cells(), trie.entries(), it) is Some,
        spec_iter_data(trie.cells(), trie.entries(), it) is Some,
        trie.spec_retrieve(
            spec_iter_key(trie.alphabet(), trie.cells(), trie.entries(), it).unwrap(),
        ) == spec_iter_data(trie.cells(), trie.entries(), it),
        spec_iter_key(trie.alphabet(), trie.cells(), trie.entries(), it).unwrap() == key_of(
            spec_iter_key(trie.alphabet(), trie.cells(), trie.entries(), it).unwrap(),
        ).push(0),
        trie.to_map().contains_key(
            key_of(spec_iter_key(trie.alphabet(), trie.cells(), trie.entries(), it).unwrap()),
        ),
        Some(
            trie.to_map()[key_of(
                spec_iter_key(trie.alphabet(), trie.cells(), trie.entries(), it).unwrap(),
            )],
        ) == spec_iter_data(trie.cells(), trie.entries(), it),
{
    let am = trie.alphabet();
    let c = trie.cells();
    let tl = trie.entries();
    let w = iter_word(c, tl, it);
    lemma_iter_word_found(trie, it);
    lemma_iter_key_of_word(trie, it);
    lemma_word_chars(am, w);
    let kk = word_chars(am, w).push(0);
    let body = word_chars(am, w);
    assert(key_of(kk) == body);
    crate::trie::lemma_key_of_idempotent(kk);
    lemma_same_key(am, body, kk);
    assert(trie.spec_retrieve(body) == trie.spec_retrieve(kk));
}

/// An enumeration of all the keys of a trie comes to every key of the trie
/// as a map: after some steps, all of which find a key, it yields the key,
/// with a 0 after it, and the payload of the key.
pub proof fn law_iteration_yields_all<T>(trie: ROTrie<T>, key: Seq<AlphaChar>) -> (k: nat)
    requires
        trie.wf(),
        trie.to_map().contains_key(key),
    ensures
        k >= 1,
        iter_after(trie.cells(), iter_start(), k).0,
        iter_stands(trie.cells(), iter_after(trie.cells(), iter_start(), k).1),
        spec_iter_key(
            trie.alphabet(),
            trie.cells(),
            trie.entries(),
            iter_after(trie.cells(), iter_start(), k).1,
        ) == Some(key.push(0)),
        spec_iter_data(trie.cells(), trie.entries(), iter_after(trie.cells(), iter_start(), k).1)
            == Some(trie.to_map()[key]),
{
    let am = trie.alphabet();
    let c = trie.cells();
    let tl = trie.entries();
    assert(key_of(key) == key && trie.spec_retrieve(key) is Some);
    let w = word_of(am, key);
    lemma_word_of(am, key);
    let k = law_iteration_complete(trie, w);
    let it = iter_after(c, iter_start(), k).1;
    lemma_iter_key_of_word(trie, it);
    lemma_word_chars(am, w);
    let kk = word_chars(am, w).push(0);
    lemma_word_of_injective(am, kk, key);
    lemma_key_len(key);
    assert(key_of(key).len() == key_len(key));
    k
}

/// Whether the key `a` comes before the key `b` in the order of the
/// characters, at a character at which they differ.
pub open spec fn chars_before(a: Seq<AlphaChar>, b: Seq<AlphaChar>) -> bool {
    exists|j: int|
        0 <= j < a.len() && j < b.len() && #[trigger] a.take(j) == b.take(j) && a[j] < b[j]
}

/// Of two words of symbols of the alphabet, the keys, each with a 0 after
/// it, stand in the order of the characters as the words stand in the order
/// of the symbols.
pub proof fn lemma_word_order(am: AlphaMap, w1: Seq<TrieChar>, w2: Seq<TrieChar>)
    requires
        am.wf(),
        word_in_alphabet(w1, symbols_of_ranges(am.ranges())),
        word_in_alphabet(w2, symbols_of_ranges(am.ranges())),
        symbols_before(w1, w2),
    ensures
        chars_before(word_chars(am, w1).push(0), word_chars(am, w2).push(0)),
{
    let k1 = word_chars(am, w1).push(0);
    let k2 = word_chars(am, w2).push(0);
    let fl = am.alphabet();
    let j = choose|j: int|
        0 <= j < w1.len() && j < w2.len() && #[trigger] w1.take(j) == w2.take(j) && w1[j] < w2[j];
    am.lemma_wf();
    crate::range_set::lemma_flatten_props(am.ranges());
    assert(j < w2.len() - 1);
    assert forall|i: int| 0 <= i < j implies k1[i] == k2[i] by {
        assert(w1.take(j)[i] == w2.take(j)[i]);
    }
    assert(k1.take(j) =~= k2.take(j));
    assert(is_symbol(w2[j] as int, symbols_of_ranges(am.ranges())));
    am.lemma_proper_symbol_char(w2[j]);
    am.lemma_symbol_of_char(w2[j]);
    if j < w1.len() - 1 {
        assert(is_symbol(w1[j] as int, symbols_of_ranges(am.ranges())));
        am.lemma_proper_symbol_char(w1[j]);
        am.lemma_symbol_of_char(w1[j]);
        assert(fl[w1[j] - 1] < fl[w2[j] - 1]);
    } else {
        assert(k1[j] == 0);
    }
}

/// A step of an enumeration of all the keys of a trie yields a key that
/// comes after the key of the step before in the order of the characters.
pub proof fn law_iteration_order<T>(trie: ROTrie<T>, it: IterView)
    requires
        trie.wf(),
        iter_stands(trie.cells(), it),
        it.state is Some,
        spec_iter_next(trie.cells(), it).0,
    ensures
        chars_before(
            spec_iter_key(trie.alphabet(), trie.cells(), trie.entries(), it).unwrap(),
            spec_iter_key(
                trie.alphabet(),
                trie.cells(),
                trie.entries(),
                spec_iter_next(trie.cells(), it).1,
            ).unwrap(),
        ),
{
    let next = spec_iter_next(trie.cells(), it).1;
    law_iteration_ascends(trie, it);
    lemma_iter_key_of_word(trie, it);
    lemma_iter_key_of_word(trie, next);
    lemma_word_order(
        trie.alphabet(),
        iter_word(trie.cells(), trie.entries(), it),
        iter_word(trie.cells(), trie.entries(), next),
    );
}

/// Of two different strings that lead to separate nodes, one comes before
/// the other at a symbol at which they differ.
pub proof fn lemma_leaf_paths_ordered(c: Seq<DACell>, a: Seq<TrieChar>, b: Seq<TrieChar>, i: int)
    requires
        is_leaf_path(c, a),
        is_leaf_path(c, b),
        0 <= i <= a.len(),
        i <= b.len(),
        a.take(i) == b.take(i),
    ensures
        a == b || symbols_before(a, b) || symbols_before(b, a),
    decreases a.len() - i,
{
    if i == a.len() {
        if i == b.len() {
            assert(a.take(i) =~= a);
            assert(b.take(i) =~= b);
        } else {
            assert(a.take(i) =~= a);
            lemma_reach_prefix(c, b, i);
        }
    } else if i == b.len() {
        assert(b.take(i) =~= b);
        lemma_reach_prefix(c, a, i);
    } else if a[i] == b[i] {
        assert(a.take(i + 1) =~= a.take(i).push(a[i]));
        assert(b.take(i + 1) =~= b.take(i).push(b[i]));
        lemma_leaf_paths_ordered(c, a, b, i + 1);
    }
}

/// No key comes before itself, and of two keys not each comes before the
/// other.
pub proof fn lemma_chars_before_one_way(a: Seq<AlphaChar>, b: Seq<AlphaChar>)
    requires
        chars_before(a, b),
    ensures
        a != b,
        !chars_before(b, a),
{
    let i = choose|i: int|
        0 <= i < a.len() && i < b.len() && #[trigger] a.take(i) == b.take(i) && a[i] < b[i];
    if chars_before(b, a) {
        let j = choose|j: int|
            0 <= j < b.len() && j < a.len() && #[trigger] b.take(j) == a.take(j) && b[j] < a[j];
        if i < j {
            assert(b.take(j)[i] == a.take(j)[i]);
        } else if j < i {
            assert(a.take(i)[j] == b.take(i)[j]);
        }
    }
}

/// The words at which two enumerations stand are in the order of the
/// symbols as their key buffers are.
pub proof fn lemma_iter_words_ordered<T>(trie: ROTrie<T>, it1: IterView, it2: IterView)
    requires
        it1.state is Some,
        it2.state is Some,
        symbols_before(it1.key, it2.key),
    ensures
        symbols_before(
            iter_word(trie.cells(), trie.entries(), it1),
            iter_word(trie.cells(), trie.entries(), it2),
        ),
{
    let w1 = iter_word(trie.cells(), trie.entries(), it1);
    let w2 = iter_word(trie.cells(), trie.entries(), it2);
    let j = choose|j: int|
        0 <= j < it1.key.len() && j < it2.key.len() && #[trigger] it1.key.take(j) == it2.key.take(
            j,
        ) && it1.key[j] < it2.key[j];
    assert(w1.take(j) =~= it1.key.take(j));
    assert(w2.take(j) =~= it2.key.take(j));
    assert(w1[j] == it1.key[j] && w2[j] == it2.key[j]);
}

/// A step of an enumeration of all the keys of a trie goes to the least
/// key ahead: where the enumeration stands before the first key, or at a
/// key that comes before a key of the trie, the step finds a key, and it is
/// that key of the trie or one that comes before it.
pub proof fn law_iteration_step_least<T>(trie: ROTrie<T>, it: IterView, key: Seq<AlphaChar>)
    requires
        trie.wf(),
        iter_stands(trie.cells(), it),
        trie.to_map().contains_key(key),
        it.state is Some ==> chars_before(
            spec_iter_key(trie.alphabet(), trie.cells(), trie.entries(), it).unwrap(),
            key.push(0),
        ),
    ensures
        spec_iter_next(trie.cells(), it).0,
        spec_iter_key(
            trie.alphabet(),
            trie.cells(),
            trie.entries(),
            spec_iter_next(trie.cells(), it).1,
        ) == Some(key.push(0)) || chars_before(
            spec_iter_key(
                trie.alphabet(),
                trie.cells(),
                trie.entries(),
                spec_iter_next(trie.cells(), it).1,
            ).unwrap(),
            key.push(0),
        ),
{
    let am = trie.alphabet();
    let c = trie.cells();
    let tl = trie.entries();
    let k = law_iteration_yields_all(trie, key);
    let at = iter_after(c, iter_start(), k).1;
    lemma_iter_key_of_word(trie, at);
    let v = at.key;
    let w = iter_word(c, tl, at);
    assert(is_leaf_path(c, v));
    lemma_shape_no_dead_ends(c, tl, trie.symbols());
    match it.state {
        None => {
            assert(reach(c, it.key) == Some(2int));
            assert(v.take(0) =~= it.key);
            lemma_first_separate_least(c, 2, c.len(), it.key, v);
        },
        Some(st) => {
            lemma_iter_key_of_word(trie, it);
            assert(v.take(0) =~= it.key.take(0));
            lemma_leaf_paths_ordered(c, it.key, v, 0);
            lemma_chars_before_one_way(
                spec_iter_key(am, c, tl, it).unwrap(),
                key.push(0),
            );
            if it.key == v {
                assert(st.index == at.state.unwrap().index);
                assert(iter_word(c, tl, it) == w);
            } else if symbols_before(v, it.key) {
                lemma_iter_words_ordered(trie, at, it);
                lemma_word_order(am, w, iter_word(c, tl, it));
            }
            assert(symbols_before(it.key, v));
            lemma_path_short(c, it.key);
            lemma_next_separate_least(c, st.index, it.key, c.len(), v);
        },
    }
    let next = spec_iter_next(c, it).1;
    assert(spec_iter_next(c, it).0);
    law_iteration_ascends(trie, it);
    lemma_iter_key_of_word(trie, next);
    if next.key == v {
        assert(next.state.unwrap().index == at.state.unwrap().index);
        assert(iter_word(c, tl, next) == w);
    } else {
        assert(symbols_before(next.key, v));
        lemma_iter_words_ordered(trie, next, at);
        lemma_word_order(am, iter_word(c, tl, next), w);
    }
}

} // verus!
