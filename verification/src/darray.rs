//! The double array: cells of `(base, check)` that hold the branching part of
//! the trie, with the unused cells chained in a list through the array.

use crate::da_spec::{
    base_relocated, branch_base_chosen, branch_fits, branch_impossible, branch_inserted,
    is_moved_child, lemma_branch_compose, lemma_branch_inserted_tree, lemma_child_is_node,
    lemma_free_list_frame, lemma_move_child, lemma_pool_grown_tree, lemma_reloc_done,
    lemma_fits_branch, lemma_relocated_free, lemma_reloc_lim, lemma_trivial_relocation,
    lemma_walk_stable, member_at, lemma_free_leaf_wf, lemma_node_set_finite, lemma_node_set_shrinks,
    lemma_prune_wf, node_set, prunable, spec_prune_upto, node_at, parent_ok, reloc_inv,
    spec_reparent, da_wf, free_list_ok, header_ok, is_free, is_node, lemma_alloc_cell_ok,
    lemma_extend_pool_ok, lemma_first_free_is, lemma_fits_stable, lemma_free_cell_ok,
    lemma_may_take_stable, lemma_pool_grown_trans, may_take, next_free, on_free_list, pool_grown,
    prev_free, set_base_of, set_check_of, spec_alloc_cell, spec_extend_pool, spec_fits,
    lemma_pool_of_len_twice, pool_of_len, spec_take_cell, spec_move_child, spec_move_children,
    spec_relocate_base, lemma_move_children_skip, top_label, spec_prepare_branch,
    spec_insert_branch,
    spec_free_cell, spec_has_children, spec_is_separate, spec_walk, tree_ok, DA_FREE_LIST,
    DA_POOL_BEGIN, DA_ROOT, DA_SIGNATURE_BASE,
};
use crate::codec::{read_i32_be, read_u32_be, write_i32_be};
use crate::da_codec::{
    cells_bytes, cells_from_bytes, free_list_partial, lemma_cells_bytes, lemma_free_list_end,
    lemma_free_list_link, lemma_free_list_scanned, spec_read_darray,
};
use crate::da_spec::{
    lemma_fits_at_end, lemma_fits_down, lemma_free_cell_unlinked, DA_BRANCH_GROWTH, cut_last,
    first_child_from,
    lemma_first_child_from, spec_first_separate, spec_next_separate, spec_output_symbols,
    symbols_below, DA_SIGNATURE,
};
use crate::iter_spec::{
    is_leaf_path, lemma_first_separate_least, lemma_next_separate_least, lemma_path_short,
    no_dead_ends,
};
use crate::symbols::Symbols;
use crate::trie_spec::{
    is_prefix, lemma_first_separate_reach, lemma_next_separate_reach, reach, symbols_before,
};
use crate::types::TrieError;
use vstd::slice::slice_subrange;
use crate::types::{TrieChar, TrieIndex, TRIE_INDEX_ERROR, TRIE_INDEX_MAX};
use vstd::prelude::*;

verus! {

/// One cell of the double array.
#[derive(Clone, Copy, Debug, PartialEq, Eq, Structural)]
pub struct DACell {
    pub base: TrieIndex,
    pub check: TrieIndex,
}

/// The double array.
pub struct DArray {
    cells: Vec<DACell>,
}

impl View for DArray {
    type V = Seq<DACell>;

    closed spec fn view(&self) -> Seq<DACell> {
        self.cells@
    }
}

impl DArray {
    /// The invariant of the double array, over its cells.
    pub open spec fn wf(&self) -> bool {
        da_wf(self@)
    }

    /// A double array that holds the root and nothing else.
    pub fn new() -> (r: Self)
        ensures
            r.wf(),
            r@ == seq![
                DACell { base: DA_SIGNATURE_BASE, check: 3 },
                DACell { base: -1i32, check: -1i32 },
                DACell { base: DA_POOL_BEGIN, check: 0 },
            ],
    {
        let mut cells: Vec<DACell> = Vec::new();
        cells.push(DACell { base: DA_SIGNATURE_BASE, check: 3 });
        cells.push(DACell { base: -1, check: -1 });
        cells.push(DACell { base: DA_POOL_BEGIN, check: 0 });
        let r = DArray { cells };
        proof {
            let c = r@;
            assert(c =~= seq![
                DACell { base: DA_SIGNATURE_BASE, check: 3 },
                DACell { base: -1i32, check: -1i32 },
                DACell { base: DA_POOL_BEGIN, check: 0 },
            ]);
            assert forall|i: int| #[trigger] on_free_list(c, i) implies i == 1 by {}
            assert(on_free_list(c, 1));
        }
        r
    }

    /// Index of the cell that heads the free list.
    pub fn get_free_list(&self) -> (r: TrieIndex)
        ensures
            r == DA_FREE_LIST,
    {
        DA_FREE_LIST
    }

    /// Index of the root.
    pub fn get_root(&self) -> (r: TrieIndex)
        ensures
            r == DA_ROOT,
    {
        DA_ROOT
    }

    /// The number of cells.
    pub fn num_cells(&self) -> (n: usize)
        ensures
            n == self@.len(),
    {
        self.cells.len()
    }

    /// The BASE of cell `s`, if there is such a cell.
    pub fn get_base(&self, s: TrieIndex) -> (r: Option<TrieIndex>)
        ensures
            r == (if 0 <= s < self@.len() {
                Some(self@[s as int].base)
            } else {
                None
            }),
    {
        if s >= 0 && (s as usize) < self.cells.len() {
            Some(self.cells[s as usize].base)
        } else {
            None
        }
    }

    /// Sets the BASE of cell `s`, if there is such a cell.
    pub fn set_base(&mut self, s: TrieIndex, val: TrieIndex) -> (r: Option<()>)
        ensures
            r is Some <==> 0 <= s < old(self)@.len(),
            final(self)@ == (if 0 <= s < old(self)@.len() {
                set_base_of(old(self)@, s as int, val)
            } else {
                old(self)@
            }),
    {
        if s >= 0 && (s as usize) < self.cells.len() {
            self.cells[s as usize].base = val;
            Some(())
        } else {
            None
        }
    }

    /// The CHECK of cell `s`, if there is such a cell.
    pub fn get_check(&self, s: TrieIndex) -> (r: Option<TrieIndex>)
        ensures
            r == (if 0 <= s < self@.len() {
                Some(self@[s as int].check)
            } else {
                None
            }),
    {
        if s >= 0 && (s as usize) < self.cells.len() {
            Some(self.cells[s as usize].check)
        } else {
            None
        }
    }

    /// Sets the CHECK of cell `s`, if there is such a cell.
    pub fn set_check(&mut self, s: TrieIndex, val: TrieIndex) -> (r: Option<()>)
        ensures
            r is Some <==> 0 <= s < old(self)@.len(),
            final(self)@ == (if 0 <= s < old(self)@.len() {
                set_check_of(old(self)@, s as int, val)
            } else {
                old(self)@
            }),
    {
        if s >= 0 && (s as usize) < self.cells.len() {
            self.cells[s as usize].check = val;
            Some(())
        } else {
            None
        }
    }

    /// Follows the edge labelled `c` from `s`, if there is one.
    pub fn walk(&self, s: TrieIndex, c: TrieChar) -> (r: Option<TrieIndex>)
        ensures
            match spec_walk(self@, s as int, c) {
                Some(t) => r == Some(t as TrieIndex) && 0 <= t <= TRIE_INDEX_MAX,
                None => r is None,
            },
    {
        match self.get_base(s) {
            None => None,
            Some(base) => {
                let next: i64 = base as i64 + c as i64;
                if next < 0 || next > TRIE_INDEX_MAX as i64 {
                    return None;
                }
                let next: TrieIndex = next as TrieIndex;
                match self.get_check(next) {
                    Some(chk) => if chk == s {
                        Some(next)
                    } else {
                        None
                    },
                    None => None,
                }
            },
        }
    }

    /// Whether `s` has an edge labelled `c`.
    pub fn is_walkable(&self, s: TrieIndex, c: TrieChar) -> (r: bool)
        ensures
            r == spec_walk(self@, s as int, c) is Some,
    {
        self.walk(s, c).is_some()
    }

    /// Whether the BASE of `s` points into the tail.
    pub fn is_separate(&self, s: TrieIndex) -> (r: bool)
        ensures
            r == spec_is_separate(self@, s as int),
    {
        match self.get_base(s) {
            Some(base) => base < 0,
            None => false,
        }
    }

    /// The tail index that the BASE of `s` holds: its negation. It is
    /// `TRIE_INDEX_ERROR` where there is no cell `s`, or the negation does
    /// not exist.
    pub fn get_tail_index(&self, s: TrieIndex) -> (r: TrieIndex)
        ensures
            r == (if 0 <= s < self@.len() && self@[s as int].base > i32::MIN {
                (-self@[s as int].base) as TrieIndex
            } else {
                TRIE_INDEX_ERROR
            }),
    {
        match self.get_base(s) {
            Some(base) => if base > i32::MIN {
                -base
            } else {
                TRIE_INDEX_ERROR
            },
            None => TRIE_INDEX_ERROR,
        }
    }

    /// Makes `s` point at the tail entry `index`.
    pub fn set_tail_index(&mut self, s: TrieIndex, index: TrieIndex) -> (r: Option<()>)
        requires
            index > i32::MIN,
        ensures
            r is Some <==> 0 <= s < old(self)@.len(),
            final(self)@ == (if 0 <= s < old(self)@.len() {
                set_base_of(old(self)@, s as int, (-index) as TrieIndex)
            } else {
                old(self)@
            }),
    {
        self.set_base(s, -index)
    }

    /// Grows the pool so that it holds cell `to_index`; the new cells join
    /// the free list at its end. Refuses an index that no cell can have.
    pub fn extend_pool(&mut self, to_index: TrieIndex) -> (r: bool)
        requires
            header_ok(old(self)@),
            free_list_ok(old(self)@),
        ensures
            r == (0 < to_index < TRIE_INDEX_MAX),
            final(self)@ == (if r && to_index >= old(self)@.len() {
                spec_extend_pool(old(self)@, to_index as int)
            } else {
                old(self)@
            }),
            header_ok(final(self)@),
            free_list_ok(final(self)@),
    {
        if to_index <= 0 || to_index >= TRIE_INDEX_MAX {
            return false;
        }
        if (to_index as usize) < self.cells.len() {
            return true;
        }
        let ghost c = self@;
        proof {
            assert(on_free_list(c, 1));
            assert(on_free_list(c, prev_free(c, 1)));
            lemma_extend_pool_ok(c, to_index as int);
        }
        let new_begin: TrieIndex = self.cells.len() as TrieIndex;
        let free_tail: TrieIndex = -self.cells[1].base;
        let mut i: TrieIndex = new_begin;
        while i <= to_index
            invariant
                new_begin <= i <= to_index + 1,
                to_index < TRIE_INDEX_MAX,
                new_begin == c.len(),
                1 <= free_tail < c.len(),
                free_tail == prev_free(c, 1),
                self.cells@.len() == i,
                forall|j: int| 0 <= j < new_begin ==> self.cells@[j] == c[j],
                forall|j: int|
                    new_begin <= j < i ==> self.cells@[j] == spec_extend_pool(c, to_index as int)[j],
            decreases to_index + 1 - i,
        {
            let cell = DACell {
                base: if i == new_begin {
                    -free_tail
                } else {
                    -(i - 1)
                },
                check: if i == to_index {
                    -1
                } else {
                    -(i + 1)
                },
            };
            self.cells.push(cell);
            i = i + 1;
        }
        self.cells[free_tail as usize].check = -new_begin;
        self.cells[1].base = -to_index;
        self.cells[0].check = to_index + 1;
        proof {
            assert(self@ =~= spec_extend_pool(c, to_index as int));
        }
        true
    }

    /// Unlinks the free cell `cell` from the free list: its neighbours are
    /// made to point at each other. The cell itself keeps its links until it
    /// is given a CHECK.
    pub fn alloc_cell(&mut self, cell: TrieIndex)
        requires
            free_list_ok(old(self)@),
            old(self)@.len() <= TRIE_INDEX_MAX,
            is_free(old(self)@, cell as int),
        ensures
            final(self)@ == spec_alloc_cell(old(self)@, cell as int),
            final(self)@.len() == old(self)@.len(),
            free_list_ok(set_check_of(final(self)@, cell as int, 0)),
    {
        proof {
            lemma_alloc_cell_ok(self@, cell as int, 0);
        }
        let prev: TrieIndex = -self.cells[cell as usize].base;
        let next: TrieIndex = -self.cells[cell as usize].check;
        self.cells[prev as usize].check = -next;
        self.cells[next as usize].base = -prev;
    }

    /// Links the cell `cell` into the free list, before the first free cell
    /// above it. The cell is that of a node, or one that has been unlinked
    /// from the list and still holds its old links.
    pub fn free_cell(&mut self, cell: TrieIndex)
        requires
            3 <= cell < old(self)@.len(),
            old(self)@.len() <= TRIE_INDEX_MAX,
            (free_list_ok(old(self)@) && old(self)@[cell as int].check >= 0) || free_list_ok(
                set_check_of(old(self)@, cell as int, 0),
            ),
        ensures
            final(self)@ == spec_free_cell(old(self)@, cell as int),
            final(self)@.len() == old(self)@.len(),
            free_list_ok(final(self)@),
    {
        let ghost c = self@;
        self.cells[cell as usize].check = 0;
        proof {
            let d = set_check_of(c, cell as int, 0);
            assert(self@ =~= d);
            if free_list_ok(c) && c[cell as int].check >= 0 {
                lemma_free_list_frame(c, d);
            }
            lemma_free_cell_unlinked(c, cell as int, 0);
            lemma_free_cell_ok(d, cell as int);
        }
        self.link_cell(cell);
    }

    /// Links the cell of a node into the free list, before the first free
    /// cell above it.
    fn link_cell(&mut self, cell: TrieIndex)
        requires
            free_list_ok(old(self)@),
            3 <= cell < old(self)@.len(),
            old(self)@[cell as int].check >= 0,
            old(self)@.len() <= TRIE_INDEX_MAX,
        ensures
            final(self)@ == spec_free_cell(old(self)@, cell as int),
            free_list_ok(final(self)@),
    {
        let ghost c = self@;
        proof {
            assert(on_free_list(c, 1));
            assert(on_free_list(c, next_free(c, 1)));
        }
        let mut i: TrieIndex = -self.cells[1].check;
        while i != DA_FREE_LIST && i < cell
            invariant
                self@ == c,
                free_list_ok(c),
                c.len() <= TRIE_INDEX_MAX,
                3 <= cell < c.len(),
                on_free_list(c, i as int),
                forall|j: int| #[trigger] is_free(c, j) && (i == 1 || j < i) ==> j < cell,
            decreases
                    (if i == 1 {
                        0
                    } else {
                        c.len() - i
                    }),
        {
            proof {
                assert(on_free_list(c, next_free(c, i as int)));
                assert forall|j: int| #[trigger]
                    is_free(c, j) && (next_free(c, i as int) == 1 || j < next_free(
                        c,
                        i as int,
                    )) implies j < cell by {
                    if j > i {
                        assert(i < next_free(c, i as int) <= j);
                    }
                }
            }
            i = -self.cells[i as usize].check;
        }
        proof {
            assert forall|j: int| cell + 1 <= j && #[trigger] is_free(c, j) implies i != 1 && i
                <= j by {}
            lemma_first_free_is(c, cell + 1, i as int);
            lemma_free_cell_ok(c, cell as int);
            assert(on_free_list(c, prev_free(c, i as int)));
        }
        let prev: TrieIndex = -self.cells[i as usize].base;
        self.cells[cell as usize].check = -i;
        self.cells[cell as usize].base = -prev;
        self.cells[prev as usize].check = -cell;
        self.cells[i as usize].base = -cell;
    }

    /// Whether cell `s` is free, after growing the pool to hold it.
    pub fn check_free_cell(&mut self, s: TrieIndex) -> (r: bool)
        requires
            header_ok(old(self)@),
            free_list_ok(old(self)@),
        ensures
            r == may_take(old(self)@, s as int),
            final(self)@ == (if 3 <= s < TRIE_INDEX_MAX && s >= old(self)@.len() {
                spec_extend_pool(old(self)@, s as int)
            } else {
                old(self)@
            }),
            header_ok(final(self)@),
            free_list_ok(final(self)@),
            pool_grown(old(self)@, final(self)@),
            r ==> is_free(final(self)@, s as int),
    {
        proof {
            if 3 <= s < TRIE_INDEX_MAX && s >= self@.len() {
                lemma_extend_pool_ok(self@, s as int);
                assert(is_free(spec_extend_pool(self@, s as int), s as int));
            }
        }
        if s < DA_POOL_BEGIN || !self.extend_pool(s) {
            return false;
        }
        match self.get_check(s) {
            Some(v) => v < 0,
            None => false,
        }
    }

    /// Whether some edge leaves `s`.
    pub fn has_children(&self, s: TrieIndex) -> (r: bool)
        ensures
            r == spec_has_children(self@, s as int),
    {
        match self.get_base(s) {
            None => {
                return false;
            },
            Some(base) => {
                if base < 0 {
                    return false;
                }
            },
        }
        let mut c: u16 = 0;
        while c <= 255
            invariant
                0 <= c <= 256,
                0 <= s < self@.len(),
                self@[s as int].base >= 0,
                forall|ch: TrieChar| ch < c ==> spec_walk(self@, s as int, ch) is None,
            decreases 256 - c,
        {
            if self.walk(s, c as TrieChar).is_some() {
                assert(spec_walk(self@, s as int, c as TrieChar) is Some);
                return true;
            }
            c = c + 1;
        }
        false
    }

    /// The labels of the edges that leave `s`, ascending.
    pub fn output_symbols(&self, s: TrieIndex) -> (r: Symbols)
        ensures
            r.wf(),
            r@ == spec_output_symbols(self@, s as int),
            forall|ch: TrieChar| r@.contains(ch) <==> spec_walk(self@, s as int, ch) is Some,
    {
        let mut syms = Symbols::new();
        let mut c: u16 = 0;
        while c <= 255
            invariant
                0 <= c <= 256,
                syms.wf(),
                syms@ == symbols_below(self@, s as int, c as int),
                forall|k: int| 0 <= k < syms@.len() ==> syms@[k] < c,
                forall|ch: TrieChar|
                    syms@.contains(ch) <==> (ch < c && spec_walk(self@, s as int, ch) is Some),
            decreases 256 - c,
        {
            if self.walk(s, c as TrieChar).is_some() {
                let ghost prev = syms@;
                syms.add_fast(c as TrieChar);
                proof {
                    assert forall|ch: TrieChar|
                        syms@.contains(ch) <==> (ch < c + 1 && spec_walk(self@, s as int, ch)
                            is Some) by {
                        if syms@.contains(ch) {
                            let k = choose|k: int| 0 <= k < syms@.len() && syms@[k] == ch;
                            if k < prev.len() {
                                assert(prev[k] == ch);
                                assert(prev.contains(ch));
                            }
                        }
                        if ch < c && spec_walk(self@, s as int, ch) is Some {
                            assert(prev.contains(ch));
                            let k = choose|k: int| 0 <= k < prev.len() && prev[k] == ch;
                            assert(syms@[k] == ch);
                        }
                        if ch == c {
                            assert(syms@[prev.len() as int] == ch);
                        }
                    }
                }
            }
            c = c + 1;
        }
        syms
    }

    /// Whether every place `base + symbol` is free; the pool grows to hold
    /// the places it looks at.
    pub fn fit_symbols(&mut self, base: TrieIndex, symbols: &Symbols) -> (r: bool)
        requires
            header_ok(old(self)@),
            free_list_ok(old(self)@),
            symbols.wf(),
        ensures
            r == spec_fits(old(self)@, base as int, symbols@),
            header_ok(final(self)@),
            free_list_ok(final(self)@),
            pool_grown(old(self)@, final(self)@),
            r ==> forall|k: int|
                0 <= k < symbols@.len() ==> is_free(final(self)@, base + #[trigger] symbols@[k]),
            final(self)@.len() <= old(self)@.len() || final(self)@.len() <= base + 256,
            final(self)@ == pool_of_len(old(self)@, final(self)@.len() as int),
            symbols@.len() == 0 ==> final(self)@ == old(self)@,
            r && symbols@.len() > 0 ==> final(self)@ == pool_of_len(
                old(self)@,
                base + symbols@.last() + 1,
            ),
            !r && symbols@.len() > 0 && base + symbols@.last() < TRIE_INDEX_MAX ==> final(self)@
                == old(self)@,
    {
        let ghost c0 = self@;
        let n: usize = symbols.num();
        let mut i: usize = 0;
        while i < n
            invariant
                0 <= i <= n,
                n == symbols@.len(),
                symbols.wf(),
                c0 == old(self)@,
                header_ok(self@),
                free_list_ok(self@),
                free_list_ok(c0),
                header_ok(c0),
                pool_grown(c0, self@),
                forall|k: int| 0 <= k < i ==> may_take(c0, base + #[trigger] symbols@[k]),
                forall|k: int| 0 <= k < i ==> is_free(self@, base + #[trigger] symbols@[k]),
                self@.len() <= c0.len() || self@.len() <= base + 256,
                i == 0 ==> self@ == c0,
                i > 0 ==> self@ == pool_of_len(c0, base + symbols@[i - 1] + 1),
            decreases n - i,
        {
            let sym: TrieChar = symbols.get(i).unwrap();
            let ghost before = self@;
            proof {
                if i < n - 1 {
                    assert(symbols@[i as int] < symbols@[n - 1]);
                }
                if i > 0 {
                    assert(symbols@[i - 1] < symbols@[i as int]);
                    assert(may_take(c0, base + symbols@[i - 1]));
                    if base + sym < TRIE_INDEX_MAX {
                        lemma_pool_of_len_twice(c0, base + symbols@[i - 1] + 1, base + sym + 1);
                    }
                }
            }
            if base > TRIE_INDEX_MAX - sym as TrieIndex {
                assert(!may_take(c0, base + symbols@[i as int]));
                return false;
            }
            let ok = self.check_free_cell(base + sym as TrieIndex);
            proof {
                if 3 <= base + sym < TRIE_INDEX_MAX {
                    assert(self@ == pool_of_len(before, base + sym + 1));
                    assert(self@ == pool_of_len(c0, base + sym + 1));
                } else {
                    assert(self@ == before);
                }
                if !ok && base + symbols@[n - 1] < TRIE_INDEX_MAX && before.len() > c0.len() {
                    assert(may_take(before, base + sym));
                }
                lemma_pool_grown_trans(c0, before, self@);
                lemma_may_take_stable(c0, before, base + sym);
                assert forall|k: int| 0 <= k < i implies is_free(
                    self@,
                    base + #[trigger] symbols@[k],
                ) by {
                    let x = base + symbols@[k];
                    lemma_may_take_stable(before, self@, x);
                    assert(is_free(before, x));
                    assert(may_take(before, x));
                }
            }
            if !ok {
                assert(!may_take(c0, base + symbols@[i as int]));
                return false;
            }
            i = i + 1;
        }
        true
    }

    /// The least base from 3 on at which every place `base + symbol` is
    /// free, or `TRIE_INDEX_ERROR` if no base fits below `TRIE_INDEX_MAX`.
    /// The pool grows to hold the places it looks at.
    pub fn find_free_base(&mut self, symbols: &Symbols) -> (r: TrieIndex)
        requires
            header_ok(old(self)@),
            free_list_ok(old(self)@),
            symbols.wf(),
            symbols@.len() > 0,
        ensures
            header_ok(final(self)@),
            free_list_ok(final(self)@),
            pool_grown(old(self)@, final(self)@),
            r == TRIE_INDEX_ERROR ==> forall|b: int|
                3 <= b ==> !spec_fits(old(self)@, b, symbols@),
            r != TRIE_INDEX_ERROR ==> {
                &&& 3 <= r
                &&& spec_fits(old(self)@, r as int, symbols@)
                &&& forall|b: int| 3 <= b < r ==> !spec_fits(old(self)@, b, symbols@)
                &&& forall|k: int|
                    0 <= k < symbols@.len() ==> is_free(final(self)@, r + #[trigger] symbols@[k])
                &&& final(self)@.len() <= old(self)@.len() || final(self)@.len() <= r
                    + DA_BRANCH_GROWTH
                &&& final(self)@ == pool_of_len(old(self)@, r + symbols@.last() + 1)
            },
            final(self)@ == pool_of_len(old(self)@, final(self)@.len() as int),
    {
        let ghost c0 = self@;
        let first_sym: TrieChar = symbols.get(0).unwrap();
        let first: TrieIndex = first_sym as TrieIndex;
        proof {
            assert(on_free_list(c0, 1));
            assert(on_free_list(c0, next_free(c0, 1)));
        }
        // the first free cell at or beyond the place of the first symbol
        let mut s: TrieIndex = -self.cells[1].check;
        while s != DA_FREE_LIST && s < first + DA_POOL_BEGIN
            invariant
                self@ == c0,
                free_list_ok(c0),
                header_ok(c0),
                0 <= first <= 255,
                on_free_list(c0, s as int),
                forall|j: int| #[trigger] is_free(c0, j) && (s == 1 || j < s) ==> j < first + 3,
            decreases
                    (if s == 1 {
                        0
                    } else {
                        c0.len() - s
                    }),
        {
            proof {
                assert(on_free_list(c0, next_free(c0, s as int)));
                assert forall|j: int| #[trigger]
                    is_free(c0, j) && (next_free(c0, s as int) == 1 || j < next_free(
                        c0,
                        s as int,
                    )) implies j < first + 3 by {
                    if j > s {
                        assert(s < next_free(c0, s as int) <= j);
                    }
                }
            }
            s = -self.cells[s as usize].check;
        }
        if s == DA_FREE_LIST {
            s = first + DA_POOL_BEGIN;
            loop
                invariant_except_break
                    forall|x: int| first + 3 <= x < s ==> !may_take(c0, x),
                    self@.len() <= c0.len() || self@.len() <= s,
                invariant
                    c0 == old(self)@,
                    header_ok(self@),
                    free_list_ok(self@),
                    free_list_ok(c0),
                    pool_grown(c0, self@),
                    0 <= first <= 255,
                    first == symbols@[0],
                    symbols@.len() > 0,
                    first + 3 <= s,
                    forall|j: int| #[trigger] is_free(c0, j) ==> j < first + 3,
                    header_ok(c0),
                    self@ == pool_of_len(c0, self@.len() as int),
                ensures
                    is_free(self@, s as int),
                    forall|x: int| first + 3 <= x < s ==> !may_take(c0, x),
                    self@.len() <= c0.len() || self@.len() <= s + 1,
                decreases TRIE_INDEX_MAX - s,
            {
                let ghost before = self@;
                proof {
                    if 0 < s < TRIE_INDEX_MAX && s >= self@.len() {
                        lemma_extend_pool_ok(self@, s as int);
                    }
                }
                if !self.extend_pool(s) {
                    proof {
                        assert forall|b: int| 3 <= b implies !spec_fits(c0, b, symbols@) by {
                            assert(!may_take(c0, b + symbols@[0]));
                        }
                    }
                    return TRIE_INDEX_ERROR;
                }
                proof {
                    lemma_pool_grown_trans(c0, before, self@);
                    lemma_pool_of_len_twice(c0, before.len() as int, self@.len() as int);
                    assert(self@ == pool_of_len(before, self@.len() as int));
                }
                if self.cells[s as usize].check < 0 {
                    break ;
                }
                proof {
                    assert(is_node(self@, s as int));
                    assert(is_node(c0, s as int));
                }
                s = s + 1;
            }
        } else {
            proof {
                assert forall|x: int| first + 3 <= x < s implies !may_take(c0, x) by {
                    if x >= 3 && x < c0.len() && c0[x].check < 0 {
                        assert(is_free(c0, x));
                    }
                }
                assert(pool_grown(c0, self@));
            }
        }
        // the next free cell from which the whole set fits
        loop
            invariant_except_break
                forall|b: int| 3 <= b < s - first ==> !spec_fits(c0, b, symbols@),
                self@.len() == c0.len() || self@.len() <= s + 1 || s - first + symbols@.last()
                    >= TRIE_INDEX_MAX,
            invariant
                c0 == old(self)@,
                header_ok(self@),
                free_list_ok(self@),
                free_list_ok(c0),
                pool_grown(c0, self@),
                symbols.wf(),
                symbols@.len() > 0,
                0 <= first <= 255,
                first == symbols@[0],
                first + 3 <= s,
                is_free(self@, s as int),
                self@.len() <= c0.len() || self@.len() <= s + 257,
                header_ok(c0),
                self@ == pool_of_len(c0, self@.len() as int),
            ensures
                self@ == pool_of_len(c0, s - first + symbols@.last() + 1),
                self@.len() <= c0.len() || self@.len() <= s + 257,
                3 <= s - first,
                spec_fits(c0, s - first, symbols@),
                forall|b: int| 3 <= b < s - first ==> !spec_fits(c0, b, symbols@),
                forall|k: int|
                    0 <= k < symbols@.len() ==> is_free(self@, s - first + #[trigger] symbols@[k]),
            decreases TRIE_INDEX_MAX - s,
        {
            let ghost before = self@;
            let fits = self.fit_symbols(s - first, symbols);
            proof {
                lemma_pool_grown_trans(c0, before, self@);
                lemma_fits_stable(c0, before, s - first, symbols@);
                let last = symbols@.last();
                assert(symbols@[0] <= last) by {
                    if symbols@.len() > 1 {
                        assert(symbols@[0] < symbols@[symbols@.len() - 1]);
                    }
                }
                lemma_pool_of_len_twice(c0, before.len() as int, self@.len() as int);
                assert(self@ == pool_of_len(before, self@.len() as int));
                if fits {
                    assert(may_take(c0, s - first + symbols@[symbols@.len() - 1]));
                    if before.len() <= s - first + last + 1 {
                        lemma_pool_of_len_twice(c0, before.len() as int, s - first + last + 1);
                    } else {
                        assert(before == c0);
                    }
                }
            }
            if fits {
                proof {
                    assert forall|k: int| 0 <= k < symbols@.len() implies is_free(
                        self@,
                        s - first + #[trigger] symbols@[k],
                    ) by {
                        assert(symbols@[0] <= symbols@[k]) by {
                            if k > 0 {
                                assert(symbols@[0] < symbols@[k]);
                            }
                        }
                    }
                }
                break ;
            }
            proof {
                lemma_may_take_stable(before, self@, s as int);
                assert(is_node(self@, s as int) <==> is_node(before, s as int));
                assert(is_free(self@, s as int));
                assert(on_free_list(self@, s as int));
            }
            let ghost mid = self@;
            if -self.cells[s as usize].check == DA_FREE_LIST {
                let len: TrieIndex = self.cells.len() as TrieIndex;
                proof {
                    if len < TRIE_INDEX_MAX {
                        lemma_extend_pool_ok(mid, len as int);
                    }
                }
                if !self.extend_pool(len) {
                    proof {
                        assert forall|b: int| 3 <= b implies !spec_fits(c0, b, symbols@) by {
                            if b > s - first {
                                let x = b + first;
                                if x < TRIE_INDEX_MAX {
                                    if mid[x].check < 0 {
                                        assert(is_free(mid, x));
                                        assert(s < next_free(mid, s as int) <= x);
                                    }
                                    assert(!may_take(mid, x));
                                    lemma_may_take_stable(c0, mid, x);
                                }
                                assert(!may_take(c0, b + symbols@[0]));
                            }
                        }
                    }
                    return TRIE_INDEX_ERROR;
                }
                proof {
                    lemma_pool_grown_trans(c0, mid, self@);
                    lemma_pool_of_len_twice(c0, mid.len() as int, self@.len() as int);
                    assert(self@ == pool_of_len(mid, self@.len() as int));
                    assert(prev_free(mid, 1) == s) by {
                        assert(on_free_list(mid, 1));
                    }
                    assert(is_free(self@, s as int));
                    assert(next_free(self@, s as int) == len);
                }
            }
            proof {
                let cur = self@;
                assert(on_free_list(cur, s as int));
                let nx = next_free(cur, s as int);
                assert(on_free_list(cur, nx));
                assert(nx != 1);
                assert(is_free(cur, nx));
                assert forall|b: int| 3 <= b < nx - first implies !spec_fits(c0, b, symbols@) by {
                    if b > s - first {
                        let x = b + first;
                        if cur[x].check < 0 {
                            assert(is_free(cur, x));
                            assert(s < next_free(cur, s as int) <= x);
                        }
                        assert(!may_take(cur, x));
                        lemma_may_take_stable(c0, cur, x);
                        assert(!may_take(c0, b + symbols@[0]));
                    }
                }
            }
            s = -self.cells[s as usize].check;
        }
        s - first
    }

    /// Takes the free cell `cell` off the free list and gives it to a node
    /// with the given BASE and CHECK.
    fn take_cell(&mut self, cell: TrieIndex, base: TrieIndex, check: TrieIndex)
        requires
            header_ok(old(self)@),
            free_list_ok(old(self)@),
            is_free(old(self)@, cell as int),
            check >= 0,
        ensures
            header_ok(final(self)@),
            free_list_ok(final(self)@),
            final(self)@.len() == old(self)@.len(),
            final(self)@[cell as int] == (DACell { base, check }),
            forall|j: int| j != cell ==> (is_free(final(self)@, j) <==> is_free(old(self)@, j)),
            forall|j: int|
                0 <= j < old(self)@.len() && j != cell && !on_free_list(old(self)@, j) ==> final(self)@[j] == old(self)@[j],
            final(self)@ == spec_take_cell(old(self)@, cell as int, base, check),
    {
        let ghost c = self@;
        proof {
            lemma_alloc_cell_ok(c, cell as int, check);
        }
        self.alloc_cell(cell);
        self.cells[cell as usize].check = check;
        let ghost d = self@;
        assert(d == set_check_of(spec_alloc_cell(c, cell as int), cell as int, check));
        self.cells[cell as usize].base = base;
        proof {
            lemma_free_list_frame(d, self@);
            assert(!on_free_list(c, 0));
            assert(self@ =~= spec_take_cell(c, cell as int, base, check));
        }
    }

    /// Puts the cell of the node `cell` back on the free list.
    fn release_cell(&mut self, cell: TrieIndex)
        requires
            header_ok(old(self)@),
            free_list_ok(old(self)@),
            3 <= cell < old(self)@.len(),
            old(self)@[cell as int].check >= 0,
        ensures
            header_ok(final(self)@),
            free_list_ok(final(self)@),
            final(self)@.len() == old(self)@.len(),
            is_free(final(self)@, cell as int),
            forall|j: int| j != cell ==> (is_free(final(self)@, j) <==> is_free(old(self)@, j)),
            forall|j: int|
                0 <= j < old(self)@.len() && j != cell && !on_free_list(old(self)@, j) ==> final(self)@[j] == old(self)@[j],
            final(self)@ == spec_free_cell(old(self)@, cell as int),
    {
        proof {
            lemma_free_cell_ok(self@, cell as int);
            assert(!on_free_list(self@, 0));
        }
        self.link_cell(cell);
    }

    /// Gives every cell at `base + 0..=255` whose CHECK is `from` the CHECK
    /// `to`: the children of a node follow it to its new cell.
    fn reparent(&mut self, base: TrieIndex, from: TrieIndex, to: TrieIndex)
        requires
            base > 0,
        ensures
            final(self)@ == spec_reparent(old(self)@, base as int, from, to),
    {
        let ghost c = self@;
        let mut k: u16 = 0;
        while k <= 255
            invariant
                0 <= k <= 256,
                base > 0,
                self@.len() == c.len(),
                forall|g: int|
                    0 <= g < c.len() ==> #[trigger] self@[g] == (if 0 <= g - base < k && c[g].check
                        == from {
                        DACell { base: c[g].base, check: to }
                    } else {
                        c[g]
                    }),
            decreases 256 - k,
        {
            let g: usize = base as usize + k as usize;
            if g < self.cells.len() {
                if self.cells[g].check == from {
                    self.cells[g].check = to;
                }
            }
            k = k + 1;
        }
        assert(self@ =~= spec_reparent(c, base as int, from, to));
    }

    /// Moves the child of `s` labelled `sym` to the base `new_base`: the new
    /// cell takes its BASE, its children follow, its old cell is freed.
    #[verifier::rlimit(80)]
    #[verifier::spinoff_prover]
    fn move_child(
        &mut self,
        s: TrieIndex,
        sym: TrieChar,
        new_base: TrieIndex,
        Ghost(c0): Ghost<Seq<DACell>>,
    )
        requires
            da_wf(c0),
            is_node(c0, s as int),
            c0[s as int].base > 0,
            new_base > 0,
            reloc_inv(c0, old(self)@, s as int, new_base as int, sym as int),
            spec_walk(c0, s as int, sym) is Some,
            forall|x: int|
                3 <= x < c0.len() && (#[trigger] c0[x]).check == s ==> is_free(
                    c0,
                    x - c0[s as int].base + new_base,
                ),
            forall|x: int|
                3 <= x < c0.len() && (#[trigger] c0[x]).check == s && x - c0[s as int].base >= sym
                    ==> is_free(old(self)@, x - c0[s as int].base + new_base),
        ensures
            reloc_inv(c0, final(self)@, s as int, new_base as int, sym + 1),
            forall|x: int|
                3 <= x < c0.len() && (#[trigger] c0[x]).check == s && x - c0[s as int].base > sym
                    ==> is_free(final(self)@, x - c0[s as int].base + new_base),
            final(self)@ == spec_move_child(
                old(self)@,
                s as int,
                c0[s as int].base as int,
                new_base as int,
                sym as int,
            ),
    {
        let ghost c = self@;
        let ghost ob = c0[s as int].base as int;
        let ghost nb = new_base as int;
        proof {
            assert(is_node(c0, 2));
            assert(on_free_list(c0, 1));
            assert(c0[ob + sym].check == s);
            assert(is_node(c0, ob + sym));
            assert(is_free(c0, ob + sym - ob + nb));
            assert(is_free(c, ob + sym - ob + nb));
            assert(!is_moved_child(c0, s as int, sym as int, s as int)) by {
                if s != 2 {
                    assert(parent_ok(c0, s as int));
                }
            }
            assert(!is_moved_child(c0, s as int, sym as int, ob + sym));
        }
        let old_base: TrieIndex = self.cells[s as usize].base;
        let old_next: TrieIndex = old_base + sym as TrieIndex;
        let new_next: TrieIndex = new_base + sym as TrieIndex;
        let onb: TrieIndex = self.cells[old_next as usize].base;
        self.take_cell(new_next, onb, s);
        let ghost c1 = self@;
        if onb > 0 {
            self.reparent(onb, old_next, new_next);
        }
        let ghost c2 = self@;
        proof {
            assert(on_free_list(c1, 1));
            assert forall|i: int| #[trigger] on_free_list(c1, i) implies c2[i] == c1[i] by {}
            lemma_free_list_frame(c1, c2);
            assert(c2[0] == c1[0]);
            assert(!on_free_list(c, old_next as int));
            assert(c1[old_next as int] == c[old_next as int]);
            assert(c2[old_next as int].check == s);
        }
        self.release_cell(old_next);
        proof {
            lemma_move_child(c0, c, c1, c2, self@, s as int, nb, sym as int);
        }
    }

    /// Moves the children of `s` to the base `new_base`, whose places for
    /// them are free.
    fn relocate_base(&mut self, s: TrieIndex, new_base: TrieIndex)
        requires
            da_wf(old(self)@),
            is_node(old(self)@, s as int),
            old(self)@[s as int].base > 0,
            new_base > 0,
            forall|x: int|
                3 <= x < old(self)@.len() && (#[trigger] old(self)@[x]).check == s ==> is_free(
                    old(self)@,
                    x - old(self)@[s as int].base + new_base,
                ),
        ensures
            base_relocated(old(self)@, final(self)@, s as int, new_base as int),
            final(self)@ == spec_relocate_base(old(self)@, s as int, new_base as int),
    {
        let ghost c0 = self@;
        let ghost ob = c0[s as int].base as int;
        let symbols = self.output_symbols(s);
        let n: usize = symbols.num();
        let mut i: usize = 0;
        let ghost lim: int = 0;
        proof {
            assert(is_node(c0, 2));
            assert forall|x: int| !is_moved_child(c0, s as int, 0, x) by {
                if 3 <= x < c0.len() && c0[x].check == s {
                    lemma_child_is_node(c0, s as int, x);
                }
            }
            assert forall|y: int| #[trigger] is_node(c0, y) implies node_at(c0, y) by {}
        }
        while i < n
            invariant
                0 <= i <= n,
                n == symbols@.len(),
                symbols.wf(),
                forall|ch: TrieChar| symbols@.contains(ch) <==> spec_walk(c0, s as int, ch) is Some,
                da_wf(c0),
                is_node(c0, s as int),
                c0[s as int].base > 0,
                ob == c0[s as int].base,
                new_base > 0,
                0 <= lim <= 256,
                i < n ==> lim <= symbols@[i as int],
                i > 0 ==> lim == symbols@[i - 1] + 1,
                reloc_inv(c0, self@, s as int, new_base as int, lim),
                self@ == spec_move_children(c0, s as int, new_base as int, lim),
                forall|x: int|
                    3 <= x < c0.len() && (#[trigger] c0[x]).check == s ==> is_free(
                        c0,
                        x - ob + new_base,
                    ),
                forall|x: int|
                    3 <= x < c0.len() && (#[trigger] c0[x]).check == s && x - ob >= lim ==> is_free(
                        self@,
                        x - ob + new_base,
                    ),
            decreases n - i,
        {
            let sym: TrieChar = symbols.get(i).unwrap();
            proof {
                assert(symbols@.contains(sym));
                assert forall|x: int| 3 <= x < c0.len() && (#[trigger] c0[x]).check == s implies !(
                lim <= x - ob < sym) by {
                    lemma_child_is_node(c0, s as int, x);
                    let l = (x - ob) as TrieChar;
                    assert(spec_walk(c0, s as int, l) is Some);
                    assert(symbols@.contains(l));
                    let k = choose|k: int| 0 <= k < symbols@.len() && symbols@[k] == l;
                    if k < i {
                        if k < i - 1 {
                            assert(symbols@[k] < symbols@[i - 1]);
                        }
                    } else if k > i {
                        assert(symbols@[i as int] < symbols@[k]);
                    }
                }
                lemma_reloc_lim(c0, self@, s as int, new_base as int, lim, sym as int);
                assert forall|l: TrieChar| lim <= l < sym implies spec_walk(
                    c0,
                    s as int,
                    l,
                ) is None by {
                    if symbols@.contains(l) {
                        let k = choose|k: int| 0 <= k < symbols@.len() && symbols@[k] == l;
                        if k < i {
                            if k < i - 1 {
                                assert(symbols@[k] < symbols@[i - 1]);
                            }
                        } else if k > i {
                            assert(symbols@[i as int] < symbols@[k]);
                        }
                    }
                }
                lemma_move_children_skip(c0, s as int, new_base as int, lim, sym as int);
                assert(spec_walk(c0, s as int, sym) is Some);
                assert((sym + 1 - 1) as TrieChar == sym);
            }
            self.move_child(s, sym, new_base, Ghost(c0));
            proof {
                lim = sym + 1;
                if i + 1 < n {
                    assert(symbols@[i as int] < symbols@[i + 1]);
                }
            }
            i = i + 1;
        }
        proof {
            assert forall|x: int| 3 <= x < c0.len() && (#[trigger] c0[x]).check == s implies !(lim
                <= x - ob < 256) by {
                lemma_child_is_node(c0, s as int, x);
                let l = (x - ob) as TrieChar;
                assert(spec_walk(c0, s as int, l) is Some);
                assert(symbols@.contains(l));
                let k = choose|k: int| 0 <= k < symbols@.len() && symbols@[k] == l;
                if k < n - 1 {
                    assert(symbols@[k] < symbols@[n - 1]);
                }
            }
            lemma_reloc_lim(c0, self@, s as int, new_base as int, lim, 256);
            assert forall|l: TrieChar| lim <= l < 256 implies spec_walk(c0, s as int, l) is None by {
                if symbols@.contains(l) {
                    let k = choose|k: int| 0 <= k < symbols@.len() && symbols@[k] == l;
                    if k < n - 1 {
                        assert(symbols@[k] < symbols@[n - 1]);
                    }
                }
            }
            lemma_move_children_skip(c0, s as int, new_base as int, lim, 256);
            lemma_reloc_done(c0, self@, s as int, new_base as int);
            assert(is_node(c0, s as int));
        }
        self.cells[s as usize].base = new_base;
    }

    /// Makes room for a new child of `s` under the label `c`: where the
    /// place at the base of `s` cannot be taken, `s` gets the least base that
    /// has room, and its children move there. Says whether there is room.
    fn prepare_branch(&mut self, s: TrieIndex, c: TrieChar) -> (r: (bool, Ghost<Seq<DACell>>))
        requires
            old(self).wf(),
            is_node(old(self)@, s as int),
            spec_walk(old(self)@, s as int, c) is None,
        ensures
            header_ok(final(self)@),
            free_list_ok(final(self)@),
            r.0 ==> {
                &&& header_ok(r.1@)
                &&& free_list_ok(r.1@)
                &&& pool_grown(old(self)@, r.1@)
                &&& base_relocated(
                    r.1@,
                    final(self)@,
                    s as int,
                    final(self)@[s as int].base as int,
                )
                &&& final(self)@[s as int].base > 0
                &&& is_free(final(self)@, final(self)@[s as int].base + c)
                &&& !is_node(r.1@, final(self)@[s as int].base + c)
                &&& branch_base_chosen(
                    old(self)@,
                    s as int,
                    c,
                    final(self)@[s as int].base as int,
                )
            },
            !r.0 ==> {
                &&& pool_grown(old(self)@, final(self)@)
                &&& branch_impossible(old(self)@, s as int, c)
                &&& final(self)@ == pool_of_len(old(self)@, final(self)@.len() as int)
            },
            r.0 ==> final(self)@ == spec_prepare_branch(
                old(self)@,
                s as int,
                c,
                final(self)@[s as int].base as int,
            ),
            final(self)@.len() <= old(self)@.len() + DA_BRANCH_GROWTH,
            old(self)@.len() + 255 < TRIE_INDEX_MAX ==> r.0,
    {
        let ghost c0 = self@;
        let base: TrieIndex = self.cells[s as usize].base;
        let mut direct: bool = false;
        if base > 0 && base <= TRIE_INDEX_MAX - c as TrieIndex {
            direct = self.check_free_cell(base + c as TrieIndex);
        }
        let ghost ca = self@;
        proof {
            lemma_pool_grown_tree(c0, ca);
            assert(is_node(ca, s as int));
            assert(ca[s as int] == c0[s as int]);
            assert(c0[s as int].base <= c0.len());
            if !direct {
                assert(ca == c0);
            }
        }
        if direct {
            proof {
                lemma_trivial_relocation(ca, s as int, base as int);
                assert(set_base_of(ca, s as int, base) =~= ca);
            }
            return (true, Ghost(ca));
        }
        let (ok, cf) = self.relocate_for_branch(s, c, Ghost(c0));
        (ok, cf)
    }

    /// Gives `s` the least base that has room for its children and a new one
    /// under the label `c`, and moves the children there. Says whether there
    /// is such a base.
    fn relocate_for_branch(&mut self, s: TrieIndex, c: TrieChar, Ghost(c0): Ghost<Seq<DACell>>) -> (r:
        (bool, Ghost<Seq<DACell>>))
        requires
            da_wf(c0),
            old(self).wf(),
            pool_grown(c0, old(self)@),
            old(self)@ == c0,
            is_node(c0, s as int),
            spec_walk(c0, s as int, c) is None,
        ensures
            final(self)@.len() <= c0.len() + DA_BRANCH_GROWTH,
            r.0 ==> r.1@ == pool_of_len(
                c0,
                final(self)@[s as int].base + top_label(c0, s as int, c) + 1,
            ) && final(self)@ == spec_relocate_base(
                r.1@,
                s as int,
                final(self)@[s as int].base as int,
            ),
            !r.0 ==> final(self)@ == pool_of_len(c0, final(self)@.len() as int),
            c0.len() + 255 < TRIE_INDEX_MAX ==> r.0,
            header_ok(final(self)@),
            free_list_ok(final(self)@),
            r.0 ==> {
                &&& header_ok(r.1@)
                &&& free_list_ok(r.1@)
                &&& pool_grown(c0, r.1@)
                &&& base_relocated(
                    r.1@,
                    final(self)@,
                    s as int,
                    final(self)@[s as int].base as int,
                )
                &&& 3 <= final(self)@[s as int].base
                &&& is_free(final(self)@, final(self)@[s as int].base + c)
                &&& !is_node(r.1@, final(self)@[s as int].base + c)
                &&& branch_fits(c0, s as int, c, final(self)@[s as int].base as int)
                &&& forall|b: int|
                    3 <= b < final(self)@[s as int].base ==> !#[trigger] branch_fits(
                        c0,
                        s as int,
                        c,
                        b,
                    )
            },
            !r.0 ==> {
                &&& pool_grown(c0, final(self)@)
                &&& forall|b: int| 3 <= b ==> !#[trigger] branch_fits(c0, s as int, c, b)
            },
    {
        let ghost ca = self@;
        let base: TrieIndex = self.cells[s as usize].base;
        proof {
            assert(is_node(ca, s as int));
            assert(ca[s as int] == c0[s as int]);
        }
        let mut symbols = if base > 0 {
            self.output_symbols(s)
        } else {
            Symbols::new()
        };
        let ghost before_add = symbols@;
        symbols.add(c);
        proof {
            // the greatest of the symbols
            let top = symbols@.last();
            assert(symbols@.contains(top));
            assert(symbols@.contains(c));
            let kc = choose|k: int| 0 <= k < symbols@.len() && symbols@[k] == c;
            if kc < symbols@.len() - 1 {
                assert(symbols@[kc] < symbols@[symbols@.len() - 1]);
            }
            if before_add.len() > 0 {
                let m = before_add.last();
                assert(before_add.contains(m));
                assert(symbols@.contains(m));
                let km = choose|k: int| 0 <= k < symbols@.len() && symbols@[k] == m;
                if km < symbols@.len() - 1 {
                    assert(symbols@[km] < symbols@[symbols@.len() - 1]);
                }
                if top != c {
                    assert(before_add.contains(top));
                    let kt = choose|k: int| 0 <= k < before_add.len() && before_add[k] == top;
                    if kt < before_add.len() - 1 {
                        assert(before_add[kt] < before_add[before_add.len() - 1]);
                    }
                }
            }
            assert(top == top_label(c0, s as int, c));
            assert(symbols@.contains(c));
            assert forall|l: TrieChar|
                symbols@.contains(l) <==> (spec_walk(c0, s as int, l) is Some || l == c) by {
                lemma_walk_stable(c0, ca, s as int, l);
                if base <= 0 && spec_walk(ca, s as int, l) is Some {
                    lemma_child_is_node(ca, s as int, ca[s as int].base + l);
                }
            }
            assert forall|b: int| #[trigger]
                spec_fits(ca, b, symbols@) == branch_fits(c0, s as int, c, b) by {
                lemma_fits_stable(c0, ca, b, symbols@);
                lemma_fits_branch(c0, s as int, c, b, symbols@);
            }
        }
        let new_base: TrieIndex = self.find_free_base(&symbols);
        let ghost cf = self@;
        proof {
            lemma_pool_grown_trans(c0, ca, cf);
            lemma_pool_grown_tree(c0, cf);
        }
        proof {
            if c0.len() + 255 < TRIE_INDEX_MAX {
                lemma_fits_at_end(ca, c0.len() as int, symbols@);
            }
        }
        if new_base == TRIE_INDEX_ERROR {
            proof {
                assert forall|b: int| 3 <= b implies !#[trigger] branch_fits(c0, s as int, c, b) by {
                    assert(!spec_fits(ca, b, symbols@));
                }
            }
            return (false, Ghost(cf));
        }
        assert(cf == pool_of_len(c0, new_base + top_label(c0, s as int, c) + 1));
        proof {
            if new_base > c0.len() {
                lemma_fits_down(ca, new_base as int, c0.len() as int, symbols@);
            }
            assert(new_base <= c0.len());
        }
        proof {
            assert(is_node(cf, s as int));
            assert(cf[s as int] == c0[s as int]);
            let k = choose|k: int| 0 <= k < symbols@.len() && symbols@[k] == c;
            assert(is_free(cf, new_base + symbols@[k]));
            assert(spec_fits(ca, new_base as int, symbols@));
            assert forall|b: int| 3 <= b < new_base implies !#[trigger] branch_fits(
                c0,
                s as int,
                c,
                b,
            ) by {
                assert(!spec_fits(ca, b, symbols@));
            }
        }
        if base > 0 {
            proof {
                assert forall|x: int|
                    3 <= x < cf.len() && (#[trigger] cf[x]).check == s implies is_free(
                    cf,
                    x - cf[s as int].base + new_base,
                ) by {
                    lemma_child_is_node(cf, s as int, x);
                    let l = (x - base) as TrieChar;
                    assert(spec_walk(cf, s as int, l) is Some);
                    lemma_walk_stable(c0, cf, s as int, l);
                    assert(symbols@.contains(l));
                    let k = choose|k: int| 0 <= k < symbols@.len() && symbols@[k] == l;
                    assert(is_free(cf, new_base + symbols@[k]));
                }
            }
            self.relocate_base(s, new_base);
            proof {
                lemma_walk_stable(c0, cf, s as int, c);
                lemma_relocated_free(cf, self@, s as int, new_base as int, new_base + c);
            }
        } else {
            proof {
                lemma_trivial_relocation(cf, s as int, new_base as int);
                assert forall|x: int| !(0 <= x < cf.len() && cf[x].check == s) by {
                    if 0 <= x < cf.len() && cf[x].check == s {
                        lemma_child_is_node(cf, s as int, x);
                    }
                }
            }
            self.cells[s as usize].base = new_base;
            proof {
                lemma_relocated_free(cf, self@, s as int, new_base as int, new_base + c);
            }
        }
        (true, Ghost(cf))
    }

    /// Gives `s` an edge labelled `c`, and returns the node it leads to. An
    /// edge that exists is returned as it is. Otherwise the new node takes
    /// the cell at `base(s) + c` where that is free; where it is not, the
    /// children of `s` first move to the least base from 3 on that has room
    /// for them and the new node. The new node has the BASE 0. Nothing is
    /// returned when no base has room.
    pub fn insert_branch(&mut self, s: TrieIndex, c: TrieChar) -> (r: Option<TrieIndex>)
        requires
            old(self).wf(),
            is_node(old(self)@, s as int),
        ensures
            final(self).wf(),
            match r {
                Some(nd) => match spec_walk(old(self)@, s as int, c) {
                    Some(t) => nd == t && final(self)@ == old(self)@,
                    None => {
                        &&& branch_inserted(old(self)@, final(self)@, s as int, c, nd as int)
                        &&& branch_base_chosen(
                            old(self)@,
                            s as int,
                            c,
                            final(self)@[s as int].base as int,
                        )
                        &&& nd == final(self)@[s as int].base + c
                        &&& final(self)@ == spec_insert_branch(
                            old(self)@,
                            s as int,
                            c,
                            final(self)@[s as int].base as int,
                        )
                    },
                },
                None => {
                    &&& spec_walk(old(self)@, s as int, c) is None
                    &&& pool_grown(old(self)@, final(self)@)
                    &&& branch_impossible(old(self)@, s as int, c)
                    &&& final(self)@ == pool_of_len(old(self)@, final(self)@.len() as int)
                },
            },
            old(self)@.len() + 255 < TRIE_INDEX_MAX ==> r is Some,
            final(self)@.len() <= old(self)@.len() + DA_BRANCH_GROWTH,
    {
        let ghost c0 = self@;
        match self.walk(s, c) {
            Some(t) => {
                return Some(t);
            },
            None => {},
        }
        let (ok, cf) = self.prepare_branch(s, c);
        if !ok {
            proof {
                lemma_pool_grown_tree(c0, self@);
            }
            return None;
        }
        let ghost cb = self@;
        let next: TrieIndex = self.cells[s as usize].base + c as TrieIndex;
        self.take_cell(next, TRIE_INDEX_ERROR, s);
        proof {
            lemma_branch_compose(c0, cf@, cb, self@, s as int, c);
            lemma_branch_inserted_tree(c0, self@, s as int, c, next as int);
        }
        Some(next)
    }

    /// Prunes the path that ends in `s`: frees `s` if no edge leaves it, then
    /// its parent likewise, up to the root.
    pub fn prune(&mut self, s: TrieIndex)
        requires
            old(self).wf(),
        ensures
            final(self).wf(),
            final(self)@ == spec_prune_upto(old(self)@, DA_ROOT as int, s as int, old(self)@.len()),
    {
        self.prune_upto(DA_ROOT, s)
    }

    /// Prunes the path that ends in `s`, up to and not including `p`: frees
    /// `s` if no edge leaves it, then its parent likewise, and stops at `p`,
    /// at a node with an edge, or where there is no node.
    pub fn prune_upto(&mut self, p: TrieIndex, s: TrieIndex)
        requires
            old(self).wf(),
        ensures
            final(self).wf(),
            final(self)@ == spec_prune_upto(old(self)@, p as int, s as int, old(self)@.len()),
    {
        let ghost c0 = self@;
        let ghost fuel: nat = c0.len();
        let ghost s0: int = s as int;
        let mut s: TrieIndex = s;
        proof {
            lemma_node_set_finite(c0);
        }
        while p != s && s >= DA_POOL_BEGIN && (s as usize) < self.cells.len()
            && self.cells[s as usize].check >= 0 && !self.has_children(s)
            invariant
                da_wf(self@),
                node_set(self@).len() <= fuel,
                spec_prune_upto(c0, p as int, s0, c0.len()) == spec_prune_upto(
                    self@,
                    p as int,
                    s as int,
                    fuel,
                ),
            ensures
                !prunable(self@, p as int, s as int),
            decreases fuel,
        {
            let ghost c = self@;
            proof {
                lemma_free_leaf_wf(c, s as int);
                assert(is_node(c, s as int));
                lemma_node_set_finite(c);
                assert(node_set(c).contains(s as int));
                assert(fuel > 0) by {
                    if node_set(c).len() == 0 {
                        assert(node_set(c) =~= Set::<int>::empty());
                    }
                }
                lemma_node_set_shrinks(c, spec_free_cell(c, s as int), s as int);
            }
            let parent: TrieIndex = self.cells[s as usize].check;
            self.link_cell(s);
            s = parent;
            proof {
                fuel = (fuel - 1) as nat;
            }
        }
        proof {
            lemma_prune_wf(c0, p as int, s0, c0.len());
        }
    }

    /// Appends the serialized double array to `buf`: BASE and CHECK of
    /// every cell, the header cell first.
    pub fn serialize(&self, buf: &mut Vec<u8>)
        ensures
            final(buf)@ == old(buf)@ + cells_bytes(self@),
    {
        let ghost head = buf@;
        let mut i: usize = 0;
        assert(self@.take(0) =~= Seq::<DACell>::empty());
        assert(head + cells_bytes(self@.take(0)) =~= head);
        while i < self.cells.len()
            invariant
                0 <= i <= self@.len(),
                buf@ == head + cells_bytes(self@.take(i as int)),
            decreases self@.len() - i,
        {
            write_i32_be(buf, self.cells[i].base);
            write_i32_be(buf, self.cells[i].check);
            proof {
                assert(self@.take(i + 1).drop_last() =~= self@.take(i as int));
                assert(self@.take(i + 1).last() == self@[i as int]);
                assert(buf@ =~= head + cells_bytes(self@.take(i + 1)));
            }
            i = i + 1;
        }
        proof {
            assert(self@.take(i as int) =~= self@);
        }
    }

    /// The number of bytes that `serialize` appends.
    pub fn get_serialized_size(&self) -> (n: usize)
        requires
            8 * self@.len() <= usize::MAX,
        ensures
            n == cells_bytes(self@).len(),
    {
        proof {
            lemma_cells_bytes(self@);
        }
        if self.cells.len() != 0 {
            4 * self.cells.len() * 2
        } else {
            0
        }
    }

    /// Whether the free cells are chained as the invariant says.
    fn check_free_list(&self) -> (ok: bool)
        requires
            3 <= self@.len() <= TRIE_INDEX_MAX,
        ensures
            ok == free_list_ok(self@),
    {
        let ghost c = self@;
        let n: usize = self.cells.len();
        let mut last: usize = 1;
        let mut i: usize = 3;
        proof {
            assert forall|m: int| #[trigger] on_free_list(c, m) && m < 3 implies m == 1 by {}
        }
        while i < n
            invariant
                c == self@,
                n == c.len(),
                3 <= i <= n <= TRIE_INDEX_MAX,
                1 <= last < i,
                free_list_partial(c, i as int, last as int),
            decreases n - i,
        {
            if self.cells[i].check < 0 {
                if self.cells[last].check != -(i as TrieIndex) || self.cells[i].base != -(
                last as TrieIndex) {
                    proof {
                        if free_list_ok(c) {
                            assert(is_free(c, i as int));
                            lemma_free_list_link(c, i as int, last as int);
                        }
                    }
                    return false;
                }
                proof {
                    let l = last as int;
                    let k = i as int;
                    assert(is_free(c, k));
                    assert forall|j: int| #[trigger] is_free(c, j) && j < k + 1 implies j <= k by {}
                    assert forall|m: int| #[trigger]
                        on_free_list(c, m) && m < k + 1 && m != k implies member_at(
                        c,
                        next_free(c, m),
                    ) && m < next_free(c, m) <= k && prev_free(c, next_free(c, m)) == m by {
                        if m != l {
                        } else {
                        }
                    }
                    assert forall|m: int, j: int| #[trigger]
                        on_free_list(c, m) && m < k + 1 && m != k && #[trigger] is_free(c, j) && m
                            < j implies next_free(c, m) <= j by {
                        if m == l {
                            if j < k {
                                assert(j <= l);
                            }
                        }
                    }
                    assert forall|m: int| #[trigger] is_free(c, m) && m < k + 1 implies member_at(
                        c,
                        prev_free(c, m),
                    ) && prev_free(c, m) < m && next_free(c, prev_free(c, m)) == m by {}
                }
                last = i;
            } else {
                proof {
                    let k = i as int;
                    assert forall|j: int| #[trigger] is_free(c, j) && j < k + 1 implies j
                        <= last by {}
                    assert forall|m: int| #[trigger]
                        on_free_list(c, m) && m < k + 1 && m != last implies member_at(
                        c,
                        next_free(c, m),
                    ) && m < next_free(c, m) <= last && prev_free(c, next_free(c, m)) == m by {
                        assert(m != k);
                    }
                }
            }
            i = i + 1;
        }
        let ok = self.cells[last].check == -1 && self.cells[1].base == -(last as TrieIndex);
        proof {
            if free_list_ok(c) {
                assert forall|j: int| #[trigger] is_free(c, j) implies j <= last by {}
                lemma_free_list_end(c, last as int);
            }
            if ok {
                lemma_free_list_scanned(c, last as int);
            }
        }
        ok
    }

    /// Whether every node but the root has a parent that holds it, and the
    /// root none.
    fn check_tree(&self) -> (ok: bool)
        requires
            3 <= self@.len() <= TRIE_INDEX_MAX,
        ensures
            ok == tree_ok(self@),
    {
        let ghost c = self@;
        let n: usize = self.cells.len();
        if self.cells[2].check != 0 {
            return false;
        }
        if self.cells[2].base > n as TrieIndex {
            proof {
                assert(is_node(c, 2));
            }
            return false;
        }
        let mut t: usize = 3;
        while t < n
            invariant
                c == self@,
                n == c.len(),
                3 <= t <= n <= TRIE_INDEX_MAX,
                c[2].check == 0,
                c[2].base <= n,
                forall|x: int| #[trigger] is_node(c, x) && x != 2 && x < t ==> parent_ok(c, x),
                forall|x: int| #[trigger] is_node(c, x) && x != 2 && x < t ==> c[x].base <= n,
            decreases n - t,
        {
            let p: TrieIndex = self.cells[t].check;
            if p >= 0 {
                let mut good: bool = p >= 2 && (p as usize) < n && (p as usize) != t
                    && self.cells[t].base <= n as TrieIndex;
                if good {
                    let pc = self.cells[p as usize];
                    let label: i64 = t as i64 - pc.base as i64;
                    good = pc.check >= 0 && pc.base > 0 && 0 <= label && label <= 255;
                }
                if !good {
                    proof {
                        assert(is_node(c, t as int));
                        assert(!parent_ok(c, t as int) || c[t as int].base > n);
                    }
                    return false;
                }
            }
            t = t + 1;
        }
        true
    }

    /// Whether the cells are a well-formed double array.
    pub fn check_wf(&self) -> (ok: bool)
        ensures
            ok == self.wf(),
    {
        let n: usize = self.cells.len();
        if n < 3 || n > TRIE_INDEX_MAX as usize {
            return false;
        }
        if self.cells[0].base != DA_SIGNATURE_BASE || self.cells[0].check != n as TrieIndex {
            return false;
        }
        self.check_free_list() && self.check_tree()
    }

    /// How many bytes more a reader needs at least before `part`, the front
    /// of a serialized double array, can be read. Nothing is wanted where
    /// `part` can be read, or is refused for another reason than its
    /// length.
    pub fn bytes_wanted(part: &[u8]) -> (r: Option<usize>)
        ensures
            r is None <==> spec_read_darray(part@) != Err::<(Seq<DACell>, int), TrieError>(
                TrieError::Truncated,
            ),
            r matches Some(n) ==> n >= 1 && forall|more: Seq<u8>|
                more.len() < n ==> !(#[trigger] spec_read_darray(part@ + more) is Ok),
    {
        let len: usize = part.len();
        if len < 4 {
            return Some(4 - len);
        }
        if read_u32_be(slice_subrange(part, 0, 4)) != DA_SIGNATURE {
            return None;
        }
        if len < 8 {
            proof {
                assert forall|more: Seq<u8>| more.len() < 8 - len implies !(
                #[trigger] spec_read_darray(part@ + more) is Ok) by {}
            }
            return Some(8 - len);
        }
        let n: i32 = read_i32_be(slice_subrange(part, 4, 8));
        if n < 3 {
            return None;
        }
        if n as usize > usize::MAX / 8 {
            return Some(1);
        }
        let total: usize = 8 * (n as usize);
        if len >= total {
            return None;
        }
        proof {
            assert forall|more: Seq<u8>| more.len() < total - len implies !(
            #[trigger] spec_read_darray(part@ + more) is Ok) by {
                let whole = part@ + more;
                assert(whole.subrange(0, 4) =~= part@.subrange(0, 4));
                assert(whole.subrange(4, 8) =~= part@.subrange(4, 8));
            }
        }
        Some(total - len)
    }

    /// Reads a double array from the front of `bytes`, and says how many
    /// bytes it took. Cells that are no well-formed double array are
    /// refused.
    pub fn read(bytes: &[u8]) -> (r: Result<(DArray, usize), TrieError>)
        ensures
            match spec_read_darray(bytes@) {
                Ok((c, n)) => r matches Ok((da, used)) && da@ == c && used == n && da.wf(),
                Err(e) => r matches Err(err) && err == e,
            },
    {
        if bytes.len() < 4 {
            return Err(TrieError::Truncated);
        }
        if read_u32_be(slice_subrange(bytes, 0, 4)) != DA_SIGNATURE {
            return Err(TrieError::InvalidSignature);
        }
        if bytes.len() < 8 {
            return Err(TrieError::Truncated);
        }
        let num_cells: i32 = read_i32_be(slice_subrange(bytes, 4, 8));
        if num_cells < 3 {
            return Err(TrieError::InvalidCount);
        }
        if (bytes.len() as u64) < 8 * (num_cells as u64) {
            return Err(TrieError::Truncated);
        }
        let n: usize = num_cells as usize;
        let mut cells: Vec<DACell> = Vec::new();
        let mut i: usize = 0;
        while i < n
            invariant
                0 <= i <= n,
                8 * n <= bytes@.len() <= usize::MAX,
                cells@ == cells_from_bytes(bytes@, i as int),
            decreases n - i,
        {
            let base: i32 = read_i32_be(slice_subrange(bytes, 8 * i, 8 * i + 4));
            let check: i32 = read_i32_be(slice_subrange(bytes, 8 * i + 4, 8 * i + 8));
            cells.push(DACell { base, check });
            proof {
                assert(cells@ =~= cells_from_bytes(bytes@, i + 1));
            }
            i = i + 1;
        }
        let da = DArray { cells };
        if !da.check_wf() {
            return Err(TrieError::InvalidStructure);
        }
        Ok((da, 8 * n))
    }

    /// The least label from `from` on of an edge that leaves `s`, or 256.
    fn first_child(&self, s: TrieIndex, from: u16) -> (l: u16)
        requires
            from <= 256,
        ensures
            l == first_child_from(self@, s as int, from as int),
            from <= l <= 256,
    {
        let mut c: u16 = from;
        while c <= 255
            invariant
                from <= c <= 256,
                first_child_from(self@, s as int, from as int) == first_child_from(
                    self@,
                    s as int,
                    c as int,
                ),
            decreases 256 - c,
        {
            if self.walk(s, c as TrieChar).is_some() {
                return c;
            }
            c = c + 1;
        }
        c
    }

    /// Goes down from `root` along the least edge of each node to the first
    /// separate node, and appends the labels of the edges to `keybuff`.
    /// There is no such node where the way ends at a node without an edge.
    /// The node found is separate, and the labels lead to it: where a path
    /// leads from the root of the trie to `root`, that path and the labels
    /// lead to the node. Where every node that is not separate has an
    /// edge, a node is found whenever a separate node stands under `root`,
    /// and its path is the least of the paths of such nodes.
    pub fn first_separate(&self, root: TrieIndex, keybuff: &mut Vec<TrieChar>) -> (r: Option<
        TrieIndex,
    >)
        requires
            self.wf(),
        ensures
            match spec_first_separate(self@, root as int, self@.len()).0 {
                Some(t) => r == Some(t as TrieIndex) && 0 <= t < self@.len(),
                None => r is None,
            },
            final(keybuff)@ == old(keybuff)@ + spec_first_separate(
                self@,
                root as int,
                self@.len(),
            ).1,
            forall|u: Seq<TrieChar>| #[trigger]
                reach(self@, u) == Some(root as int) ==> (r matches Some(t) ==> reach(
                    self@,
                    u + spec_first_separate(self@, root as int, self@.len()).1,
                ) == Some(t as int) && self@[t as int].base < 0),
            no_dead_ends(self@) ==> forall|u: Seq<TrieChar>, v: Seq<TrieChar>| #[trigger]
                reach(self@, u) == Some(root as int) && #[trigger] is_leaf_path(self@, v)
                    && is_prefix(u, v) ==> r is Some && (u + spec_first_separate(
                    self@,
                    root as int,
                    self@.len(),
                ).1 == v || symbols_before(
                    u + spec_first_separate(self@, root as int, self@.len()).1,
                    v,
                )),
    {
        let r = self.first_separate_from(root, keybuff);
        proof {
            let c = self@;
            assert forall|u: Seq<TrieChar>| #[trigger]
                reach(c, u) == Some(root as int) && r is Some implies reach(
                c,
                u + spec_first_separate(c, root as int, c.len()).1,
            ) == Some(r.unwrap() as int) && c[r.unwrap() as int].base < 0 by {
                lemma_first_separate_reach(c, root as int, c.len(), u);
            }
            if no_dead_ends(c) {
                assert forall|u: Seq<TrieChar>, v: Seq<TrieChar>| #[trigger]
                    reach(c, u) == Some(root as int) && #[trigger] is_leaf_path(c, v) && is_prefix(
                        u,
                        v,
                    ) implies r is Some && (u + spec_first_separate(c, root as int, c.len()).1 == v
                    || symbols_before(u + spec_first_separate(c, root as int, c.len()).1, v)) by {
                    lemma_first_separate_least(c, root as int, c.len(), u, v);
                }
            }
        }
        r
    }

    /// Goes down from `root` to the first separate node, as `first_separate`
    /// does.
    fn first_separate_from(&self, root: TrieIndex, keybuff: &mut Vec<TrieChar>) -> (r: Option<
        TrieIndex,
    >)
        requires
            self.wf(),
        ensures
            match spec_first_separate(self@, root as int, self@.len()).0 {
                Some(t) => r == Some(t as TrieIndex) && 0 <= t < self@.len(),
                None => r is None,
            },
            final(keybuff)@ == old(keybuff)@ + spec_first_separate(
                self@,
                root as int,
                self@.len(),
            ).1,
    {
        let ghost c = self@;
        let ghost start = keybuff@;
        let ghost goal = spec_first_separate(c, root as int, c.len());
        let mut s: TrieIndex = root;
        let mut budget: usize = self.cells.len();
        loop
            invariant
                c == self@,
                self.wf(),
                budget <= c.len(),
                start == old(keybuff)@,
                goal == spec_first_separate(c, root as int, c.len()),
                goal.0 == spec_first_separate(c, s as int, budget as nat).0,
                start + goal.1 == keybuff@ + spec_first_separate(c, s as int, budget as nat).1,
            decreases budget,
        {
            let base: TrieIndex = match self.get_base(s) {
                Some(b) => b,
                None => {
                    proof {
                        assert(keybuff@ + Seq::<TrieChar>::empty() =~= keybuff@);
                    }
                    return None;
                },
            };
            if base < 0 {
                proof {
                    assert(keybuff@ + Seq::<TrieChar>::empty() =~= keybuff@);
                }
                return Some(s);
            }
            if budget == 0 {
                proof {
                    assert(keybuff@ + Seq::<TrieChar>::empty() =~= keybuff@);
                }
                return None;
            }
            let l: u16 = self.first_child(s, 0);
            if l > 255 {
                proof {
                    assert(keybuff@ + Seq::<TrieChar>::empty() =~= keybuff@);
                }
                return None;
            }
            proof {
                lemma_first_child_from(c, s as int, 0);
                let rest = spec_first_separate(c, base + l, (budget - 1) as nat).1;
                assert(keybuff@.push(l as TrieChar) + rest =~= keybuff@ + (seq![l as TrieChar]
                    + rest));
            }
            keybuff.push(l as TrieChar);
            s = base + l as TrieIndex;
            budget = budget - 1;
        }
    }

    /// Goes from the separate node `sep` to the next one under `root`, and
    /// makes `keybuff` the labels that lead to it from `root`. There is
    /// none once the way up has reached `root`. Under the root of the trie,
    /// where `keybuff` leads to `sep`: the node found is separate, the new
    /// labels lead to it, and they come after the old ones in the order of
    /// the symbols. Where every node that is not separate has an edge, a
    /// node is found whenever a separate node has a path after the old
    /// labels, and its path is the least of such paths.
    pub fn next_separate(&self, root: TrieIndex, sep: TrieIndex, keybuff: &mut Vec<TrieChar>) -> (r:
        Option<TrieIndex>)
        requires
            self.wf(),
        ensures
            match spec_next_separate(self@, root as int, sep as int, old(keybuff)@, self@.len()).0 {
                Some(t) => r == Some(t as TrieIndex) && 0 <= t < self@.len(),
                None => r is None,
            },
            final(keybuff)@ == spec_next_separate(
                self@,
                root as int,
                sep as int,
                old(keybuff)@,
                self@.len(),
            ).1,
            root == DA_ROOT && reach(self@, old(keybuff)@) == Some(sep as int) ==> (r matches Some(
                t,
            ) ==> reach(self@, final(keybuff)@) == Some(t as int) && self@[t as int].base < 0
                && symbols_before(old(keybuff)@, final(keybuff)@)),
            root == DA_ROOT && reach(self@, old(keybuff)@) == Some(sep as int) && no_dead_ends(
                self@,
            ) ==> forall|v: Seq<TrieChar>| #[trigger]
                is_leaf_path(self@, v) && symbols_before(old(keybuff)@, v) ==> r is Some
                    && (final(keybuff)@ == v || symbols_before(final(keybuff)@, v)),
    {
        let ghost key = keybuff@;
        let r = self.next_separate_from(root, sep, keybuff);
        proof {
            let c = self@;
            if root == DA_ROOT && reach(c, key) == Some(sep as int) {
                lemma_path_short(c, key);
                if r is Some {
                    lemma_next_separate_reach(c, sep as int, key, c.len());
                }
                if no_dead_ends(c) {
                    assert forall|v: Seq<TrieChar>| #[trigger]
                        is_leaf_path(c, v) && symbols_before(key, v) implies r is Some && (keybuff@
                        == v || symbols_before(keybuff@, v)) by {
                        lemma_next_separate_least(c, sep as int, key, c.len(), v);
                    }
                }
            }
        }
        r
    }

    /// Goes from the separate node `sep` to the next one, as `next_separate`
    /// does.
    fn next_separate_from(&self, root: TrieIndex, sep: TrieIndex, keybuff: &mut Vec<TrieChar>) -> (r:
        Option<TrieIndex>)
        requires
            self.wf(),
        ensures
            match spec_next_separate(self@, root as int, sep as int, old(keybuff)@, self@.len()).0 {
                Some(t) => r == Some(t as TrieIndex) && 0 <= t < self@.len(),
                None => r is None,
            },
            final(keybuff)@ == spec_next_separate(
                self@,
                root as int,
                sep as int,
                old(keybuff)@,
                self@.len(),
            ).1,
    {
        let ghost c = self@;
        let ghost goal = spec_next_separate(c, root as int, sep as int, keybuff@, c.len());
        let mut cur: TrieIndex = sep;
        let mut budget: usize = self.cells.len();
        while cur != root && budget > 0 && cur > DA_ROOT && (cur as usize) < self.cells.len()
            && self.cells[cur as usize].check >= 0
            invariant
                c == self@,
                self.wf(),
                budget <= c.len(),
                goal == spec_next_separate(c, root as int, sep as int, old(keybuff)@, c.len()),
                goal == spec_next_separate(c, root as int, cur as int, keybuff@, budget as nat),
            ensures
                goal == (None::<int>, keybuff@),
            decreases budget,
        {
            proof {
                assert(is_node(c, cur as int));
                assert(parent_ok(c, cur as int));
            }
            let parent: TrieIndex = self.cells[cur as usize].check;
            let base: TrieIndex = self.cells[parent as usize].base;
            let label: TrieIndex = cur - base;
            let ghost prev = keybuff@;
            keybuff.pop();
            proof {
                assert(keybuff@ =~= cut_last(prev));
            }
            let l: u16 = self.first_child(parent, (label + 1) as u16);
            if l <= 255 {
                proof {
                    lemma_first_child_from(c, parent as int, label + 1);
                }
                keybuff.push(l as TrieChar);
                let r = self.first_separate(base + l as TrieIndex, keybuff);
                proof {
                    let fs = spec_first_separate(c, base + l, c.len());
                    assert(goal == (fs.0, cut_last(prev).push(l as TrieChar) + fs.1));
                }
                return r;
            }
            cur = parent;
            budget = budget - 1;
        }
        None
    }
}

impl Default for DACell {
    /// A cell with the BASE 0 and the CHECK 0.
    fn default() -> (r: Self)
        ensures
            r == (DACell { base: 0, check: 0 }),
    {
        DACell { base: 0, check: 0 }
    }
}

impl Default for DArray {
    /// A double array that holds the root and nothing else.
    fn default() -> (r: Self)
        ensures
            r.wf(),
            r@ == seq![
                DACell { base: DA_SIGNATURE_BASE, check: 3 },
                DACell { base: -1i32, check: -1i32 },
                DACell { base: DA_POOL_BEGIN, check: 0 },
            ],
    {
        DArray::new()
    }
}

} // verus!
