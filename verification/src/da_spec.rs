//! What a well-formed double array is, stated over its cells.

use crate::darray::DACell;
use crate::types::{TrieChar, TrieIndex, TRIE_INDEX_MAX};
use vstd::prelude::*;
use vstd::set_lib::{lemma_int_range, lemma_len_subset, set_int_range};

verus! {

/// Signature that opens the serialized double array.
pub const DA_SIGNATURE: u32 = 0xdafcdafc;

/// The signature as cell 0 holds it in its BASE.
pub const DA_SIGNATURE_BASE: TrieIndex = -620963076;

/// Index of the cell that heads the list of free cells.
pub const DA_FREE_LIST: TrieIndex = 1;

/// Index of the root of the trie.
pub const DA_ROOT: TrieIndex = 2;

/// Index of the first cell of the pool.
pub const DA_POOL_BEGIN: TrieIndex = 3;

/// Cell 0 holds the signature and the number of cells.
pub open spec fn header_ok(c: Seq<DACell>) -> bool {
    &&& 3 <= c.len() <= TRIE_INDEX_MAX
    &&& c[0].base == DA_SIGNATURE_BASE
    &&& c[0].check == c.len()
}

/// A cell of the pool that no node occupies.
pub open spec fn is_free(c: Seq<DACell>, i: int) -> bool {
    free_at(c, i)
}

/// `is_free`, written out where it is stated rather than looked for.
#[verifier::inline]
pub open spec fn free_at(c: Seq<DACell>, i: int) -> bool {
    3 <= i < c.len() && c[i].check < 0
}

/// A member of the circular list of free cells: its head, or a free cell.
pub open spec fn on_free_list(c: Seq<DACell>, i: int) -> bool {
    member_at(c, i)
}

/// `on_free_list`, written out where it is stated rather than looked for.
#[verifier::inline]
pub open spec fn member_at(c: Seq<DACell>, i: int) -> bool {
    i == 1 || free_at(c, i)
}

/// The list member after `i`.
pub open spec fn next_free(c: Seq<DACell>, i: int) -> int {
    -(c[i].check as int)
}

/// The list member before `i`.
pub open spec fn prev_free(c: Seq<DACell>, i: int) -> int {
    -(c[i].base as int)
}

/// The free cells form one circular, doubly linked list through cell 1, in
/// ascending order, and none is left out.
pub open spec fn free_list_ok(c: Seq<DACell>) -> bool {
    &&& c.len() >= 3
    &&& forall|i: int| #[trigger]
        on_free_list(c, i) ==> {
            &&& member_at(c, next_free(c, i))
            &&& prev_free(c, next_free(c, i)) == i
            &&& member_at(c, prev_free(c, i))
            &&& next_free(c, prev_free(c, i)) == i
            &&& (next_free(c, i) == 1 || next_free(c, i) > i)
        }
    &&& forall|i: int, j: int|
        #[trigger] on_free_list(c, i) && #[trigger] is_free(c, j) && i < j ==> i < next_free(c, i)
            <= j
}

/// A cell that a node of the trie occupies; the root is one.
pub open spec fn is_node(c: Seq<DACell>, t: int) -> bool {
    node_at(c, t)
}

/// `is_node`, written out where it is stated rather than looked for.
#[verifier::inline]
pub open spec fn node_at(c: Seq<DACell>, t: int) -> bool {
    2 <= t < c.len() && c[t].check >= 0
}

/// The CHECK of `t` names a node other than `t` whose BASE puts `t` at one
/// of its 256 places.
pub open spec fn parent_ok(c: Seq<DACell>, t: int) -> bool {
    let p = c[t].check as int;
    &&& node_at(c, p)
    &&& p != t
    &&& c[p].base > 0
    &&& 0 <= t - c[p].base <= 255
}

/// The root has no parent, every other node has one, and the BASE of a
/// node lies in the pool or at its end.
pub open spec fn tree_ok(c: Seq<DACell>) -> bool {
    &&& c.len() >= 3
    &&& c[2].check == 0
    &&& forall|t: int| #[trigger] is_node(c, t) && t != 2 ==> parent_ok(c, t)
    &&& forall|t: int| #[trigger] is_node(c, t) ==> c[t].base <= c.len()
}

/// The invariant of the double array.
pub open spec fn da_wf(c: Seq<DACell>) -> bool {
    header_ok(c) && free_list_ok(c) && tree_ok(c)
}

/// Where the edge labelled `ch` leads from `s`, if `s` has such an edge.
pub open spec fn spec_walk(c: Seq<DACell>, s: int, ch: TrieChar) -> Option<int> {
    if 0 <= s < c.len() && 0 <= c[s].base + ch < c.len() && c[s].base + ch <= TRIE_INDEX_MAX
        && c[c[s].base + ch].check == s {
        Some(c[s].base + ch)
    } else {
        None
    }
}

/// Whether `s` is a cell whose BASE points into the tail.
pub open spec fn spec_is_separate(c: Seq<DACell>, s: int) -> bool {
    0 <= s < c.len() && c[s].base < 0
}

/// Whether some edge leaves `s`.
pub open spec fn spec_has_children(c: Seq<DACell>, s: int) -> bool {
    0 <= s < c.len() && c[s].base >= 0 && exists|ch: TrieChar| spec_walk(c, s, ch) is Some
}

/// The first free cell at or after `from`, or the list head if there is none.
pub open spec fn first_free_from(c: Seq<DACell>, from: int) -> int
    decreases c.len() - from,
{
    if from >= c.len() {
        1
    } else if is_free(c, from) {
        from
    } else {
        first_free_from(c, from + 1)
    }
}

/// The cells after the pool has grown to hold `to`: the new cells are free
/// and follow the old free cells in the list.
pub open spec fn spec_extend_pool(c: Seq<DACell>, to: int) -> Seq<DACell> {
    let old_len = c.len() as int;
    let last = prev_free(c, 1);
    Seq::new(
        (to + 1) as nat,
        |i: int|
            if i == 0 {
                DACell { base: c[0].base, check: (to + 1) as TrieIndex }
            } else if i == 1 {
                DACell {
                    base: (-to) as TrieIndex,
                    check: if last == 1 {
                        (-old_len) as TrieIndex
                    } else {
                        c[1].check
                    },
                }
            } else if i < old_len {
                if i == last {
                    DACell { base: c[i].base, check: (-old_len) as TrieIndex }
                } else {
                    c[i]
                }
            } else {
                DACell {
                    base: if i == old_len {
                        (-last) as TrieIndex
                    } else {
                        (-(i - 1)) as TrieIndex
                    },
                    check: if i == to {
                        -1i32
                    } else {
                        (-(i + 1)) as TrieIndex
                    },
                }
            },
    )
}

/// The pool grown to `n` cells, or the pool as it is if it has that many.
pub open spec fn pool_of_len(c: Seq<DACell>, n: int) -> Seq<DACell> {
    if n > c.len() {
        spec_extend_pool(c, n - 1)
    } else {
        c
    }
}

/// Growing the pool in two steps gives what growing it in one step gives.
pub proof fn lemma_pool_of_len_twice(c: Seq<DACell>, a: int, b: int)
    requires
        header_ok(c),
        free_list_ok(c),
        a <= b <= TRIE_INDEX_MAX,
    ensures
        pool_of_len(pool_of_len(c, a), b) == pool_of_len(c, b),
{
    if a > c.len() && b > a {
        let d = spec_extend_pool(c, a - 1);
        let e = spec_extend_pool(d, b - 1);
        let f = spec_extend_pool(c, b - 1);
        assert(on_free_list(c, 1));
        assert(member_at(c, prev_free(c, 1)));
        assert(d.len() == a);
        assert(prev_free(d, 1) == a - 1);
        assert forall|i: int| 0 <= i < b implies e[i] == f[i] by {
            if 2 <= i < a {
                assert(d[i] == spec_extend_pool(c, a - 1)[i]);
            }
        }
        assert(e =~= f);
    }
}

/// Whether `x` can be given to a node: a free cell of the pool, or a cell
/// that the pool can still grow to.
pub open spec fn may_take(c: Seq<DACell>, x: int) -> bool {
    3 <= x < TRIE_INDEX_MAX && (x >= c.len() || c[x].check < 0)
}

/// Whether every place `base + symbol` can be given to a node.
pub open spec fn spec_fits(c: Seq<DACell>, base: int, symbols: Seq<TrieChar>) -> bool {
    forall|k: int| 0 <= k < symbols.len() ==> may_take(c, base + #[trigger] symbols[k])
}

/// The pool has grown, or stayed: the nodes are the same, with the same
/// cells.
pub open spec fn pool_grown(c0: Seq<DACell>, c1: Seq<DACell>) -> bool {
    &&& c0.len() <= c1.len()
    &&& forall|i: int| #[trigger] is_node(c1, i) <==> #[trigger] is_node(c0, i)
    &&& forall|i: int| #[trigger] is_node(c0, i) ==> c1[i] == c0[i]
}

/// Growing the pool does not change which cells can be given to a node.
pub proof fn lemma_may_take_stable(c0: Seq<DACell>, c1: Seq<DACell>, x: int)
    requires
        pool_grown(c0, c1),
        free_list_ok(c0),
        free_list_ok(c1),
    ensures
        may_take(c0, x) == may_take(c1, x),
{
    if 3 <= x < TRIE_INDEX_MAX {
        assert(is_node(c1, x) <==> is_node(c0, x));
    }
}

/// Growing the pool does not change which bases fit.
pub proof fn lemma_fits_stable(c0: Seq<DACell>, c1: Seq<DACell>, base: int, symbols: Seq<TrieChar>)
    requires
        pool_grown(c0, c1),
        free_list_ok(c0),
        free_list_ok(c1),
    ensures
        spec_fits(c0, base, symbols) == spec_fits(c1, base, symbols),
{
    assert forall|k: int| 0 <= k < symbols.len() implies (may_take(c0, base + #[trigger] symbols[k])
        == may_take(c1, base + symbols[k])) by {
        lemma_may_take_stable(c0, c1, base + symbols[k]);
    }
}

/// Growing twice is growing.
pub proof fn lemma_pool_grown_trans(c0: Seq<DACell>, c1: Seq<DACell>, c2: Seq<DACell>)
    requires
        pool_grown(c0, c1),
        pool_grown(c1, c2),
    ensures
        pool_grown(c0, c2),
{
    assert forall|i: int| #[trigger] is_node(c2, i) <==> #[trigger] is_node(c0, i) by {
        assert(is_node(c2, i) <==> is_node(c1, i));
        assert(is_node(c1, i) <==> is_node(c0, i));
    }
    assert forall|i: int| #[trigger] is_node(c0, i) implies c2[i] == c0[i] by {
        assert(is_node(c1, i));
    }
}

/// Growing the pool keeps the tree as it is.
pub proof fn lemma_pool_grown_tree(c0: Seq<DACell>, c1: Seq<DACell>)
    requires
        pool_grown(c0, c1),
        tree_ok(c0),
    ensures
        tree_ok(c1),
{
    assert(is_node(c0, 2));
    assert forall|t: int| #[trigger] is_node(c1, t) && t != 2 implies parent_ok(c1, t) by {
        assert(is_node(c0, t));
        assert(parent_ok(c0, t));
        let p = c0[t].check as int;
        assert(is_node(c0, p));
    }
    assert forall|t: int| #[trigger] is_node(c1, t) implies c1[t].base <= c1.len() by {
        assert(is_node(c0, t));
    }
}

/// The cells with the BASE of cell `i` replaced.
pub open spec fn set_base_of(c: Seq<DACell>, i: int, v: TrieIndex) -> Seq<DACell> {
    c.update(i, DACell { base: v, check: c[i].check })
}

/// The cells with the CHECK of cell `i` replaced.
pub open spec fn set_check_of(c: Seq<DACell>, i: int, v: TrieIndex) -> Seq<DACell> {
    c.update(i, DACell { base: c[i].base, check: v })
}

/// The cells after `cell` has been unlinked from the free list: its
/// neighbours point at each other, `cell` itself is untouched.
pub open spec fn spec_alloc_cell(c: Seq<DACell>, cell: int) -> Seq<DACell> {
    let prev = prev_free(c, cell);
    let next = next_free(c, cell);
    set_base_of(set_check_of(c, prev, (-next) as TrieIndex), next, (-prev) as TrieIndex)
}

/// The cells after `cell` has been linked into the free list at its place in
/// ascending order.
pub open spec fn spec_free_cell(c: Seq<DACell>, cell: int) -> Seq<DACell> {
    let at = first_free_from(c, cell + 1);
    let prev = prev_free(c, at);
    let c1 = set_check_of(c, cell, (-at) as TrieIndex);
    let c2 = set_base_of(c1, cell, (-prev) as TrieIndex);
    let c3 = set_check_of(c2, prev, (-cell) as TrieIndex);
    set_base_of(c3, at, (-cell) as TrieIndex)
}

/// `first_free_from` finds the least free cell from `from` on.
pub proof fn lemma_first_free_from(c: Seq<DACell>, from: int)
    requires
        2 <= from,
    ensures
        on_free_list(c, first_free_from(c, from)),
        first_free_from(c, from) == 1 || from <= first_free_from(c, from),
        forall|j: int|
            from <= j && #[trigger] is_free(c, j) ==> from <= first_free_from(c, from) <= j,
    decreases c.len() - from,
{
    if from < c.len() && !is_free(c, from) {
        lemma_first_free_from(c, from + 1);
    }
}

/// A list member that no free cell from `from` on precedes is what
/// `first_free_from` finds.
pub proof fn lemma_first_free_is(c: Seq<DACell>, from: int, at: int)
    requires
        2 <= from,
        on_free_list(c, at),
        at == 1 || from <= at,
        forall|j: int| from <= j && #[trigger] is_free(c, j) ==> at != 1 && at <= j,
    ensures
        first_free_from(c, from) == at,
{
    lemma_first_free_from(c, from);
    let r = first_free_from(c, from);
    if r != 1 {
        assert(is_free(c, r));
    }
    if at != 1 {
        assert(is_free(c, at));
    }
}

/// Unlinking a free cell and giving it to a node keeps the free list in
/// order, and touches no other node.
pub proof fn lemma_alloc_cell_ok(c: Seq<DACell>, cell: int, v: TrieIndex)
    requires
        free_list_ok(c),
        c.len() <= TRIE_INDEX_MAX,
        is_free(c, cell),
        v >= 0,
    ensures
        free_list_ok(set_check_of(spec_alloc_cell(c, cell), cell, v)),
        set_check_of(spec_alloc_cell(c, cell), cell, v).len() == c.len(),
        set_check_of(spec_alloc_cell(c, cell), cell, v)[cell] == (DACell {
            base: c[cell].base,
            check: v,
        }),
        forall|j: int|
            j != cell ==> (is_free(set_check_of(spec_alloc_cell(c, cell), cell, v), j) <==> is_free(
                c,
                j,
            )),
        forall|j: int|
            0 <= j < c.len() && j != cell && !on_free_list(c, j) ==> set_check_of(
                spec_alloc_cell(c, cell),
                cell,
                v,
            )[j] == c[j],
        1 <= prev_free(c, cell) < c.len(),
        1 <= next_free(c, cell) < c.len(),
{
    let prev = prev_free(c, cell);
    let next = next_free(c, cell);
    let d = set_check_of(spec_alloc_cell(c, cell), cell, v);
    assert(on_free_list(c, cell));
    assert(on_free_list(c, prev));
    assert(on_free_list(c, next));
    assert forall|i: int| #[trigger] on_free_list(d, i) implies {
        &&& member_at(d, next_free(d, i))
        &&& prev_free(d, next_free(d, i)) == i
        &&& member_at(d, prev_free(d, i))
        &&& next_free(d, prev_free(d, i)) == i
        &&& (next_free(d, i) == 1 || next_free(d, i) > i)
    } by {
        assert(on_free_list(c, i));
        assert(on_free_list(c, next_free(c, i)));
        assert(on_free_list(c, prev_free(c, i)));
        assert(on_free_list(d, next_free(d, i)));
        assert(on_free_list(d, prev_free(d, i)));
    }
    assert forall|i: int, j: int| #[trigger]
        on_free_list(d, i) && #[trigger] is_free(d, j) && i < j implies i < next_free(d, i)
        <= j by {
        assert(on_free_list(c, i));
        assert(is_free(c, j));
        if i == prev {
            if next != 1 {
                assert(is_free(c, next));
                if j < next {
                    assert(is_free(c, cell) && prev < cell);
                    if cell < j {
                    }
                }
            } else {
                if cell < j {
                }
            }
        }
    }
}

/// The first free cell from `from` on does not depend on the cells below
/// `from`.
pub proof fn lemma_first_free_from_above(c: Seq<DACell>, d: Seq<DACell>, from: int)
    requires
        c.len() == d.len(),
        forall|j: int| from <= j < c.len() ==> c[j] == d[j],
    ensures
        first_free_from(c, from) == first_free_from(d, from),
    decreases c.len() - from,
{
    if from < c.len() {
        if !is_free(c, from) {
            lemma_first_free_from_above(c, d, from + 1);
        }
    }
}

/// What linking a cell into the free list gives does not depend on the
/// CHECK that the cell had.
pub proof fn lemma_free_cell_unlinked(c: Seq<DACell>, cell: int, v: TrieIndex)
    requires
        3 <= cell < c.len(),
    ensures
        spec_free_cell(set_check_of(c, cell, v), cell) == spec_free_cell(c, cell),
{
    let d = set_check_of(c, cell, v);
    lemma_first_free_from_above(c, d, cell + 1);
    lemma_first_free_from(c, cell + 1);
    let at = first_free_from(c, cell + 1);
    assert(at != cell);
    assert(c[at] == d[at]);
    assert(set_check_of(d, cell, (-at) as TrieIndex) =~= set_check_of(c, cell, (-at) as TrieIndex));
}

/// Linking a node's cell into the free list keeps the list in order, and
/// touches no other node.
pub proof fn lemma_free_cell_ok(c: Seq<DACell>, cell: int)
    requires
        free_list_ok(c),
        c.len() <= TRIE_INDEX_MAX,
        3 <= cell < c.len(),
        c[cell].check >= 0,
    ensures
        free_list_ok(spec_free_cell(c, cell)),
        spec_free_cell(c, cell).len() == c.len(),
        is_free(spec_free_cell(c, cell), cell),
        forall|j: int| j != cell ==> (is_free(spec_free_cell(c, cell), j) <==> is_free(c, j)),
        forall|j: int|
            0 <= j < c.len() && j != cell && !on_free_list(c, j) ==> spec_free_cell(c, cell)[j]
                == c[j],
{
    let at = first_free_from(c, cell + 1);
    let prev = prev_free(c, at);
    let d = spec_free_cell(c, cell);
    lemma_first_free_from(c, cell + 1);
    assert(on_free_list(c, at));
    assert(on_free_list(c, prev));
    assert(next_free(c, prev) == at);
    assert(prev < cell) by {
        if prev != 1 {
            assert(is_free(c, prev));
            if prev > cell {
                assert(at != 1 && at <= prev);
                assert(next_free(c, prev) == 1 || next_free(c, prev) > prev);
            }
        }
    }
    assert forall|i: int| #[trigger] on_free_list(d, i) implies {
        &&& member_at(d, next_free(d, i))
        &&& prev_free(d, next_free(d, i)) == i
        &&& member_at(d, prev_free(d, i))
        &&& next_free(d, prev_free(d, i)) == i
        &&& (next_free(d, i) == 1 || next_free(d, i) > i)
    } by {
        if i != cell {
            assert(on_free_list(c, i));
            assert(on_free_list(c, next_free(c, i)));
            assert(on_free_list(c, prev_free(c, i)));
            if i == prev {
                assert(on_free_list(d, cell));
            } else {
                assert(next_free(c, i) != at) by {
                    if next_free(c, i) == at {
                        assert(prev_free(c, at) == i);
                    }
                }
                assert(on_free_list(d, next_free(d, i)));
            }
            if i == at {
                assert(on_free_list(d, cell));
            } else {
                assert(prev_free(c, i) != prev) by {
                    if prev_free(c, i) == prev {
                        assert(next_free(c, prev) == i);
                    }
                }
                assert(on_free_list(d, prev_free(d, i)));
            }
        } else {
            assert(on_free_list(d, at));
            assert(on_free_list(d, prev));
        }
    }
    assert forall|i: int, j: int| #[trigger]
        on_free_list(d, i) && #[trigger] is_free(d, j) && i < j implies i < next_free(d, i)
        <= j by {
        if i == cell {
            assert(is_free(c, j));
        } else if j == cell {
            assert(on_free_list(c, i));
            if i != prev {
                // the successor of i in c lies at or before prev
                if prev != 1 {
                    assert(is_free(c, prev));
                    if i < prev {
                    } else {
                        // prev < i < cell: i is free in c, between prev and at
                        assert(is_free(c, i));
                        assert(prev < next_free(c, prev) <= i);
                    }
                } else {
                    assert(is_free(c, i));
                    assert(1 < next_free(c, 1) <= i);
                }
            }
        } else {
            assert(on_free_list(c, i));
            assert(is_free(c, j));
            if i == prev {
                if cell > j {
                    assert(prev < next_free(c, prev) <= j);
                }
            }
        }
    }
}

/// Growing the pool keeps the free list in order.
pub proof fn lemma_extend_pool_ok(c: Seq<DACell>, to: int)
    requires
        header_ok(c),
        free_list_ok(c),
        c.len() <= to < TRIE_INDEX_MAX,
    ensures
        header_ok(spec_extend_pool(c, to)),
        free_list_ok(spec_extend_pool(c, to)),
        forall|i: int| is_node(c, i) ==> spec_extend_pool(c, to)[i] == c[i],
        forall|i: int| is_free(c, i) ==> is_free(spec_extend_pool(c, to), i),
        forall|i: int| c.len() <= i <= to ==> is_free(spec_extend_pool(c, to), i),
        forall|i: int| is_node(spec_extend_pool(c, to), i) <==> is_node(c, i),
{
    let d = spec_extend_pool(c, to);
    let n = c.len() as int;
    let last = prev_free(c, 1);
    assert(on_free_list(c, 1));
    assert(on_free_list(c, last));
    assert forall|i: int| is_node(c, i) implies d[i] == c[i] by {
        if i == last {
            assert(is_free(c, i));
        }
    }
    assert forall|i: int| #[trigger] on_free_list(d, i) implies {
        &&& member_at(d, next_free(d, i))
        &&& prev_free(d, next_free(d, i)) == i
        &&& member_at(d, prev_free(d, i))
        &&& next_free(d, prev_free(d, i)) == i
        &&& (next_free(d, i) == 1 || next_free(d, i) > i)
    } by {
        if i < n {
            assert(on_free_list(c, i));
            let nx = next_free(c, i);
            let pv = prev_free(c, i);
            assert(on_free_list(c, nx));
            assert(on_free_list(c, pv));
            if i == last {
                assert(on_free_list(d, n));
            } else {
                assert(nx != 1) by {
                    if nx == 1 {
                        assert(prev_free(c, nx) == i);
                    }
                }
                assert(on_free_list(d, nx));
            }
            if i == 1 {
                assert(on_free_list(d, to));
            } else {
                assert(on_free_list(d, pv));
                if pv == last {
                    assert(next_free(c, pv) == i);
                    assert(next_free(c, last) == 1);
                }
            }
        } else {
            if i < to {
                assert(on_free_list(d, i + 1));
            }
            if i > n {
                assert(on_free_list(d, i - 1));
            } else {
                assert(on_free_list(d, last));
            }
        }
    }
    assert forall|i: int, j: int| #[trigger]
        on_free_list(d, i) && #[trigger] is_free(d, j) && i < j implies i < next_free(d, i)
        <= j by {
        if j < n {
            assert(on_free_list(c, i));
            assert(is_free(c, j));
            if i == last {
                assert(next_free(c, last) == 1);
            }
        } else if i < n {
            assert(on_free_list(c, i));
            if i != last {
                let nx = next_free(c, i);
                assert(on_free_list(c, nx));
                assert(nx != 1) by {
                    if nx == 1 {
                        assert(prev_free(c, nx) == i);
                    }
                }
            }
        }
    }
}

/// Where the node `x` stands once the children of `s` have moved to the
/// base `nb`: a child of `s` keeps its label, every other node its cell.
pub open spec fn moved(c0: Seq<DACell>, s: int, nb: int, x: int) -> int {
    if 3 <= x < c0.len() && c0[x].check == s {
        x - c0[s].base + nb
    } else {
        x
    }
}

/// A child of `s` whose label is below `lim`.
pub open spec fn is_moved_child(c0: Seq<DACell>, s: int, lim: int, x: int) -> bool {
    3 <= x < c0.len() && c0[x].check == s && x - c0[s].base < lim
}

/// The cells while the children of `s` move from its old base to `nb`, those
/// with a label below `lim` having moved: they stand at the new base with
/// their BASE, their old cells are free, and their own children name the new
/// cell as parent. Every other node is as it was.
pub open spec fn reloc_inv(c0: Seq<DACell>, c: Seq<DACell>, s: int, nb: int, lim: int) -> bool {
    let ob = c0[s].base as int;
    &&& c.len() == c0.len()
    &&& header_ok(c)
    &&& free_list_ok(c)
    &&& forall|x: int| #[trigger]
        is_node(c0, x) ==> if is_moved_child(c0, s, lim, x) {
            &&& free_at(c, x)
            &&& node_at(c, x - ob + nb)
            &&& c[x - ob + nb].base == c0[x].base
            &&& c[x - ob + nb].check == s
        } else {
            &&& node_at(c, x)
            &&& c[x].base == c0[x].base
            &&& c[x].check == (if is_moved_child(c0, s, lim, c0[x].check as int) {
                (c0[x].check - ob + nb) as TrieIndex
            } else {
                c0[x].check
            })
        }
    &&& forall|y: int| #[trigger]
        is_node(c, y) ==> (node_at(c0, y) && !is_moved_child(c0, s, lim, y)) || (node_at(
            c0,
            y - nb + ob,
        ) && is_moved_child(c0, s, lim, y - nb + ob))
}

/// The cells after the children of `s` have moved to the base `nb`.
pub open spec fn base_relocated(c0: Seq<DACell>, c1: Seq<DACell>, s: int, nb: int) -> bool {
    &&& c1.len() == c0.len()
    &&& header_ok(c1)
    &&& free_list_ok(c1)
    &&& c1[s].base == nb
    &&& forall|x: int| #[trigger]
        is_node(c0, x) ==> {
            let y = moved(c0, s, nb, x);
            &&& node_at(c1, y)
            &&& y != x ==> !node_at(c0, y)
            &&& x != s ==> c1[y].base == c0[x].base
            &&& c1[y].check == moved(c0, s, nb, c0[x].check as int)
        }
    &&& forall|y: int| #[trigger]
        is_node(c1, y) ==> {
            let x = if c1[y].check == s {
                y - nb + c0[s].base
            } else {
                y
            };
            node_at(c0, x) && moved(c0, s, nb, x) == y
        }
}

/// The cells after every cell at `base + 0..=255` whose CHECK is `from` has
/// been given the CHECK `to`.
pub open spec fn spec_reparent(c: Seq<DACell>, base: int, from: TrieIndex, to: TrieIndex) -> Seq<
    DACell,
> {
    Seq::new(
        c.len(),
        |g: int|
            if 0 <= g - base <= 255 && c[g].check == from {
                DACell { base: c[g].base, check: to }
            } else {
                c[g]
            },
    )
}

/// The cells after the free cell `cell` has been unlinked from the free
/// list and given to a node with the given BASE and CHECK.
pub open spec fn spec_take_cell(c: Seq<DACell>, cell: int, base: TrieIndex, check: TrieIndex) -> Seq<
    DACell,
> {
    spec_alloc_cell(c, cell).update(cell, DACell { base, check })
}

/// The cells after the child of `s` under the label `sym` has moved from
/// the base `ob` to the base `nb`: the new cell has its BASE, its children
/// name the new cell as their parent, and its old cell is free.
pub open spec fn spec_move_child(c: Seq<DACell>, s: int, ob: int, nb: int, sym: int) -> Seq<
    DACell,
> {
    let from = ob + sym;
    let to = nb + sym;
    let base = c[from].base;
    let taken = spec_take_cell(c, to, base, s as TrieIndex);
    let followed = if base > 0 {
        spec_reparent(taken, base as int, from as TrieIndex, to as TrieIndex)
    } else {
        taken
    };
    spec_free_cell(followed, from)
}

/// The cells after the children of `s` with a label below `lim` have moved
/// to the base `nb`, one after the other in the order of their labels.
pub open spec fn spec_move_children(c: Seq<DACell>, s: int, nb: int, lim: int) -> Seq<DACell>
    decreases lim,
{
    if lim <= 0 {
        c
    } else {
        let before = spec_move_children(c, s, nb, lim - 1);
        if spec_walk(c, s, (lim - 1) as TrieChar) is Some {
            spec_move_child(before, s, c[s].base as int, nb, lim - 1)
        } else {
            before
        }
    }
}

/// The cells after `s` has been given the base `nb` and its children have
/// moved there.
pub open spec fn spec_relocate_base(c: Seq<DACell>, s: int, nb: int) -> Seq<DACell> {
    if c[s].base > 0 {
        set_base_of(spec_move_children(c, s, nb, 256), s, nb as TrieIndex)
    } else {
        set_base_of(c, s, nb as TrieIndex)
    }
}

/// Children with labels from `lim` up to `upto` that `s` does not have are
/// not moved.
pub proof fn lemma_move_children_skip(c: Seq<DACell>, s: int, nb: int, lim: int, upto: int)
    requires
        0 <= lim <= upto <= 256,
        forall|l: TrieChar| lim <= l < upto ==> spec_walk(c, s, l) is None,
    ensures
        spec_move_children(c, s, nb, upto) == spec_move_children(c, s, nb, lim),
    decreases upto - lim,
{
    if lim < upto {
        lemma_move_children_skip(c, s, nb, lim, upto - 1);
        assert(spec_walk(c, s, (upto - 1) as TrieChar) is None);
    }
}

/// The greatest label among the edges that leave `s` and the label `ch`.
pub open spec fn top_label(c: Seq<DACell>, s: int, ch: TrieChar) -> int {
    let symbols = spec_output_symbols(c, s);
    if c[s].base > 0 && symbols.len() > 0 && symbols.last() > ch {
        symbols.last() as int
    } else {
        ch as int
    }
}

/// The cells once `s` has room for a new child under the label `ch`, at the
/// base `nb`: the pool has grown to hold the places looked at, and, where
/// the place at the base that `s` had cannot be taken, the children of `s`
/// have moved to `nb`.
pub open spec fn spec_prepare_branch(c: Seq<DACell>, s: int, ch: TrieChar, nb: int) -> Seq<DACell> {
    let ob = c[s].base as int;
    if ob > 0 && may_take(c, ob + ch) {
        pool_of_len(c, ob + ch + 1)
    } else {
        spec_relocate_base(pool_of_len(c, nb + top_label(c, s, ch) + 1), s, nb)
    }
}

/// The cells after `s` has been given a new child under the label `ch`, at
/// the base `nb`: the child takes the place `nb + ch`, with the BASE 0.
pub open spec fn spec_insert_branch(c: Seq<DACell>, s: int, ch: TrieChar, nb: int) -> Seq<DACell> {
    spec_take_cell(spec_prepare_branch(c, s, ch, nb), nb + ch, 0, s as TrieIndex)
}

/// Cells that differ only at nodes, and there not in the sign of CHECK,
/// have the same free list.
pub proof fn lemma_free_list_frame(c: Seq<DACell>, d: Seq<DACell>)
    requires
        free_list_ok(c),
        d.len() == c.len(),
        forall|i: int| #[trigger] on_free_list(c, i) ==> d[i] == c[i],
        forall|i: int| 3 <= i < c.len() ==> (#[trigger] d[i].check < 0 <==> c[i].check < 0),
    ensures
        free_list_ok(d),
        forall|i: int| is_free(d, i) <==> is_free(c, i),
{
    assert forall|i: int| #[trigger] on_free_list(d, i) implies {
        &&& member_at(d, next_free(d, i))
        &&& prev_free(d, next_free(d, i)) == i
        &&& member_at(d, prev_free(d, i))
        &&& next_free(d, prev_free(d, i)) == i
        &&& (next_free(d, i) == 1 || next_free(d, i) > i)
    } by {
        assert(on_free_list(c, i));
        assert(on_free_list(c, next_free(c, i)));
        assert(on_free_list(c, prev_free(c, i)));
    }
    assert forall|i: int, j: int| #[trigger]
        on_free_list(d, i) && #[trigger] is_free(d, j) && i < j implies i < next_free(d, i)
        <= j by {
        assert(on_free_list(c, i));
        assert(is_free(c, j));
    }
}

/// With no child of `s` labelled from `lim1` up to `lim2`, having moved the
/// children below `lim1` is having moved those below `lim2`.
pub proof fn lemma_reloc_lim(c0: Seq<DACell>, c: Seq<DACell>, s: int, nb: int, lim1: int, lim2: int)
    requires
        reloc_inv(c0, c, s, nb, lim1),
        lim1 <= lim2,
        forall|x: int|
            3 <= x < c0.len() && (#[trigger] c0[x]).check == s ==> !(lim1 <= x - c0[s].base
                < lim2),
    ensures
        reloc_inv(c0, c, s, nb, lim2),
{
    let ob = c0[s].base as int;
    assert forall|x: int| is_moved_child(c0, s, lim1, x) == is_moved_child(c0, s, lim2, x) by {
        if 3 <= x < c0.len() {
            assert(c0[x].check == s ==> !(lim1 <= x - c0[s].base < lim2));
        }
    }
    assert forall|x: int| #[trigger] is_node(c0, x) implies if is_moved_child(c0, s, lim2, x) {
        &&& free_at(c, x)
        &&& node_at(c, x - ob + nb)
        &&& c[x - ob + nb].base == c0[x].base
        &&& c[x - ob + nb].check == s
    } else {
        &&& node_at(c, x)
        &&& c[x].base == c0[x].base
        &&& c[x].check == (if is_moved_child(c0, s, lim2, c0[x].check as int) {
            (c0[x].check - ob + nb) as TrieIndex
        } else {
            c0[x].check
        })
    } by {
        assert(is_moved_child(c0, s, lim1, x) == is_moved_child(c0, s, lim2, x));
        assert(is_moved_child(c0, s, lim1, c0[x].check as int) == is_moved_child(
            c0,
            s,
            lim2,
            c0[x].check as int,
        ));
    }
    assert forall|y: int| #[trigger] is_node(c, y) implies (node_at(c0, y) && !is_moved_child(
        c0,
        s,
        lim2,
        y,
    )) || (node_at(c0, y - nb + ob) && is_moved_child(c0, s, lim2, y - nb + ob)) by {
        assert(is_moved_child(c0, s, lim1, y) == is_moved_child(c0, s, lim2, y));
        assert(is_moved_child(c0, s, lim1, y - nb + ob) == is_moved_child(
            c0,
            s,
            lim2,
            y - nb + ob,
        ));
    }
}

/// How the cells stand after one cell has been taken or released: the
/// other cells are free as before, and those off the free list are as they
/// were.
pub open spec fn one_cell_changed(c: Seq<DACell>, d: Seq<DACell>, cell: int) -> bool {
    &&& d.len() == c.len()
    &&& forall|j: int| j != cell ==> (#[trigger] is_free(d, j) <==> is_free(c, j))
    &&& forall|j: int|
        0 <= j < c.len() && j != cell && !#[trigger] on_free_list(c, j) ==> d[j] == c[j]
}

/// Moving one child keeps the cells as `reloc_inv` describes them, with one
/// more child moved.
#[verifier::rlimit(60)]
#[verifier::spinoff_prover]
pub proof fn lemma_move_child(
    c0: Seq<DACell>,
    c: Seq<DACell>,
    c1: Seq<DACell>,
    c2: Seq<DACell>,
    c3: Seq<DACell>,
    s: int,
    nb: int,
    sym: int,
)
    requires
        da_wf(c0),
        is_node(c0, s),
        c0[s].base > 0,
        nb > 0,
        0 <= sym <= 255,
        reloc_inv(c0, c, s, nb, sym),
        3 <= c0[s].base + sym < c0.len(),
        c0[c0[s].base + sym].check == s,
        forall|x: int|
            3 <= x < c0.len() && (#[trigger] c0[x]).check == s ==> is_free(c0, x - c0[s].base + nb),
        forall|x: int|
            3 <= x < c0.len() && (#[trigger] c0[x]).check == s && x - c0[s].base >= sym
                ==> is_free(c, x - c0[s].base + nb),
        one_cell_changed(c, c1, nb + sym),
        c1[nb + sym] == (DACell { base: c[c0[s].base + sym].base, check: s as TrieIndex }),
        c2 == (if c[c0[s].base + sym].base > 0 {
            spec_reparent(
                c1,
                c[c0[s].base + sym].base as int,
                (c0[s].base + sym) as TrieIndex,
                (nb + sym) as TrieIndex,
            )
        } else {
            c1
        }),
        one_cell_changed(c2, c3, c0[s].base + sym),
        is_free(c3, c0[s].base + sym),
        header_ok(c3),
        free_list_ok(c3),
    ensures
        reloc_inv(c0, c3, s, nb, sym + 1),
        forall|x: int|
            3 <= x < c0.len() && (#[trigger] c0[x]).check == s && x - c0[s].base > sym
                ==> is_free(c3, x - c0[s].base + nb),
{
    let ob = c0[s].base as int;
    let old_next = ob + sym;
    let new_next = nb + sym;
    assert(is_node(c0, 2));
    assert(is_node(c0, old_next));
    assert(is_free(c0, new_next)) by {
        assert(c0[old_next].check == s);
    }
    assert(is_free(c, new_next)) by {
        assert(c0[old_next].check == s);
    }
    assert(parent_ok(c0, old_next));
    assert(!is_moved_child(c0, s, sym, old_next));
    assert(node_at(c, old_next) && c[old_next].base == c0[old_next].base);
    assert(c[old_next].check == s) by {
        if s != 2 {
            assert(parent_ok(c0, s));
        }
        assert(!is_moved_child(c0, s, sym, s));
    }
    assert(c1.len() == c.len() && c2.len() == c.len() && c3.len() == c.len());
    // cells off the free list keep the sign of their CHECK under reparent
    assert forall|j: int| 0 <= j < c1.len() implies (#[trigger] c2[j]).base == c1[j].base && (
    c2[j].check < 0 <==> c1[j].check < 0) && (c1[j].check != old_next ==> c2[j] == c1[j]) by {}
    assert forall|j: int| #[trigger] is_free(c2, j) <==> is_free(c1, j) by {}
    assert forall|x: int| #[trigger] is_node(c0, x) implies if is_moved_child(c0, s, sym + 1, x) {
        &&& free_at(c3, x)
        &&& node_at(c3, x - ob + nb)
        &&& c3[x - ob + nb].base == c0[x].base
        &&& c3[x - ob + nb].check == s
    } else {
        &&& node_at(c3, x)
        &&& c3[x].base == c0[x].base
        &&& c3[x].check == (if is_moved_child(c0, s, sym + 1, c0[x].check as int) {
            (c0[x].check - ob + nb) as TrieIndex
        } else {
            c0[x].check
        })
    } by {
        lemma_move_child_node(c0, c, c1, c2, c3, s, nb, sym, x);
    }
    assert forall|y: int| #[trigger] is_node(c3, y) implies (node_at(c0, y) && !is_moved_child(
        c0,
        s,
        sym + 1,
        y,
    )) || (node_at(c0, y - nb + ob) && is_moved_child(c0, s, sym + 1, y - nb + ob)) by {
        assert(y != old_next);
        assert(is_free(c3, y) <==> is_free(c2, y));
        assert(is_free(c2, y) <==> is_free(c1, y));
        if y == 2 {
            assert(!on_free_list(c2, 2));
            assert(!on_free_list(c, 2));
            assert(c3[2] == c2[2]);
            assert(c1[2] == c[2]);
            assert(is_node(c, 2));
        }
        if y != new_next {
            assert(is_free(c1, y) <==> is_free(c, y));
            assert(!is_free(c, y));
            assert(!on_free_list(c, y));
            assert(c1[y] == c[y]);
            assert(is_node(c, y));
        }
    }
    assert forall|x: int|
        3 <= x < c0.len() && (#[trigger] c0[x]).check == s && x - c0[s].base > sym implies is_free(
        c3,
        x - c0[s].base + nb,
    ) by {
        let t = x - ob + nb;
        assert(is_free(c0, t));
        assert(is_free(c, t));
        assert(is_free(c1, t) <==> is_free(c, t));
        assert(is_free(c2, t) <==> is_free(c1, t));
        assert(is_free(c3, t) <==> is_free(c2, t));
    }
}

/// What `lemma_move_child` says of one node of the cells before the move.
#[verifier::rlimit(60)]
#[verifier::spinoff_prover]
proof fn lemma_move_child_node(
    c0: Seq<DACell>,
    c: Seq<DACell>,
    c1: Seq<DACell>,
    c2: Seq<DACell>,
    c3: Seq<DACell>,
    s: int,
    nb: int,
    sym: int,
    x: int,
)
    requires
        da_wf(c0),
        is_node(c0, s),
        is_node(c0, x),
        c0[s].base > 0,
        nb > 0,
        0 <= sym <= 255,
        reloc_inv(c0, c, s, nb, sym),
        3 <= c0[s].base + sym < c0.len(),
        c0[c0[s].base + sym].check == s,
        c[c0[s].base + sym].check == s,
        c[c0[s].base + sym].base == c0[c0[s].base + sym].base,
        is_free(c, nb + sym),
        is_free(c0, nb + sym),
        forall|x: int|
            3 <= x < c0.len() && (#[trigger] c0[x]).check == s ==> is_free(c0, x - c0[s].base + nb),
        one_cell_changed(c, c1, nb + sym),
        c1[nb + sym] == (DACell { base: c[c0[s].base + sym].base, check: s as TrieIndex }),
        c2.len() == c1.len(),
        forall|j: int|
            0 <= j < c1.len() ==> (#[trigger] c2[j]).base == c1[j].base && (c2[j].check < 0
                <==> c1[j].check < 0) && (c1[j].check != c0[s].base + sym ==> c2[j] == c1[j]),
        forall|j: int|
            0 <= j < c1.len() && (#[trigger] c1[j]).check == c0[s].base + sym && 0 <= j
                - c[c0[s].base + sym].base <= 255 && c[c0[s].base + sym].base > 0 ==> c2[j].check
                == nb + sym,
        forall|j: int| #[trigger] is_free(c2, j) <==> is_free(c1, j),
        one_cell_changed(c2, c3, c0[s].base + sym),
        is_free(c3, c0[s].base + sym),
    ensures
        if is_moved_child(c0, s, sym + 1, x) {
            &&& free_at(c3, x)
            &&& node_at(c3, x - c0[s].base + nb)
            &&& c3[x - c0[s].base + nb].base == c0[x].base
            &&& c3[x - c0[s].base + nb].check == s
        } else {
            &&& node_at(c3, x)
            &&& c3[x].base == c0[x].base
            &&& c3[x].check == (if is_moved_child(c0, s, sym + 1, c0[x].check as int) {
                (c0[x].check - c0[s].base + nb) as TrieIndex
            } else {
                c0[x].check
            })
        },
{
    let ob = c0[s].base as int;
    let old_next = ob + sym;
    let new_next = nb + sym;
    let p = c0[x].check as int;
    assert(is_node(c0, 2));
    assert(is_node(c0, old_next));
    if is_moved_child(c0, s, sym + 1, x) {
        let y = x - ob + nb;
        assert(c0[x].check == s);
        assert(is_free(c0, y));
        if x - ob < sym {
            assert(is_moved_child(c0, s, sym, x));
            assert(is_free(c, x));
            assert(is_free(c1, x) <==> is_free(c, x));
            assert(is_free(c2, x) <==> is_free(c1, x));
            assert(is_free(c3, x) <==> is_free(c2, x));
            assert(!on_free_list(c, y));
            assert(c1[y] == c[y]);
            assert(c2[y] == c1[y]);
            assert(!is_free(c2, y));
            assert(!on_free_list(c2, y));
            assert(c3[y] == c2[y]);
        } else {
            assert(x == old_next);
            assert(y == new_next);
            assert(c2[y] == c1[y]);
            assert(!is_free(c2, y));
            assert(!on_free_list(c2, y));
            assert(c3[y] == c2[y]);
        }
    } else {
        assert(!is_moved_child(c0, s, sym, x));
        assert(!on_free_list(c, x));
        assert(x != new_next);
        assert(c1[x] == c[x]);
        if x != 2 {
            assert(parent_ok(c0, x));
            assert(is_node(c0, p));
        }
        if is_moved_child(c0, s, sym, p) {
            assert(c0[p].check == s);
            assert(is_free(c0, p - ob + nb));
        }
        if p == old_next {
            assert(parent_ok(c0, x));
            assert(c1[x].check == old_next);
            assert(c2[x].check == new_next);
        } else {
            assert(c1[x].check != old_next);
            assert(c2[x] == c1[x]);
        }
        assert(!is_free(c2, x));
        assert(!on_free_list(c2, x));
        assert(x != old_next);
        assert(c3[x] == c2[x]);
    }
}

/// Whether the base `b` leaves room for the children of `s` and for a new
/// child labelled `ch`.
pub open spec fn branch_fits(c: Seq<DACell>, s: int, ch: TrieChar, b: int) -> bool {
    &&& may_take(c, b + ch)
    &&& forall|l: TrieChar| spec_walk(c, s, l) is Some ==> may_take(c, b + l)
}

/// The cells after `s` has been given a new child `nd` under the label `ch`:
/// the children of `s` stand at its new base, every node keeps its BASE and,
/// but for the move, its CHECK, and `nd` is the only new node. Its BASE is
/// 0: no edge leaves it, and it points at no tail entry.
pub open spec fn branch_inserted(
    c0: Seq<DACell>,
    c1: Seq<DACell>,
    s: int,
    ch: TrieChar,
    nd: int,
) -> bool {
    let nb = c1[s].base as int;
    &&& c0.len() <= c1.len()
    &&& nb > 0
    &&& nd == nb + ch
    &&& 3 <= nd < c1.len()
    &&& c1[nd].check == s
    &&& c1[nd].base == 0
    &&& !is_node(c0, nd)
    &&& forall|x: int| #[trigger]
        is_node(c0, x) ==> {
            let y = moved(c0, s, nb, x);
            &&& node_at(c1, y)
            &&& y != nd
            &&& y != x ==> !node_at(c0, y)
            &&& x != s ==> c1[y].base == c0[x].base
            &&& c1[y].check == moved(c0, s, nb, c0[x].check as int)
        }
    &&& forall|y: int| #[trigger]
        is_node(c1, y) && y != nd ==> {
            let x = if c1[y].check == s {
                y - nb + c0[s].base
            } else {
                y
            };
            node_at(c0, x) && moved(c0, s, nb, x) == y
        }
}

/// Cell 1 is never a node, and a cell whose CHECK names a node is one.
pub proof fn lemma_child_is_node(c: Seq<DACell>, s: int, x: int)
    requires
        header_ok(c),
        free_list_ok(c),
        tree_ok(c),
        is_node(c, s),
        0 <= x < c.len(),
        c[x].check == s,
    ensures
        3 <= x,
        is_node(c, x),
        parent_ok(c, x),
{
    assert(on_free_list(c, 1));
    assert(is_node(c, x));
}

/// When all children of `s` have moved and `s` has its new base, the cells
/// are as `base_relocated` describes them.
#[verifier::rlimit(60)]
#[verifier::spinoff_prover]
pub proof fn lemma_reloc_done(c0: Seq<DACell>, c: Seq<DACell>, s: int, nb: int)
    requires
        da_wf(c0),
        is_node(c0, s),
        c0[s].base > 0,
        nb > 0,
        nb <= TRIE_INDEX_MAX,
        reloc_inv(c0, c, s, nb, 256),
        forall|x: int|
            3 <= x < c0.len() && (#[trigger] c0[x]).check == s ==> is_free(c0, x - c0[s].base + nb),
    ensures
        base_relocated(c0, set_base_of(c, s, nb as TrieIndex), s, nb),
{
    let d = set_base_of(c, s, nb as TrieIndex);
    let ob = c0[s].base as int;
    assert(is_node(c0, 2));
    assert(on_free_list(c0, 1));
    assert(!is_moved_child(c0, s, 256, s)) by {
        if s != 2 {
            assert(parent_ok(c0, s));
        }
    }
    assert(node_at(c, s));
    assert forall|i: int| #[trigger] on_free_list(c, i) implies d[i] == c[i] by {}
    lemma_free_list_frame(c, d);
    assert forall|x: int| 3 <= x < c0.len() && c0[x].check == s implies is_moved_child(
        c0,
        s,
        256,
        x,
    ) by {
        lemma_child_is_node(c0, s, x);
    }
    assert forall|x: int| #[trigger] is_node(c0, x) implies {
        let y = moved(c0, s, nb, x);
        &&& node_at(d, y)
        &&& y != x ==> !node_at(c0, y)
        &&& x != s ==> d[y].base == c0[x].base
        &&& d[y].check == moved(c0, s, nb, c0[x].check as int)
    } by {
        let p = c0[x].check as int;
        if is_moved_child(c0, s, 256, x) {
            assert(is_free(c0, x - ob + nb));
        } else {
            if x != 2 {
                assert(parent_ok(c0, x));
            }
            if 3 <= p < c0.len() && c0[p].check == s {
                assert(is_moved_child(c0, s, 256, p));
            }
        }
    }
    assert forall|y: int| #[trigger] is_node(d, y) implies {
        let x = if d[y].check == s {
            y - nb + c0[s].base
        } else {
            y
        };
        node_at(c0, x) && moved(c0, s, nb, x) == y
    } by {
        assert(is_node(c, y));
        let x1 = y - nb + ob;
        if node_at(c0, x1) && is_moved_child(c0, s, 256, x1) {
            assert(is_node(c0, x1));
        } else {
            assert(is_node(c0, y));
            let p = c0[y].check as int;
            if is_moved_child(c0, s, 256, p) {
                assert(is_node(c0, p)) by {
                    lemma_child_is_node(c0, s, p);
                }
                assert(is_free(c0, p - ob + nb));
            }
        }
    }
}

/// Giving the free cell `nd` to a new child of `s`, after the children of
/// `s` have moved to a base that leaves `nd` free, inserts the branch.
#[verifier::rlimit(60)]
#[verifier::spinoff_prover]
pub proof fn lemma_branch_compose(
    c0: Seq<DACell>,
    ca: Seq<DACell>,
    cb: Seq<DACell>,
    cc: Seq<DACell>,
    s: int,
    ch: TrieChar,
)
    requires
        da_wf(c0),
        is_node(c0, s),
        header_ok(ca),
        free_list_ok(ca),
        pool_grown(c0, ca),
        base_relocated(ca, cb, s, cb[s].base as int),
        cb[s].base > 0,
        is_free(cb, cb[s].base + ch),
        !is_node(ca, cb[s].base + ch),
        spec_walk(c0, s, ch) is None,
        one_cell_changed(cb, cc, cb[s].base + ch),
        cc[cb[s].base + ch].check == s,
        cc[cb[s].base + ch].base == 0,
        header_ok(cc),
        free_list_ok(cc),
    ensures
        branch_inserted(c0, cc, s, ch, cb[s].base + ch),
{
    let nb = cb[s].base as int;
    let nd = nb + ch;
    lemma_pool_grown_tree(c0, ca);
    assert(is_node(ca, s));
    assert(ca[s] == c0[s]);
    assert(is_node(ca, 2));
    assert(node_at(cb, moved(ca, s, nb, s)));
    assert(moved(ca, s, nb, s) == s) by {
        if s != 2 {
            assert(parent_ok(ca, s));
        }
    }
    assert(!on_free_list(cb, s));
    assert(cc[s] == cb[s]);
    assert(!is_node(c0, nd)) by {
        if is_node(c0, nd) {
            assert(is_node(ca, nd));
        }
    }
    assert forall|x: int| #[trigger] is_node(c0, x) implies {
        let y = moved(c0, s, nb, x);
        &&& node_at(cc, y)
        &&& y != nd
        &&& y != x ==> !node_at(c0, y)
        &&& x != s ==> cc[y].base == c0[x].base
        &&& cc[y].check == moved(c0, s, nb, c0[x].check as int)
    } by {
        assert(is_node(ca, x));
        assert(ca[x] == c0[x]);
        let y = moved(ca, s, nb, x);
        assert(y == moved(c0, s, nb, x));
        if y != x && node_at(c0, y) {
            assert(is_node(c0, y));
            assert(is_node(ca, y));
        }
        assert(node_at(cb, y));
        assert(!on_free_list(cb, y));
        assert(cc[y] == cb[y]);
        let p = c0[x].check as int;
        if x != 2 {
            assert(parent_ok(c0, x));
            assert(is_node(c0, p));
            assert(is_node(ca, p));
            assert(ca[p] == c0[p]);
        }
        assert(moved(ca, s, nb, p) == moved(c0, s, nb, p));
    }
    assert forall|y: int| #[trigger] is_node(cc, y) && y != nd implies {
        let x = if cc[y].check == s {
            y - nb + c0[s].base
        } else {
            y
        };
        node_at(c0, x) && moved(c0, s, nb, x) == y
    } by {
        assert(is_free(cc, y) <==> is_free(cb, y));
        if y == 2 {
            assert(!on_free_list(cb, 2));
        }
        assert(!on_free_list(cb, y));
        assert(cc[y] == cb[y]);
        assert(is_node(cb, y));
        let x = if cb[y].check == s {
            y - nb + ca[s].base
        } else {
            y
        };
        assert(node_at(ca, x) && moved(ca, s, nb, x) == y);
        assert(is_node(ca, x));
        assert(is_node(c0, x));
        assert(ca[x] == c0[x]);
    }
}

/// Inserting a branch keeps the tree in order.
#[verifier::rlimit(60)]
#[verifier::spinoff_prover]
pub proof fn lemma_branch_inserted_tree(
    c0: Seq<DACell>,
    c1: Seq<DACell>,
    s: int,
    ch: TrieChar,
    nd: int,
)
    requires
        da_wf(c0),
        is_node(c0, s),
        branch_inserted(c0, c1, s, ch, nd),
    ensures
        tree_ok(c1),
        is_node(c1, s),
        is_node(c1, nd),
{
    let nb = c1[s].base as int;
    let ob = c0[s].base as int;
    assert(is_node(c0, 2));
    assert(on_free_list(c0, 1));
    assert(moved(c0, s, nb, s) == s) by {
        if s != 2 {
            assert(parent_ok(c0, s));
        }
    }
    assert(moved(c0, s, nb, 2) == 2);
    assert(node_at(c1, 2) && c1[2].check == moved(c0, s, nb, 0));
    assert(node_at(c1, s));
    assert forall|t: int| #[trigger] is_node(c1, t) && t != 2 implies parent_ok(c1, t) by {
        if t != nd {
            let x = if c1[t].check == s {
                t - nb + ob
            } else {
                t
            };
            assert(is_node(c0, x));
            assert(moved(c0, s, nb, x) == t);
            assert(x != 2);
            assert(parent_ok(c0, x));
            let p = c0[x].check as int;
            assert(is_node(c0, p));
            let q = moved(c0, s, nb, p);
            assert(node_at(c1, q));
            assert(c1[t].check == q);
            if p != 2 {
                assert(parent_ok(c0, p));
            }
            assert(q != t) by {
                if q == t {
                    if q != p {
                        assert(!node_at(c0, q));
                    }
                    if t != x {
                        assert(!node_at(c0, t));
                    }
                }
            }
            if p == s {
                assert(c1[q].base == nb);
            } else {
                assert(c1[q].base == c0[p].base);
            }
        } else {
            assert(c1[nd].check == s);
            assert(s != nd);
        }
    }
    assert forall|t: int| #[trigger] is_node(c1, t) implies c1[t].base <= c1.len() by {
        if t != nd && t != s {
            let x = if c1[t].check == s {
                t - nb + ob
            } else {
                t
            };
            assert(is_node(c0, x));
            assert(moved(c0, s, nb, x) == t);
            assert(x != s);
        }
    }
}

/// Which base `s` has after it has been given a new child labelled `ch`:
/// its own where the place `base + ch` can be taken, else the least from 3
/// on that has room for its children and the new one.
pub open spec fn branch_base_chosen(c0: Seq<DACell>, s: int, ch: TrieChar, nb: int) -> bool {
    if c0[s].base > 0 && may_take(c0, c0[s].base + ch) {
        nb == c0[s].base
    } else {
        &&& 3 <= nb
        &&& branch_fits(c0, s, ch, nb)
        &&& forall|b: int| 3 <= b < nb ==> !#[trigger] branch_fits(c0, s, ch, b)
    }
}

/// Whether no base has room for the children of `s` and a new one labelled
/// `ch`.
pub open spec fn branch_impossible(c0: Seq<DACell>, s: int, ch: TrieChar) -> bool {
    &&& !(c0[s].base > 0 && may_take(c0, c0[s].base + ch))
    &&& forall|b: int| 3 <= b ==> !#[trigger] branch_fits(c0, s, ch, b)
}

/// Giving `s` a base moves nothing when `s` has no children, or when the
/// base is the one it has.
#[verifier::rlimit(60)]
#[verifier::spinoff_prover]
pub proof fn lemma_trivial_relocation(c: Seq<DACell>, s: int, nb: int)
    requires
        da_wf(c),
        is_node(c, s),
        0 < nb <= TRIE_INDEX_MAX,
        nb == c[s].base || c[s].base <= 0,
    ensures
        base_relocated(c, set_base_of(c, s, nb as TrieIndex), s, nb),
{
    let d = set_base_of(c, s, nb as TrieIndex);
    assert(is_node(c, 2));
    assert(on_free_list(c, 1));
    assert forall|i: int| #[trigger] on_free_list(c, i) implies d[i] == c[i] by {}
    lemma_free_list_frame(c, d);
    assert forall|x: int| moved(c, s, nb, x) == x by {
        if 3 <= x < c.len() && c[x].check == s {
            lemma_child_is_node(c, s, x);
        }
    }
    assert forall|x: int| #[trigger] is_node(c, x) implies {
        let y = moved(c, s, nb, x);
        &&& node_at(d, y)
        &&& y != x ==> !node_at(c, y)
        &&& x != s ==> d[y].base == c[x].base
        &&& d[y].check == moved(c, s, nb, c[x].check as int)
    } by {
        assert(moved(c, s, nb, x) == x);
        assert(moved(c, s, nb, c[x].check as int) == c[x].check);
    }
    assert forall|y: int| #[trigger] is_node(d, y) implies {
        let x = if d[y].check == s {
            y - nb + c[s].base
        } else {
            y
        };
        node_at(c, x) && moved(c, s, nb, x) == y
    } by {
        assert(is_node(c, y));
        assert(moved(c, s, nb, y) == y);
        if d[y].check == s {
            lemma_child_is_node(c, s, y);
        }
    }
}

/// A free cell that is not the new place of a child of `s` is free after the
/// children have moved.
pub proof fn lemma_relocated_free(c0: Seq<DACell>, c1: Seq<DACell>, s: int, nb: int, y: int)
    requires
        da_wf(c0),
        is_node(c0, s),
        base_relocated(c0, c1, s, nb),
        is_free(c0, y),
        !(3 <= y - nb + c0[s].base < c0.len() && c0[y - nb + c0[s].base].check == s),
    ensures
        is_free(c1, y),
{
    if is_node(c1, y) {
        let x = if c1[y].check == s {
            y - nb + c0[s].base
        } else {
            y
        };
        assert(node_at(c0, x) && moved(c0, s, nb, x) == y);
    }
}

/// A base fits the symbols of an edge set exactly when it fits the edges.
pub proof fn lemma_fits_branch(c: Seq<DACell>, s: int, ch: TrieChar, b: int, symbols: Seq<TrieChar>)
    requires
        forall|l: TrieChar| symbols.contains(l) <==> (spec_walk(c, s, l) is Some || l == ch),
    ensures
        spec_fits(c, b, symbols) == branch_fits(c, s, ch, b),
{
    if spec_fits(c, b, symbols) {
        assert(symbols.contains(ch));
        assert forall|l: TrieChar| spec_walk(c, s, l) is Some implies may_take(c, b + l) by {
            assert(symbols.contains(l));
        }
    }
    if branch_fits(c, s, ch, b) {
        assert forall|k: int| 0 <= k < symbols.len() implies may_take(
            c,
            b + #[trigger] symbols[k],
        ) by {
            assert(symbols.contains(symbols[k]));
        }
    }
}

/// Growing the pool changes no edge of a node.
pub proof fn lemma_walk_stable(c0: Seq<DACell>, c1: Seq<DACell>, s: int, ch: TrieChar)
    requires
        da_wf(c0),
        header_ok(c1),
        free_list_ok(c1),
        pool_grown(c0, c1),
        is_node(c0, s),
    ensures
        spec_walk(c1, s, ch) == spec_walk(c0, s, ch),
{
    lemma_pool_grown_tree(c0, c1);
    assert(is_node(c1, s));
    let t = c0[s].base + ch;
    if 0 <= t < c1.len() && c1[t].check == s {
        lemma_child_is_node(c1, s, t);
        assert(is_node(c0, t));
    }
    if 0 <= t < c0.len() && c0[t].check == s {
        lemma_child_is_node(c0, s, t);
    }
}

/// The cells that nodes occupy.
pub open spec fn node_set(c: Seq<DACell>) -> Set<int> {
    Set::new(|t: int| is_node(c, t))
}

/// There are no more nodes than cells.
pub proof fn lemma_node_set_finite(c: Seq<DACell>)
    ensures
        node_set(c).finite(),
        node_set(c).len() <= c.len(),
{
    lemma_int_range(0, c.len() as int);
    assert(node_set(c).subset_of(set_int_range(0, c.len() as int)));
    lemma_len_subset(node_set(c), set_int_range(0, c.len() as int));
}

/// Freeing the cell of a node leaves one node less.
pub proof fn lemma_node_set_shrinks(c: Seq<DACell>, d: Seq<DACell>, cell: int)
    requires
        is_node(c, cell),
        !is_node(d, cell),
        forall|t: int| t != cell ==> (is_node(d, t) <==> is_node(c, t)),
    ensures
        node_set(d).len() + 1 == node_set(c).len(),
{
    lemma_node_set_finite(c);
    assert(node_set(d) =~= node_set(c).remove(cell));
}

/// Whether pruning towards `p` frees `s`: it is a node of the pool other
/// than `p`, and no edge leaves it.
pub open spec fn prunable(c: Seq<DACell>, p: int, s: int) -> bool {
    p != s && 3 <= s < c.len() && c[s].check >= 0 && !spec_has_children(c, s)
}

/// The cells after pruning from `s` towards `p`: `s` is freed if it can be,
/// then its parent, and so on, at most `fuel` times.
pub open spec fn spec_prune_upto(c: Seq<DACell>, p: int, s: int, fuel: nat) -> Seq<DACell>
    decreases fuel,
{
    if fuel == 0 || !prunable(c, p, s) {
        c
    } else {
        spec_prune_upto(spec_free_cell(c, s), p, c[s].check as int, (fuel - 1) as nat)
    }
}

/// Freeing a node that no edge leaves keeps the double array well-formed;
/// every other node keeps its cell.
#[verifier::rlimit(60)]
#[verifier::spinoff_prover]
pub proof fn lemma_free_leaf_wf(c: Seq<DACell>, s: int)
    requires
        da_wf(c),
        3 <= s < c.len(),
        c[s].check >= 0,
        !spec_has_children(c, s),
    ensures
        da_wf(spec_free_cell(c, s)),
        is_free(spec_free_cell(c, s), s),
        forall|t: int| #[trigger] is_node(c, t) && t != s ==> spec_free_cell(c, s)[t] == c[t],
        forall|t: int|
            t != s ==> (#[trigger] is_node(spec_free_cell(c, s), t) <==> is_node(c, t)),
        forall|t: int| #[trigger] is_node(c, t) ==> c[t].check != s,
{
    let d = spec_free_cell(c, s);
    lemma_free_cell_ok(c, s);
    assert(is_node(c, 2));
    assert(on_free_list(c, 1));
    assert(!on_free_list(c, 0));
    assert(!on_free_list(c, 2));
    assert(d[0] == c[0]);
    assert forall|t: int| #[trigger] is_node(c, t) implies c[t].check != s by {
        if c[t].check == s {
            assert(is_node(c, s));
            lemma_child_is_node(c, s, t);
            assert(spec_walk(c, s, (t - c[s].base) as TrieChar) is Some);
        }
    }
    assert forall|t: int| t != s implies (#[trigger] is_node(d, t) <==> is_node(c, t)) by {
        assert(is_free(d, t) <==> is_free(c, t));
        if t == 2 {
            assert(d[2] == c[2]);
        }
    }
    assert forall|t: int| #[trigger] is_node(d, t) && t != 2 implies parent_ok(d, t) by {
        assert(t != s);
        assert(is_node(c, t));
        assert(parent_ok(c, t));
        let p = c[t].check as int;
        assert(is_node(c, p));
        assert(p != s);
        assert(!on_free_list(c, t));
        assert(!on_free_list(c, p));
    }
}

/// Pruning keeps the double array well-formed.
pub proof fn lemma_prune_wf(c: Seq<DACell>, p: int, s: int, fuel: nat)
    requires
        da_wf(c),
    ensures
        da_wf(spec_prune_upto(c, p, s, fuel)),
        spec_prune_upto(c, p, s, fuel).len() == c.len(),
    decreases fuel,
{
    if fuel != 0 && prunable(c, p, s) {
        lemma_free_leaf_wf(c, s);
        lemma_free_cell_ok(c, s);
        lemma_prune_wf(spec_free_cell(c, s), p, c[s].check as int, (fuel - 1) as nat);
    }
}

/// The labels below `n` of the edges that leave `s`, ascending.
pub open spec fn symbols_below(c: Seq<DACell>, s: int, n: int) -> Seq<TrieChar>
    decreases n,
{
    if n <= 0 {
        Seq::empty()
    } else if spec_walk(c, s, (n - 1) as TrieChar) is Some {
        symbols_below(c, s, n - 1).push((n - 1) as TrieChar)
    } else {
        symbols_below(c, s, n - 1)
    }
}

/// The labels of the edges that leave `s`, ascending.
pub open spec fn spec_output_symbols(c: Seq<DACell>, s: int) -> Seq<TrieChar> {
    symbols_below(c, s, 256)
}

/// The least label from `from` on of an edge that leaves `s`, or 256 if
/// there is none.
pub open spec fn first_child_from(c: Seq<DACell>, s: int, from: int) -> int
    decreases 256 - from,
{
    if from >= 256 {
        256
    } else if from >= 0 && spec_walk(c, s, from as TrieChar) is Some {
        from
    } else {
        first_child_from(c, s, from + 1)
    }
}

/// The first separate node under `s`, going down the least edge of each
/// node at most `fuel` times, and the labels of the edges gone down. There
/// is no node where the way ends at a node without an edge.
pub open spec fn spec_first_separate(c: Seq<DACell>, s: int, fuel: nat) -> (
    Option<int>,
    Seq<TrieChar>,
)
    decreases fuel,
{
    if !(0 <= s < c.len()) {
        (None, Seq::empty())
    } else if c[s].base < 0 {
        (Some(s), Seq::empty())
    } else if fuel == 0 {
        (None, Seq::empty())
    } else {
        let l = first_child_from(c, s, 0);
        if l >= 256 {
            (None, Seq::empty())
        } else {
            let (r, k) = spec_first_separate(c, c[s].base + l, (fuel - 1) as nat);
            (r, seq![l as TrieChar] + k)
        }
    }
}

/// The key buffer without its last symbol, if it has one.
pub open spec fn cut_last(key: Seq<TrieChar>) -> Seq<TrieChar> {
    if key.len() > 0 {
        key.drop_last()
    } else {
        key
    }
}

/// The separate node after `sep` under `root`, and the key buffer that
/// leads to it from `root`: up from `sep`, at most `fuel` times, to the
/// first node with an edge behind the one come from, then down that edge to
/// its first separate node. There is none once `root` is reached.
pub open spec fn spec_next_separate(
    c: Seq<DACell>,
    root: int,
    sep: int,
    key: Seq<TrieChar>,
    fuel: nat,
) -> (Option<int>, Seq<TrieChar>)
    decreases fuel,
{
    if sep == root || fuel == 0 || !is_node(c, sep) || sep == 2 {
        (None, key)
    } else {
        let parent = c[sep].check as int;
        let base = c[parent].base as int;
        let l = first_child_from(c, parent, sep - base + 1);
        if l < 256 {
            let (r, k) = spec_first_separate(c, base + l, c.len());
            (r, cut_last(key).push(l as TrieChar) + k)
        } else {
            spec_next_separate(c, root, parent, cut_last(key), (fuel - 1) as nat)
        }
    }
}

/// What `first_child_from` finds is the least label from `from` on.
pub proof fn lemma_first_child_from(c: Seq<DACell>, s: int, from: int)
    requires
        0 <= from,
    ensures
        from <= first_child_from(c, s, from) <= 256 || first_child_from(c, s, from) == 256,
        first_child_from(c, s, from) < 256 ==> spec_walk(
            c,
            s,
            first_child_from(c, s, from) as TrieChar,
        ) is Some,
        forall|l: TrieChar|
            from <= l < first_child_from(c, s, from) ==> spec_walk(c, s, l) is None,
    decreases 256 - from,
{
    if from < 256 && !(spec_walk(c, s, from as TrieChar) is Some) {
        lemma_first_child_from(c, s, from + 1);
    }
}

/// The free cells from `from` on, ascending.
pub open spec fn free_cells_from(c: Seq<DACell>, from: int) -> Seq<int>
    decreases c.len() - from,
{
    if from >= c.len() {
        Seq::empty()
    } else if is_free(c, from) {
        seq![from] + free_cells_from(c, from + 1)
    } else {
        free_cells_from(c, from + 1)
    }
}

/// `free_cells_from` lists the free cells from `from` on, each once, in
/// ascending order.
pub proof fn lemma_free_cells_from(c: Seq<DACell>, from: int)
    requires
        0 <= from,
    ensures
        forall|k: int|
            0 <= k < free_cells_from(c, from).len() ==> from <= #[trigger] free_cells_from(
                c,
                from,
            )[k] && is_free(c, free_cells_from(c, from)[k]),
        forall|j: int| from <= j && #[trigger] is_free(c, j) ==> free_cells_from(c, from).contains(j),
        forall|j: int, k: int|
            0 <= j < k < free_cells_from(c, from).len() ==> free_cells_from(c, from)[j]
                < free_cells_from(c, from)[k],
        free_cells_from(c, from).len() > 0 ==> free_cells_from(c, from)[0] == first_free_from(
            c,
            from,
        ),
        free_cells_from(c, from).len() == 0 ==> first_free_from(c, from) == 1,
    decreases c.len() - from,
{
    if from < c.len() {
        lemma_free_cells_from(c, from + 1);
        let rest = free_cells_from(c, from + 1);
        let all = free_cells_from(c, from);
        if is_free(c, from) {
            assert forall|j: int| from <= j && #[trigger] is_free(c, j) implies all.contains(j) by {
                if j == from {
                    assert(all[0] == j);
                } else {
                    assert(rest.contains(j));
                    let k = choose|k: int| 0 <= k < rest.len() && rest[k] == j;
                    assert(all[k + 1] == j);
                }
            }
            assert forall|j: int, k: int| 0 <= j < k < all.len() implies all[j] < all[k] by {
                if j > 0 {
                    assert(all[j] == rest[j - 1] && all[k] == rest[k - 1]);
                } else {
                    assert(all[k] == rest[k - 1]);
                }
            }
            assert forall|k: int| 0 <= k < all.len() implies from <= #[trigger] all[k] && is_free(
                c,
                all[k],
            ) by {
                if k > 0 {
                    assert(all[k] == rest[k - 1]);
                }
            }
        }
    }
}

/// Following the links of the free list from its head visits the free
/// cells in ascending order, each once, and returns to the head: the head
/// points at the first free cell, each free cell at the next, the last at
/// the head; every free cell has a negative CHECK. The backward links say
/// the same in the other direction.
pub proof fn law_free_list_is_a_ring(c: Seq<DACell>)
    requires
        header_ok(c),
        free_list_ok(c),
    ensures
        forall|f: int| #[trigger] is_free(c, f) ==> c[f].check < 0,
        ({
            let cells = free_cells_from(c, 3);
            &&& cells.len() == 0 ==> next_free(c, 1) == 1 && prev_free(c, 1) == 1
            &&& cells.len() > 0 ==> next_free(c, 1) == cells[0] && next_free(c, cells.last()) == 1
                && prev_free(c, 1) == cells.last() && prev_free(c, cells[0]) == 1
            &&& forall|k: int|
                0 <= k < cells.len() - 1 ==> next_free(c, #[trigger] cells[k]) == cells[k + 1]
                    && prev_free(c, cells[k + 1]) == cells[k]
        }),
{
    let cells = free_cells_from(c, 3);
    lemma_free_cells_from(c, 3);
    assert(on_free_list(c, 1));
    let n = cells.len() as int;
    if n == 0 {
        if next_free(c, 1) != 1 {
            assert(is_free(c, next_free(c, 1)));
            assert(cells.contains(next_free(c, 1)));
        }
    } else {
        // the head points at the least free cell
        assert(is_free(c, cells[0]));
        assert(1 < next_free(c, 1) <= cells[0]);
        assert(is_free(c, next_free(c, 1)));
        assert(cells.contains(next_free(c, 1)));
        let k0 = choose|k: int| 0 <= k < n && cells[k] == next_free(c, 1);
        if k0 > 0 {
            assert(cells[0] < cells[k0]);
        }
        // the greatest free cell points at the head
        let last = cells[n - 1];
        assert(is_free(c, last));
        assert(on_free_list(c, last));
        if next_free(c, last) != 1 {
            let nx = next_free(c, last);
            assert(is_free(c, nx));
            assert(cells.contains(nx));
            let k1 = choose|k: int| 0 <= k < n && cells[k] == nx;
            if k1 < n - 1 {
                assert(cells[k1] < cells[n - 1]);
            }
        }
        assert forall|k: int| 0 <= k < n - 1 implies next_free(c, #[trigger] cells[k]) == cells[k
            + 1] && prev_free(c, cells[k + 1]) == cells[k] by {
            let f = cells[k];
            let g = cells[k + 1];
            assert(is_free(c, f) && is_free(c, g));
            assert(on_free_list(c, f));
            assert(f < g);
            assert(f < next_free(c, f) <= g);
            let nx = next_free(c, f);
            assert(is_free(c, nx));
            assert(cells.contains(nx));
            let k2 = choose|k2: int| 0 <= k2 < n && cells[k2] == nx;
            if k2 <= k {
                if k2 < k {
                    assert(cells[k2] < cells[k]);
                }
            } else if k2 > k + 1 {
                assert(cells[k + 1] < cells[k2]);
            }
        }
    }
}

/// Every node but the root hangs under the node its CHECK names, at one of
/// the 256 places from that node's BASE on: the edge with that label leads
/// from the parent to the node.
pub proof fn law_nodes_have_parents(c: Seq<DACell>, s: int)
    requires
        da_wf(c),
        is_node(c, s),
        s != 2,
    ensures
        c[s].check >= 0,
        0 <= s - c[c[s].check as int].base <= 255,
        spec_walk(c, c[s].check as int, (s - c[c[s].check as int].base) as TrieChar) == Some(s),
{
    assert(parent_ok(c, s));
}

/// The header cell of a well-formed double array holds the signature and
/// the number of cells.
pub proof fn law_header_counts_cells(c: Seq<DACell>)
    requires
        da_wf(c),
    ensures
        c[0].base == DA_SIGNATURE_BASE,
        c[0].check == c.len(),
{
}

/// Most cells by which giving a node a new child makes the pool longer.
pub const DA_BRANCH_GROWTH: usize = 512;

/// A base at or behind the end of the pool fits every set of symbols, as
/// long as its places are below the greatest index.
pub proof fn lemma_fits_at_end(c: Seq<DACell>, b: int, symbols: Seq<TrieChar>)
    requires
        3 <= b,
        c.len() <= b,
        b + 255 < TRIE_INDEX_MAX,
    ensures
        spec_fits(c, b, symbols),
{
}

/// A set of symbols that fits behind the end of the pool fits at every base
/// from the end of the pool up to there.
pub proof fn lemma_fits_down(c: Seq<DACell>, b: int, lower: int, symbols: Seq<TrieChar>)
    requires
        spec_fits(c, b, symbols),
        3 <= lower,
        c.len() <= lower <= b,
    ensures
        spec_fits(c, lower, symbols),
{
    assert forall|k: int| 0 <= k < symbols.len() implies may_take(
        c,
        lower + #[trigger] symbols[k],
    ) by {
        assert(may_take(c, b + symbols[k]));
    }
}

} // verus!
