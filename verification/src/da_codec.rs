//! The binary form of the double array, and what it takes for cells read
//! from bytes to be a well-formed double array.

use crate::codec::{i32_bytes, i32_value, lemma_i32_round_trip, u32_value};
use crate::da_spec::{
    da_wf, free_list_ok, is_free, member_at, next_free, on_free_list, prev_free, DA_SIGNATURE,
    DA_SIGNATURE_BASE,
};
use crate::darray::DACell;
use crate::types::TrieError;
use vstd::prelude::*;

verus! {

/// The serialized form of cells: BASE and CHECK of each, big-endian.
pub open spec fn cells_bytes(c: Seq<DACell>) -> Seq<u8>
    decreases c.len(),
{
    if c.len() == 0 {
        Seq::empty()
    } else {
        cells_bytes(c.drop_last()) + i32_bytes(c.last().base) + i32_bytes(c.last().check)
    }
}

/// The `n` cells that the front of `bytes` spells.
pub open spec fn cells_from_bytes(bytes: Seq<u8>, n: int) -> Seq<DACell> {
    Seq::new(
        n as nat,
        |i: int|
            DACell {
                base: i32_value(bytes.subrange(8 * i, 8 * i + 4)),
                check: i32_value(bytes.subrange(8 * i + 4, 8 * i + 8)),
            },
    )
}

/// What reading a double array from the front of `bytes` gives: its cells
/// and the number of bytes they took, or the reason for which it is
/// refused.
pub open spec fn spec_read_darray(bytes: Seq<u8>) -> Result<(Seq<DACell>, int), TrieError> {
    if bytes.len() < 4 {
        Err(TrieError::Truncated)
    } else if u32_value(bytes.subrange(0, 4)) != DA_SIGNATURE {
        Err(TrieError::InvalidSignature)
    } else if bytes.len() < 8 {
        Err(TrieError::Truncated)
    } else {
        let n = i32_value(bytes.subrange(4, 8)) as int;
        if n < 3 {
            Err(TrieError::InvalidCount)
        } else if bytes.len() < 8 * n {
            Err(TrieError::Truncated)
        } else if !da_wf(cells_from_bytes(bytes, n)) {
            Err(TrieError::InvalidStructure)
        } else {
            Ok((cells_from_bytes(bytes, n), 8 * n))
        }
    }
}

/// The serialized cells take eight bytes each, in order.
pub proof fn lemma_cells_bytes(c: Seq<DACell>)
    ensures
        cells_bytes(c).len() == 8 * c.len(),
        forall|k: int|
            0 <= k < c.len() ==> #[trigger] cells_bytes(c).subrange(8 * k, 8 * k + 4) == i32_bytes(
                c[k].base,
            ),
        forall|k: int|
            0 <= k < c.len() ==> #[trigger] cells_bytes(c).subrange(8 * k + 4, 8 * k + 8)
                == i32_bytes(c[k].check),
    decreases c.len(),
{
    if c.len() > 0 {
        let init = c.drop_last();
        let n = c.len() - 1;
        lemma_cells_bytes(init);
        let whole = cells_bytes(c);
        assert forall|k: int| 0 <= k < c.len() implies #[trigger] whole.subrange(8 * k, 8 * k + 4)
            == i32_bytes(c[k].base) by {
            if k < n {
                assert(whole.subrange(8 * k, 8 * k + 4) =~= cells_bytes(init).subrange(
                    8 * k,
                    8 * k + 4,
                ));
                assert(init[k] == c[k]);
            } else {
                assert(whole.subrange(8 * k, 8 * k + 4) =~= i32_bytes(c[n].base));
            }
        }
        assert forall|k: int| 0 <= k < c.len() implies #[trigger] whole.subrange(
            8 * k + 4,
            8 * k + 8,
        ) == i32_bytes(c[k].check) by {
            if k < n {
                assert(whole.subrange(8 * k + 4, 8 * k + 8) =~= cells_bytes(init).subrange(
                    8 * k + 4,
                    8 * k + 8,
                ));
                assert(init[k] == c[k]);
            } else {
                assert(whole.subrange(8 * k + 4, 8 * k + 8) =~= i32_bytes(c[n].check));
            }
        }
    }
}

/// The signature as a signed integer is what cell 0 holds in its BASE.
pub proof fn lemma_signature_base(b: Seq<u8>)
    requires
        b.len() >= 4,
    ensures
        u32_value(b) == DA_SIGNATURE <==> i32_value(b) == DA_SIGNATURE_BASE,
{
}

/// Reading what a well-formed double array was serialized to gives its
/// cells back, and stops where the serialized cells end.
pub proof fn lemma_darray_round_trip(c: Seq<DACell>, rest: Seq<u8>)
    requires
        da_wf(c),
    ensures
        spec_read_darray(cells_bytes(c) + rest) == Ok::<(Seq<DACell>, int), TrieError>(
            (c, cells_bytes(c).len() as int),
        ),
{
    let bytes = cells_bytes(c) + rest;
    let n = c.len() as int;
    lemma_cells_bytes(c);
    assert forall|i: int| 0 <= i < n implies cells_from_bytes(bytes, n)[i] == c[i] by {
        assert(bytes.subrange(8 * i, 8 * i + 4) =~= cells_bytes(c).subrange(8 * i, 8 * i + 4));
        assert(bytes.subrange(8 * i + 4, 8 * i + 8) =~= cells_bytes(c).subrange(
            8 * i + 4,
            8 * i + 8,
        ));
        lemma_i32_round_trip(c[i].base, Seq::empty());
        lemma_i32_round_trip(c[i].check, Seq::empty());
        assert(i32_bytes(c[i].base) + Seq::<u8>::empty() =~= i32_bytes(c[i].base));
        assert(i32_bytes(c[i].check) + Seq::<u8>::empty() =~= i32_bytes(c[i].check));
    }
    assert(cells_from_bytes(bytes, n) =~= c);
    assert(cells_from_bytes(bytes, n)[0] == c[0]);
    lemma_signature_base(bytes.subrange(0, 4));
    assert(bytes.subrange(0, 4).subrange(0, 4) =~= bytes.subrange(0, 4));
    let z: int = 0;
    assert(bytes.subrange(0, 4) =~= bytes.subrange(8 * z, 8 * z + 4));
    assert(bytes.subrange(4, 8) =~= bytes.subrange(8 * z + 4, 8 * z + 8));
}

/// The free list as far as a scan of the cells below `i` has seen it, with
/// `last` the last member below `i`.
pub open spec fn free_list_partial(c: Seq<DACell>, i: int, last: int) -> bool {
    &&& last == 1 || (3 <= last < i && c[last].check < 0)
    &&& forall|j: int| #[trigger] is_free(c, j) && j < i ==> j <= last
    &&& forall|m: int|
        #[trigger] on_free_list(c, m) && m < i && m != last ==> member_at(c, next_free(c, m)) && m
            < next_free(c, m) <= last && prev_free(c, next_free(c, m)) == m
    &&& forall|m: int, j: int|
        #[trigger] on_free_list(c, m) && m < i && m != last && #[trigger] is_free(c, j) && m < j
            ==> next_free(c, m) <= j
    &&& forall|m: int|
        #[trigger] is_free(c, m) && m < i ==> member_at(c, prev_free(c, m)) && prev_free(c, m) < m
            && next_free(c, prev_free(c, m)) == m
}

/// In a well-formed free list, a free cell follows the last member below
/// it.
pub proof fn lemma_free_list_link(c: Seq<DACell>, i: int, last: int)
    requires
        free_list_ok(c),
        is_free(c, i),
        last < i,
        last == 1 || is_free(c, last),
        forall|j: int| #[trigger] is_free(c, j) && j < i ==> j <= last,
    ensures
        next_free(c, last) == i,
        prev_free(c, i) == last,
{
    assert(on_free_list(c, last));
    let nx = next_free(c, last);
    assert(last < nx <= i);
    if nx < i {
        assert(is_free(c, nx));
    }
}

/// In a well-formed free list, the last member is followed by the head.
pub proof fn lemma_free_list_end(c: Seq<DACell>, last: int)
    requires
        free_list_ok(c),
        last == 1 || is_free(c, last),
        forall|j: int| #[trigger] is_free(c, j) ==> j <= last,
    ensures
        next_free(c, last) == 1,
        prev_free(c, 1) == last,
{
    assert(on_free_list(c, last));
    let nx = next_free(c, last);
    if nx != 1 {
        assert(is_free(c, nx));
    }
}

/// A scan that has linked every free cell to the one before it, and the
/// last to the head, has seen a well-formed free list.
pub proof fn lemma_free_list_scanned(c: Seq<DACell>, last: int)
    requires
        c.len() >= 3,
        free_list_partial(c, c.len() as int, last),
        next_free(c, last) == 1,
        prev_free(c, 1) == last,
    ensures
        free_list_ok(c),
{
    assert forall|m: int| #[trigger] on_free_list(c, m) implies {
        &&& member_at(c, next_free(c, m))
        &&& prev_free(c, next_free(c, m)) == m
        &&& member_at(c, prev_free(c, m))
        &&& next_free(c, prev_free(c, m)) == m
        &&& (next_free(c, m) == 1 || next_free(c, m) > m)
    } by {
        if m != 1 {
            assert(is_free(c, m));
        }
    }
    assert forall|m: int, j: int| #[trigger]
        on_free_list(c, m) && #[trigger] is_free(c, j) && m < j implies m < next_free(c, m)
        <= j by {
        if m == last {
            assert(j <= last);
        }
    }
}

} // verus!
