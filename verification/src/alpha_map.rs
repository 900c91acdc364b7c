//! The alphabet of a trie: a set of character ranges, and the two tables that
//! pack its characters into symbols `1..=254` in ascending order.

use crate::codec::{
    i32_bytes, i32_value, lemma_i32_round_trip, lemma_u32_round_trip, read_i32_be, read_u32_be,
    u32_bytes, u32_value, write_i32_be, write_u32_be,
};
use crate::range_set::{
    flatten_ranges, lemma_canonical_unique, lemma_flatten_count, lemma_flatten_props,
    lemma_canonical_take, lemma_flatten_step, lemma_flatten_take_len, range_chars, range_set_clone, range_set_insert,
    range_set_new, range_set_ranges, range_set_to_vec, ranges_canonical, ranges_cover,
    ranges_inserted,
};
use crate::types::{
    AlphaChar, TrieChar, TrieError, TrieIndex, ALPHA_CHAR_ERROR, TRIE_CHAR_TERM, TRIE_INDEX_MAX,
};
use rangemap::RangeInclusiveSet;
use std::ops::RangeInclusive;
use vstd::prelude::*;
use vstd::slice::slice_subrange;

verus! {

/// Signature that opens the serialized alphabet.
pub const ALPHAMAP_SIGNATURE: u32 = 0xd9fcd9fc;

/// Most characters an alphabet can hold: the packed symbols but the
/// terminator and the largest one.
pub const ALPHABET_MAX: usize = 254;

/// What adding `lo..=hi` to the ranges `rs` gives: the coalesced ranges, or
/// the reason for which the range is refused.
pub open spec fn spec_add_range(rs: Seq<(u32, u32)>, lo: u32, hi: u32) -> Result<
    Seq<(u32, u32)>,
    TrieError,
> {
    if lo > hi {
        Err(TrieError::InvalidRange)
    } else if hi - lo + 1 > ALPHABET_MAX {
        Err(TrieError::RangeTooLarge)
    } else if hi == ALPHA_CHAR_ERROR {
        Err(TrieError::RangeIncludesError)
    } else {
        let after = choose|after: Seq<(u32, u32)>| ranges_inserted(rs, lo, hi, after);
        if flatten_ranges(after).len() > ALPHABET_MAX {
            Err(TrieError::RangeTooLarge)
        } else {
            Ok(after)
        }
    }
}

/// No range reaches `ALPHA_CHAR_ERROR`.
pub open spec fn ranges_below_error(rs: Seq<(u32, u32)>) -> bool {
    forall|i: int| 0 <= i < rs.len() ==> (#[trigger] rs[i]).1 < ALPHA_CHAR_ERROR
}

/// The ranges of a well-formed alphabet.
pub open spec fn ranges_valid(rs: Seq<(u32, u32)>) -> bool {
    &&& ranges_canonical(rs)
    &&& ranges_below_error(rs)
    &&& flatten_ranges(rs).len() <= ALPHABET_MAX
}

/// The tables while they are filled: every symbol given so far leads to its
/// character and back.
pub open spec fn tables_partial(
    a2t: Seq<TrieIndex>,
    t2a: Seq<AlphaChar>,
    begin: AlphaChar,
    end: AlphaChar,
) -> bool {
    &&& a2t.len() == end - begin + 1
    &&& forall|k: int|
        1 <= k < t2a.len() ==> begin <= #[trigger] t2a[k] <= end && a2t[t2a[k] - begin] == k
    &&& forall|x: int|
        0 <= x < a2t.len() ==> #[trigger] a2t[x] == TRIE_INDEX_MAX || (1 <= a2t[x] < t2a.len()
            && t2a[a2t[x] as int] == begin + x)
}

/// The serialized form of the ranges: both bounds of each, big-endian.
pub open spec fn ranges_bytes(rs: Seq<(u32, u32)>) -> Seq<u8>
    decreases rs.len(),
{
    if rs.len() == 0 {
        Seq::empty()
    } else {
        ranges_bytes(rs.drop_last()) + u32_bytes(rs.last().0) + u32_bytes(rs.last().1)
    }
}

/// The serialized form of an alphabet with the ranges `rs`.
pub open spec fn alpha_map_bytes(rs: Seq<(u32, u32)>) -> Seq<u8> {
    u32_bytes(ALPHAMAP_SIGNATURE) + i32_bytes(rs.len() as i32) + ranges_bytes(rs)
}

/// Reads `count - k` ranges from `bytes` at `8 + 8 * k` and adds each to
/// `acc`.
pub open spec fn spec_read_ranges(bytes: Seq<u8>, count: int, k: int, acc: Seq<(u32, u32)>) -> Result<
    Seq<(u32, u32)>,
    TrieError,
>
    decreases count - k,
{
    if k >= count {
        Ok(acc)
    } else if bytes.len() < 8 + 8 * k + 8 {
        Err(TrieError::Truncated)
    } else {
        let lo = u32_value(bytes.subrange(8 + 8 * k, 12 + 8 * k));
        let hi = u32_value(bytes.subrange(12 + 8 * k, 16 + 8 * k));
        match spec_add_range(acc, lo, hi) {
            Err(e) => Err(e),
            Ok(next) => spec_read_ranges(bytes, count, k + 1, next),
        }
    }
}

/// What reading an alphabet from the front of `bytes` gives: its ranges and
/// the number of bytes they took, or the reason for which it is refused.
pub open spec fn spec_read_alpha_map(bytes: Seq<u8>) -> Result<(Seq<(u32, u32)>, int), TrieError> {
    if bytes.len() < 4 {
        Err(TrieError::Truncated)
    } else if u32_value(bytes.subrange(0, 4)) != ALPHAMAP_SIGNATURE {
        Err(TrieError::InvalidSignature)
    } else if bytes.len() < 8 {
        Err(TrieError::Truncated)
    } else {
        let count = i32_value(bytes.subrange(4, 8));
        match spec_read_ranges(bytes, count as int, 0, Seq::empty()) {
            Err(e) => Err(e),
            Ok(rs) => Ok(
                (
                    rs,
                    8 + 8 * (if count < 0 {
                        0
                    } else {
                        count as int
                    }),
                ),
            ),
        }
    }
}

/// The serialized ranges take eight bytes each, in order.
pub proof fn lemma_ranges_bytes(rs: Seq<(u32, u32)>)
    ensures
        ranges_bytes(rs).len() == 8 * rs.len(),
        forall|k: int|
            0 <= k < rs.len() ==> #[trigger] ranges_bytes(rs).subrange(8 * k, 8 * k + 4)
                == u32_bytes(rs[k].0),
        forall|k: int|
            0 <= k < rs.len() ==> #[trigger] ranges_bytes(rs).subrange(8 * k + 4, 8 * k + 8)
                == u32_bytes(rs[k].1),
    decreases rs.len(),
{
    if rs.len() > 0 {
        let init = rs.drop_last();
        let n = rs.len() - 1;
        lemma_ranges_bytes(init);
        let whole = ranges_bytes(rs);
        assert(whole == ranges_bytes(init) + u32_bytes(rs[n].0) + u32_bytes(rs[n].1));
        assert forall|k: int| 0 <= k < rs.len() implies #[trigger] whole.subrange(8 * k, 8 * k + 4)
            == u32_bytes(rs[k].0) by {
            if k < n {
                assert(whole.subrange(8 * k, 8 * k + 4) =~= ranges_bytes(init).subrange(
                    8 * k,
                    8 * k + 4,
                ));
                assert(init[k] == rs[k]);
            } else {
                assert(whole.subrange(8 * k, 8 * k + 4) =~= u32_bytes(rs[n].0));
            }
        }
        assert forall|k: int| 0 <= k < rs.len() implies #[trigger] whole.subrange(
            8 * k + 4,
            8 * k + 8,
        ) == u32_bytes(rs[k].1) by {
            if k < n {
                assert(whole.subrange(8 * k + 4, 8 * k + 8) =~= ranges_bytes(init).subrange(
                    8 * k + 4,
                    8 * k + 8,
                ));
                assert(init[k] == rs[k]);
            } else {
                assert(whole.subrange(8 * k + 4, 8 * k + 8) =~= u32_bytes(rs[n].1));
            }
        }
    }
}

/// Adding the next range of a valid list to the ranges before it gives the
/// list up to and including that range.
pub proof fn lemma_add_next_range(rs: Seq<(u32, u32)>, k: int)
    requires
        ranges_valid(rs),
        0 <= k < rs.len(),
    ensures
        spec_add_range(rs.take(k), rs[k].0, rs[k].1) == Ok::<Seq<(u32, u32)>, TrieError>(
            rs.take(k + 1),
        ),
{
    let before = rs.take(k);
    let after = rs.take(k + 1);
    let (lo, hi) = rs[k];
    lemma_canonical_take(rs, k + 1);
    lemma_flatten_take_len(rs, k + 1);
    lemma_flatten_step(rs, k);
    lemma_flatten_take_len(rs, k);
    assert(range_chars(rs[k]).len() == hi - lo + 1);
    assert forall|c: u32| #[trigger]
        ranges_cover(after, c) <==> (ranges_cover(before, c) || lo <= c <= hi) by {
        if ranges_cover(after, c) {
            let i = choose|i: int| 0 <= i < after.len() && (#[trigger] after[i]).0 <= c <= after[i].1;
            if i < k {
                assert(before[i] == after[i]);
            }
        }
        if ranges_cover(before, c) {
            let i = choose|i: int|
                0 <= i < before.len() && (#[trigger] before[i]).0 <= c <= before[i].1;
            assert(after[i] == before[i]);
        }
        if lo <= c <= hi {
            assert(after[k] == rs[k]);
        }
    }
    assert(ranges_inserted(before, lo, hi, after));
    let chosen = choose|x: Seq<(u32, u32)>| ranges_inserted(before, lo, hi, x);
    lemma_canonical_unique(after, chosen);
}

/// Reading the serialized ranges of a valid list, from any range on, gives
/// the list.
pub proof fn lemma_read_ranges_round_trip(rs: Seq<(u32, u32)>, rest: Seq<u8>, k: int)
    requires
        ranges_valid(rs),
        0 <= k <= rs.len(),
    ensures
        spec_read_ranges(alpha_map_bytes(rs) + rest, rs.len() as int, k, rs.take(k)) == Ok::<
            Seq<(u32, u32)>,
            TrieError,
        >(rs),
    decreases rs.len() - k,
{
    let bytes = alpha_map_bytes(rs) + rest;
    if k >= rs.len() {
        assert(rs.take(k) =~= rs);
    } else {
        lemma_ranges_bytes(rs);
        let body = ranges_bytes(rs);
        assert(bytes.subrange(8 + 8 * k, 12 + 8 * k) =~= body.subrange(8 * k, 8 * k + 4));
        assert(bytes.subrange(12 + 8 * k, 16 + 8 * k) =~= body.subrange(8 * k + 4, 8 * k + 8));
        lemma_u32_round_trip(rs[k].0, Seq::empty());
        lemma_u32_round_trip(rs[k].1, Seq::empty());
        assert(u32_bytes(rs[k].0) + Seq::<u8>::empty() =~= u32_bytes(rs[k].0));
        assert(u32_bytes(rs[k].1) + Seq::<u8>::empty() =~= u32_bytes(rs[k].1));
        lemma_add_next_range(rs, k);
        lemma_read_ranges_round_trip(rs, rest, k + 1);
    }
}

/// Reading what an alphabet was serialized to gives its ranges back, and
/// stops where the serialized alphabet ends.
pub proof fn lemma_alpha_map_round_trip(rs: Seq<(u32, u32)>, rest: Seq<u8>)
    requires
        ranges_valid(rs),
    ensures
        spec_read_alpha_map(alpha_map_bytes(rs) + rest) == Ok::<
            (Seq<(u32, u32)>, int),
            TrieError,
        >((rs, alpha_map_bytes(rs).len() as int)),
{
    let bytes = alpha_map_bytes(rs) + rest;
    lemma_flatten_count(rs);
    lemma_ranges_bytes(rs);
    let tail1 = i32_bytes(rs.len() as i32) + ranges_bytes(rs) + rest;
    lemma_u32_round_trip(ALPHAMAP_SIGNATURE, Seq::empty());
    assert(bytes.subrange(0, 4) =~= u32_bytes(ALPHAMAP_SIGNATURE) + Seq::<u8>::empty());
    lemma_i32_round_trip(rs.len() as i32, Seq::empty());
    assert(bytes.subrange(4, 8) =~= i32_bytes(rs.len() as i32) + Seq::<u8>::empty());
    lemma_read_ranges_round_trip(rs, rest, 0);
    assert(rs.take(0) =~= Seq::<(u32, u32)>::empty());
}

/// Reading ranges takes no more bytes than there are.
pub proof fn lemma_read_ranges_len(bytes: Seq<u8>, count: int, k: int, acc: Seq<(u32, u32)>)
    requires
        0 <= k,
        spec_read_ranges(bytes, count, k, acc) is Ok,
        k < count || 8 + 8 * k <= bytes.len(),
    ensures
        count >= 0 ==> 8 + 8 * (if count > k {
            count
        } else {
            k
        }) <= bytes.len(),
    decreases count - k,
{
    if k < count {
        let lo = u32_value(bytes.subrange(8 + 8 * k, 12 + 8 * k));
        let hi = u32_value(bytes.subrange(12 + 8 * k, 16 + 8 * k));
        lemma_read_ranges_len(bytes, count, k + 1, spec_add_range(acc, lo, hi).unwrap());
    }
}

/// An alphabet that can be read takes no more bytes than there are.
pub proof fn lemma_read_len(bytes: Seq<u8>)
    ensures
        spec_read_alpha_map(bytes) matches Ok((rs, n)) ==> 8 <= n <= bytes.len(),
{
    if spec_read_alpha_map(bytes) is Ok {
        let count = i32_value(bytes.subrange(4, 8));
        lemma_read_ranges_len(bytes, count as int, 0, Seq::empty());
    }
}

/// Ranges are refused for want of bytes only where the bytes end before the
/// last range.
pub proof fn lemma_read_ranges_truncated(bytes: Seq<u8>, count: int, k: int, acc: Seq<(u32, u32)>)
    requires
        0 <= k,
        spec_read_ranges(bytes, count, k, acc) == Err::<Seq<(u32, u32)>, TrieError>(
            TrieError::Truncated,
        ),
    ensures
        k < count,
        bytes.len() < 8 + 8 * count,
    decreases count - k,
{
    if k < count && bytes.len() >= 8 + 8 * k + 8 {
        let lo = u32_value(bytes.subrange(8 + 8 * k, 12 + 8 * k));
        let hi = u32_value(bytes.subrange(12 + 8 * k, 16 + 8 * k));
        lemma_read_ranges_truncated(bytes, count, k + 1, spec_add_range(acc, lo, hi).unwrap());
    }
}

/// The alphabet: which characters keys are made of, and the packed symbol of
/// each.
pub struct AlphaMap {
    alpha_begin: AlphaChar,
    alpha_end: AlphaChar,
    ranges: RangeInclusiveSet<AlphaChar>,
    alpha_to_trie_map: Vec<TrieIndex>,
    trie_to_alpha_map: Vec<AlphaChar>,
}

impl AlphaMap {
    /// The ranges of the alphabet, ascending and coalesced.
    pub closed spec fn ranges(&self) -> Seq<(AlphaChar, AlphaChar)> {
        range_set_ranges(self.ranges)
    }

    /// The characters of the alphabet, ascending. The character at position
    /// `k` has the packed symbol `k + 1`.
    pub open spec fn alphabet(&self) -> Seq<AlphaChar> {
        flatten_ranges(self.ranges())
    }

    /// The table from `character - first character` to packed symbol;
    /// `TRIE_INDEX_MAX` marks a character between two ranges.
    pub closed spec fn alpha_to_trie_table(&self) -> Seq<TrieIndex> {
        self.alpha_to_trie_map@
    }

    /// The table from packed symbol to character.
    pub closed spec fn trie_to_alpha_table(&self) -> Seq<AlphaChar> {
        self.trie_to_alpha_map@
    }

    /// Least character of the alphabet, once it has one.
    pub closed spec fn first_char(&self) -> AlphaChar {
        self.alpha_begin
    }

    /// Greatest character of the alphabet, once it has one.
    pub closed spec fn last_char(&self) -> AlphaChar {
        self.alpha_end
    }

    /// Whether the two tables say what the ranges say.
    pub open spec fn tables_match(&self) -> bool {
        let fl = self.alphabet();
        let a2t = self.alpha_to_trie_table();
        let t2a = self.trie_to_alpha_table();
        if self.ranges().len() == 0 {
            a2t.len() == 0 && t2a.len() == 0
        } else {
            &&& self.first_char() == fl[0]
            &&& a2t.len() == fl.last() - fl[0] + 1
            &&& t2a == seq![0u32] + fl
            &&& forall|k: int|
                0 <= k < fl.len() ==> fl[0] <= #[trigger] fl[k] <= fl.last() && a2t[fl[k] - fl[0]]
                    == k + 1
            &&& forall|x: int|
                0 <= x < a2t.len() ==> #[trigger] a2t[x] == TRIE_INDEX_MAX || (1 <= a2t[x]
                    <= fl.len() && fl[a2t[x] - 1] == fl[0] + x)
        }
    }

    /// The invariant of an alphabet: valid ranges, and tables that match
    /// them.
    pub closed spec fn wf(&self) -> bool {
        &&& ranges_valid(self.ranges())
        &&& self.tables_match()
        &&& self.ranges().len() > 0 ==> self.alpha_begin == self.ranges()[0].0 && self.alpha_end
            == self.ranges().last().1
    }

    /// The packed symbol of `ac`: the terminator for 0, else its position in
    /// the alphabet plus one, and nothing for a character outside it.
    pub open spec fn spec_char_to_trie(&self, ac: AlphaChar) -> Option<TrieIndex> {
        if ac == 0 {
            Some(0i32)
        } else if self.alphabet().contains(ac) {
            Some((self.alphabet().index_of(ac) + 1) as i32)
        } else {
            None
        }
    }

    /// The character of the packed symbol `tc`; `ALPHA_CHAR_ERROR` where no
    /// character has it.
    pub open spec fn spec_trie_to_char(&self, tc: TrieChar) -> AlphaChar {
        if self.alphabet().len() == 0 {
            ALPHA_CHAR_ERROR
        } else if tc == 0 {
            0
        } else if tc <= self.alphabet().len() {
            self.alphabet()[tc - 1]
        } else {
            ALPHA_CHAR_ERROR
        }
    }

    /// The packed symbols are `0..=254`, the terminator is the symbol of the
    /// character 0 alone, and two characters never share a symbol.
    pub proof fn lemma_symbols(&self, a: AlphaChar, b: AlphaChar)
        requires
            self.wf(),
        ensures
            self.spec_char_to_trie(a) matches Some(t) ==> 0 <= t <= ALPHABET_MAX && (t == 0 <==> a
                == 0),
            self.spec_char_to_trie(a) is Some && self.spec_char_to_trie(a)
                == self.spec_char_to_trie(b) ==> a == b,
            self.spec_char_to_trie(a) is Some && self.spec_char_to_trie(b) is Some && a < b && a
                != 0 ==> self.spec_char_to_trie(a).unwrap() < self.spec_char_to_trie(b).unwrap(),
    {
        let fl = self.alphabet();
        lemma_flatten_props(self.ranges());
        if a != 0 && fl.contains(a) {
            let i = fl.index_of(a);
            assert(0 <= i < fl.len() && fl[i] == a);
        }
        if b != 0 && fl.contains(b) {
            let j = fl.index_of(b);
            assert(0 <= j < fl.len() && fl[j] == b);
            if a != 0 && fl.contains(a) {
                let i = fl.index_of(a);
                if i < j {
                    assert(fl[i] < fl[j]);
                } else if j < i {
                    assert(fl[j] < fl[i]);
                }
            }
        }
    }

    /// The two tables undo each other: for every character of the alphabet
    /// the symbol table holds a symbol other than the terminator, and the
    /// character table holds the character at that symbol; the terminator
    /// stands for the character 0; and no place of the symbol table holds
    /// the terminator.
    pub proof fn law_tables_inverse(&self)
        requires
            self.wf(),
            self.alphabet().len() > 0,
        ensures
            forall|k: int|
                0 <= k < self.alphabet().len() ==> {
                    let ac = #[trigger] self.alphabet()[k];
                    let t = self.alpha_to_trie_table()[ac - self.first_char()];
                    &&& self.first_char() <= ac
                    &&& ac - self.first_char() < self.alpha_to_trie_table().len()
                    &&& 1 <= t <= ALPHABET_MAX
                    &&& self.trie_to_alpha_table()[t as int] == ac
                },
            self.trie_to_alpha_table()[0] == 0,
            forall|x: int|
                0 <= x < self.alpha_to_trie_table().len() ==> #[trigger] self.alpha_to_trie_table()[x]
                    != 0,
    {
        let fl = self.alphabet();
        lemma_flatten_props(self.ranges());
        assert(self.ranges().len() > 0) by {
            if self.ranges().len() == 0 {
                assert(fl =~= Seq::<u32>::empty());
            }
        }
        assert forall|k: int| 0 <= k < fl.len() implies {
            let ac = #[trigger] fl[k];
            let t = self.alpha_to_trie_table()[ac - self.first_char()];
            &&& self.first_char() <= ac
            &&& ac - self.first_char() < self.alpha_to_trie_table().len()
            &&& 1 <= t <= ALPHABET_MAX
            &&& self.trie_to_alpha_table()[t as int] == ac
        } by {
            assert(fl[0] <= fl[k] <= fl.last());
        }
    }

    /// A well-formed alphabet has valid ranges and matching tables, and
    /// its least and greatest characters are the ends of its ranges.
    pub proof fn lemma_wf(&self)
        requires
            self.wf(),
        ensures
            ranges_valid(self.ranges()),
            self.tables_match(),
            self.ranges().len() > 0 ==> self.first_char() == self.ranges()[0].0
                && self.last_char() == self.ranges().last().1,
    {
    }

    /// An alphabet without characters.
    pub fn new() -> (r: Self)
        ensures
            r.wf(),
            r.ranges() == Seq::<(AlphaChar, AlphaChar)>::empty(),
    {
        let r = AlphaMap {
            alpha_begin: 0,
            alpha_end: 0,
            ranges: range_set_new(),
            alpha_to_trie_map: Vec::new(),
            trie_to_alpha_map: Vec::new(),
        };
        r
    }

    /// Adds the characters `range.start()..=range.end()` to the alphabet and
    /// rebuilds the tables, or refuses the range and changes nothing.
    pub fn add_range(&mut self, range: RangeInclusive<AlphaChar>) -> (r: Result<(), TrieError>)
        requires
            old(self).wf(),
        ensures
            final(self).wf(),
            match spec_add_range(old(self).ranges(), range@.start, range@.end) {
                Ok(after) => r is Ok && final(self).ranges() == after,
                Err(e) => r == Err::<(), TrieError>(e) && *final(self) == *old(self),
            },
            r is Ok ==> ranges_inserted(
                old(self).ranges(),
                range@.start,
                range@.end,
                final(self).ranges(),
            ),
    {
        let lo: AlphaChar = *range.start();
        let hi: AlphaChar = *range.end();
        if lo > hi {
            return Err(TrieError::InvalidRange);
        }
        if hi - lo >= ALPHABET_MAX as u32 {
            return Err(TrieError::RangeTooLarge);
        }
        if hi == ALPHA_CHAR_ERROR {
            return Err(TrieError::RangeIncludesError);
        }
        let mut candidate = range_set_clone(&self.ranges);
        range_set_insert(&mut candidate, range);
        let rs = range_set_to_vec(&candidate);
        proof {
            let chosen = choose|after: Seq<(u32, u32)>|
                ranges_inserted(old(self).ranges(), lo, hi, after);
            assert(ranges_inserted(old(self).ranges(), lo, hi, rs@));
            lemma_canonical_unique(rs@, chosen);
        }
        let total = Self::count_chars(&rs);
        if total > ALPHABET_MAX {
            return Err(TrieError::RangeTooLarge);
        }
        proof {
            assert forall|i: int| 0 <= i < rs@.len() implies (#[trigger] rs@[i]).1
                < ALPHA_CHAR_ERROR by {
                let c = rs@[i].1;
                assert(rs@[i].0 <= c <= rs@[i].1);
                assert(ranges_cover(rs@, c));
                if ranges_cover(old(self).ranges(), c) {
                    let j = choose|j: int|
                        0 <= j < old(self).ranges().len() && (#[trigger] old(self).ranges()[j]).0
                            <= c <= old(self).ranges()[j].1;
                }
            }
        }
        self.ranges = candidate;
        self.recalc_work_area();
        Ok(())
    }

    /// Counts the characters of canonical ranges, up to one past the most an
    /// alphabet can hold.
    fn count_chars(rs: &Vec<(AlphaChar, AlphaChar)>) -> (total: usize)
        requires
            ranges_canonical(rs@),
        ensures
            total <= ALPHABET_MAX <==> flatten_ranges(rs@).len() <= ALPHABET_MAX,
            total <= ALPHABET_MAX ==> total == flatten_ranges(rs@).len(),
    {
        let mut total: usize = 0;
        let mut i: usize = 0;
        while i < rs.len()
            invariant
                0 <= i <= rs.len(),
                ranges_canonical(rs@),
                total == flatten_ranges(rs@.take(i as int)).len(),
                total <= ALPHABET_MAX,
            decreases rs.len() - i,
        {
            let (b, e) = rs[i];
            proof {
                lemma_flatten_step(rs@, i as int);
                lemma_flatten_take_len(rs@, i as int + 1);
                assert(rs@[i as int].0 <= rs@[i as int].1);
            }
            let width: u32 = e - b;
            if width >= ALPHABET_MAX as u32 || total + (width as usize) + 1 > ALPHABET_MAX {
                return ALPHABET_MAX + 1;
            }
            total = total + (width as usize) + 1;
            i = i + 1;
        }
        proof {
            assert(rs@.take(i as int) =~= rs@);
        }
        total
    }

    /// Gives `a` the next free symbol in both tables.
    fn map_char(
        a2t: &mut Vec<TrieIndex>,
        t2a: &mut Vec<AlphaChar>,
        a: AlphaChar,
        begin: AlphaChar,
        end: AlphaChar,
    )
        requires
            tables_partial(old(a2t)@, old(t2a)@, begin, end),
            begin <= a <= end,
            1 <= old(t2a).len() <= ALPHABET_MAX,
            forall|k: int| 1 <= k < old(t2a).len() ==> #[trigger] old(t2a)[k] < a,
        ensures
            tables_partial(final(a2t)@, final(t2a)@, begin, end),
            final(t2a)@ == old(t2a)@.push(a),
    {
        let sym: TrieIndex = t2a.len() as TrieIndex;
        a2t.set((a - begin) as usize, sym);
        t2a.push(a);
        proof {
            let (na, nt) = (a2t@, t2a@);
            let (oa, ot) = (old(a2t)@, old(t2a)@);
            assert forall|x: int| 0 <= x < na.len() implies #[trigger] na[x] == TRIE_INDEX_MAX || (1
                <= na[x] < nt.len() && nt[na[x] as int] == begin + x) by {
                if x != a - begin {
                    assert(na[x] == oa[x]);
                    if oa[x] != TRIE_INDEX_MAX {
                        assert(nt[oa[x] as int] == ot[oa[x] as int]);
                    }
                }
            }
            assert forall|k: int| 1 <= k < nt.len() implies begin <= #[trigger] nt[k] <= end
                && na[nt[k] - begin] == k by {
                if k < ot.len() {
                    assert(nt[k] == ot[k]);
                    assert(ot[k] < a);
                }
            }
        }
    }

    /// Rebuilds both tables from the ranges: the characters get the symbols
    /// `1, 2, ...` in ascending order, symbol 0 stays the terminator.
    fn recalc_work_area(&mut self)
        requires
            ranges_valid(old(self).ranges()),
        ensures
            final(self).wf(),
            final(self).ranges() == old(self).ranges(),
    {
        self.alpha_to_trie_map = Vec::new();
        self.trie_to_alpha_map = Vec::new();
        let rs = range_set_to_vec(&self.ranges);
        if rs.len() == 0 {
            return ;
        }
        let ghost fl = flatten_ranges(rs@);
        proof {
            lemma_flatten_props(rs@);
        }
        let begin: AlphaChar = rs[0].0;
        let end: AlphaChar = rs[rs.len() - 1].1;
        self.alpha_begin = begin;
        self.alpha_end = end;
        assert(begin <= end) by {
            if fl.len() > 1 {
                assert(fl[0] < fl[fl.len() - 1]);
            }
        }
        let n_alpha: usize = (end - begin) as usize + 1;
        let mut a2t: Vec<TrieIndex> = vec![TRIE_INDEX_MAX; n_alpha];
        let mut t2a: Vec<AlphaChar> = Vec::new();
        t2a.push(0);
        let mut i: usize = 0;
        assert(rs@.take(0) =~= Seq::<(u32, u32)>::empty());
        while i < rs.len()
            invariant
                0 <= i <= rs.len(),
                rs.len() > 0,
                ranges_valid(rs@),
                begin == rs@[0].0,
                end == rs@.last().1,
                t2a@ == seq![0u32] + flatten_ranges(rs@.take(i as int)),
                tables_partial(a2t@, t2a@, begin, end),
                forall|k: int|
                    1 <= k < t2a.len() && i < rs.len() ==> #[trigger] t2a[k] < rs@[i as int].0,
            decreases rs.len() - i,
        {
            let (b, e) = rs[i];
            let ghost base = t2a@;
            proof {
                lemma_flatten_step(rs@, i as int);
                lemma_flatten_take_len(rs@, i as int + 1);
                assert(rs@[i as int].0 <= rs@[i as int].1);
                if i > 0 {
                    assert(rs@[0].1 + 1 < rs@[i as int].0);
                    assert(rs@[0].0 <= rs@[0].1);
                }
                if i < rs.len() - 1 {
                    assert(rs@[i as int].1 + 1 < rs@[rs.len() - 1].0);
                    assert(rs@[rs.len() - 1].0 <= rs@[rs.len() - 1].1);
                }
                assert(range_chars(rs@[i as int]).len() == e - b + 1);
                assert(range_chars((b, e)).take(0) =~= Seq::<u32>::empty());
            }
            let mut a: AlphaChar = b;
            while a <= e
                invariant
                    b <= a <= e + 1,
                    e < ALPHA_CHAR_ERROR,
                    begin <= b,
                    e <= end,
                    1 <= base.len(),
                    base.len() + (e - b + 1) <= ALPHABET_MAX + 1,
                    t2a@ == base + range_chars((b, e)).take(a - b),
                    tables_partial(a2t@, t2a@, begin, end),
                    forall|k: int| 1 <= k < t2a.len() ==> #[trigger] t2a[k] < a,
                decreases e + 1 - a,
            {
                let ghost prev = t2a@;
                Self::map_char(&mut a2t, &mut t2a, a, begin, end);
                proof {
                    assert(t2a@ =~= base + range_chars((b, e)).take(a - b + 1));
                    assert forall|k: int| 1 <= k < t2a.len() implies #[trigger] t2a[k] < a + 1 by {
                        if k < prev.len() {
                            assert(t2a[k] == prev[k]);
                        }
                    }
                }
                a = a + 1;
            }
            proof {
                assert(range_chars((b, e)).take(a - b) =~= range_chars((b, e)));
                assert(t2a@ =~= seq![0u32] + flatten_ranges(rs@.take(i as int + 1)));
                if i + 1 < rs.len() {
                    assert(rs@[i as int].1 + 1 < rs@[i as int + 1].0);
                }
            }
            i = i + 1;
        }
        proof {
            assert(rs@.take(i as int) =~= rs@);
            assert(t2a@ == seq![0u32] + fl);
            assert forall|k: int| 0 <= k < fl.len() implies fl[0] <= #[trigger] fl[k] <= fl.last()
                && a2t@[fl[k] - fl[0]] == k + 1 by {
                assert(t2a[k + 1] == fl[k]);
            }
            assert forall|x: int| 0 <= x < a2t.len() implies #[trigger] a2t@[x] == TRIE_INDEX_MAX
                || (1 <= a2t@[x] <= fl.len() && fl[a2t@[x] - 1] == fl[0] + x) by {
                if a2t@[x] != TRIE_INDEX_MAX {
                    assert(t2a[a2t@[x] as int] == fl[a2t@[x] - 1]);
                }
            }
        }
        self.alpha_to_trie_map = a2t;
        self.trie_to_alpha_map = t2a;
    }

    /// The number of characters of the alphabet.
    pub fn num_chars(&self) -> (n: usize)
        requires
            self.wf(),
        ensures
            n == self.alphabet().len(),
            n <= ALPHABET_MAX,
    {
        proof {
            lemma_flatten_count(self.ranges());
        }
        if self.trie_to_alpha_map.len() == 0 {
            proof {
                if self.ranges().len() > 0 {
                    assert(self.trie_to_alpha_map@.len() > 0);
                }
                assert(self.alphabet() =~= Seq::<AlphaChar>::empty());
            }
            0
        } else {
            proof {
                if self.ranges().len() == 0 {
                    assert(self.trie_to_alpha_map@.len() == 0);
                }
            }
            self.trie_to_alpha_map.len() - 1
        }
    }

    /// The least symbol that stands for a character of a key: 1, or 2 where
    /// the alphabet holds the character 0, which no key holds.
    pub open spec fn spec_low_symbol(&self) -> int {
        if self.alphabet().contains(0) {
            2
        } else {
            1
        }
    }

    /// The least symbol that stands for a character of a key.
    pub fn low_symbol(&self) -> (lo: usize)
        requires
            self.wf(),
        ensures
            lo == self.spec_low_symbol(),
    {
        let ghost fl = self.alphabet();
        proof {
            lemma_flatten_props(self.ranges());
            lemma_flatten_count(self.ranges());
        }
        if self.trie_to_alpha_map.len() >= 2 && self.trie_to_alpha_map[1] == 0 {
            proof {
                assert(fl[0] == 0);
                assert(fl.contains(0));
            }
            2
        } else {
            proof {
                if fl.contains(0) {
                    let k = choose|k: int| 0 <= k < fl.len() && fl[k] == 0;
                    if k > 0 {
                        assert(fl[0] < fl[k]);
                    }
                    assert(self.trie_to_alpha_map@[1] == fl[0]);
                }
            }
            1
        }
    }

    /// The symbol of a character other than 0 is a symbol from the least
    /// one on that stands for a character of a key.
    pub proof fn lemma_symbol_proper(&self, a: AlphaChar)
        requires
            self.wf(),
            a != 0,
        ensures
            self.spec_char_to_trie(a) matches Some(t) ==> self.spec_low_symbol() <= t
                <= self.alphabet().len(),
    {
        let fl = self.alphabet();
        lemma_flatten_props(self.ranges());
        if fl.contains(a) {
            let i = fl.index_of(a);
            assert(0 <= i < fl.len() && fl[i] == a);
            if fl.contains(0) {
                let k = choose|k: int| 0 <= k < fl.len() && fl[k] == 0;
                if k > 0 {
                    assert(fl[0] < fl[k]);
                }
                assert(fl[0] == 0);
            }
        }
    }

    /// A symbol from the least one on that stands for a character of a key
    /// stands for a character other than 0.
    pub proof fn lemma_proper_symbol_char(&self, tc: TrieChar)
        requires
            self.wf(),
            self.spec_low_symbol() <= tc <= self.alphabet().len(),
        ensures
            self.alphabet()[tc - 1] != 0,
    {
        let fl = self.alphabet();
        lemma_flatten_props(self.ranges());
        if fl[tc - 1] == 0 {
            assert(fl.contains(0));
            if tc - 1 > 0 {
                assert(fl[0] < fl[tc - 1]);
            }
        }
    }

    /// A symbol among those of the alphabet is the symbol of its character,
    /// unless that character is 0.
    pub proof fn lemma_symbol_of_char(&self, tc: TrieChar)
        requires
            self.wf(),
            1 <= tc <= self.alphabet().len(),
            self.alphabet()[tc - 1] != 0,
        ensures
            self.spec_trie_to_char(tc) == self.alphabet()[tc - 1],
            self.spec_char_to_trie(self.spec_trie_to_char(tc)) == Some(tc as TrieIndex),
    {
        let fl = self.alphabet();
        lemma_flatten_props(self.ranges());
        let a = fl[tc - 1];
        assert(fl.contains(a));
        let j = fl.index_of(a);
        assert(0 <= j < fl.len() && fl[j] == a);
        if j < tc - 1 {
            assert(fl[j] < fl[tc - 1]);
        } else if j > tc - 1 {
            assert(fl[tc - 1] < fl[j]);
        }
    }

    /// The packed symbol of a character, if it has one.
    pub fn char_to_trie(&self, ac: AlphaChar) -> (r: Option<TrieIndex>)
        requires
            self.wf(),
        ensures
            r == self.spec_char_to_trie(ac),
            r matches Some(t) ==> 0 <= t <= ALPHABET_MAX,
    {
        if ac == 0 {
            return Some(TRIE_CHAR_TERM as TrieIndex);
        }
        let ghost fl = self.alphabet();
        proof {
            lemma_flatten_props(self.ranges());
        }
        if self.alpha_begin <= ac && ac <= self.alpha_end {
            let idx: usize = (ac - self.alpha_begin) as usize;
            if idx < self.alpha_to_trie_map.len() {
                let t: TrieIndex = self.alpha_to_trie_map[idx];
                if t != TRIE_INDEX_MAX {
                    proof {
                        assert(fl[t - 1] == ac);
                        assert(fl.contains(ac));
                        let j = fl.index_of(ac);
                        assert(0 <= j < fl.len() && fl[j] == ac);
                        if j < t - 1 {
                            assert(fl[j] < fl[t - 1]);
                        } else if j > t - 1 {
                            assert(fl[t - 1] < fl[j]);
                        }
                    }
                    return Some(t);
                }
            }
        }
        proof {
            if fl.contains(ac) {
                let k = choose|k: int| 0 <= k < fl.len() && fl[k] == ac;
                assert(fl[0] <= fl[k] <= fl.last());
                assert(self.alpha_to_trie_map@[fl[k] - fl[0]] == k + 1);
            }
        }
        None
    }

    /// The packed symbols of the characters of `text`, followed by the
    /// terminator; nothing if one of the characters has no symbol.
    pub open spec fn spec_char_to_trie_str(&self, text: Seq<AlphaChar>) -> Option<Seq<TrieChar>> {
        if forall|i: int| 0 <= i < text.len() ==> self.spec_char_to_trie(#[trigger] text[i]) is Some {
            Some(
                Seq::new(text.len(), |i: int| self.spec_char_to_trie(text[i]).unwrap() as TrieChar)
                    + seq![TRIE_CHAR_TERM],
            )
        } else {
            None
        }
    }

    /// Packs a string and appends the terminator.
    pub fn char_to_trie_str(&self, text: &[AlphaChar]) -> (r: Option<Vec<TrieChar>>)
        requires
            self.wf(),
        ensures
            match self.spec_char_to_trie_str(text@) {
                Some(w) => r matches Some(v) && v@ == w,
                None => r is None,
            },
    {
        let mut out: Vec<TrieChar> = Vec::new();
        let mut i: usize = 0;
        while i < text.len()
            invariant
                self.wf(),
                0 <= i <= text.len(),
                forall|j: int| 0 <= j < i ==> self.spec_char_to_trie(#[trigger] text@[j]) is Some,
                out@ == Seq::new(
                    i as nat,
                    |j: int| self.spec_char_to_trie(text@[j]).unwrap() as TrieChar,
                ),
            decreases text.len() - i,
        {
            match self.char_to_trie(text[i]) {
                None => {
                    return None;
                },
                Some(t) => {
                    let ghost prev = out@;
                    out.push(t as TrieChar);
                    assert(out@ =~= Seq::new(
                        (i + 1) as nat,
                        |j: int| self.spec_char_to_trie(text@[j]).unwrap() as TrieChar,
                    ));
                },
            }
            i = i + 1;
        }
        out.push(TRIE_CHAR_TERM);
        Some(out)
    }

    /// The character of a packed symbol, `ALPHA_CHAR_ERROR` if it has none.
    pub fn trie_to_char(&self, tc: TrieChar) -> (r: AlphaChar)
        requires
            self.wf(),
        ensures
            r == self.spec_trie_to_char(tc),
    {
        proof {
            lemma_flatten_count(self.ranges());
        }
        if (tc as usize) < self.trie_to_alpha_map.len() {
            self.trie_to_alpha_map[tc as usize]
        } else {
            ALPHA_CHAR_ERROR
        }
    }

    /// Appends the serialized alphabet to `buf`.
    pub fn serialize(&self, buf: &mut Vec<u8>)
        requires
            self.wf(),
        ensures
            final(buf)@ == old(buf)@ + alpha_map_bytes(self.ranges()),
    {
        let rs = range_set_to_vec(&self.ranges);
        proof {
            lemma_flatten_count(rs@);
        }
        write_u32_be(buf, ALPHAMAP_SIGNATURE);
        write_i32_be(buf, rs.len() as i32);
        let ghost head = buf@;
        let mut i: usize = 0;
        assert(rs@.take(0) =~= Seq::<(u32, u32)>::empty());
        assert(head + ranges_bytes(rs@.take(0)) =~= head);
        while i < rs.len()
            invariant
                0 <= i <= rs.len(),
                buf@ == head + ranges_bytes(rs@.take(i as int)),
            decreases rs.len() - i,
        {
            let (b, e) = rs[i];
            write_u32_be(buf, b);
            write_u32_be(buf, e);
            proof {
                assert(rs@.take(i + 1).drop_last() =~= rs@.take(i as int));
                assert(rs@.take(i + 1).last() == rs@[i as int]);
                assert(buf@ =~= head + ranges_bytes(rs@.take(i + 1)));
            }
            i = i + 1;
        }
        proof {
            assert(rs@.take(i as int) =~= rs@);
            assert(buf@ =~= old(buf)@ + alpha_map_bytes(self.ranges()));
        }
    }

    /// How many bytes more a reader needs at least before `part`, the front
    /// of a serialized alphabet, can be read. Nothing is wanted where
    /// `part` can be read, or is refused for another reason than its
    /// length.
    pub fn bytes_wanted(part: &[u8]) -> (r: Option<usize>)
        ensures
            r is None <==> spec_read_alpha_map(part@) != Err::<(Seq<(u32, u32)>, int), TrieError>(
                TrieError::Truncated,
            ),
            r matches Some(n) ==> n >= 1 && forall|more: Seq<u8>|
                more.len() < n ==> !(#[trigger] spec_read_alpha_map(part@ + more) is Ok),
    {
        match AlphaMap::read(part) {
            Err(TrieError::Truncated) => {},
            _ => {
                return None;
            },
        }
        let len: usize = part.len();
        if len < 8 {
            return Some(8 - len);
        }
        let count: i32 = read_i32_be(slice_subrange(part, 4, 8));
        proof {
            lemma_read_ranges_truncated(part@, count as int, 0, Seq::empty());
        }
        if count as usize > (usize::MAX - 8) / 8 {
            return Some(1);
        }
        let total: usize = 8 + 8 * (count as usize);
        proof {
            assert forall|more: Seq<u8>| more.len() < total - len implies !(
            #[trigger] spec_read_alpha_map(part@ + more) is Ok) by {
                let whole = part@ + more;
                assert(whole.subrange(0, 4) =~= part@.subrange(0, 4));
                assert(whole.subrange(4, 8) =~= part@.subrange(4, 8));
                lemma_read_len(whole);
            }
        }
        Some(total - len)
    }

    /// The number of bytes that `serialize` appends.
    pub fn serialized_size(&self) -> (n: usize)
        requires
            self.wf(),
        ensures
            n == alpha_map_bytes(self.ranges()).len(),
    {
        let rs = range_set_to_vec(&self.ranges);
        proof {
            lemma_flatten_count(rs@);
            lemma_ranges_bytes(rs@);
        }
        4 + 4 + 8 * rs.len()
    }

    /// Reads an alphabet from the front of `bytes`, and says how many bytes
    /// it took.
    pub fn read(bytes: &[u8]) -> (r: Result<(AlphaMap, usize), TrieError>)
        ensures
            match spec_read_alpha_map(bytes@) {
                Ok((rs, n)) => r matches Ok((am, used)) && am.wf() && am.ranges() == rs && used
                    == n,
                Err(e) => r matches Err(err) && err == e,
            },
    {
        if bytes.len() < 4 {
            return Err(TrieError::Truncated);
        }
        if read_u32_be(slice_subrange(bytes, 0, 4)) != ALPHAMAP_SIGNATURE {
            return Err(TrieError::InvalidSignature);
        }
        if bytes.len() < 8 {
            return Err(TrieError::Truncated);
        }
        let count: i32 = read_i32_be(slice_subrange(bytes, 4, 8));
        let mut am = AlphaMap::new();
        let mut k: i32 = 0;
        let mut pos: usize = 8;
        while k < count
            invariant
                am.wf(),
                0 <= k,
                k <= count || (count < 0 && k == 0),
                pos == 8 + 8 * k,
                8 <= pos <= bytes.len(),
                u32_value(bytes@.subrange(0, 4)) == ALPHAMAP_SIGNATURE,
                count == i32_value(bytes@.subrange(4, 8)),
                spec_read_ranges(bytes@, count as int, 0, Seq::empty()) == spec_read_ranges(
                    bytes@,
                    count as int,
                    k as int,
                    am.ranges(),
                ),
            decreases count - k,
        {
            let ghost acc = am.ranges();
            if bytes.len() - pos < 8 {
                assert(spec_read_ranges(bytes@, count as int, k as int, acc) == Err::<
                    Seq<(u32, u32)>,
                    TrieError,
                >(TrieError::Truncated));
                return Err(TrieError::Truncated);
            }
            let lo: AlphaChar = read_u32_be(slice_subrange(bytes, pos, pos + 4));
            let hi: AlphaChar = read_u32_be(slice_subrange(bytes, pos + 4, pos + 8));
            assert(lo == u32_value(bytes@.subrange(8 + 8 * k, 12 + 8 * k)));
            assert(hi == u32_value(bytes@.subrange(12 + 8 * k, 16 + 8 * k)));
            assert(spec_read_ranges(bytes@, count as int, k as int, acc) == match spec_add_range(
                acc,
                lo,
                hi,
            ) {
                Err(e) => Err(e),
                Ok(next) => spec_read_ranges(bytes@, count as int, k + 1, next),
            });
            match am.add_range(RangeInclusive::new(lo, hi)) {
                Err(e) => {
                    return Err(e);
                },
                Ok(_) => {},
            }
            k = k + 1;
            pos = pos + 8;
        }
        Ok((am, pos))
    }
}

impl Default for AlphaMap {
    /// An alphabet without characters.
    fn default() -> (r: Self)
        ensures
            r.wf(),
            r.ranges() == Seq::<(AlphaChar, AlphaChar)>::empty(),
    {
        AlphaMap::new()
    }
}

impl Clone for AlphaMap {
    /// A copy of the alphabet, with the same ranges.
    fn clone(&self) -> (r: Self)
        ensures
            r.ranges() == self.ranges(),
            self.wf() ==> r.wf(),
            r.alpha_to_trie_table() == self.alpha_to_trie_table(),
            r.trie_to_alpha_table() == self.trie_to_alpha_table(),
    {
        AlphaMap {
            alpha_begin: self.alpha_begin,
            alpha_end: self.alpha_end,
            ranges: range_set_clone(&self.ranges),
            alpha_to_trie_map: self.alpha_to_trie_map.clone(),
            trie_to_alpha_map: self.trie_to_alpha_map.clone(),
        }
    }
}

} // verus!
