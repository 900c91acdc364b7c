//! The tail pool: the suffixes of the keys, one entry for each key, with the
//! payload of the key. Unused entries are chained in ascending order.

use crate::codec::{
    i16_bytes, i16_value, i32_bytes, i32_value, lemma_i16_round_trip, lemma_i32_round_trip,
    lemma_u32_round_trip, read_i16_be, read_i32_be, read_u32_be, u32_bytes, u32_value,
    write_i16_be, write_i32_be, write_u32_be,
};
use crate::types::{
    payload_round_trips, TrieChar, TrieDeserializable, TrieError, TrieIndex, TrieSerializable,
    TRIE_CHAR_TERM, TRIE_INDEX_ERROR, TRIE_INDEX_MAX,
};
use vstd::prelude::*;
use vstd::slice::{slice_subrange, slice_to_vec};

verus! {

/// Longest suffix an entry can hold, terminator included: what a 16-bit
/// offset can address.
pub const TAIL_SUFFIX_MAX: usize = 32767;

/// One entry of the tail pool.
pub struct TailBlock<T> {
    next_free: TrieIndex,
    suffix: Option<Vec<TrieChar>>,
    data: Option<T>,
}

/// The tail pool. Entry 0 heads the list of unused entries and holds no
/// suffix.
pub struct Tail<T> {
    tails: Vec<TailBlock<T>>,
}

/// What one entry holds.
pub ghost struct TailEntry<T> {
    pub next_free: int,
    pub suffix: Option<Seq<TrieChar>>,
    pub data: Option<T>,
}

impl<T> TailBlock<T> {
    /// What the entry holds.
    pub closed spec fn entry(&self) -> TailEntry<T> {
        TailEntry {
            next_free: self.next_free as int,
            suffix: match self.suffix {
                Some(v) => Some(v@),
                None => None,
            },
            data: self.data,
        }
    }
}

impl<T> View for Tail<T> {
    type V = Seq<TailEntry<T>>;

    closed spec fn view(&self) -> Seq<TailEntry<T>> {
        Seq::new(self.tails@.len(), |i: int| self.tails@[i].entry())
    }
}

/// A string as the tail stores it: symbols other than the terminator, then
/// the terminator.
pub open spec fn is_word(w: Seq<TrieChar>) -> bool {
    &&& w.len() >= 1
    &&& w.last() == TRIE_CHAR_TERM
    &&& forall|i: int| 0 <= i < w.len() - 1 ==> w[i] != TRIE_CHAR_TERM
}

/// Where the first terminator of `s` stands, or the length of `s` if it has
/// none.
pub open spec fn first_term(s: Seq<TrieChar>) -> int
    decreases s.len(),
{
    if s.len() == 0 {
        0
    } else if s[0] == TRIE_CHAR_TERM {
        0
    } else {
        1 + first_term(s.drop_first())
    }
}

/// `s` up to its first terminator, with one terminator after it.
pub open spec fn terminated(s: Seq<TrieChar>) -> Seq<TrieChar> {
    s.take(first_term(s)).push(TRIE_CHAR_TERM)
}

/// `first_term` points at the first terminator.
pub proof fn lemma_first_term(s: Seq<TrieChar>)
    ensures
        0 <= first_term(s) <= s.len(),
        forall|i: int| 0 <= i < first_term(s) ==> s[i] != TRIE_CHAR_TERM,
        first_term(s) < s.len() ==> s[first_term(s)] == TRIE_CHAR_TERM,
        is_word(terminated(s)),
        is_word(s) ==> terminated(s) == s,
    decreases s.len(),
{
    if s.len() > 0 && s[0] != TRIE_CHAR_TERM {
        let r = s.drop_first();
        lemma_first_term(r);
        assert forall|i: int| 0 <= i < first_term(s) implies s[i] != TRIE_CHAR_TERM by {
            if i > 0 {
                assert(s[i] == r[i - 1]);
            }
        }
        if first_term(s) < s.len() {
            assert(s[first_term(s)] == r[first_term(r)]);
        }
    }
    let t = terminated(s);
    assert forall|i: int| 0 <= i < t.len() - 1 implies t[i] != TRIE_CHAR_TERM by {
        assert(t[i] == s[i]);
    }
    if is_word(s) {
        if first_term(s) < s.len() - 1 {
            assert(s[first_term(s)] == TRIE_CHAR_TERM);
        }
        assert(first_term(s) == s.len() - 1);
        assert(terminated(s) =~= s);
    }
}

/// An entry that holds no suffix, other than entry 0.
pub open spec fn tail_free<T>(v: Seq<TailEntry<T>>, i: int) -> bool {
    tail_free_at(v, i)
}

/// `tail_free`, written out where it is stated rather than looked for.
#[verifier::inline]
pub open spec fn tail_free_at<T>(v: Seq<TailEntry<T>>, i: int) -> bool {
    1 <= i < v.len() && v[i].suffix is None
}

/// A member of the list of unused entries: its head, or an unused entry.
pub open spec fn tail_member<T>(v: Seq<TailEntry<T>>, i: int) -> bool {
    i == 0 || tail_free_at(v, i)
}

/// An entry that holds a suffix.
pub open spec fn tail_used<T>(v: Seq<TailEntry<T>>, i: int) -> bool {
    1 <= i < v.len() && v[i].suffix is Some
}

/// The invariant of the tail pool: entry 0 holds nothing; the unused entries
/// hold nothing and are chained from entry 0 in ascending order, none left
/// out; a suffix is a word that a 16-bit offset can walk.
pub open spec fn tail_wf<T>(v: Seq<TailEntry<T>>) -> bool {
    &&& 1 <= v.len() <= TRIE_INDEX_MAX
    &&& v[0].suffix is None
    &&& v[0].data is None
    &&& forall|i: int| #[trigger]
        tail_member(v, i) ==> {
            &&& v[i].next_free == 0 || (i < v[i].next_free && tail_free_at(v, v[i].next_free))
            &&& v[i].data is None
        }
    &&& forall|i: int, j: int|
        #[trigger] tail_member(v, i) && #[trigger] tail_free(v, j) && i < j ==> i < v[i].next_free
            <= j
    &&& forall|i: int| #[trigger]
        tail_used(v, i) ==> is_word(v[i].suffix.unwrap()) && v[i].suffix.unwrap().len()
            <= TAIL_SUFFIX_MAX && i32::MIN <= v[i].next_free <= i32::MAX
}

/// Every tail entry in use has a payload.
pub open spec fn entries_full<T>(tl: Seq<TailEntry<T>>) -> bool {
    forall|t: int| #[trigger] tail_used(tl, t) ==> tl[t].data is Some
}

/// Signature that opens the serialized tail pool.
pub const TAIL_SIGNATURE: u32 = 0xdffcdffc;

/// The serialized form of one entry: the index of the next unused entry,
/// the length of the suffix, the suffix, and the payload. An entry without
/// a suffix has the length 0 and nothing after it.
pub open spec fn entry_bytes<T: TrieSerializable>(e: TailEntry<T>) -> Seq<u8> {
    i32_bytes(e.next_free as i32) + (match e.suffix {
        None => i16_bytes(0),
        Some(w) => i16_bytes(w.len() as i16) + w + (match e.data {
            Some(d) => d.spec_serialize(),
            None => Seq::empty(),
        }),
    })
}

/// The serialized form of the entries from `from` on.
pub open spec fn entries_bytes<T: TrieSerializable>(v: Seq<TailEntry<T>>, from: int) -> Seq<u8>
    decreases v.len() - from,
{
    if from >= v.len() || from < 0 {
        Seq::empty()
    } else {
        entry_bytes(v[from]) + entries_bytes(v, from + 1)
    }
}

/// The serialized form of the tail pool: the signature, the number of
/// entries behind entry 0, the first unused entry, and the entries.
pub open spec fn tail_bytes<T: TrieSerializable>(v: Seq<TailEntry<T>>) -> Seq<u8> {
    u32_bytes(TAIL_SIGNATURE) + i32_bytes((v.len() - 1) as i32) + i32_bytes(v[0].next_free as i32)
        + entries_bytes(v, 1)
}

/// What reading one entry from the front of `bytes` gives.
pub open spec fn spec_read_entry<T: TrieDeserializable>(bytes: Seq<u8>) -> Result<
    (TailEntry<T>, int),
    TrieError,
> {
    if bytes.len() < 6 {
        Err(TrieError::Truncated)
    } else {
        let next_free = i32_value(bytes.subrange(0, 4)) as int;
        let len = i16_value(bytes.subrange(4, 6)) as int;
        if len < 0 {
            Err(TrieError::InvalidCount)
        } else if len == 0 {
            Ok((TailEntry { next_free, suffix: None, data: None }, 6))
        } else if bytes.len() < 6 + len {
            Err(TrieError::Truncated)
        } else {
            match T::spec_deserialize(bytes.skip(6 + len)) {
                Err(e) => Err(e),
                Ok((d, n)) => Ok(
                    (
                        TailEntry {
                            next_free,
                            suffix: Some(bytes.subrange(6, 6 + len)),
                            data: Some(d),
                        },
                        6 + len + n,
                    ),
                ),
            }
        }
    }
}

/// What reading entries from `bytes` at `pos` gives, until `acc` holds
/// `count` entries behind entry 0.
pub open spec fn spec_read_entries<T: TrieDeserializable>(
    bytes: Seq<u8>,
    count: int,
    acc: Seq<TailEntry<T>>,
    pos: int,
) -> Result<(Seq<TailEntry<T>>, int), TrieError>
    decreases count + 1 - acc.len(),
{
    if acc.len() >= count + 1 {
        Ok((acc, pos))
    } else {
        match spec_read_entry::<T>(bytes.skip(pos)) {
            Err(e) => Err(e),
            Ok((e, n)) => spec_read_entries(bytes, count, acc.push(e), pos + n),
        }
    }
}

/// What the header of a serialized tail pool says: the number of entries
/// behind entry 0, or the reason for which the header is refused.
pub open spec fn spec_tail_count(bytes: Seq<u8>) -> Result<int, TrieError> {
    if bytes.len() < 4 {
        Err(TrieError::Truncated)
    } else if u32_value(bytes.subrange(0, 4)) != TAIL_SIGNATURE {
        Err(TrieError::InvalidSignature)
    } else if bytes.len() < 12 {
        Err(TrieError::Truncated)
    } else {
        let count = i32_value(bytes.subrange(4, 8)) as int;
        if count < 0 || count >= TRIE_INDEX_MAX {
            Err(TrieError::InvalidCount)
        } else {
            Ok(count)
        }
    }
}

/// What reading a tail pool from the front of `bytes` gives: its entries
/// and the number of bytes they took, or the reason for which it is
/// refused.
pub open spec fn spec_read_tail<T: TrieDeserializable>(bytes: Seq<u8>) -> Result<
    (Seq<TailEntry<T>>, int),
    TrieError,
> {
    match spec_tail_count(bytes) {
        Err(e) => Err(e),
        Ok(count) => {
            let first_free = i32_value(bytes.subrange(8, 12)) as int;
            match spec_read_entries::<T>(
                bytes,
                count,
                seq![TailEntry { next_free: first_free, suffix: None, data: None }],
                12,
            ) {
                Err(e) => Err(e),
                Ok((v, n)) => if tail_wf(v) {
                    Ok((v, n))
                } else {
                    Err(TrieError::InvalidStructure)
                },
            }
        },
    }
}

/// Reading what one entry of a well-formed pool was serialized to gives
/// the entry back.
pub proof fn lemma_entry_round_trip<T: TrieSerializable + TrieDeserializable>(
    v: Seq<TailEntry<T>>,
    i: int,
    rest: Seq<u8>,
)
    requires
        tail_wf(v),
        entries_full(v),
        payload_round_trips::<T>(),
        1 <= i < v.len(),
    ensures
        spec_read_entry::<T>(entry_bytes(v[i]) + rest) == Ok::<(TailEntry<T>, int), TrieError>(
            (v[i], entry_bytes(v[i]).len() as int),
        ),
{
    let e = v[i];
    let b = entry_bytes(e) + rest;
    assert(-0x8000_0000 <= e.next_free <= 0x7fff_ffff) by {
        if tail_used(v, i) {
        } else {
            assert(tail_member(v, i));
        }
    }
    lemma_i32_round_trip(e.next_free as i32, Seq::empty());
    assert(b.subrange(0, 4) =~= i32_bytes(e.next_free as i32) + Seq::<u8>::empty());
    match e.suffix {
        None => {
            lemma_i16_round_trip(0, Seq::empty());
            assert(b.subrange(4, 6) =~= i16_bytes(0) + Seq::<u8>::empty());
            assert(tail_member(v, i));
        },
        Some(w) => {
            assert(tail_used(v, i));
            let d = e.data.unwrap();
            lemma_i16_round_trip(w.len() as i16, Seq::empty());
            assert(b.subrange(4, 6) =~= i16_bytes(w.len() as i16) + Seq::<u8>::empty());
            assert(b.subrange(6, 6 + w.len() as int) =~= w);
            assert(b.skip(6 + w.len() as int) =~= d.spec_serialize() + rest);
        },
    }
}

/// Reading what the entries of a well-formed pool were serialized to, from
/// any entry on, gives the entries.
#[verifier::rlimit(60)]
#[verifier::spinoff_prover]
pub proof fn lemma_entries_round_trip<T: TrieSerializable + TrieDeserializable>(
    v: Seq<TailEntry<T>>,
    bytes: Seq<u8>,
    rest: Seq<u8>,
    k: int,
    pos: int,
)
    requires
        tail_wf(v),
        entries_full(v),
        payload_round_trips::<T>(),
        1 <= k <= v.len(),
        0 <= pos <= bytes.len(),
        bytes.skip(pos) == entries_bytes(v, k) + rest,
    ensures
        spec_read_entries::<T>(bytes, v.len() - 1, v.take(k), pos) == Ok::<
            (Seq<TailEntry<T>>, int),
            TrieError,
        >((v, bytes.len() - rest.len())),
    decreases v.len() - k,
{
    if k >= v.len() {
        assert(v.take(k) =~= v);
        assert(entries_bytes(v, k) =~= Seq::<u8>::empty());
        assert(bytes.skip(pos).len() == rest.len());
    } else {
        let e = entry_bytes(v[k]);
        let after = entries_bytes(v, k + 1) + rest;
        assert(entries_bytes(v, k) == e + entries_bytes(v, k + 1));
        assert(bytes.skip(pos) =~= e + after);
        lemma_entry_round_trip(v, k, after);
        assert(v.take(k).push(v[k]) =~= v.take(k + 1));
        assert(bytes.skip(pos + e.len()) =~= after) by {
            assert(bytes.skip(pos + e.len()) =~= bytes.skip(pos).skip(e.len() as int));
        }
        lemma_entries_round_trip(v, bytes, rest, k + 1, pos + e.len());
        assert(v.take(k).len() == k);
        assert(spec_read_entries::<T>(bytes, v.len() - 1, v.take(k), pos) == spec_read_entries::<
            T,
        >(bytes, v.len() - 1, v.take(k).push(v[k]), pos + e.len()));
    }
}

/// Reading what a well-formed tail pool whose entries in use have payloads
/// was serialized to gives its entries back, and stops where the serialized
/// pool ends.
pub proof fn lemma_tail_round_trip<T: TrieSerializable + TrieDeserializable>(
    v: Seq<TailEntry<T>>,
    rest: Seq<u8>,
)
    requires
        tail_wf(v),
        entries_full(v),
        payload_round_trips::<T>(),
    ensures
        spec_read_tail::<T>(tail_bytes(v) + rest) == Ok::<(Seq<TailEntry<T>>, int), TrieError>(
            (v, tail_bytes(v).len() as int),
        ),
{
    let bytes = tail_bytes(v) + rest;
    assert(tail_member(v, 0));
    lemma_u32_round_trip(TAIL_SIGNATURE, Seq::empty());
    assert(bytes.subrange(0, 4) =~= u32_bytes(TAIL_SIGNATURE) + Seq::<u8>::empty());
    lemma_i32_round_trip((v.len() - 1) as i32, Seq::empty());
    assert(bytes.subrange(4, 8) =~= i32_bytes((v.len() - 1) as i32) + Seq::<u8>::empty());
    lemma_i32_round_trip(v[0].next_free as i32, Seq::empty());
    assert(bytes.subrange(8, 12) =~= i32_bytes(v[0].next_free as i32) + Seq::<u8>::empty());
    assert(bytes.skip(12) =~= entries_bytes(v, 1) + rest);
    assert(v.take(1) =~= seq![TailEntry::<T> { next_free: v[0].next_free, suffix: None, data: None }]);
    lemma_entries_round_trip(v, bytes, rest, 1, 12);
}

/// The list of unused entries as far as a scan of the entries below `i`
/// has seen it, with `last` the last member below `i`.
pub open spec fn tail_partial<T>(v: Seq<TailEntry<T>>, i: int, last: int) -> bool {
    &&& last == 0 || (1 <= last < i && tail_free_at(v, last))
    &&& forall|j: int| #[trigger] tail_free(v, j) && j < i ==> j <= last
    &&& forall|m: int|
        #[trigger] tail_member(v, m) && m < i && m != last ==> tail_free_at(v, v[m].next_free)
            && m < v[m].next_free <= last
    &&& forall|m: int, j: int|
        #[trigger] tail_member(v, m) && m < i && m != last && #[trigger] tail_free(v, j) && m < j
            ==> v[m].next_free <= j
    &&& forall|m: int| #[trigger] tail_member(v, m) && m < i ==> v[m].data is None
    &&& forall|m: int|
        #[trigger] tail_used(v, m) && m < i ==> is_word(v[m].suffix.unwrap())
            && v[m].suffix.unwrap().len() <= TAIL_SUFFIX_MAX && i32::MIN <= v[m].next_free
            <= i32::MAX
}

/// In a well-formed pool, an unused entry follows the last list member
/// below it.
pub proof fn lemma_tail_link<T>(v: Seq<TailEntry<T>>, i: int, last: int)
    requires
        tail_wf(v),
        tail_free(v, i),
        last < i,
        last == 0 || tail_free(v, last),
        forall|j: int| #[trigger] tail_free(v, j) && j < i ==> j <= last,
    ensures
        v[last].next_free == i,
{
    assert(tail_member(v, last));
    let nx = v[last].next_free;
    assert(last < nx <= i);
    if nx < i {
        assert(tail_free(v, nx));
    }
}

/// In a well-formed pool, no entry follows the last list member.
pub proof fn lemma_tail_end<T>(v: Seq<TailEntry<T>>, last: int)
    requires
        tail_wf(v),
        last == 0 || tail_free(v, last),
        forall|j: int| #[trigger] tail_free(v, j) ==> j <= last,
    ensures
        v[last].next_free == 0,
{
    assert(tail_member(v, last));
    let nx = v[last].next_free;
    if nx != 0 {
        assert(tail_free(v, nx));
    }
}

/// A scan that has linked every unused entry to the one before it, and
/// found nothing after the last, has seen a well-formed pool.
pub proof fn lemma_tail_scanned<T>(v: Seq<TailEntry<T>>, last: int)
    requires
        1 <= v.len() <= TRIE_INDEX_MAX,
        v[0].suffix is None,
        tail_partial(v, v.len() as int, last),
        v[last].next_free == 0,
    ensures
        tail_wf(v),
{
    assert(tail_member(v, 0));
    assert forall|m: int| #[trigger] tail_member(v, m) implies {
        &&& v[m].next_free == 0 || (m < v[m].next_free && tail_free_at(v, v[m].next_free))
        &&& v[m].data is None
    } by {}
    assert forall|m: int, j: int| #[trigger]
        tail_member(v, m) && #[trigger] tail_free(v, j) && m < j implies m < v[m].next_free
        <= j by {
        if m == last {
            assert(j <= last);
        }
    }
}

/// The first unused entry from `from` on, or 0 if there is none.
pub open spec fn tail_first_free_from<T>(v: Seq<TailEntry<T>>, from: int) -> int
    decreases v.len() - from,
{
    if from >= v.len() {
        0
    } else if tail_free_at(v, from) {
        from
    } else {
        tail_first_free_from(v, from + 1)
    }
}

/// The last member of the list of unused entries below `t`.
pub open spec fn tail_last_member_below<T>(v: Seq<TailEntry<T>>, t: int) -> int
    decreases t,
{
    if t <= 1 {
        0
    } else if tail_free_at(v, t - 1) {
        t - 1
    } else {
        tail_last_member_below(v, t - 1)
    }
}

/// `tail_first_free_from` finds the least unused entry from `from` on.
pub proof fn lemma_tail_first_free_from<T>(v: Seq<TailEntry<T>>, from: int)
    requires
        1 <= from,
    ensures
        tail_first_free_from(v, from) == 0 || (from <= tail_first_free_from(v, from)
            && tail_free_at(v, tail_first_free_from(v, from))),
        forall|j: int|
            from <= j && #[trigger] tail_free(v, j) ==> from <= tail_first_free_from(v, from) <= j,
    decreases v.len() - from,
{
    if from < v.len() && !tail_free_at(v, from) {
        lemma_tail_first_free_from(v, from + 1);
    }
}

/// `tail_last_member_below` finds the greatest list member below `t`.
pub proof fn lemma_tail_last_member_below<T>(v: Seq<TailEntry<T>>, t: int)
    requires
        1 <= t <= v.len(),
    ensures
        tail_member(v, tail_last_member_below(v, t)),
        tail_last_member_below(v, t) < t,
        forall|j: int|
            #[trigger] tail_free(v, j) && j < t ==> j <= tail_last_member_below(v, t),
    decreases t,
{
    if t > 1 && !tail_free_at(v, t - 1) {
        lemma_tail_last_member_below(v, t - 1);
    }
}

/// The pool after a suffix has been stored: in the first unused entry, or in
/// a new entry at the end if there is none.
pub open spec fn spec_add_suffix<T>(v: Seq<TailEntry<T>>, suffix: Seq<TrieChar>) -> Seq<
    TailEntry<T>,
> {
    let head = v[0].next_free;
    if head != 0 {
        v.update(0, TailEntry { next_free: v[head].next_free, suffix: None, data: None }).update(
            head,
            TailEntry { next_free: 0, suffix: Some(terminated(suffix)), data: None },
        )
    } else {
        v.push(TailEntry { next_free: 0, suffix: Some(terminated(suffix)), data: None })
    }
}

/// The entry that `spec_add_suffix` fills.
pub open spec fn spec_add_suffix_index<T>(v: Seq<TailEntry<T>>) -> int {
    if v[0].next_free != 0 {
        v[0].next_free
    } else {
        v.len() as int
    }
}

/// Whether the pool has room for the suffix.
pub open spec fn can_add_suffix<T>(v: Seq<TailEntry<T>>, suffix: Seq<TrieChar>) -> bool {
    &&& first_term(suffix) < TAIL_SUFFIX_MAX
    &&& v[0].next_free != 0 || v.len() < TRIE_INDEX_MAX
}

/// The pool after the entry `t` has been emptied and put on the list of
/// unused entries at its place.
pub open spec fn spec_tail_delete<T>(v: Seq<TailEntry<T>>, t: int) -> Seq<TailEntry<T>> {
    let prev = tail_last_member_below(v, t);
    let next = tail_first_free_from(v, t + 1);
    v.update(prev, TailEntry { next_free: t, suffix: None, data: None }).update(
        t,
        TailEntry { next_free: next, suffix: None, data: None },
    )
}

/// Storing a suffix keeps the pool well-formed and touches no entry in use.
pub proof fn lemma_add_suffix_wf<T>(v: Seq<TailEntry<T>>, suffix: Seq<TrieChar>)
    requires
        tail_wf(v),
        can_add_suffix(v, suffix),
    ensures
        tail_wf(spec_add_suffix(v, suffix)),
        !tail_used(v, spec_add_suffix_index(v)),
        tail_used(spec_add_suffix(v, suffix), spec_add_suffix_index(v)),
        1 <= spec_add_suffix_index(v) < spec_add_suffix(v, suffix).len(),
        v.len() <= spec_add_suffix(v, suffix).len() <= v.len() + 1,
        spec_add_suffix(v, suffix)[spec_add_suffix_index(v)].suffix == Some(terminated(suffix)),
        forall|i: int| #[trigger] tail_used(v, i) ==> spec_add_suffix(v, suffix)[i] == v[i],
        forall|i: int|
            #[trigger] tail_used(spec_add_suffix(v, suffix), i) ==> i == spec_add_suffix_index(v)
                || tail_used(v, i),
{
    let d = spec_add_suffix(v, suffix);
    let head = v[0].next_free;
    lemma_first_term(suffix);
    assert(tail_member(v, 0));
    if head != 0 {
        assert(tail_member(v, head));
        assert forall|i: int| #[trigger] tail_member(d, i) implies {
            &&& d[i].next_free == 0 || (i < d[i].next_free && tail_free_at(d, d[i].next_free))
            &&& d[i].data is None
        } by {
            assert(tail_member(v, i));
            if i != 0 && v[i].next_free == head {
                assert(tail_free(v, head));
                assert(0 < v[0].next_free <= i) by {
                    assert(tail_free(v, i));
                }
            }
        }
        assert forall|i: int, j: int| #[trigger]
            tail_member(d, i) && #[trigger] tail_free(d, j) && i < j implies i < d[i].next_free
            <= j by {
            assert(tail_member(v, i));
            assert(tail_free(v, j));
            if i == 0 {
                assert(tail_free(v, head));
                assert(head < v[head].next_free <= j);
            }
        }
        assert forall|i: int| #[trigger] tail_used(d, i) implies is_word(d[i].suffix.unwrap())
            && d[i].suffix.unwrap().len() <= TAIL_SUFFIX_MAX && i32::MIN <= d[i].next_free
            <= i32::MAX by {
            if i != head {
                assert(tail_used(v, i));
            }
        }
    } else {
        assert forall|i: int| #[trigger] tail_member(d, i) implies {
            &&& d[i].next_free == 0 || (i < d[i].next_free && tail_free_at(d, d[i].next_free))
            &&& d[i].data is None
        } by {
            assert(tail_member(v, i));
        }
        assert forall|i: int, j: int| #[trigger]
            tail_member(d, i) && #[trigger] tail_free(d, j) && i < j implies i < d[i].next_free
            <= j by {
            assert(tail_member(v, i));
            assert(tail_free(v, j));
        }
        assert forall|i: int| #[trigger] tail_used(d, i) implies is_word(d[i].suffix.unwrap())
            && d[i].suffix.unwrap().len() <= TAIL_SUFFIX_MAX && i32::MIN <= d[i].next_free
            <= i32::MAX by {
            if i != v.len() {
                assert(tail_used(v, i));
            }
        }
    }
}

/// Emptying an entry keeps the pool well-formed and touches no other entry
/// in use.
pub proof fn lemma_tail_delete_wf<T>(v: Seq<TailEntry<T>>, t: int)
    requires
        tail_wf(v),
        tail_used(v, t),
    ensures
        tail_wf(spec_tail_delete(v, t)),
        spec_tail_delete(v, t).len() == v.len(),
        !tail_used(spec_tail_delete(v, t), t),
        forall|i: int| #[trigger] tail_used(v, i) && i != t ==> spec_tail_delete(v, t)[i] == v[i],
        forall|i: int| #[trigger] tail_used(spec_tail_delete(v, t), i) ==> tail_used(v, i),
{
    let d = spec_tail_delete(v, t);
    let prev = tail_last_member_below(v, t);
    let next = tail_first_free_from(v, t + 1);
    lemma_tail_last_member_below(v, t);
    lemma_tail_first_free_from(v, t + 1);
    assert(tail_member(v, 0));
    assert(v[prev].next_free == next) by {
        if next != 0 {
            assert(tail_free(v, next));
            assert(prev < v[prev].next_free <= next);
            assert(tail_free(v, v[prev].next_free));
        } else {
            if v[prev].next_free != 0 {
                assert(tail_free(v, v[prev].next_free));
            }
        }
    }
    assert forall|i: int| #[trigger] tail_member(d, i) implies {
        &&& d[i].next_free == 0 || (i < d[i].next_free && tail_free_at(d, d[i].next_free))
        &&& d[i].data is None
    } by {
        if i != t {
            assert(tail_member(v, i));
        }
    }
    assert forall|i: int, j: int| #[trigger]
        tail_member(d, i) && #[trigger] tail_free(d, j) && i < j implies i < d[i].next_free
        <= j by {
        if i == t {
            assert(tail_free(v, j));
        } else if j == t {
            assert(tail_member(v, i));
            if i != prev {
                if i != 0 {
                    assert(tail_free(v, i));
                }
                assert(i <= prev);
                assert(tail_free(v, prev));
                assert(i < v[i].next_free <= prev);
            }
        } else {
            assert(tail_member(v, i));
            assert(tail_free(v, j));
            if i == prev {
                if j < t {
                    assert(j <= prev);
                }
            }
        }
    }
    assert forall|i: int| #[trigger] tail_used(d, i) implies is_word(d[i].suffix.unwrap())
        && d[i].suffix.unwrap().len() <= TAIL_SUFFIX_MAX && i32::MIN <= d[i].next_free
        <= i32::MAX by {
        assert(tail_used(v, i));
    }
}

/// A list member below `t` that no unused entry below `t` follows is what
/// `tail_last_member_below` finds.
pub proof fn lemma_tail_last_member_is<T>(v: Seq<TailEntry<T>>, t: int, prev: int)
    requires
        1 <= t <= v.len(),
        tail_member(v, prev),
        prev < t,
        forall|j: int| #[trigger] tail_free(v, j) && j < t ==> j <= prev,
    ensures
        tail_last_member_below(v, t) == prev,
{
    lemma_tail_last_member_below(v, t);
    let r = tail_last_member_below(v, t);
    if r != 0 {
        assert(tail_free(v, r));
    }
    if prev != 0 {
        assert(tail_free(v, prev));
    }
}

/// An unused entry from `from` on that no unused entry from `from` on
/// precedes is what `tail_first_free_from` finds; so is 0 if there is none.
pub proof fn lemma_tail_first_free_is<T>(v: Seq<TailEntry<T>>, from: int, at: int)
    requires
        1 <= from,
        at == 0 || (from <= at && tail_free(v, at)),
        forall|j: int| from <= j && #[trigger] tail_free(v, j) ==> at != 0 && at <= j,
    ensures
        tail_first_free_from(v, from) == at,
{
    lemma_tail_first_free_from(v, from);
    let r = tail_first_free_from(v, from);
    if r != 0 {
        assert(tail_free(v, r));
    }
}

/// Where a walk along the suffix of entry `t` stands after reading `c` at
/// the offset `idx`, if the suffix has `c` there.
pub open spec fn spec_walk_char<T>(v: Seq<TailEntry<T>>, t: int, idx: int, c: TrieChar) -> Option<
    int,
> {
    if tail_used(v, t) && 0 <= idx < v[t].suffix.unwrap().len() && v[t].suffix.unwrap()[idx] == c {
        Some(idx + 1)
    } else {
        None
    }
}

impl<T> Tail<T> {
    /// The invariant of the tail pool.
    pub open spec fn wf(&self) -> bool {
        tail_wf(self@)
    }

    /// A pool without entries: only the head of the list of unused entries.
    pub fn new() -> (r: Self)
        ensures
            r.wf(),
            r@ == seq![TailEntry::<T> { next_free: 0, suffix: None, data: None }],
    {
        let mut tails: Vec<TailBlock<T>> = Vec::new();
        tails.push(TailBlock { next_free: 0, suffix: None, data: None });
        let r = Tail { tails };
        proof {
            assert(r@ =~= seq![TailEntry::<T> { next_free: 0, suffix: None, data: None }]);
            assert forall|i: int| #[trigger] tail_member(r@, i) implies i == 0 by {}
        }
        r
    }

    /// The number of entries, the head of the list included.
    pub fn num_entries(&self) -> (n: usize)
        ensures
            n == self@.len(),
    {
        self.tails.len()
    }

    /// `suffix` up to its first terminator, with one terminator after it;
    /// nothing if that is longer than an entry can hold.
    fn normalize(suffix: &[TrieChar]) -> (r: Option<Vec<TrieChar>>)
        ensures
            match r {
                Some(w) => first_term(suffix@) < TAIL_SUFFIX_MAX && w@ == terminated(suffix@),
                None => first_term(suffix@) >= TAIL_SUFFIX_MAX,
            },
    {
        let mut out: Vec<TrieChar> = Vec::new();
        let mut i: usize = 0;
        proof {
            lemma_first_term(suffix@);
        }
        while i < suffix.len() && suffix[i] != TRIE_CHAR_TERM
            invariant
                0 <= i <= suffix@.len(),
                i <= first_term(suffix@),
                i < TAIL_SUFFIX_MAX,
                out@ == suffix@.take(i as int),
                forall|k: int| 0 <= k < first_term(suffix@) ==> suffix@[k] != TRIE_CHAR_TERM,
                first_term(suffix@) < suffix@.len() ==> suffix@[first_term(suffix@)]
                    == TRIE_CHAR_TERM,
                first_term(suffix@) <= suffix@.len(),
            decreases suffix@.len() - i,
        {
            if i + 1 >= TAIL_SUFFIX_MAX {
                return None;
            }
            out.push(suffix[i]);
            proof {
                assert(out@ =~= suffix@.take(i + 1));
            }
            i = i + 1;
        }
        out.push(TRIE_CHAR_TERM);
        Some(out)
    }

    /// Whether the pool has room for the suffix.
    pub fn has_room_for(&self, suffix: &[TrieChar]) -> (r: bool)
        requires
            self.wf(),
        ensures
            r == can_add_suffix(self@, suffix@),
    {
        proof {
            assert(tail_member(self@, 0));
        }
        if self.tails[0].next_free == 0 && self.tails.len() >= TRIE_INDEX_MAX as usize {
            return false;
        }
        Self::normalize(suffix).is_some()
    }

    /// Stores a suffix, up to its first terminator and with a terminator
    /// after it, in the first unused entry, or in a new one if there is none.
    /// Returns the index of the entry, or `TRIE_INDEX_ERROR` if the suffix
    /// is too long or the pool is full.
    pub fn add_suffix(&mut self, suffix: &[TrieChar]) -> (r: TrieIndex)
        requires
            old(self).wf(),
        ensures
            final(self).wf(),
            can_add_suffix(old(self)@, suffix@) ==> r == spec_add_suffix_index(old(self)@)
                && final(self)@ == spec_add_suffix(old(self)@, suffix@),
            !can_add_suffix(old(self)@, suffix@) ==> r == TRIE_INDEX_ERROR && final(self)@ == old(
                self,
            )@,
    {
        let ghost v = self@;
        let word = match Self::normalize(suffix) {
            Some(w) => w,
            None => {
                return TRIE_INDEX_ERROR;
            },
        };
        proof {
            assert(tail_member(v, 0));
        }
        let head: TrieIndex = self.tails[0].next_free;
        if head != 0 {
            proof {
                lemma_add_suffix_wf(v, suffix@);
            }
            let next: TrieIndex = self.tails[head as usize].next_free;
            self.tails[0].next_free = next;
            self.tails[head as usize].next_free = 0;
            self.tails[head as usize].suffix = Some(word);
            proof {
                assert(tail_member(v, head as int));
                assert(self@[0] == spec_add_suffix(v, suffix@)[0]);
                assert(self@[head as int] == spec_add_suffix(v, suffix@)[head as int]);
                assert(self@ =~= spec_add_suffix(v, suffix@));
            }
            head
        } else {
            if self.tails.len() >= TRIE_INDEX_MAX as usize {
                return TRIE_INDEX_ERROR;
            }
            proof {
                lemma_add_suffix_wf(v, suffix@);
            }
            let index: TrieIndex = self.tails.len() as TrieIndex;
            self.tails.push(TailBlock { next_free: 0, suffix: Some(word), data: None });
            proof {
                assert(self@ =~= spec_add_suffix(v, suffix@));
            }
            index
        }
    }

    /// The suffix of entry `index`, if the entry is in use.
    pub fn get_suffix(&self, index: TrieIndex) -> (r: Option<&[TrieChar]>)
        ensures
            match r {
                Some(w) => tail_used(self@, index as int) && w@ == self@[index as int].suffix.unwrap(),
                None => !tail_used(self@, index as int),
            },
    {
        if index >= 1 && (index as usize) < self.tails.len() {
            match &self.tails[index as usize].suffix {
                Some(w) => Some(w.as_slice()),
                None => None,
            }
        } else {
            None
        }
    }

    /// Replaces the suffix of entry `index`, if the entry is in use and the
    /// suffix is not too long; says whether it did.
    pub fn set_suffix(&mut self, index: TrieIndex, suffix: &[TrieChar]) -> (r: bool)
        requires
            old(self).wf(),
        ensures
            final(self).wf(),
            r == (tail_used(old(self)@, index as int) && first_term(suffix@) < TAIL_SUFFIX_MAX),
            r ==> final(self)@ == old(self)@.update(
                index as int,
                TailEntry {
                    next_free: old(self)@[index as int].next_free,
                    suffix: Some(terminated(suffix@)),
                    data: old(self)@[index as int].data,
                },
            ),
            !r ==> final(self)@ == old(self)@,
    {
        let ghost v = self@;
        if index >= 1 && (index as usize) < self.tails.len() {
            if self.tails[index as usize].suffix.is_none() {
                return false;
            }
            match Self::normalize(suffix) {
                None => false,
                Some(word) => {
                    self.tails[index as usize].suffix = Some(word);
                    proof {
                        let d = self@;
                        lemma_first_term(suffix@);
                        assert(d =~= v.update(
                            index as int,
                            TailEntry {
                                next_free: v[index as int].next_free,
                                suffix: Some(terminated(suffix@)),
                                data: v[index as int].data,
                            },
                        ));
                        assert forall|i: int| #[trigger] tail_member(d, i) implies {
                            &&& d[i].next_free == 0 || (i < d[i].next_free && tail_free_at(
                                d,
                                d[i].next_free,
                            ))
                            &&& d[i].data is None
                        } by {
                            assert(tail_member(v, i));
                        }
                        assert forall|i: int, j: int| #[trigger]
                            tail_member(d, i) && #[trigger] tail_free(d, j) && i < j implies i
                            < d[i].next_free <= j by {
                            assert(tail_member(v, i));
                            assert(tail_free(v, j));
                        }
                        assert forall|i: int| #[trigger] tail_used(d, i) implies is_word(
                            d[i].suffix.unwrap(),
                        ) && d[i].suffix.unwrap().len() <= TAIL_SUFFIX_MAX && i32::MIN
                            <= d[i].next_free <= i32::MAX by {
                            if i != index {
                                assert(tail_used(v, i));
                            }
                        }
                    }
                    true
                },
            }
        } else {
            false
        }
    }

    /// The payload of entry `index`, if the entry is in use and has one.
    pub fn get_data(&self, index: TrieIndex) -> (r: Option<&T>)
        ensures
            match r {
                Some(d) => tail_used(self@, index as int) && self@[index as int].data == Some(*d),
                None => !tail_used(self@, index as int) || self@[index as int].data is None,
            },
    {
        if index >= 1 && (index as usize) < self.tails.len() {
            if self.tails[index as usize].suffix.is_none() {
                return None;
            }
            self.tails[index as usize].data.as_ref()
        } else {
            None
        }
    }

    /// Gives entry `index` a payload, if the entry is in use; says whether
    /// it did.
    pub fn set_data(&mut self, index: TrieIndex, data: T) -> (r: bool)
        requires
            old(self).wf(),
        ensures
            final(self).wf(),
            r == tail_used(old(self)@, index as int),
            r ==> final(self)@ == old(self)@.update(
                index as int,
                TailEntry {
                    next_free: old(self)@[index as int].next_free,
                    suffix: old(self)@[index as int].suffix,
                    data: Some(data),
                },
            ),
            !r ==> final(self)@ == old(self)@,
    {
        let ghost v = self@;
        if index >= 1 && (index as usize) < self.tails.len() {
            if self.tails[index as usize].suffix.is_none() {
                return false;
            }
            self.tails[index as usize].data = Some(data);
            proof {
                let d = self@;
                assert(d =~= v.update(
                    index as int,
                    TailEntry {
                        next_free: v[index as int].next_free,
                        suffix: v[index as int].suffix,
                        data: Some(data),
                    },
                ));
                assert forall|i: int| #[trigger] tail_member(d, i) implies {
                    &&& d[i].next_free == 0 || (i < d[i].next_free && tail_free_at(
                        d,
                        d[i].next_free,
                    ))
                    &&& d[i].data is None
                } by {
                    assert(tail_member(v, i));
                }
                assert forall|i: int, j: int| #[trigger]
                    tail_member(d, i) && #[trigger] tail_free(d, j) && i < j implies i
                    < d[i].next_free <= j by {
                    assert(tail_member(v, i));
                    assert(tail_free(v, j));
                }
                assert forall|i: int| #[trigger] tail_used(d, i) implies is_word(
                    d[i].suffix.unwrap(),
                ) && d[i].suffix.unwrap().len() <= TAIL_SUFFIX_MAX && i32::MIN <= d[i].next_free
                    <= i32::MAX by {
                    assert(tail_used(v, i));
                }
            }
            true
        } else {
            false
        }
    }

    /// Empties entry `index`, if it is in use, and puts it on the list of
    /// unused entries.
    pub fn delete(&mut self, index: TrieIndex)
        requires
            old(self).wf(),
        ensures
            final(self).wf(),
            final(self)@ == (if tail_used(old(self)@, index as int) {
                spec_tail_delete(old(self)@, index as int)
            } else {
                old(self)@
            }),
    {
        let ghost v = self@;
        if index < 1 || (index as usize) >= self.tails.len() {
            return ;
        }
        if self.tails[index as usize].suffix.is_none() {
            return ;
        }
        proof {
            assert(tail_member(v, 0));
        }
        let mut prev: TrieIndex = 0;
        let mut cur: TrieIndex = self.tails[0].next_free;
        while cur != 0 && cur < index
            invariant
                self@ == v,
                tail_wf(v),
                tail_used(v, index as int),
                tail_member(v, prev as int),
                0 <= prev < index,
                cur == v[prev as int].next_free,
                forall|j: int| #[trigger] tail_free(v, j) && j < index ==> j <= prev || cur <= j,
            decreases
                    (if cur == 0 {
                        0
                    } else {
                        v.len() - cur
                    }),
        {
            proof {
                assert(tail_member(v, cur as int));
                assert forall|j: int| #[trigger] tail_free(v, j) && j < index implies j <= cur
                    || v[cur as int].next_free <= j by {
                    if j > cur {
                        assert(tail_free(v, j));
                        assert(cur < v[cur as int].next_free <= j);
                    }
                }
            }
            prev = cur;
            cur = self.tails[cur as usize].next_free;
        }
        proof {
            lemma_tail_last_member_is(v, index as int, prev as int);
            assert forall|j: int| index + 1 <= j && #[trigger] tail_free(v, j) implies cur != 0
                && cur <= j by {
                assert(prev < v[prev as int].next_free <= j);
            }
            if cur != 0 {
                assert(tail_free(v, cur as int));
            }
            lemma_tail_first_free_is(v, index + 1, cur as int);
            lemma_tail_delete_wf(v, index as int);
        }
        self.tails[prev as usize].next_free = index;
        self.tails[index as usize].next_free = cur;
        self.tails[index as usize].suffix = None;
        self.tails[index as usize].data = None;
        proof {
            assert(self@ =~= spec_tail_delete(v, index as int));
        }
    }

    /// Reads `c` at the offset `suffix_idx` of the suffix of entry `index`:
    /// returns the next offset if the suffix has `c` there.
    pub fn walk_char(&self, index: TrieIndex, suffix_idx: i16, c: TrieChar) -> (r: Option<i16>)
        requires
            self.wf(),
        ensures
            match spec_walk_char(self@, index as int, suffix_idx as int, c) {
                Some(n) => r == Some(n as i16) && n <= TAIL_SUFFIX_MAX,
                None => r is None,
            },
    {
        if suffix_idx < 0 {
            return None;
        }
        match self.get_suffix(index) {
            None => None,
            Some(w) => {
                if (suffix_idx as usize) < w.len() && w[suffix_idx as usize] == c {
                    Some(suffix_idx + 1)
                } else {
                    None
                }
            },
        }
    }

    /// Whether the suffix of entry `index` has `c` at the offset
    /// `suffix_idx`.
    pub fn is_walkable_char(&self, index: TrieIndex, suffix_idx: i16, c: TrieChar) -> (r: bool)
        requires
            self.wf(),
        ensures
            r == spec_walk_char(self@, index as int, suffix_idx as int, c) is Some,
    {
        self.walk_char(index, suffix_idx, c).is_some()
    }

    /// Whether `w` is a word that an entry can hold.
    fn check_word(w: &Vec<TrieChar>) -> (ok: bool)
        ensures
            ok == (is_word(w@) && w@.len() <= TAIL_SUFFIX_MAX),
    {
        let n: usize = w.len();
        if n < 1 || n > TAIL_SUFFIX_MAX {
            return false;
        }
        if w[n - 1] != TRIE_CHAR_TERM {
            return false;
        }
        let mut i: usize = 0;
        while i < n - 1
            invariant
                0 <= i <= n - 1,
                n == w@.len(),
                forall|j: int| 0 <= j < i ==> w@[j] != TRIE_CHAR_TERM,
            decreases n - i,
        {
            if w[i] == TRIE_CHAR_TERM {
                return false;
            }
            i = i + 1;
        }
        true
    }

    /// Whether the entries are a well-formed tail pool.
    pub fn check_wf(&self) -> (ok: bool)
        ensures
            ok == self.wf(),
    {
        let ghost v = self@;
        let n: usize = self.tails.len();
        if n < 1 || n > TRIE_INDEX_MAX as usize {
            return false;
        }
        if self.tails[0].suffix.is_some() || self.tails[0].data.is_some() {
            return false;
        }
        let mut last: usize = 0;
        let mut i: usize = 1;
        proof {
            assert forall|m: int| #[trigger] tail_member(v, m) && m < 1 implies m == 0 by {}
        }
        while i < n
            invariant
                v == self@,
                n == v.len(),
                1 <= i <= n <= TRIE_INDEX_MAX,
                0 <= last < i,
                v[0].suffix is None,
                v[0].data is None,
                tail_partial(v, i as int, last as int),
            decreases n - i,
        {
            match &self.tails[i].suffix {
                None => {
                    if self.tails[last].next_free != i as TrieIndex
                        || self.tails[i].data.is_some() {
                        proof {
                            if tail_wf(v) {
                                assert(tail_free(v, i as int));
                                assert(tail_member(v, i as int));
                                lemma_tail_link(v, i as int, last as int);
                            }
                        }
                        return false;
                    }
                    proof {
                        let l = last as int;
                        let k = i as int;
                        assert(tail_free(v, k));
                        assert forall|j: int| #[trigger] tail_free(v, j) && j < k + 1 implies j
                            <= k by {}
                        assert forall|m: int, j: int| #[trigger]
                            tail_member(v, m) && m < k + 1 && m != k && #[trigger] tail_free(v, j)
                                && m < j implies v[m].next_free <= j by {
                            if m == l {
                                if j < k {
                                    assert(j <= l);
                                }
                            }
                        }
                    }
                    last = i;
                },
                Some(w) => {
                    if !Self::check_word(w) {
                        proof {
                            assert(tail_used(v, i as int));
                        }
                        return false;
                    }
                    proof {
                        let k = i as int;
                        assert(tail_used(v, k));
                        assert forall|j: int| #[trigger] tail_free(v, j) && j < k + 1 implies j
                            <= last by {}
                        assert forall|m: int| #[trigger]
                            tail_member(v, m) && m < k + 1 && m != last implies tail_free_at(
                            v,
                            v[m].next_free,
                        ) && m < v[m].next_free <= last by {
                            assert(m != k);
                        }
                        assert forall|m: int| #[trigger] tail_member(v, m) && m < k + 1 implies v[m].data is None by {
                            assert(m != k);
                        }
                    }
                },
            }
            i = i + 1;
        }
        let ok = self.tails[last].next_free == 0;
        proof {
            if tail_wf(v) {
                assert forall|j: int| #[trigger] tail_free(v, j) implies j <= last by {}
                lemma_tail_end(v, last as int);
            }
            if ok {
                lemma_tail_scanned(v, last as int);
            }
        }
        ok
    }
}

impl<T> Tail<T> {
    /// Whether every entry in use has a payload.
    pub fn check_full(&self) -> (ok: bool)
        ensures
            ok == entries_full(self@),
    {
        let ghost v = self@;
        let mut i: usize = 1;
        while i < self.tails.len()
            invariant
                v == self@,
                1 <= i,
                forall|t: int| #[trigger] tail_used(v, t) && t < i ==> v[t].data is Some,
            decreases v.len() - i,
        {
            if self.tails[i].suffix.is_some() && self.tails[i].data.is_none() {
                proof {
                    assert(tail_used(v, i as int));
                }
                return false;
            }
            i = i + 1;
        }
        true
    }
}

impl<T: TrieSerializable> Tail<T> {
    /// Appends the serialized tail pool to `buf`.
    pub fn serialize(&self, buf: &mut Vec<u8>)
        requires
            self.wf(),
        ensures
            final(buf)@ == old(buf)@ + tail_bytes(self@),
    {
        let ghost v = self@;
        let n: usize = self.tails.len();
        write_u32_be(buf, TAIL_SIGNATURE);
        write_i32_be(buf, (n - 1) as i32);
        write_i32_be(buf, self.tails[0].next_free);
        let ghost head = buf@;
        let mut i: usize = 1;
        while i < n
            invariant
                v == self@,
                n == v.len(),
                tail_wf(v),
                1 <= i <= n,
                buf@ + entries_bytes(v, i as int) == head + entries_bytes(v, 1),
            decreases n - i,
        {
            let ghost before = buf@;
            write_i32_be(buf, self.tails[i].next_free);
            match &self.tails[i].suffix {
                None => {
                    write_i16_be(buf, 0);
                },
                Some(w) => {
                    proof {
                        assert(tail_used(v, i as int));
                    }
                    write_i16_be(buf, w.len() as i16);
                    let mut j: usize = 0;
                    let ghost start = buf@;
                    while j < w.len()
                        invariant
                            0 <= j <= w@.len(),
                            buf@ == start + w@.take(j as int),
                        decreases w@.len() - j,
                    {
                        buf.push(w[j]);
                        proof {
                            assert(buf@ =~= start + w@.take(j + 1));
                        }
                        j = j + 1;
                    }
                    proof {
                        assert(w@.take(j as int) =~= w@);
                    }
                    match &self.tails[i].data {
                        Some(d) => {
                            d.serialize(buf);
                        },
                        None => {},
                    }
                },
            }
            proof {
                assert(buf@ =~= before + entry_bytes(v[i as int]));
                assert(buf@ + entries_bytes(v, i + 1) =~= before + entries_bytes(v, i as int));
            }
            i = i + 1;
        }
        proof {
            assert(entries_bytes(v, n as int) =~= Seq::<u8>::empty());
            assert(buf@ =~= buf@ + entries_bytes(v, n as int));
            assert(tail_member(v, 0));
            assert(buf@ =~= old(buf)@ + tail_bytes(v));
        }
    }
}

impl<T: TrieDeserializable> Tail<T> {
    /// The number of entries behind entry 0 that the header of a
    /// serialized tail pool announces, or the reason for which the header
    /// is refused.
    pub fn entries_wanted(header: &[u8]) -> (r: Result<usize, TrieError>)
        ensures
            match spec_tail_count(header@) {
                Ok(n) => r == Ok::<usize, TrieError>(n as usize),
                Err(e) => r == Err::<usize, TrieError>(e),
            },
    {
        let len: usize = header.len();
        if len < 4 {
            return Err(TrieError::Truncated);
        }
        if read_u32_be(slice_subrange(header, 0, 4)) != TAIL_SIGNATURE {
            return Err(TrieError::InvalidSignature);
        }
        if len < 12 {
            return Err(TrieError::Truncated);
        }
        let count: i32 = read_i32_be(slice_subrange(header, 4, 8));
        if count < 0 || count >= TRIE_INDEX_MAX {
            return Err(TrieError::InvalidCount);
        }
        Ok(count as usize)
    }

    /// How many bytes more a reader needs at least before `part`, the front
    /// of one serialized entry, can be read. Nothing is wanted where `part`
    /// can be read, or is refused for another reason than its length.
    pub fn entry_bytes_wanted(part: &[u8]) -> (r: Option<usize>)
        ensures
            r is None <==> spec_read_entry::<T>(part@) != Err::<(TailEntry<T>, int), TrieError>(
                TrieError::Truncated,
            ),
            r matches Some(n) ==> n >= 1 && forall|more: Seq<u8>|
                more.len() < n ==> !(#[trigger] spec_read_entry::<T>(part@ + more) is Ok),
    {
        let len: usize = part.len();
        if len < 6 {
            return Some(6 - len);
        }
        let slen: i16 = read_i16_be(slice_subrange(part, 4, 6));
        if slen <= 0 {
            return None;
        }
        let total: usize = 6 + slen as usize;
        if len < total {
            proof {
                assert forall|more: Seq<u8>| more.len() < total - len implies !(
                #[trigger] spec_read_entry::<T>(part@ + more) is Ok) by {
                    let whole = part@ + more;
                    assert(whole.subrange(4, 6) =~= part@.subrange(4, 6));
                }
            }
            return Some(total - len);
        }
        match T::deserialize(slice_subrange(part, total, len)) {
            Err(TrieError::Truncated) => {
                proof {
                    assert(part@.skip(total as int) =~= part@.subrange(total as int, len as int));
                    assert forall|more: Seq<u8>| more.len() < 1 implies !(
                    #[trigger] spec_read_entry::<T>(part@ + more) is Ok) by {
                        assert(part@ + more =~= part@);
                    }
                }
                Some(1)
            },
            _ => {
                proof {
                    assert(part@.skip(total as int) =~= part@.subrange(total as int, len as int));
                }
                None
            },
        }
    }

    /// Reads a tail pool from the front of `bytes`, and says how many bytes
    /// it took. Entries that are no well-formed pool are refused.
    pub fn read(bytes: &[u8]) -> (r: Result<(Tail<T>, usize), TrieError>)
        ensures
            match spec_read_tail::<T>(bytes@) {
                Ok((v, n)) => r matches Ok((tail, used)) && tail@ == v && used == n && tail.wf()
                    && n <= bytes@.len(),
                Err(e) => r matches Err(err) && err == e,
            },
    {
        let blen: usize = bytes.len();
        if blen < 4 {
            return Err(TrieError::Truncated);
        }
        if read_u32_be(slice_subrange(bytes, 0, 4)) != TAIL_SIGNATURE {
            return Err(TrieError::InvalidSignature);
        }
        if blen < 12 {
            return Err(TrieError::Truncated);
        }
        let count: i32 = read_i32_be(slice_subrange(bytes, 4, 8));
        let first_free: i32 = read_i32_be(slice_subrange(bytes, 8, 12));
        if count < 0 || count >= TRIE_INDEX_MAX {
            return Err(TrieError::InvalidCount);
        }
        let mut tails: Vec<TailBlock<T>> = Vec::new();
        tails.push(TailBlock { next_free: first_free, suffix: None, data: None });
        let mut pos: usize = 12;
        let ghost first = seq![
            TailEntry::<T> { next_free: first_free as int, suffix: None, data: None },
        ];
        let mut k: usize = 0;
        assert(Seq::new(tails@.len(), |i: int| tails@[i].entry()) =~= first);
        while k < count as usize
            invariant
                0 <= k <= count < TRIE_INDEX_MAX,
                blen == bytes@.len(),
                12 <= pos <= blen,
                tails@.len() == k + 1,
                u32_value(bytes@.subrange(0, 4)) == TAIL_SIGNATURE,
                count == i32_value(bytes@.subrange(4, 8)),
                first_free == i32_value(bytes@.subrange(8, 12)),
                first == seq![
                    TailEntry::<T> { next_free: first_free as int, suffix: None, data: None },
                ],
                spec_read_entries::<T>(bytes@, count as int, first, 12) == spec_read_entries::<T>(
                    bytes@,
                    count as int,
                    Seq::new(tails@.len(), |i: int| tails@[i].entry()),
                    pos as int,
                ),
            decreases count - k,
        {
            let ghost acc = Seq::new(tails@.len(), |i: int| tails@[i].entry());
            let ghost here = bytes@.skip(pos as int);
            proof {
                assert(acc.len() == k + 1);
                assert(spec_read_entries::<T>(bytes@, count as int, acc, pos as int) == (
                match spec_read_entry::<T>(here) {
                    Err(e) => Err(e),
                    Ok((e, n)) => spec_read_entries::<T>(
                        bytes@,
                        count as int,
                        acc.push(e),
                        pos + n,
                    ),
                }));
            }
            if blen - pos < 6 {
                return Err(TrieError::Truncated);
            }
            let next_free: i32 = read_i32_be(slice_subrange(bytes, pos, pos + 4));
            let len: i16 = read_i16_be(slice_subrange(bytes, pos + 4, pos + 6));
            proof {
                assert(bytes@.subrange(pos as int, pos + 4) =~= here.subrange(0, 4));
                assert(bytes@.subrange(pos + 4, pos + 6) =~= here.subrange(4, 6));
            }
            if len < 0 {
                return Err(TrieError::InvalidCount);
            }
            let block: TailBlock<T>;
            let used: usize;
            if len == 0 {
                block = TailBlock { next_free, suffix: None, data: None };
                used = 6;
            } else {
                let slen: usize = len as usize;
                if blen - pos - 6 < slen {
                    return Err(TrieError::Truncated);
                }
                let suffix: Vec<TrieChar> = slice_to_vec(
                    slice_subrange(bytes, pos + 6, pos + 6 + slen),
                );
                proof {
                    assert(bytes@.subrange(pos + 6, pos + 6 + slen) =~= here.subrange(
                        6,
                        6 + slen as int,
                    ));
                    assert(bytes@.subrange(pos + 6 + slen, blen as int) =~= here.skip(
                        6 + slen as int,
                    ));
                }
                match T::deserialize(slice_subrange(bytes, pos + 6 + slen, blen)) {
                    Err(e) => {
                        return Err(e);
                    },
                    Ok((d, n)) => {
                        block = TailBlock { next_free, suffix: Some(suffix), data: Some(d) };
                        used = 6 + slen + n;
                    },
                }
            }
            proof {
                assert(spec_read_entry::<T>(here) == Ok::<(TailEntry<T>, int), TrieError>(
                    (block.entry(), used as int),
                ));
            }
            tails.push(block);
            proof {
                assert(Seq::new(tails@.len(), |i: int| tails@[i].entry()) =~= acc.push(
                    block.entry(),
                ));
            }
            pos = pos + used;
            k = k + 1;
        }
        let tail = Tail { tails };
        proof {
            assert(tail@ =~= Seq::new(tail.tails@.len(), |i: int| tail.tails@[i].entry()));
        }
        if !tail.check_wf() {
            return Err(TrieError::InvalidStructure);
        }
        Ok((tail, pos))
    }
}

impl<T> Default for Tail<T> {
    /// A pool without entries: only the head of the list of unused entries.
    fn default() -> (r: Self)
        ensures
            r.wf(),
            r@ == seq![TailEntry::<T> { next_free: 0, suffix: None, data: None }],
    {
        Tail::new()
    }
}

} // verus!
