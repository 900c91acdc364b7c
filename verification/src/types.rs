//! Scalar types and sentinels shared by every component of the trie.

use crate::codec::{i32_bytes, i32_value, lemma_i32_round_trip, read_i32_be, write_i32_be};
use vstd::prelude::*;
use vstd::slice::slice_subrange;
use vstd::string::StrSliceExecFns;

verus! {

/// Index of a cell in the double array, or of an entry in the tail pool.
pub type TrieIndex = i32;

/// Largest index a cell can have.
pub const TRIE_INDEX_MAX: TrieIndex = 0x7fffffff;

/// The index that stands for "no cell".
pub const TRIE_INDEX_ERROR: TrieIndex = 0;

/// A character of the user's alphabet.
pub type AlphaChar = u32;

/// The character that stands for "not in the alphabet".
pub const ALPHA_CHAR_ERROR: AlphaChar = 0xffffffff;

/// A packed symbol, as it labels the edges of the trie.
pub type TrieChar = u8;

/// The symbol that ends every stored key.
pub const TRIE_CHAR_TERM: TrieChar = 0;

/// Largest packed symbol.
pub const TRIE_CHAR_MAX: TrieChar = 255;

/// Why a trie, or a part of one, was refused.
#[derive(Debug, Clone, Copy, PartialEq, Eq, Structural)]
pub enum TrieError {
    /// The bytes end before the section does.
    Truncated,
    /// A section does not start with its signature.
    InvalidSignature,
    /// A range starts after its end.
    InvalidRange,
    /// A range, or the alphabet with it, holds more characters than there
    /// are packed symbols.
    RangeTooLarge,
    /// A range holds `ALPHA_CHAR_ERROR`.
    RangeIncludesError,
    /// A count in a header is negative or beyond what can be indexed.
    InvalidCount,
    /// The cells or the tail entries break an invariant of the structure.
    InvalidStructure,
}

/// A string that can be written as a key: its characters, then 0.
pub trait AsAlphaChar {
    /// The key that the string spells.
    spec fn spec_as_alphachar(&self) -> Seq<AlphaChar>;

    /// The characters of the string and a 0 after them.
    fn as_alphachar(&self) -> (r: Vec<AlphaChar>)
        ensures
            r@ == self.spec_as_alphachar(),
    ;
}

impl AsAlphaChar for &str {
    open spec fn spec_as_alphachar(&self) -> Seq<AlphaChar> {
        Seq::new(self@.len(), |i: int| self@[i] as AlphaChar).push(0)
    }

    fn as_alphachar(&self) -> (r: Vec<AlphaChar>) {
        let n: usize = self.unicode_len();
        let mut out: Vec<AlphaChar> = Vec::new();
        let mut i: usize = 0;
        while i < n
            invariant
                0 <= i <= n,
                n == self@.len(),
                out@ == Seq::new(i as nat, |j: int| self@[j] as AlphaChar),
            decreases n - i,
        {
            let c: char = self.get_char(i);
            out.push(c as AlphaChar);
            proof {
                assert(out@ =~= Seq::new((i + 1) as nat, |j: int| self@[j] as AlphaChar));
            }
            i = i + 1;
        }
        out.push(0);
        out
    }
}

/// Whether `v` is the number of a character: a Unicode scalar value.
pub open spec fn is_scalar_value(v: u32) -> bool {
    v <= 0xD7FF || (0xE000 <= v <= 0x10FFFF)
}

/// Where the string in `text` ends: at its first 0, or where `text` ends.
pub open spec fn text_len(text: Seq<AlphaChar>) -> int
    decreases text.len(),
{
    if text.len() == 0 {
        0
    } else if text[0] == 0 {
        0
    } else {
        1 + text_len(text.drop_first())
    }
}

/// `text_len` points at the first 0.
pub proof fn lemma_text_len(text: Seq<AlphaChar>)
    ensures
        0 <= text_len(text) <= text.len(),
        forall|i: int| 0 <= i < text_len(text) ==> text[i] != 0,
        text_len(text) < text.len() ==> text[text_len(text)] == 0,
    decreases text.len(),
{
    if text.len() > 0 && text[0] != 0 {
        let r = text.drop_first();
        lemma_text_len(r);
        assert forall|i: int| 0 <= i < text_len(text) implies text[i] != 0 by {
            if i > 0 {
                assert(text[i] == r[i - 1]);
            }
        }
        if text_len(text) < text.len() {
            assert(text[text_len(text)] == r[text_len(r)]);
        }
    }
}

/// Makes a `char` of a number with `char::from_u32` of the standard
/// library. The contract claims what its documentation says: the result is
/// the character with that number if the number is a Unicode scalar value,
/// and nothing otherwise.
#[verifier::external_body]
fn char_from_u32(v: u32) -> (r: Option<char>)
    ensures
        match r {
            Some(c) => is_scalar_value(v) && c as u32 == v && c == v as char,
            None => !is_scalar_value(v),
        },
{
    char::from_u32(v)
}

/// Appends a character to a string with `String::push` of the standard
/// library. The contract claims that the string is then the old string
/// with the character after it.
#[verifier::external_body]
fn string_push(s: &mut String, c: char)
    ensures
        final(s)@ == old(s)@.push(c),
{
    s.push(c)
}

/// A key that can be written as a string.
pub trait AlphaCharToString {
    /// The string that the key spells, if it spells one.
    spec fn spec_ac_to_string(&self) -> Option<Seq<char>>;

    /// The key as a string: its characters up to the first 0. There is none
    /// if one of them is `ALPHA_CHAR_ERROR` or not the number of a
    /// character.
    fn ac_to_string(&self) -> (r: Option<String>)
        ensures
            match self.spec_ac_to_string() {
                Some(t) => r matches Some(out) && out@ == t,
                None => r is None,
            },
    ;
}

impl AlphaCharToString for &[AlphaChar] {
    open spec fn spec_ac_to_string(&self) -> Option<Seq<char>> {
        if forall|i: int| 0 <= i < text_len(self@) ==> is_scalar_value(#[trigger] self@[i]) {
            Some(Seq::new(text_len(self@) as nat, |i: int| self@[i] as char))
        } else {
            None
        }
    }

    fn ac_to_string(&self) -> (r: Option<String>) {
        let mut out = String::new();
        let mut i: usize = 0;
        proof {
            lemma_text_len(self@);
        }
        while i < self.len() && self[i] != 0
            invariant
                0 <= i <= text_len(self@) <= self@.len(),
                forall|j: int| 0 <= j < text_len(self@) ==> self@[j] != 0,
                text_len(self@) < self@.len() ==> self@[text_len(self@)] == 0,
                forall|j: int| 0 <= j < i ==> is_scalar_value(#[trigger] self@[j]),
                out@ == Seq::new(i as nat, |j: int| self@[j] as char),
            decreases self@.len() - i,
        {
            let v: AlphaChar = self[i];
            if v == ALPHA_CHAR_ERROR {
                return None;
            }
            match char_from_u32(v) {
                None => {
                    return None;
                },
                Some(c) => {
                    string_push(&mut out, c);
                    proof {
                        assert(c == v as char);
                        assert(out@ =~= Seq::new((i + 1) as nat, |j: int| self@[j] as char));
                    }
                },
            }
            i = i + 1;
        }
        Some(out)
    }
}

/// A payload that can be written into the binary form of a trie.
pub trait TrieSerializable: Sized {
    /// The bytes that the payload is written as.
    spec fn spec_serialize(&self) -> Seq<u8>;

    /// Appends the payload to `buf`.
    fn serialize(&self, buf: &mut Vec<u8>)
        ensures
            final(buf)@ == old(buf)@ + self.spec_serialize(),
    ;

    /// The number of bytes that `serialize` appends.
    fn serialized_size(&self) -> (n: usize)
        ensures
            n == self.spec_serialize().len(),
    ;
}

/// A payload that can be read from the binary form of a trie.
pub trait TrieDeserializable: Sized {
    /// The payload at the front of `bytes` and the number of bytes it
    /// takes, or the reason for which it is refused.
    spec fn spec_deserialize(bytes: Seq<u8>) -> Result<(Self, int), TrieError>;

    /// Reads a payload from the front of `bytes`, and says how many bytes
    /// it took.
    fn deserialize(bytes: &[u8]) -> (r: Result<(Self, usize), TrieError>)
        ensures
            match Self::spec_deserialize(bytes@) {
                Ok((v, n)) => r matches Ok((out, used)) && out == v && used == n && n
                    <= bytes@.len(),
                Err(e) => r matches Err(err) && err == e,
            },
    ;
}

impl TrieSerializable for i32 {
    open spec fn spec_serialize(&self) -> Seq<u8> {
        i32_bytes(*self)
    }

    fn serialize(&self, buf: &mut Vec<u8>) {
        write_i32_be(buf, *self);
    }

    fn serialized_size(&self) -> (n: usize) {
        4
    }
}

impl TrieDeserializable for i32 {
    open spec fn spec_deserialize(bytes: Seq<u8>) -> Result<(Self, int), TrieError> {
        if bytes.len() < 4 {
            Err(TrieError::Truncated)
        } else {
            Ok((i32_value(bytes.subrange(0, 4)), 4))
        }
    }

    fn deserialize(bytes: &[u8]) -> (r: Result<(Self, usize), TrieError>) {
        if bytes.len() < 4 {
            return Err(TrieError::Truncated);
        }
        Ok((read_i32_be(slice_subrange(bytes, 0, 4)), 4))
    }
}

/// Whether reading undoes writing for the payloads of a type: what a
/// payload was written as is read as that payload, whatever follows.
pub open spec fn payload_round_trips<T: TrieSerializable + TrieDeserializable>() -> bool {
    forall|v: T, rest: Seq<u8>|
        #[trigger] T::spec_deserialize(v.spec_serialize() + rest) == Ok::<(T, int), TrieError>(
            (v, v.spec_serialize().len() as int),
        )
}

/// Reading undoes writing for 32-bit integers.
pub proof fn lemma_i32_payload_round_trips()
    ensures
        payload_round_trips::<i32>(),
{
    assert forall|v: i32, rest: Seq<u8>|
        #[trigger] <i32 as TrieDeserializable>::spec_deserialize(v.spec_serialize() + rest) == Ok::<
            (i32, int),
            TrieError,
        >((v, v.spec_serialize().len() as int)) by {
        lemma_i32_round_trip(v, Seq::empty());
        assert((v.spec_serialize() + rest).subrange(0, 4) =~= i32_bytes(v) + Seq::<u8>::empty());
    }
}

} // verus!
