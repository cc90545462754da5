//! Record identifiers and the generator that derives them from a 64-bit seed.
//!
//! An identifier is an opaque printable token. The generator is a pure function
//! of its seed: it reads no clock and keeps no state, so the caller decides where
//! the seed comes from (typically a nanosecond timestamp). Equal seeds give equal
//! tokens, and nothing here detects or prevents that; different seeds give
//! different tokens.

use crate::text_order::{compare_bytes, place, Place};
use std::cmp::Ordering;
use vstd::prelude::*;
use vstd::std_specs::cmp::PartialEqSpecImpl;
use vstd::std_specs::cmp::PartialOrdSpecImpl;
use vstd::std_specs::convert::FromSpecImpl;
use vstd::utf8::{encode_utf8, encode_utf8_decode_utf8};

verus! {

/// The identifier alphabet: upper-case letters, lower-case letters, digits.
pub const ALPHABET: &'static str =
    "ABCDEFGHIJKLMNOPQRSTUVWXYZabcdefghijklmnopqrstuvwxyz0123456789";

/// Number of symbols in the alphabet. Every generated token has exactly this
/// many characters.
pub const ALPHABET_LEN: usize = 62;

/// The symbols of the alphabet, in order.
pub open spec fn alphabet() -> Seq<char> {
    ALPHABET@
}

/// Position in the alphabet of the symbol that stands at position `i` of the
/// token for `seed`: the low eight bits of `seed` shifted right by
/// `(2 * i) mod 64`, reduced modulo the alphabet size.
pub open spec fn symbol_index(seed: u64, i: int) -> int {
    (((seed >> (((i * 2) % 64) as u64)) & 0xff) % 62) as int
}

/// The token for `seed`.
pub open spec fn token(seed: u64) -> Seq<char> {
    Seq::new(ALPHABET_LEN as nat, |i: int| alphabet()[symbol_index(seed, i)])
}

/// An opaque token naming one record.
///
/// Identifiers compare, order and hash as their text does: two are equal when
/// their texts are, and one comes before another when its text does, byte by
/// byte in UTF-8. The text is fixed at construction.
#[derive(Debug, Eq, Ord, Hash)]
pub struct Id(String);

impl View for Id {
    type V = Seq<char>;

    closed spec fn view(&self) -> Seq<char> {
        self.0@
    }
}

impl DeepView for Id {
    type V = Seq<char>;

    open spec fn deep_view(&self) -> Seq<char> {
        self@
    }
}

impl Id {
    /// Generates the identifier for `seed`.
    pub fn new(seed: u64) -> (id: Id)
        ensures
            id@ == token(seed),
    {
        Id(Self::new_uuid(seed))
    }

    /// Builds the token text for `seed`, one alphabet symbol per position.
    fn new_uuid(seed: u64) -> (text: String)
        ensures
            text@ == token(seed),
    {
        proof {
            lemma_alphabet();
        }
        let mut text = String::new();
        let mut i: usize = 0;
        while i < ALPHABET_LEN
            invariant
                i <= ALPHABET_LEN,
                ALPHABET@.len() == ALPHABET_LEN,
                ALPHABET.is_ascii(),
                text@.len() == i,
                forall|j: int| 0 <= j < i ==> text@[j] == alphabet()[symbol_index(seed, j)],
            decreases ALPHABET_LEN - i,
        {
            let shift: u64 = ((i * 2) % 64) as u64;
            let byte: u64 = (seed >> shift) & 0xff;
            assert(byte < 256) by (bit_vector)
                requires
                    byte == (seed >> shift) & 0xff,
            ;
            let idx: usize = (byte % 62) as usize;
            text.append(ALPHABET.substring_ascii(idx, idx + 1));
            i = i + 1;
        }
        text
    }

    /// The identifier's text.
    pub fn as_str(&self) -> (text: &str)
        ensures
            text@ == self@,
    {
        self.0.as_str()
    }

    /// An owned copy of the identifier's text.
    pub fn to_string(&self) -> (text: String)
        ensures
            text@ == self@,
    {
        self.0.clone()
    }
}

impl Clone for Id {
    fn clone(&self) -> (copy: Id)
        ensures
            copy@ == self@,
    {
        Id(self.0.clone())
    }
}

impl PartialEq for Id {
    fn eq(&self, other: &Id) -> (equal: bool) {
        self.0 == other.0
    }
}

impl PartialEqSpecImpl for Id {
    open spec fn obeys_eq_spec() -> bool {
        true
    }

    /// Two identifiers are equal when their texts are.
    open spec fn eq_spec(&self, other: &Id) -> bool {
        self@ == other@
    }
}

impl PartialOrd for Id {
    fn partial_cmp(&self, other: &Id) -> (order: Option<Ordering>) {
        match compare_bytes(self.0.as_str().as_bytes(), other.0.as_str().as_bytes()) {
            Place::Before => Some(Ordering::Less),
            Place::Same => Some(Ordering::Equal),
            Place::After => Some(Ordering::Greater),
        }
    }
}

impl PartialOrdSpecImpl for Id {
    open spec fn obeys_partial_cmp_spec() -> bool {
        true
    }

    /// Identifiers are ordered as the UTF-8 encodings of their texts are, byte
    /// by byte.
    open spec fn partial_cmp_spec(&self, other: &Id) -> Option<Ordering> {
        match place(encode_utf8(self@), encode_utf8(other@)) {
            Place::Before => Some(Ordering::Less),
            Place::Same => Some(Ordering::Equal),
            Place::After => Some(Ordering::Greater),
        }
    }
}

impl From<String> for Id {
    /// The identifier with the given text, whatever it is.
    fn from(text: String) -> (id: Id)
        ensures
            id@ == text@,
    {
        Id(text)
    }
}

impl FromSpecImpl<String> for Id {
    open spec fn obeys_from_spec() -> bool {
        true
    }

    closed spec fn from_spec(text: String) -> Id {
        Id(text)
    }
}

/// Two texts stand at the same place in the order of identifiers exactly when
/// they are equal.
pub proof fn lemma_same_place_same_text(a: Seq<char>, b: Seq<char>)
    ensures
        place(encode_utf8(a), encode_utf8(b)) == Place::Same <==> a == b,
{
    encode_utf8_decode_utf8(a);
    encode_utf8_decode_utf8(b);
}

/// Every token has the length of the alphabet and is made of its symbols.
pub proof fn lemma_token_shape(seed: u64)
    ensures
        token(seed).len() == ALPHABET_LEN,
        forall|i: int| 0 <= i < ALPHABET_LEN ==> alphabet().contains(#[trigger] token(seed)[i]),
{
    lemma_alphabet();
    assert forall|i: int| 0 <= i < ALPHABET_LEN implies alphabet().contains(
        #[trigger] token(seed)[i],
    ) by {
        let at = symbol_index(seed, i);
        assert(alphabet()[at] == token(seed)[i]);
    }
}

/// Different seeds give different tokens: a token determines its seed.
pub proof fn lemma_token_injective(a: u64, b: u64)
    requires
        token(a) == token(b),
    ensures
        a == b,
{
    lemma_alphabet();
    assert forall|i: int| 0 <= i <= 31 implies symbol_index(a, i) == symbol_index(b, i) by {
        let x = symbol_index(a, i);
        let y = symbol_index(b, i);
        assert(token(a)[i] == alphabet()[x]);
        assert(token(b)[i] == alphabet()[y]);
    }
    lemma_shifted_equal(a, b, 0);
    assert(a >> 0u64 == a) by (bit_vector);
    assert(b >> 0u64 == b) by (bit_vector);
}

/// The alphabet has 62 symbols, all of them ASCII, and none of them twice.
proof fn lemma_alphabet()
    ensures
        alphabet().len() == ALPHABET_LEN,
        ALPHABET.is_ascii(),
        forall|i: int, j: int|
            0 <= i < 62 && 0 <= j < 62 && alphabet()[i] == alphabet()[j] ==> i == j,
{
    reveal_strlit("ABCDEFGHIJKLMNOPQRSTUVWXYZabcdefghijklmnopqrstuvwxyz0123456789");
}

/// Two seeds that agree from bit `k + 2` and give the same symbol for the
/// eight bits from bit `k` agree from bit `k`.
proof fn lemma_window_step(a: u64, b: u64, k: u64)
    by (bit_vector)
    requires
        k <= 60,
        (a >> ((k + 2) as u64)) == (b >> ((k + 2) as u64)),
        ((a >> k) & 0xff) % 62 == ((b >> k) & 0xff) % 62,
    ensures
        (a >> k) == (b >> k),
{
}

/// Two seeds that give the same symbol for their two highest bits agree there.
proof fn lemma_window_top(a: u64, b: u64)
    by (bit_vector)
    requires
        ((a >> 62u64) & 0xff) % 62 == ((b >> 62u64) & 0xff) % 62,
    ensures
        (a >> 62u64) == (b >> 62u64),
{
}

/// Two seeds that give the same symbols at positions `i` to 31 agree from bit
/// `2 * i`.
proof fn lemma_shifted_equal(a: u64, b: u64, i: int)
    requires
        0 <= i <= 31,
        forall|j: int| i <= j <= 31 ==> symbol_index(a, j) == symbol_index(b, j),
    ensures
        a >> ((2 * i) as u64) == b >> ((2 * i) as u64),
    decreases 31 - i,
{
    assert(symbol_index(a, i) == symbol_index(b, i));
    if i == 31 {
        lemma_window_top(a, b);
    } else {
        lemma_shifted_equal(a, b, i + 1);
        lemma_window_step(a, b, (2 * i) as u64);
    }
}

} // verus!
