//! The keyed hasher of the `ahash` crate, and the items that it can hash.

use ahash::RandomState;
use vstd::bytes::{spec_u64_to_le_bytes, spec_u64_to_le_bytes_to_open};
use vstd::prelude::*;
use vstd::utf8::encode_utf8;

verus! {

/// `ahash::RandomState`: the four keys of a hasher. Its content is opaque here.
#[verifier::external_type_specification]
#[verifier::external_body]
pub struct ExRandomState(RandomState);

/// What `RandomState::hash_one` gives for a byte slice. The value rests on the
/// keys in the state, the bytes, and the algorithm that `ahash` was built with;
/// it is not fixed across builds of `ahash`.
pub uninterp spec fn hash_of(state: RandomState, data: Seq<u8>) -> u64;

/// The state that `RandomState::with_seeds` makes of four seeds.
pub uninterp spec fn seeded_state(k0: u64, k1: u64, k2: u64, k3: u64) -> RandomState;

/// Calls `RandomState::hash_one` on a byte slice. Trusted: the same state gives
/// the same bytes the same hash every time.
#[verifier::external_body]
pub(crate) fn hash_bytes(state: &RandomState, data: &[u8]) -> (hash: u64)
    ensures
        hash == hash_of(*state, data@),
{
    state.hash_one(data)
}

/// Calls `RandomState::with_seeds`. Trusted: the state is a function of the four
/// seeds, each of which it combines with a fixed constant.
#[verifier::external_body]
pub(crate) fn state_with_seeds(k0: u64, k1: u64, k2: u64, k3: u64) -> (state: RandomState)
    ensures
        state == seeded_state(k0, k1, k2, k3),
{
    RandomState::with_seeds(k0, k1, k2, k3)
}

/// Calls `RandomState::new`, which draws fresh random keys. Nothing is claimed
/// of the keys. The call takes no argument; it panics only where the operating
/// system cannot supply random bytes.
#[verifier::external_body]
pub(crate) fn fresh_state() -> RandomState {
    RandomState::new()
}

/// `RandomState` derives `Clone`: a copy has the same four keys.
pub assume_specification[ <RandomState as Clone>::clone ](state: &RandomState) -> (copy: RandomState)
    ensures
        copy == *state,
;

/// The bytes that tell an item apart from others of its kind.
pub type ItemKey = Seq<u8>;

/// Something that a queue can track. Two items are the same exactly when their
/// keys are, and equal keys hash alike.
pub trait Item {
    /// The key of the item. Ghost: it is never run, and an implementation in
    /// ordinary Rust may give it any body.
    spec fn key(&self) -> ItemKey;

    /// The hash of the item's key under `state`.
    fn hash_with(&self, state: &RandomState) -> (hash: u64)
        ensures
            hash == hash_of(*state, self.key()),
    ;
}

/// An item that can be looked up by a value of type `Q`, often its borrowed form.
pub trait Matches<Q: Item + ?Sized>: Item {
    /// Whether `other` has the same key as this item.
    fn matches(&self, other: &Q) -> (same: bool)
        ensures
            same == (self.key() == other.key()),
    ;
}

/// Whether two byte slices hold the same bytes.
pub(crate) fn bytes_equal(a: &[u8], b: &[u8]) -> (same: bool)
    ensures
        same == (a@ == b@),
{
    if a.len() != b.len() {
        return false;
    }
    let mut i: usize = 0;
    while i < a.len()
        invariant
            a@.len() == b@.len(),
            i <= a@.len(),
            forall|j: int| 0 <= j < i ==> a@[j] == b@[j],
        decreases a@.len() - i,
    {
        if a[i] != b[i] {
            return false;
        }
        i += 1;
    }
    assert(a@ =~= b@);
    true
}

impl Item for [u8] {
    open spec fn key(&self) -> Seq<u8> {
        self@
    }

    fn hash_with(&self, state: &RandomState) -> (hash: u64) {
        hash_bytes(state, self)
    }
}

impl Item for Vec<u8> {
    open spec fn key(&self) -> Seq<u8> {
        self@
    }

    fn hash_with(&self, state: &RandomState) -> (hash: u64) {
        hash_bytes(state, self.as_slice())
    }
}

impl Matches<[u8]> for Vec<u8> {
    fn matches(&self, other: &[u8]) -> (same: bool) {
        bytes_equal(self.as_slice(), other)
    }
}

impl Matches<Vec<u8>> for Vec<u8> {
    fn matches(&self, other: &Vec<u8>) -> (same: bool) {
        bytes_equal(self.as_slice(), other.as_slice())
    }
}

impl Item for str {
    open spec fn key(&self) -> Seq<u8> {
        encode_utf8(self@)
    }

    fn hash_with(&self, state: &RandomState) -> (hash: u64) {
        hash_bytes(state, self.as_bytes())
    }
}

impl<'a> Item for &'a str {
    open spec fn key(&self) -> Seq<u8> {
        encode_utf8(self@)
    }

    fn hash_with(&self, state: &RandomState) -> (hash: u64) {
        hash_bytes(state, self.as_bytes())
    }
}

impl<'a> Matches<str> for &'a str {
    fn matches(&self, other: &str) -> (same: bool) {
        bytes_equal(self.as_bytes(), other.as_bytes())
    }
}

impl<'a> Matches<&'a str> for &'a str {
    fn matches(&self, other: &&'a str) -> (same: bool) {
        bytes_equal(self.as_bytes(), other.as_bytes())
    }
}

impl Item for String {
    open spec fn key(&self) -> Seq<u8> {
        encode_utf8(self@)
    }

    fn hash_with(&self, state: &RandomState) -> (hash: u64) {
        hash_bytes(state, self.as_str().as_bytes())
    }
}

impl Matches<str> for String {
    fn matches(&self, other: &str) -> (same: bool) {
        bytes_equal(self.as_str().as_bytes(), other.as_bytes())
    }
}

impl Matches<String> for String {
    fn matches(&self, other: &String) -> (same: bool) {
        bytes_equal(self.as_str().as_bytes(), other.as_str().as_bytes())
    }
}

impl Item for u64 {
    open spec fn key(&self) -> Seq<u8> {
        spec_u64_to_le_bytes(*self)
    }

    fn hash_with(&self, state: &RandomState) -> (hash: u64) {
        let x: u64 = *self;
        let bytes: [u8; 8] = [
            (x & 0xff) as u8,
            ((x >> 8) & 0xff) as u8,
            ((x >> 16) & 0xff) as u8,
            ((x >> 24) & 0xff) as u8,
            ((x >> 32) & 0xff) as u8,
            ((x >> 40) & 0xff) as u8,
            ((x >> 48) & 0xff) as u8,
            ((x >> 56) & 0xff) as u8,
        ];
        proof {
            spec_u64_to_le_bytes_to_open(x);
            assert(bytes@ =~= spec_u64_to_le_bytes(x));
        }
        hash_bytes(state, bytes.as_slice())
    }
}

impl Matches<u64> for u64 {
    fn matches(&self, other: &u64) -> (same: bool) {
        proof {
            vstd::bytes::lemma_auto_spec_u64_to_from_le_bytes();
        }
        *self == *other
    }
}

/// Texts are the same item exactly when they hold the same characters.
pub proof fn law_text_keys(a: Seq<char>, b: Seq<char>)
    ensures
        encode_utf8(a) == encode_utf8(b) <==> a == b,
{
    vstd::utf8::encode_utf8_decode_utf8(a);
    vstd::utf8::encode_utf8_decode_utf8(b);
}

/// Numbers are the same item exactly when they are equal.
pub proof fn law_number_keys(a: u64, b: u64)
    ensures
        a.key() == b.key() <==> a == b,
{
    vstd::bytes::lemma_auto_spec_u64_to_from_le_bytes();
}

/// Byte strings are the same item exactly when they hold the same bytes, all of
/// them, owned or borrowed.
pub proof fn law_byte_keys(a: &[u8], b: &[u8], v: Vec<u8>, w: Vec<u8>)
    ensures
        a.key() == b.key() <==> a@ == b@,
        v.key() == w.key() <==> v@ == w@,
        v.key() == a.key() <==> v@ == a@,
{
}

/// Texts are the same item exactly when they hold the same characters, all of them,
/// owned or borrowed.
pub proof fn law_text_items(a: &str, b: &str, s: String, t: String)
    ensures
        <str as Item>::key(a) == <str as Item>::key(b) <==> a@ == b@,
        <&str as Item>::key(&a) == <&str as Item>::key(&b) <==> a@ == b@,
        <&str as Item>::key(&a) == <str as Item>::key(b) <==> a@ == b@,
        s.key() == t.key() <==> s@ == t@,
        s.key() == <str as Item>::key(a) <==> s@ == a@,
{
    law_text_keys(a@, b@);
    law_text_keys(s@, t@);
    law_text_keys(s@, a@);
}

}
