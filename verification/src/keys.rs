//! The key capability: hashing and equality.
//!
//! A key type carries a mathematical model (`Model`), an executable equality
//! test that decides equality of models, and a deterministic hash.  The one
//! law the container needs is that keys with equal models hash equally, so
//! that a key can always be found in the bucket its hash points to.

use vstd::prelude::*;
use vstd::string::StringSliceAdditionalSpecFns;

verus! {

/// Offset basis of the 64-bit FNV-1a hash.
pub const FNV_OFFSET: u64 = 0xcbf29ce484222325;

/// Multiplier of the 64-bit FNV-1a hash.
pub const FNV_PRIME: u64 = 0x100000001b3;

/// The 64-bit FNV-1a hash of a byte sequence.
pub open spec fn fnv1a(bytes: Seq<u8>) -> u64
    decreases bytes.len(),
{
    if bytes.len() == 0 {
        FNV_OFFSET
    } else {
        (fnv1a(bytes.drop_last()) ^ (bytes.last() as u64)).wrapping_mul(FNV_PRIME)
    }
}

/// Computes the 64-bit FNV-1a hash of a byte slice.
fn fnv1a_bytes(bytes: &[u8]) -> (h: u64)
    ensures
        h == fnv1a(bytes@),
{
    let mut h: u64 = FNV_OFFSET;
    let mut i: usize = 0;
    while i < bytes.len()
        invariant
            i <= bytes@.len(),
            h == fnv1a(bytes@.take(i as int)),
        decreases bytes@.len() - i,
    {
        proof {
            assert(bytes@.take(i + 1).drop_last() =~= bytes@.take(i as int));
            assert(bytes@.take(i + 1).last() == bytes@[i as int]);
        }
        h = (h ^ (bytes[i] as u64)).wrapping_mul(FNV_PRIME);
        i = i + 1;
    }
    proof {
        assert(bytes@.take(bytes@.len() as int) =~= bytes@);
    }
    h
}

/// What the container requires of a key type: a mathematical model,
/// an equality test deciding equality of models, and a hash that is a
/// function of the model.
pub trait HashKey: Sized {
    /// The mathematical value a key stands for; two keys are "the same key"
    /// exactly when their models are equal.
    type Model;

    /// The model of this key value.
    spec fn model(&self) -> Self::Model;

    /// The hash of this key value, as specification-level data.
    spec fn key_hash(&self) -> u64;

    /// Keys with equal models hash equally.
    proof fn lemma_model_determines_hash(&self, other: &Self)
        ensures
            self.model() == other.model() ==> self.key_hash() == other.key_hash(),
    ;

    /// Computes the hash.
    fn hash_code(&self) -> (h: u64)
        ensures
            h == self.key_hash(),
    ;

    /// Decides whether two keys have the same model.
    fn key_eq(&self, other: &Self) -> (r: bool)
        ensures
            r == (self.model() == other.model()),
    ;
}

impl HashKey for u64 {
    type Model = u64;

    open spec fn model(&self) -> u64 {
        *self
    }

    open spec fn key_hash(&self) -> u64 {
        *self
    }

    proof fn lemma_model_determines_hash(&self, other: &Self) {
    }

    fn hash_code(&self) -> u64 {
        *self
    }

    fn key_eq(&self, other: &Self) -> bool {
        *self == *other
    }
}

impl HashKey for usize {
    type Model = usize;

    open spec fn model(&self) -> usize {
        *self
    }

    open spec fn key_hash(&self) -> u64 {
        *self as u64
    }

    proof fn lemma_model_determines_hash(&self, other: &Self) {
    }

    fn hash_code(&self) -> u64 {
        *self as u64
    }

    fn key_eq(&self, other: &Self) -> bool {
        *self == *other
    }
}

/// The 64-bit FNV-1a hash of a character sequence, folding in each
/// character's code point.
pub open spec fn fnv1a_of_chars(s: Seq<char>) -> u64
    decreases s.len(),
{
    if s.len() == 0 {
        FNV_OFFSET
    } else {
        (fnv1a_of_chars(s.drop_last()) ^ (s.last() as u64)).wrapping_mul(FNV_PRIME)
    }
}

/// Computes the 64-bit FNV-1a hash of a string's characters.
fn fnv1a_chars(s: &str) -> (h: u64)
    ensures
        h == fnv1a_of_chars(s@),
{
    let n = s.unicode_len();
    let mut h: u64 = FNV_OFFSET;
    let mut i: usize = 0;
    while i < n
        invariant
            n == s@.len(),
            i <= n,
            h == fnv1a_of_chars(s@.take(i as int)),
        decreases n - i,
    {
        proof {
            assert(s@.take(i + 1).drop_last() =~= s@.take(i as int));
            assert(s@.take(i + 1).last() == s@[i as int]);
        }
        let c = s.get_char(i);
        h = (h ^ (c as u64)).wrapping_mul(FNV_PRIME);
        i = i + 1;
    }
    proof {
        assert(s@.take(s@.len() as int) =~= s@);
    }
    h
}

impl HashKey for String {
    /// An owned string key is modelled by its character sequence.
    type Model = Seq<char>;

    open spec fn model(&self) -> Seq<char> {
        self@
    }

    open spec fn key_hash(&self) -> u64 {
        fnv1a_of_chars(self@)
    }

    proof fn lemma_model_determines_hash(&self, other: &Self) {
    }

    fn hash_code(&self) -> u64 {
        fnv1a_chars(self.as_str())
    }

    fn key_eq(&self, other: &Self) -> bool {
        self.eq(other)
    }
}

/// Decides equality of two string slices.
///
/// Relies on `str`'s `PartialEq`: two string slices compare equal exactly
/// when their underlying UTF-8 byte sequences are equal.
#[verifier::external_body]
fn str_bytes_eq(a: &str, b: &str) -> (r: bool)
    ensures
        r == (a.spec_bytes() == b.spec_bytes()),
{
    a == b
}

impl<'a> HashKey for &'a str {
    /// A string key is modelled by its UTF-8 bytes.
    type Model = Seq<u8>;

    open spec fn model(&self) -> Seq<u8> {
        (*self).spec_bytes()
    }

    open spec fn key_hash(&self) -> u64 {
        fnv1a((*self).spec_bytes())
    }

    proof fn lemma_model_determines_hash(&self, other: &Self) {
    }

    fn hash_code(&self) -> u64 {
        fnv1a_bytes((*self).as_bytes())
    }

    fn key_eq(&self, other: &Self) -> bool {
        str_bytes_eq(*self, *other)
    }
}

} // verus!
