//! Hashing and comparison of keys, both specified over the key's character
//! sequence alone: equal keys always hash identically and compare equal.

use std::collections::hash_map::DefaultHasher;
use std::hash::Hasher;
use vstd::prelude::*;
use vstd::slice::slice_index_get;
use vstd::std_specs::hash::DefaultHasherAdditionalSpecFns;
use vstd::string::StringSliceAdditionalSpecFns;
use vstd::utf8::decode_utf8;
use vstd::utf8::encode_utf8;
use vstd::utf8::encode_utf8_decode_utf8;

verus! {

/// The hash digest of a key: the digest the default hasher produces after
/// one write of the key's byte encoding. A deterministic function of the
/// character sequence alone.
pub open spec fn hash_of(s: Seq<char>) -> u64 {
    DefaultHasher::spec_finish(seq![encode_utf8(s)])
}

/// Hash a key, producing exactly `hash_of` of its character sequence.
pub(crate) fn hash_str(s: &str) -> (r: u64)
    ensures
        r == hash_of(s@),
{
    let mut hasher = DefaultHasher::new();
    hasher.write(s.as_bytes());
    proof {
        assert(hasher@ =~= seq![encode_utf8(s@)]);
    }
    hasher.finish()
}

/// Compare two string slices by their byte encodings; equal encodings mean
/// equal character sequences because the encoding decodes losslessly.
pub(crate) fn str_eq(a: &str, b: &str) -> (r: bool)
    ensures
        r == (a@ == b@),
{
    proof {
        encode_utf8_decode_utf8(a@);
        encode_utf8_decode_utf8(b@);
    }
    let ab = a.as_bytes();
    let bb = b.as_bytes();
    if ab.len() != bb.len() {
        return false;
    }
    let n = ab.len();
    let mut i: usize = 0;
    while i < n
        invariant
            ab@ == encode_utf8(a@),
            bb@ == encode_utf8(b@),
            ab@.len() == n,
            bb@.len() == n,
            i <= n,
            forall|j: int| 0 <= j < i ==> ab@[j] == bb@[j],
        decreases n - i,
    {
        if *slice_index_get(ab, i) != *slice_index_get(bb, i) {
            return false;
        }
        i += 1;
    }
    proof {
        assert(ab@ =~= bb@);
        assert(decode_utf8(encode_utf8(a@)) == decode_utf8(encode_utf8(b@)));
    }
    true
}

} // verus!
