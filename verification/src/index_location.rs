use vstd::prelude::*;

use crate::markdown::chars_of;

verus! {

/// Start value of the 64-bit FNV-1a hash.
pub const FNV_OFFSET_BASIS: u64 = 0xcbf29ce484222325;

/// Multiplier of the 64-bit FNV-1a hash.
pub const FNV_PRIME: u64 = 0x100000001b3;

/// One step of the 64-bit FNV-1a hash over a character's code point.
pub open spec fn fnv_step(h: u64, c: char) -> u64 {
    (((h ^ (c as u64)) as nat * FNV_PRIME as nat) % 0x1_0000_0000_0000_0000) as u64
}

/// The 64-bit FNV-1a hash of a sequence of code points.
pub open spec fn fnv1a(chars: Seq<char>) -> u64
    decreases chars.len(),
{
    if chars.len() == 0 {
        FNV_OFFSET_BASIS
    } else {
        fnv_step(fnv1a(chars.drop_last()), chars.last())
    }
}

/// The key under which the index of a notes directory is kept apart from
/// the indexes of other directories: the FNV-1a hash of the directory's
/// canonical path. A server of the same directory always finds the same
/// key; servers of different directories get different keys unless their
/// paths collide under the hash, which 64 bits make unlikely but do not
/// rule out.
pub fn index_namespace(canonical_dir: &str) -> (r: u64)
    ensures
        r == fnv1a(canonical_dir@),
{
    let chars = chars_of(canonical_dir);
    let mut h: u64 = FNV_OFFSET_BASIS;
    let mut i: usize = 0;
    assert(chars@.take(0).len() == 0);
    while i < chars.len()
        invariant
            i <= chars.len(),
            h == fnv1a(chars@.take(i as int)),
        decreases chars.len() - i,
    {
        assert(chars@.take(i + 1).drop_last() =~= chars@.take(i as int));
        assert(chars@.take(i + 1).last() == chars@[i as int]);
        let c = chars[i];
        h = (h ^ (c as u64)).wrapping_mul(FNV_PRIME);
        i = i + 1;
    }
    assert(chars@.take(chars.len() as int) =~= chars@);
    h
}

} // verus!
