//! Signing with two keys.

use vstd::prelude::*;

use crate::bytes::{push_all, to_vec};

verus! {

/// Signs with two keys: every binary carries a signature from each.
///
/// This is for moving between Secure Boot keys: a binary signed by both the old and the new db
/// key boots whichever of them firmware trusts, so the ESP stays bootable across the switch.
/// PE binaries hold any number of signatures and `systemd-sbsign` appends rather than replaces,
/// so the second signature is simply added on top of the first.
pub struct DualSigner<A, B> {
    pub first: A,
    pub second: B,
}

/// The public key of two keys: one behind the other.
pub open spec fn both_keys(first: Seq<u8>, second: Seq<u8>) -> Seq<u8> {
    first + second
}

impl<A, B> DualSigner<A, B> {
    /// Both keys, so stubs are named (and rebuilt) differently from those signed by either key
    /// alone: installing with a single key again replaces the dual-signed ones.
    pub fn public_key_of(first: &[u8], second: &[u8]) -> (key: Vec<u8>)
        ensures
            key@ == both_keys(first@, second@),
    {
        let mut key: Vec<u8> = to_vec(first);
        push_all(&mut key, second);
        key
    }
}

/// The public key of two keys is neither of them.
pub proof fn law_both_keys_differ_from_each(first: Seq<u8>, second: Seq<u8>)
    requires
        first.len() > 0,
        second.len() > 0,
    ensures
        both_keys(first, second) != first,
        both_keys(first, second) != second,
{
    assert(both_keys(first, second).len() == first.len() + second.len());
}

/// The public key of two keys starts with all of the first and ends with all of the second.
pub proof fn law_both_keys(first: Seq<u8>, second: Seq<u8>)
    ensures
        both_keys(first, second).len() == first.len() + second.len(),
        both_keys(first, second).take(first.len() as int) == first,
        both_keys(first, second).skip(first.len() as int) == second,
{
    assert(both_keys(first, second).take(first.len() as int) =~= first);
    assert(both_keys(first, second).skip(first.len() as int) =~= second);
}

} // verus!
