//! Packing with compression, confirmed by unpacking at once.

use vstd::prelude::*;
use crate::error::{Fault, PackError, UnpackError};
use crate::pack::{pack, packed};
use crate::round_trip::{compressed_round_trip, restored_blocks};
use crate::unpack::{unpack, unpacked_from};

verus! {

/// Whether two byte strings are equal.
pub fn same_bytes(a: &[u8], b: &[u8]) -> (r: bool)
    ensures
        r == (a@ == b@),
{
    if a.len() != b.len() {
        return false;
    }
    let mut i: usize = 0;
    while i < a.len()
        invariant
            i <= a.len() == b.len(),
            a@.subrange(0, i as int) == b@.subrange(0, i as int),
        decreases a.len() - i,
    {
        if a[i] != b[i] {
            return false;
        }
        proof {
            assert(a@.subrange(0, i + 1) =~= a@.subrange(0, i as int).push(a@[i as int]));
            assert(b@.subrange(0, i + 1) =~= b@.subrange(0, i as int).push(b@[i as int]));
        }
        i = i + 1;
    }
    proof {
        assert(a@ =~= a@.subrange(0, i as int));
        assert(b@ =~= b@.subrange(0, i as int));
    }
    true
}

/// Hands out `container` where unpacking it gave back `flat`, and nothing
/// where it gave other bytes or failed.
pub fn confirm_restored(flat: &[u8], container: Vec<u8>, outcome: Result<Vec<u8>, UnpackError>)
    -> (r: Option<Vec<u8>>)
    ensures
        match outcome {
            Ok(back) => if back@ == flat@ {
                r == Some(container)
            } else {
                r is None
            },
            Err(_) => r is None,
        },
{
    match outcome {
        Ok(back) => {
            if same_bytes(back.as_slice(), flat) {
                Some(container)
            } else {
                None
            }
        },
        Err(_) => None,
    }
}

/// Packs a flat file with compression and unpacks the container at once.
/// Hands out the container only where packing succeeded and unpacking gave
/// back the flat file, so that the codec was seen to restore every block
/// of it. The container is the one that `pack` gives; it unpacks to the
/// flat file under every codec that inflates each stream to its block.
pub fn pack_checked(flat: &[u8]) -> (r: Option<Vec<u8>>)
    ensures
        r matches Some(c) ==> {
            &&& packed(flat@, true) == Ok::<Seq<u8>, PackError>(c@)
            &&& unpacked_from(c@, restored_blocks(flat@)) == Ok::<Seq<u8>, Fault>(flat@)
        },
        packed(flat@, true) is Err ==> r is None,
{
    let container = match pack(flat, true) {
        Ok(container) => container,
        Err(_) => {
            return None;
        },
    };
    proof {
        compressed_round_trip(flat@, restored_blocks(flat@));
    }
    let outcome = unpack(container.as_slice());
    confirm_restored(flat, container, outcome)
}

} // verus!
