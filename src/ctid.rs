//! Row identifiers packed into one integer: the block number above the
//! 16-bit offset number.

use vstd::prelude::*;

verus! {

pub open spec fn packed(blockno: u32, offno: u16) -> nat {
    (blockno as nat) * 65536 + offno as nat
}

/// Packs a row identifier: `blockno` shifted left 16 bits, `offno` in the
/// low 16 bits.
pub fn item_pointer_to_u64(blockno: u32, offno: u16) -> (r: u64)
    ensures
        r as nat == packed(blockno, offno),
{
    (blockno as u64) * 65536 + offno as u64
}

/// Unpacks a row identifier: the bits above the low 16, truncated to a block
/// number, and the low 16 bits as the offset number.
pub fn u64_to_item_pointer(value: u64) -> (r: (u32, u16))
    ensures
        r.0 as nat == (value as nat / 65536) % 4294967296,
        r.1 as nat == value as nat % 65536,
{
    (((value / 65536) % 4294967296) as u32, (value % 65536) as u16)
}

/// Unpacking a packed row identifier gives it back.
pub proof fn lemma_item_pointer_round_trip(blockno: u32, offno: u16)
    ensures
        (packed(blockno, offno) / 65536) % 4294967296 == blockno as nat,
        packed(blockno, offno) % 65536 == offno as nat,
{
    let b = blockno as nat;
    let o = offno as nat;
    assert((b * 65536 + o) / 65536 == b && (b * 65536 + o) % 65536 == o) by (nonlinear_arith)
        requires
            o < 65536,
    ;
}

} // verus!
