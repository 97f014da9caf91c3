//! Numbers as the bytes that are fed to a hasher.

use vstd::prelude::*;

verus! {

/// The `n` lowest bytes of `x`, lowest first.
pub open spec fn low_bytes(x: u64, n: nat) -> Seq<u8> {
    Seq::new(n, |i: int| ((x >> ((8 * i) as u64)) & 0xff) as u8)
}

/// The `n` lowest bytes of `x`, lowest first.
pub fn low_bytes_of(x: u64, n: usize) -> (bytes: Vec<u8>)
    requires
        n <= 8,
    ensures
        bytes@ == low_bytes(x, n as nat),
{
    let mut bytes: Vec<u8> = Vec::new();
    let mut i: usize = 0;
    while i < n
        invariant
            i <= n <= 8,
            bytes@.len() == i,
            forall|k: int| 0 <= k < i ==> bytes@[k] == ((x >> ((8 * k) as u64)) & 0xff) as u8,
        decreases n - i,
    {
        let shift: u64 = 8 * (i as u64);
        let byte: u64 = (x >> shift) & 0xff;
        assert(byte <= 0xff) by (bit_vector)
            requires
                byte == (x >> shift) & 0xff,
        ;
        bytes.push(byte as u8);
        i += 1;
    }
    assert(bytes@ =~= low_bytes(x, n as nat));
    bytes
}

} // verus!
