//! The frame checksum: a 16-bit CRC with the reflected polynomial 0xA001 and the
//! register starting at 0xFFFF, taken one bit at a time (the CRC-16/MODBUS parameters).
use vstd::prelude::*;

verus! {

/// One bit step of the register.
pub open spec fn crc_shift(c: u16) -> u16 {
    if c & 1 != 0 {
        (c >> 1) ^ 0xA001u16
    } else {
        c >> 1
    }
}

pub open spec fn crc_shift_n(c: u16, n: nat) -> u16
    decreases n,
{
    if n == 0 {
        c
    } else {
        crc_shift(crc_shift_n(c, (n - 1) as nat))
    }
}

/// The register after taking in one byte.
pub open spec fn crc_byte(c: u16, b: u8) -> u16 {
    crc_shift_n(c ^ (b as u16), 8)
}

/// The register after taking in `s`, starting from `init`.
pub open spec fn crc_from(init: u16, s: Seq<u8>) -> u16
    decreases s.len(),
{
    if s.len() == 0 {
        init
    } else {
        crc_byte(crc_from(init, s.drop_last()), s.last())
    }
}

/// The frame checksum of `s`.
pub open spec fn crc16(s: Seq<u8>) -> u16 {
    crc_from(0xFFFF, s)
}

/// Computes the frame checksum of `data`; the value stands in the low 16 bits.
pub fn calculate_crc(data: &[u8]) -> (r: u32)
    ensures
        r == crc16(data@) as u32,
{
    let mut crc: u16 = 0xFFFF;
    let mut i: usize = 0;
    while i < data.len()
        invariant
            i <= data@.len(),
            crc == crc_from(0xFFFF, data@.take(i as int)),
        decreases data@.len() - i,
    {
        let start = crc ^ (data[i] as u16);
        crc = start;
        let mut k: usize = 0;
        while k < 8
            invariant
                k <= 8,
                crc == crc_shift_n(start, k as nat),
            decreases 8 - k,
        {
            if (crc & 1) != 0 {
                crc = (crc >> 1) ^ 0xA001;
            } else {
                crc = crc >> 1;
            }
            k = k + 1;
        }
        proof {
            assert(data@.take(i + 1).drop_last() =~= data@.take(i as int));
        }
        i = i + 1;
    }
    proof {
        assert(data@.take(i as int) =~= data@);
    }
    crc as u32
}

proof fn lemma_shift_injective(x: u16, y: u16)
    requires
        x != y,
    ensures
        crc_shift(x) != crc_shift(y),
{
    assert(x != y ==> (if x & 1 != 0 {
        (x >> 1) ^ 0xA001u16
    } else {
        x >> 1
    }) != (if y & 1 != 0 {
        (y >> 1) ^ 0xA001u16
    } else {
        y >> 1
    })) by (bit_vector);
}

proof fn lemma_shift_n_injective(x: u16, y: u16, n: nat)
    requires
        x != y,
    ensures
        crc_shift_n(x, n) != crc_shift_n(y, n),
    decreases n,
{
    if n > 0 {
        lemma_shift_n_injective(x, y, (n - 1) as nat);
        lemma_shift_injective(crc_shift_n(x, (n - 1) as nat), crc_shift_n(y, (n - 1) as nat));
    }
}

/// Two byte strings of one length that differ in exactly one byte have different
/// registers, from any common start.
pub proof fn lemma_crc_detects_byte_change(init: u16, s: Seq<u8>, t: Seq<u8>, i: int)
    requires
        s.len() == t.len(),
        0 <= i < s.len(),
        s[i] != t[i],
        forall|k: int| 0 <= k < s.len() && k != i ==> s[k] == t[k],
    ensures
        crc_from(init, s) != crc_from(init, t),
    decreases s.len(),
{
    let n = s.len() - 1;
    if i == n {
        assert(s.drop_last() =~= t.drop_last());
        let c = crc_from(init, s.drop_last());
        let a = s.last();
        let b = t.last();
        assert(a != b ==> c ^ (a as u16) != c ^ (b as u16)) by (bit_vector);
        lemma_shift_n_injective(c ^ (a as u16), c ^ (b as u16), 8);
    } else {
        lemma_crc_detects_byte_change(init, s.drop_last(), t.drop_last(), i);
        let c1 = crc_from(init, s.drop_last());
        let c2 = crc_from(init, t.drop_last());
        let b = s.last();
        assert(s.last() == t.last());
        assert(c1 != c2 ==> c1 ^ (b as u16) != c2 ^ (b as u16)) by (bit_vector);
        lemma_shift_n_injective(c1 ^ (b as u16), c2 ^ (b as u16), 8);
    }
}

/// Flipping any single bit of the data changes its checksum.
pub proof fn lemma_crc_detects_bit_flip(s: Seq<u8>, i: int, bit: u8)
    requires
        0 <= i < s.len(),
        bit < 8,
    ensures
        crc16(s) != crc16(s.update(i, s[i] ^ (1u8 << bit))),
{
    let b = s[i];
    assert(bit < 8 ==> b ^ (1u8 << bit) != b) by (bit_vector);
    lemma_crc_detects_byte_change(0xFFFF, s, s.update(i, s[i] ^ (1u8 << bit)), i);
}

} // verus!
