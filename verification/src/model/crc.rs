//! The CRC-32 (IEEE, reflected) of a byte sequence.
use vstd::prelude::*;

verus! {

/// One division step of the reflected polynomial.
pub open spec fn crc_bit(c: u32) -> u32 {
    if c & 1 != 0 {
        0xedb8_8320u32 ^ (c >> 1)
    } else {
        c >> 1
    }
}

/// Eight division steps.
pub open spec fn crc_octet(c: u32) -> u32 {
    crc_bit(crc_bit(crc_bit(crc_bit(crc_bit(crc_bit(crc_bit(crc_bit(c))))))))
}

/// `n` division steps.
pub open spec fn crc_bits(c: u32, n: nat) -> u32
    decreases n,
{
    if n == 0 {
        c
    } else {
        crc_bit(crc_bits(c, (n - 1) as nat))
    }
}

/// The running remainder after the bytes of `s`, starting from all ones.
pub open spec fn crc_register(s: Seq<u8>) -> u32
    decreases s.len(),
{
    if s.len() == 0 {
        0xffff_ffff
    } else {
        crc_octet(crc_register(s.drop_last()) ^ (s.last() as u32))
    }
}

/// The CRC-32 of `s`.
pub open spec fn crc32_of(s: Seq<u8>) -> u32 {
    crc_register(s) ^ 0xffff_ffffu32
}

pub proof fn lemma_bits_octet(c: u32)
    ensures
        crc_bits(c, 8) == crc_octet(c),
{
    reveal_with_fuel(crc_bits, 9);
}

/// A byte-wise table step does the work of eight bit steps.
pub proof fn table_step(crc: u32, b: u8)
    ensures
        (crc >> 8) ^ crc_octet((crc ^ (b as u32)) & 0xff) == crc_octet(crc ^ (b as u32)),
{
    let x: u32 = crc ^ (b as u32);
    assert(crc >> 8 == (crc ^ (b as u32)) >> 8) by (bit_vector);
    lemma_octet_splits(x);
}

proof fn lemma_octet_splits(x: u32)
    ensures
        (x >> 8) ^ crc_octet(x & 0xff) == crc_octet(x),
{
    assert((x >> 8) ^ crc_octet(x & 0xff) == crc_octet(x)) by (bit_vector);
}

/// One table entry: eight steps from the index.
pub fn table_entry(n: u32) -> (c: u32)
    ensures
        c == crc_octet(n),
{
    let mut c: u32 = n;
    let mut k: u32 = 0;
    while k < 8
        invariant
            k <= 8,
            c == crc_bits(n, k as nat),
        decreases 8 - k,
    {
        c = if c & 1 != 0 {
            0xedb8_8320u32 ^ (c >> 1)
        } else {
            c >> 1
        };
        k += 1;
    }
    proof {
        lemma_bits_octet(n);
    }
    c
}

/// The table of all 256 byte remainders.
pub fn make_table() -> (t: Vec<u32>)
    ensures
        t@.len() == 256,
        forall|i: int| 0 <= i < 256 ==> t@[i] == crc_octet(i as u32),
{
    let mut t: Vec<u32> = Vec::new();
    let mut n: u32 = 0;
    while n < 256
        invariant
            n <= 256,
            t@.len() == n,
            forall|i: int| 0 <= i < n ==> t@[i] == crc_octet(i as u32),
        decreases 256 - n,
    {
        t.push(table_entry(n));
        n += 1;
    }
    t
}

/// The checksum of `data` by table lookup.
pub fn table_checksum(table: &Vec<u32>, data: &[u8]) -> (crc: u32)
    requires
        table@.len() == 256,
        forall|i: int| 0 <= i < 256 ==> table@[i] == crc_octet(i as u32),
    ensures
        crc == crc32_of(data@),
{
    let mut crc: u32 = 0xffff_ffff;
    let mut i: usize = 0;
    while i < data.len()
        invariant
            i <= data@.len(),
            table@.len() == 256,
            forall|j: int| 0 <= j < 256 ==> table@[j] == crc_octet(j as u32),
            crc == crc_register(data@.take(i as int)),
        decreases data@.len() - i,
    {
        let b: u8 = data[i];
        let x: u32 = (crc ^ (b as u32)) & 0xff;
        assert((crc ^ (b as u32)) & 0xff < 256) by (bit_vector);
        proof {
            table_step(crc, b);
            assert(data@.take(i + 1).drop_last() =~= data@.take(i as int));
        }
        crc = (crc >> 8) ^ table[x as usize];
        i += 1;
    }
    assert(data@.take(i as int) =~= data@);
    crc ^ 0xffff_ffff
}

/// The checksum of `data`, bit by bit.
pub fn bitwise_checksum(data: &[u8]) -> (crc: u32)
    ensures
        crc == crc32_of(data@),
{
    let mut crc: u32 = 0xffff_ffff;
    let mut i: usize = 0;
    while i < data.len()
        invariant
            i <= data@.len(),
            crc == crc_register(data@.take(i as int)),
        decreases data@.len() - i,
    {
        proof {
            assert(data@.take(i + 1).drop_last() =~= data@.take(i as int));
        }
        crc = table_entry(crc ^ (data[i] as u32));
        i += 1;
    }
    assert(data@.take(i as int) =~= data@);
    crc ^ 0xffff_ffff
}

} // verus!
