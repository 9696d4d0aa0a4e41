//! The CRC-32 that an index stores for its entries.
use vstd::prelude::*;
use crate::model::crc::{crc32_of, make_table, table_checksum};

verus! {

/// The standard CRC-32 (IEEE 802.3) of bytes.
pub fn crc32(data: &[u8]) -> (crc: u32)
    ensures
        crc == crc32_of(data@),
{
    let table = make_table();
    table_checksum(&table, data)
}

} // verus!
