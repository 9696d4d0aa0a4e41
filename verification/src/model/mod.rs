//! Mathematical models shared by the format readers, and the outside calls they make.
pub mod assoc;
pub mod bytes;
pub mod crc;
pub mod delta;
pub mod entryhead;
pub mod idset;
pub mod indexfile;
pub mod indexrows;
pub mod num;
pub mod object;
pub mod order;
pub mod outside;
pub mod rank;
pub mod sort;
pub mod text;
pub mod varint;
