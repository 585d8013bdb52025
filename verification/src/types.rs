//! The values an archive is made of: its header, the records of its
//! index, the per-asset flags, and the errors the library reports.

use vstd::prelude::*;

verus! {

/// The archive format version this library reads and writes.
pub const VERSION: u16 = 1;

/// Number of bytes in an encoded header.
pub const HEADER_LEN: usize = 54;

/// The fixed-size header at the start of an archive.
#[derive(Debug)]
pub struct Header {
    pub magic: [u8; 4],
    pub version: u16,
    pub assets_count: u32,
    pub salt: [u8; 32],
    pub index_start: u64,
    pub index_size: u32,
}

/// The mathematical value of a [`Header`].
pub struct HeaderView {
    pub magic: Seq<u8>,
    pub version: u16,
    pub assets_count: u32,
    pub salt: Seq<u8>,
    pub index_start: u64,
    pub index_size: u32,
}

impl View for Header {
    type V = HeaderView;

    open spec fn view(&self) -> HeaderView {
        HeaderView {
            magic: self.magic@,
            version: self.version,
            assets_count: self.assets_count,
            salt: self.salt@,
            index_start: self.index_start,
            index_size: self.index_size,
        }
    }
}

/// The bit of [`AssetFlags`] that marks an LZ4-compressed payload.
pub const COMPRESSED_BIT: u8 = 1;

/// Per-asset flags; the only known flag is "compressed".
#[derive(Debug, Clone, Copy, PartialEq, Eq, Structural)]
pub struct AssetFlags {
    bits: u8,
}

impl View for AssetFlags {
    type V = u8;

    closed spec fn view(&self) -> u8 {
        self.bits
    }
}

impl AssetFlags {
    /// Only known flags are ever set.
    #[verifier::type_invariant]
    spec fn known_bits(self) -> bool {
        self.bits & COMPRESSED_BIT == self.bits
    }

    /// No flag set.
    pub fn empty() -> (r: AssetFlags)
        ensures
            r@ == 0,
    {
        assert(0u8 & COMPRESSED_BIT == 0u8) by (bit_vector);
        AssetFlags { bits: 0 }
    }

    /// Only the "compressed" flag set.
    pub fn compressed() -> (r: AssetFlags)
        ensures
            r@ == COMPRESSED_BIT,
    {
        assert(COMPRESSED_BIT & COMPRESSED_BIT == COMPRESSED_BIT) by (bit_vector);
        AssetFlags { bits: COMPRESSED_BIT }
    }

    /// Keeps the known bits of `bits` and drops the others.
    pub fn from_bits_truncate(bits: u8) -> (r: AssetFlags)
        ensures
            r@ == bits & COMPRESSED_BIT,
    {
        assert((bits & COMPRESSED_BIT) & COMPRESSED_BIT == bits & COMPRESSED_BIT) by (bit_vector);
        AssetFlags { bits: bits & COMPRESSED_BIT }
    }

    /// The raw bits; only known flags are ever set.
    pub fn bits(&self) -> (r: u8)
        ensures
            r == self@,
            r & COMPRESSED_BIT == r,
    {
        proof {
            use_type_invariant(self);
        }
        self.bits
    }

    /// Whether every flag set in `other` is also set in `self`.
    pub fn contains(&self, other: AssetFlags) -> (r: bool)
        ensures
            r == (self@ & other@ == other@),
    {
        self.bits & other.bits == other.bits
    }

    /// Sets every flag of `other` in `self`.
    pub fn insert(&mut self, other: AssetFlags)
        ensures
            final(self)@ == old(self)@ | other@,
    {
        proof {
            use_type_invariant(&*self);
            use_type_invariant(&other);
        }
        let a = self.bits;
        let b = other.bits;
        assert((a | b) & COMPRESSED_BIT == a | b) by (bit_vector)
            requires
                a & COMPRESSED_BIT == a,
                b & COMPRESSED_BIT == b,
        ;
        self.bits = a | b;
    }
}

/// One record of the index: where an asset is stored and what it holds.
#[derive(Debug, Clone)]
pub struct Asset {
    pub id_len: u16,
    pub id: String,
    pub start: u64,
    pub size: u32,
    pub size_expected: u32,
    pub flags: AssetFlags,
    pub hash: [u8; 32],
}

/// The mathematical value of an [`Asset`].
pub struct AssetView {
    pub id_len: u16,
    pub id: Seq<char>,
    pub start: u64,
    pub size: u32,
    pub size_expected: u32,
    pub flags: u8,
    pub hash: Seq<u8>,
}

impl View for Asset {
    type V = AssetView;

    open spec fn view(&self) -> AssetView {
        AssetView {
            id_len: self.id_len,
            id: self.id@,
            start: self.start,
            size: self.size,
            size_expected: self.size_expected,
            flags: self.flags@,
            hash: self.hash@,
        }
    }
}

/// What can go wrong while reading or writing an archive.
#[derive(Debug, PartialEq, Eq, Structural)]
pub enum Errors {
    InvalidFileType,
    InCompatibleVersion(u16),
    InvalidHeader,
    InvalidIndex,
    InvalidAsset,
    DecompressFailed,
    EncryptionFailed,
    DecryptionFailed,
    AssetHashMismatch,
}

} // verus!
