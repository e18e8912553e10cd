//! Page-table entries: a physical page number and eight flag bits packed in one word.
use vstd::prelude::*;
use crate::address::{PhysPageNum, PPN_LIMIT};

verus! {

/// Mask of the physical-page-number field once shifted down.
pub const PPN_MASK: u64 = 17592186044415;

/// Valid.
pub const FLAG_V: u8 = 1;

/// Readable.
pub const FLAG_R: u8 = 2;

/// Writable.
pub const FLAG_W: u8 = 4;

/// Executable.
pub const FLAG_X: u8 = 8;

/// Accessible from user mode.
pub const FLAG_U: u8 = 16;

/// Global.
pub const FLAG_G: u8 = 32;

/// Accessed.
pub const FLAG_A: u8 = 64;

/// Dirty.
pub const FLAG_D: u8 = 128;

/// The eight flag bits of an entry.
#[derive(Clone, Copy, PartialEq, Eq, Structural, Debug)]
pub struct PTEFlags {
    pub bits: u8,
}

impl PTEFlags {
    /// The set with no flag.
    pub fn empty() -> (r: PTEFlags)
        ensures
            r.bits == 0,
    {
        PTEFlags { bits: 0 }
    }

    /// The raw bits.
    pub fn bits(&self) -> (r: u8)
        ensures
            r == self.bits,
    {
        self.bits
    }

    /// Every pattern of the eight bits names a flag set.
    pub fn from_bits(bits: u8) -> (r: Option<PTEFlags>)
        ensures
            r == Some(PTEFlags { bits }),
    {
        Some(PTEFlags { bits })
    }

    /// Both sets together.
    pub fn union(self, other: PTEFlags) -> (r: PTEFlags)
        ensures
            r.bits == self.bits | other.bits,
    {
        PTEFlags { bits: self.bits | other.bits }
    }

    /// The flags that both sets hold.
    pub fn intersection(self, other: PTEFlags) -> (r: PTEFlags)
        ensures
            r.bits == self.bits & other.bits,
    {
        PTEFlags { bits: self.bits & other.bits }
    }

    /// Every flag of `other` is in this set.
    pub fn contains(&self, other: PTEFlags) -> (r: bool)
        ensures
            r == (self.bits & other.bits == other.bits),
    {
        self.bits & other.bits == other.bits
    }
}

/// One entry of a page-table frame.
#[derive(Clone, Copy, PartialEq, Eq, Structural, Debug)]
pub struct PageTableEntry {
    pub bits: u64,
}

/// The word of an entry built from `ppn` and `flags`.
pub open spec fn pack(ppn: u64, flags: u8) -> u64 {
    (ppn << 10u64) | (flags as u64)
}

impl PageTableEntry {
    /// The physical page number held in the entry.
    pub open spec fn spec_ppn(self) -> u64 {
        (self.bits >> 10u64) & PPN_MASK
    }

    /// The flag bits held in the entry.
    pub open spec fn spec_flags(self) -> u8 {
        (self.bits & 255u64) as u8
    }

    pub open spec fn spec_valid(self) -> bool {
        self.bits & 1u64 != 0
    }

    pub open spec fn spec_readable(self) -> bool {
        self.bits & 2u64 != 0
    }

    pub open spec fn spec_writable(self) -> bool {
        self.bits & 4u64 != 0
    }

    pub open spec fn spec_executable(self) -> bool {
        self.bits & 8u64 != 0
    }

    /// Packs a physical page number and flags.
    pub fn new(ppn: PhysPageNum, flags: PTEFlags) -> (r: PageTableEntry)
        requires
            ppn.0 < PPN_LIMIT,
        ensures
            r.bits == pack(ppn.0, flags.bits),
            r.spec_ppn() == ppn.0,
            r.spec_flags() == flags.bits,
            r.spec_valid() == (flags.bits & 1u8 != 0),
    {
        let p = ppn.0;
        let f = flags.bits;
        let bits = (p << 10u64) | (f as u64);
        proof {
            lemma_pack(p, f);
        }
        PageTableEntry { bits }
    }

    /// The all-zero, invalid entry.
    pub fn empty() -> (r: PageTableEntry)
        ensures
            r.bits == 0,
            !r.spec_valid(),
    {
        assert(0u64 & 1u64 == 0) by (bit_vector);
        PageTableEntry { bits: 0 }
    }

    /// The physical page number held in the entry.
    pub fn ppn(&self) -> (r: PhysPageNum)
        ensures
            r.0 == self.spec_ppn(),
    {
        let b = self.bits;
        let v = (b >> 10u64) & PPN_MASK;
        assert(v <= PPN_MASK) by (bit_vector)
            requires v == (b >> 10u64) & 17592186044415u64;
        PhysPageNum(v)
    }

    /// The flag bits held in the entry.
    pub fn flags(&self) -> (r: PTEFlags)
        ensures
            r.bits == self.spec_flags(),
    {
        let f = PTEFlags::from_bits((self.bits & 255u64) as u8);
        f.unwrap()
    }

    /// The entry points somewhere meaningful.
    pub fn is_valid(&self) -> (r: bool)
        ensures
            r == self.spec_valid(),
    {
        let f = self.flags();
        proof { lemma_flag_bit(self.bits, 1u8); }
        f.bits & FLAG_V != 0
    }

    /// The page may be read.
    pub fn readable(&self) -> (r: bool)
        ensures
            r == self.spec_readable(),
    {
        let f = self.flags();
        proof { lemma_flag_bit(self.bits, 2u8); }
        f.bits & FLAG_R != 0
    }

    /// The page may be written.
    pub fn writable(&self) -> (r: bool)
        ensures
            r == self.spec_writable(),
    {
        let f = self.flags();
        proof { lemma_flag_bit(self.bits, 4u8); }
        f.bits & FLAG_W != 0
    }

    /// The page may be executed.
    pub fn executable(&self) -> (r: bool)
        ensures
            r == self.spec_executable(),
    {
        let f = self.flags();
        proof { lemma_flag_bit(self.bits, 8u8); }
        f.bits & FLAG_X != 0
    }
}

/// Packing keeps both fields apart.
pub proof fn lemma_pack(p: u64, f: u8)
    requires
        p < PPN_LIMIT,
    ensures
        (pack(p, f) >> 10u64) & PPN_MASK == p,
        (pack(p, f) & 255u64) as u8 == f,
        (pack(p, f) & 1u64 != 0) == (f & 1u8 != 0),
        (pack(p, f) & 2u64 != 0) == (f & 2u8 != 0),
        (pack(p, f) & 4u64 != 0) == (f & 4u8 != 0),
        (pack(p, f) & 8u64 != 0) == (f & 8u8 != 0),
{
    let w = pack(p, f);
    let g = f as u64;
    assert(g < 256) by (bit_vector)
        requires g == f as u64;
    assert((w >> 10u64) & 17592186044415u64 == p) by (bit_vector)
        requires w == (p << 10u64) | g, p < 17592186044416u64, g < 256u64;
    assert(w & 255u64 == g) by (bit_vector)
        requires w == (p << 10u64) | g, g < 256u64;
    assert(((w & 255u64) as u8) == f) by (bit_vector)
        requires w & 255u64 == g, g == f as u64;
    assert((w & 1u64 != 0) == (g & 1u64 != 0)) by (bit_vector)
        requires w == (p << 10u64) | g, g < 256u64;
    assert((w & 2u64 != 0) == (g & 2u64 != 0)) by (bit_vector)
        requires w == (p << 10u64) | g, g < 256u64;
    assert((w & 4u64 != 0) == (g & 4u64 != 0)) by (bit_vector)
        requires w == (p << 10u64) | g, g < 256u64;
    assert((w & 8u64 != 0) == (g & 8u64 != 0)) by (bit_vector)
        requires w == (p << 10u64) | g, g < 256u64;
    assert((g & 1u64 != 0) == (f & 1u8 != 0)) by (bit_vector)
        requires g == f as u64;
    assert((g & 2u64 != 0) == (f & 2u8 != 0)) by (bit_vector)
        requires g == f as u64;
    assert((g & 4u64 != 0) == (f & 4u8 != 0)) by (bit_vector)
        requires g == f as u64;
    assert((g & 8u64 != 0) == (f & 8u8 != 0)) by (bit_vector)
        requires g == f as u64;
}

/// Testing one bit of the low byte is testing that bit of the word.
proof fn lemma_flag_bit(w: u64, b: u8)
    requires
        b == 1 || b == 2 || b == 4 || b == 8,
    ensures
        ((((w & 255u64) as u8) & b) != 0u8) == (w & (b as u64) != 0),
{
    assert(((((w & 255u64) as u8) & b) != 0u8) == (w & (b as u64) != 0)) by (bit_vector)
        requires b == 1u8 || b == 2u8 || b == 4u8 || b == 8u8;
}

} // verus!
