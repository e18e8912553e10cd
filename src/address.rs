//! Page geometry and page-number types of a 39-bit, three-level address space.
use vstd::prelude::*;

verus! {

/// Bytes in one page.
pub const PAGE_SIZE: usize = 4096;

/// Number of virtual pages in the 39-bit address space.
pub const VPN_LIMIT: usize = 134217728;

/// Exclusive upper bound of the 39-bit virtual address space.
pub const VA_LIMIT: u64 = 549755813888;

/// Physical page numbers occupy 44 bits of an entry.
pub const PPN_LIMIT: u64 = 17592186044416;

/// A virtual address with its page-offset bits removed.
#[derive(Clone, Copy, PartialEq, Eq, Structural, Debug)]
pub struct VirtPageNum(pub usize);

/// Index of one physical memory frame. Entries are 64-bit words whatever
/// the width of `usize`, and so is this.
#[derive(Clone, Copy, PartialEq, Eq, Structural, Debug)]
pub struct PhysPageNum(pub u64);

/// Index into the root table (most significant nine bits of the VPN).
pub open spec fn idx0(vpn: usize) -> usize {
    ((vpn / 262144) % 512) as usize
}

/// Index into the middle table.
pub open spec fn idx1(vpn: usize) -> usize {
    ((vpn / 512) % 512) as usize
}

/// Index into the leaf table.
pub open spec fn idx2(vpn: usize) -> usize {
    (vpn % 512) as usize
}

/// Position of the leaf table that serves `vpn`: the two upper indices together.
pub open spec fn leaf_prefix(vpn: usize) -> usize {
    (idx0(vpn) * 512 + idx1(vpn)) as usize
}

/// A page number is inside the 39-bit address space.
pub open spec fn vpn_in_range(vpn: usize) -> bool {
    vpn < VPN_LIMIT
}

/// Two in-range VPNs with the same three indices are the same VPN.
pub proof fn lemma_indexes_determine_vpn(v: usize, w: usize)
    requires
        v < VPN_LIMIT,
        w < VPN_LIMIT,
        leaf_prefix(v) == leaf_prefix(w),
        idx2(v) == idx2(w),
    ensures
        v == w,
{
    assert(v == leaf_prefix(v) * 512 + idx2(v)) by (nonlinear_arith)
        requires v < 134217728, leaf_prefix(v) == ((v / 262144) % 512) * 512 + (v / 512) % 512,
            idx2(v) == v % 512;
    assert(w == leaf_prefix(w) * 512 + idx2(w)) by (nonlinear_arith)
        requires w < 134217728, leaf_prefix(w) == ((w / 262144) % 512) * 512 + (w / 512) % 512,
            idx2(w) == w % 512;
}

/// The leaf prefix is below 512 * 512 and splits back into the upper indices.
pub proof fn lemma_prefix_split(v: usize)
    ensures
        leaf_prefix(v) < 262144,
        leaf_prefix(v) / 512 == idx0(v),
        leaf_prefix(v) % 512 == idx1(v),
{
    let a = idx0(v) as int;
    let b = idx1(v) as int;
    assert(a < 512 && b < 512);
    assert((a * 512 + b) / 512 == a && (a * 512 + b) % 512 == b && a * 512 + b < 262144)
        by (nonlinear_arith)
        requires 0 <= a < 512, 0 <= b < 512;
}

/// Joining two indices into a prefix and splitting it again are inverse.
pub proof fn lemma_join(i: usize, j: usize)
    requires
        i < 512,
        j < 512,
    ensures
        i * 512 + j < 262144,
        (i * 512 + j) / 512 == i,
        (i * 512 + j) % 512 == j,
{
    assert(i * 512 + j < 262144 && (i * 512 + j) / 512 == i && (i * 512 + j) % 512 == j)
        by (nonlinear_arith)
        requires i < 512, j < 512;
}

impl VirtPageNum {
    /// The three 9-bit table indices of this page number, most significant first.
    pub fn indexes(&self) -> (r: [usize; 3])
        ensures
            r@ == seq![idx0(self.0), idx1(self.0), idx2(self.0)],
    {
        let r = [(self.0 / 262144) % 512, (self.0 / 512) % 512, self.0 % 512];
        assert(r@ =~= seq![idx0(self.0), idx1(self.0), idx2(self.0)]);
        r
    }
}

} // verus!
