//! IPv4 CIDR blocks: a network address paired with a prefix length,
//! kept canonical (the address is always masked down to the prefix).

use vstd::prelude::*;

verus! {

/// An IPv4 CIDR block. `network` holds the base address of the range and
/// `prefix_len` the number of leading bits that fix the network part.
#[derive(Clone, Copy, PartialEq, Eq, Structural, Hash, Debug)]
pub struct NetworkBlock {
    pub network: u32,
    pub prefix_len: u8,
}

/// Failure when constructing a block.
#[derive(Clone, Copy, PartialEq, Eq, Structural, Debug)]
pub enum BlockError {
    /// The prefix length exceeds the 32 bits of an IPv4 address.
    InvalidPrefix,
}

/// The network mask for a prefix length: the top `p` bits of a 32-bit word.
pub open spec fn mask_spec(p: u8) -> u32 {
    if p == 0 {
        0u32
    } else {
        (!0u32) << ((32 - p) as u32)
    }
}

/// The number of addresses in a block of prefix length `p` (2^(32-p)).
pub open spec fn size_spec(p: u8) -> int
    recommends
        p <= 32,
{
    (1u64 << ((32 - p) as u64)) as int
}

impl NetworkBlock {
    /// A canonical block: the prefix is valid and the address carries no bits
    /// below the prefix boundary.
    pub open spec fn wf(self) -> bool {
        &&& self.prefix_len <= 32
        &&& self.network & mask_spec(self.prefix_len) == self.network
    }

    /// The highest address of the block's range.
    pub open spec fn last_spec(self) -> u32 {
        self.network | !mask_spec(self.prefix_len)
    }

    /// Address `a` lies inside this block's range.
    pub open spec fn in_range(self, a: u32) -> bool {
        a & mask_spec(self.prefix_len) == self.network
    }

    /// Strict containment: this block's range is a strict superset of
    /// `other`'s. A block never contains itself or an equal-or-coarser block.
    pub open spec fn contains_spec(self, other: NetworkBlock) -> bool {
        &&& self.prefix_len < other.prefix_len
        &&& self.network & mask_spec(self.prefix_len) == other.network & mask_spec(self.prefix_len)
    }
}

/// The network mask for a prefix length.
pub fn mask(prefix: u8) -> (r: u32)
    requires
        prefix <= 32,
    ensures
        r == mask_spec(prefix),
{
    if prefix == 0 {
        0
    } else {
        (!0u32) << (32 - prefix)
    }
}

/// The number of addresses in a block of prefix length `prefix`.
/// A prefix of 0 covers the whole address space, which does not fit in `u32`.
pub fn block_size(prefix: u8) -> (r: u32)
    requires
        1 <= prefix <= 32,
    ensures
        r == size_spec(prefix),
{
    proof {
        assert((1u64 << ((32 - prefix) as u64)) == (1u32 << ((32 - prefix) as u32)) as u64
            && (1u32 << ((32 - prefix) as u32)) >= 1) by (bit_vector)
            requires 1 <= prefix <= 32;
    }
    1u32 << (32 - prefix) as u32
}

impl NetworkBlock {
    /// Builds a canonical block, masking the raw address down to the prefix.
    /// Rejects prefix lengths beyond 32 bits.
    pub fn new(ip: u32, prefix_len: u8) -> (r: Result<NetworkBlock, BlockError>)
        ensures
            prefix_len <= 32 ==> (r matches Ok(b) && b == (NetworkBlock {
                network: ip & mask_spec(prefix_len),
                prefix_len,
            }) && b.wf()),
            prefix_len > 32 ==> (r matches Err(e) && e == BlockError::InvalidPrefix),
    {
        if prefix_len > 32 {
            return Err(BlockError::InvalidPrefix);
        }
        let m = mask(prefix_len);
        let network = ip & m;
        proof {
            lemma_masked_is_wf(ip, prefix_len);
        }
        Ok(NetworkBlock { network, prefix_len })
    }

    /// The highest address of the block's range.
    pub fn last(&self) -> (r: u32)
        requires
            self.prefix_len <= 32,
        ensures
            r == self.last_spec(),
    {
        let m = mask(self.prefix_len);
        self.network | !m
    }

    /// Strict containment test: true iff this block's range strictly covers
    /// `other`'s range (for canonical blocks).
    pub fn contains(&self, other: &NetworkBlock) -> (r: bool)
        requires
            self.prefix_len <= 32,
        ensures
            r == self.contains_spec(*other),
    {
        if self.prefix_len >= other.prefix_len {
            return false;
        }
        let m = mask(self.prefix_len);
        (self.network & m) == (other.network & m)
    }
}

/// Masking an address down to a prefix yields a canonical block.
pub proof fn lemma_masked_is_wf(ip: u32, p: u8)
    requires
        p <= 32,
    ensures
        (NetworkBlock { network: ip & mask_spec(p), prefix_len: p }).wf(),
{
    if p == 0 {
        assert(ip & 0u32 == 0u32 && 0u32 & 0u32 == 0u32) by (bit_vector);
    } else {
        assert((ip & ((!0u32) << ((32 - p) as u32))) & ((!0u32) << ((32 - p) as u32)) == ip & (
        (!0u32) << ((32 - p) as u32))) by (bit_vector)
            requires 1 <= p <= 32;
    }
}

/// For a canonical block, range membership is exactly the interval between
/// the base address and the last address.
pub proof fn lemma_range(b: NetworkBlock, a: u32)
    requires
        b.wf(),
    ensures
        b.in_range(a) <==> (b.network <= a <= b.last_spec()),
{
    let n = b.network;
    let p = b.prefix_len;
    if p == 0 {
        assert(n & 0u32 == n ==> ((a & 0u32 == n) <==> (n <= a <= (n | !0u32)))) by (bit_vector);
    } else {
        assert((n & ((!0u32) << ((32 - p) as u32)) == n) ==> ((a & ((!0u32) << ((32 - p) as u32))
            == n) <==> (n <= a <= (n | !((!0u32) << ((32 - p) as u32)))))) by (bit_vector)
            requires 1 <= p <= 32;
    }
}

/// The result of a successful merge: two equal-sized, adjacent, bit-aligned
/// blocks collapse into the supernet one prefix bit coarser. The merge fails
/// on unequal prefixes, on a gap between the ranges, and when the pair is not
/// the low and high half of a common aligned supernet.
pub open spec fn try_merge_spec(a: NetworkBlock, b: NetworkBlock) -> Option<NetworkBlock> {
    if a.prefix_len == b.prefix_len && 1 <= a.prefix_len <= 32 && a.network & mask_spec(
        (a.prefix_len - 1) as u8,
    ) == a.network && a.last_spec() + 1 == b.network {
        Some(NetworkBlock { network: a.network, prefix_len: (a.prefix_len - 1) as u8 })
    } else {
        None
    }
}

/// Merge detector: returns the common supernet when `a` and `b` are two
/// equal-sized, address-adjacent blocks forming exactly one coarser block,
/// and nothing otherwise.
pub fn try_merge(a: &NetworkBlock, b: &NetworkBlock) -> (r: Option<NetworkBlock>)
    requires
        a.wf(),
        b.wf(),
    ensures
        r == try_merge_spec(*a, *b),
{
    if a.prefix_len != b.prefix_len || a.prefix_len == 0 {
        return None;
    }
    let parent_mask = mask(a.prefix_len - 1);
    if a.network & parent_mask != a.network {
        return None;
    }
    let a_last = a.last();
    if a_last == u32::MAX || a_last + 1 != b.network {
        return None;
    }
    Some(NetworkBlock { network: a.network, prefix_len: a.prefix_len - 1 })
}

/// Containment never holds in both directions at once: the relation is
/// strict on prefix lengths.
pub proof fn lemma_contains_asymmetric(a: NetworkBlock, b: NetworkBlock)
    ensures
        !(a.contains_spec(b) && b.contains_spec(a)),
{
}

/// A containing block covers every address of the contained block, and its
/// interval encloses the contained block's interval.
pub proof fn lemma_contains_range(a: NetworkBlock, b: NetworkBlock)
    requires
        a.wf(),
        b.wf(),
        a.contains_spec(b),
    ensures
        forall|x: u32| b.in_range(x) ==> a.in_range(x),
        a.network <= b.network,
        b.last_spec() <= a.last_spec(),
{
    assert forall|x: u32| b.in_range(x) implies a.in_range(x) by {
        lemma_mask_absorb(x, a.prefix_len, b.prefix_len);
        lemma_mask_absorb(b.network, a.prefix_len, b.prefix_len);
    }
    assert(b.in_range(b.network)) by {
        lemma_range(b, b.network);
    }
    assert(b.in_range(b.last_spec())) by {
        let n = b.network;
        let m = mask_spec(b.prefix_len);
        assert(n <= (n | !m)) by (bit_vector);
        lemma_range(b, b.last_spec());
    }
    lemma_range(a, b.network);
    lemma_range(a, b.last_spec());
}

/// Two canonical blocks sharing an address are nested: the coarser one's
/// range covers the finer one's whole range.
pub proof fn lemma_overlap_nested(a: NetworkBlock, b: NetworkBlock, x: u32)
    requires
        a.wf(),
        b.wf(),
        a.prefix_len <= b.prefix_len,
        a.in_range(x),
        b.in_range(x),
    ensures
        b.network & mask_spec(a.prefix_len) == a.network,
        a.prefix_len == b.prefix_len ==> a == b,
        a.prefix_len < b.prefix_len ==> a.contains_spec(b),
        forall|y: u32| b.in_range(y) ==> a.in_range(y),
{
    lemma_mask_absorb(x, a.prefix_len, b.prefix_len);
    assert(b.network & mask_spec(a.prefix_len) == a.network) by {
        lemma_mask_absorb(b.network, a.prefix_len, b.prefix_len);
    }
    if a.prefix_len == b.prefix_len {
        assert(a.network == b.network);
    } else {
        lemma_contains_range(a, b);
    }
}

/// Merge soundness: a successful merge yields a canonical supernet that
/// strictly contains both halves, covers exactly the union of their ranges,
/// and is as large as the two halves together.
pub proof fn lemma_merge_sound(a: NetworkBlock, b: NetworkBlock)
    requires
        a.wf(),
        b.wf(),
        try_merge_spec(a, b) is Some,
    ensures
        ({
            let c = try_merge_spec(a, b)->Some_0;
            &&& c.wf()
            &&& c.contains_spec(a)
            &&& c.contains_spec(b)
            &&& size_spec(c.prefix_len) == size_spec(a.prefix_len) + size_spec(b.prefix_len)
            &&& c.network == a.network
            &&& c.last_spec() == b.last_spec()
            &&& forall|x: u32| c.in_range(x) <==> (a.in_range(x) || b.in_range(x))
        }),
{
    let c = try_merge_spec(a, b)->Some_0;
    let p = a.prefix_len;
    let n = a.network;
    let n2 = b.network;
    assert(1 <= p <= 32 && b.prefix_len == p && c.prefix_len == (p - 1) as u8 && c.network == n);
    assert(n & mask_spec((p - 1) as u8) == n);
    if p == 1 {
        assert(n & 0u32 == n ==> n == 0u32) by (bit_vector);
        assert(mask_spec(0u8) == 0u32);
        assert(c.wf()) by {
            assert(0u32 & 0u32 == 0u32) by (bit_vector);
        }
        assert((n | !((!0u32) << 31u32)) + 1 == n2 && n == 0u32 && n2 & ((!0u32) << 31u32) == n2
            ==> (n2 == 0x8000_0000u32 && (n2 | !((!0u32) << 31u32)) == !0u32)) by (bit_vector);
        assert(c.last_spec() == b.last_spec()) by {
            assert(0u32 | !0u32 == !0u32) by (bit_vector);
        }
        assert(n2 & 0u32 == 0u32) by (bit_vector);
        assert(c.contains_spec(b));
        assert forall|x: u32| c.in_range(x) <==> (a.in_range(x) || b.in_range(x)) by {
            assert(x & 0u32 == 0u32 && ((x & ((!0u32) << 31u32) == 0u32) || (x & ((!0u32) << 31u32)
                == 0x8000_0000u32))) by (bit_vector);
        }
        assert(size_spec(0u8) == size_spec(1u8) + size_spec(1u8)) by {
            assert((1u64 << 32u64) == (1u64 << 31u64) + (1u64 << 31u64)) by (bit_vector);
        }
    } else {
        let q = (p - 1) as u8;
        assert(1 <= q <= 31 && q + 1 == p);
        // the supernet is canonical, contains the high half, and spans both
        assert((n & ((!0u32) << ((32 - q) as u32)) == n && n & ((!0u32) << ((32 - (q + 1)) as u32))
            == n && n2 & ((!0u32) << ((32 - (q + 1)) as u32)) == n2 && (n | !((!0u32) << ((32 - (q
            + 1)) as u32))) + 1 == n2 && (n | !((!0u32) << ((32 - (q + 1)) as u32))) < !0u32) ==> (
        (n & ((!0u32) << ((32 - q) as u32))) & ((!0u32) << ((32 - q) as u32)) == n & ((!0u32) << ((
        32 - q) as u32)) && n2 & ((!0u32) << ((32 - q) as u32)) == n && (n | !((!0u32) << ((32 - q)
            as u32))) == (n2 | !((!0u32) << ((32 - (q + 1)) as u32))))) by (bit_vector)
            requires 1 <= q <= 31;
        // adjacency does not wrap: the low half's last address is below the top
        assert((n & ((!0u32) << ((32 - q) as u32)) == n && 1 <= q <= 31) ==> (n | !((!0u32) << ((32
            - (q + 1)) as u32))) < !0u32) by (bit_vector);
        assert(c.wf());
        assert(c.contains_spec(b));
        assert(c.last_spec() == b.last_spec());
        assert forall|x: u32| c.in_range(x) <==> (a.in_range(x) || b.in_range(x)) by {
            assert((n & ((!0u32) << ((32 - q) as u32)) == n && n & ((!0u32) << ((32 - (q + 1))
                as u32)) == n && n2 & ((!0u32) << ((32 - (q + 1)) as u32)) == n2 && (n | !((!0u32)
                << ((32 - (q + 1)) as u32))) + 1 == n2 && (n | !((!0u32) << ((32 - (q + 1))
                as u32))) < !0u32) ==> ((x & ((!0u32) << ((32 - q) as u32)) == n) <==> (x & ((
            !0u32) << ((32 - (q + 1)) as u32)) == n || x & ((!0u32) << ((32 - (q + 1)) as u32))
                == n2))) by (bit_vector)
                requires 1 <= q <= 31;
        }
        assert(size_spec(q) == size_spec(p) + size_spec(p)) by {
            assert((1u64 << ((32 - q) as u64)) == (1u64 << ((32 - (q + 1)) as u64)) + (1u64 << ((32
                - (q + 1)) as u64))) by (bit_vector)
                requires 1 <= q <= 31;
        }
    }
}

/// Masking with a coarser mask after a finer one is the same as masking with
/// the coarser mask alone.
pub proof fn lemma_mask_absorb(x: u32, pa: u8, pb: u8)
    requires
        pa <= pb <= 32,
    ensures
        (x & mask_spec(pb)) & mask_spec(pa) == x & mask_spec(pa),
{
    if pa == 0 {
        assert((x & mask_spec(pb)) & 0u32 == 0u32 && x & 0u32 == 0u32) by (bit_vector);
    } else {
        assert(((x & ((!0u32) << ((32 - pb) as u32))) & ((!0u32) << ((32 - pa) as u32))) == (x & (
        (!0u32) << ((32 - pa) as u32)))) by (bit_vector)
            requires 1 <= pa <= pb <= 32;
    }
}

} // verus!
