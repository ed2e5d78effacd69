use vstd::prelude::*;

use vstd::arithmetic::div_mod::{
    lemma_div_is_ordered, lemma_fundamental_div_mod, lemma_mod_bound, lemma_mod_multiples_vanish,
    lemma_small_mod,
};
use vstd::arithmetic::mul::lemma_mul_is_commutative;
use vstd::arithmetic::power2::{
    lemma2_to64, lemma2_to64_rest, lemma_pow2_adds, lemma_pow2_pos, lemma_pow2_strictly_increases,
    pow2,
};
use vstd::bits::{
    low_bits_mask, lemma_u64_low_bits_mask_is_mod, lemma_u64_pow2_no_overflow,
    lemma_u64_shl_is_mul, lemma_u64_shr_is_div,
};

use crate::errors::{AsanError, AsanErrorKind, AsanErrors};
use crate::meta::{empty_table, table_of, AllocTable, AllocationMetadata};
use crate::options::FuzzerOptions;
use crate::shadow::ShadowMemory;
use crate::stack::capture_stack;

verus! {

/// An allocator with binary-only address sanitization.
///
/// The allocator owns a shadow map covering the whole user address space:
/// one shadow byte describes an eight-byte block of user memory, one bit per
/// byte, bits taken from the high end of the shadow byte for the low
/// addresses of the block. User mappings are served from an arena directly
/// above the shadow reservation, each one page-aligned and fenced by a guard
/// page on both sides.
///
/// The address arithmetic mirrors the mappings the sanitizer installs:
/// `[1 << shadow_bit, 2 << shadow_bit)` is the shadow reservation and user
/// regions are placed from `2 << shadow_bit` upward, so that the shadow of
/// every user region falls inside the reservation. The shadow bytes
/// themselves are held in a sparse store committed on demand.
pub struct Allocator {
    /// The fuzzer options.
    pub options: FuzzerOptions,
    /// The page size.
    pub page_size: u64,
    /// The shadow offset: the base of the shadow reservation.
    pub shadow_offset: u64,
    /// The shadow bit: the reservation covers `1 << shadow_bit` bytes.
    pub shadow_bit: u64,
    /// All tracked allocations, keyed by user pointer.
    pub allocations: AllocTable,
    /// The committed shadow bytes.
    pub shadow: ShadowMemory,
    /// Released allocations available for reuse.
    pub allocation_queue: Vec<AllocationMetadata>,
    /// The size of the largest allocation seen so far.
    pub largest_allocation: u64,
    /// The running total of rounded-up allocation sizes.
    pub total_allocation_size: u64,
    /// The base address of the user mapping arena.
    pub base_mapping_addr: u64,
    /// The next address at which a fresh mapping is placed.
    pub current_mapping_addr: u64,
}

impl Allocator {
    /// The shadow byte describing the eight-byte block that holds user
    /// address `a`: the block index, wrapped to the reservation's width,
    /// offset by the reservation's base.
    pub open spec fn spec_map_to_shadow(self, a: u64) -> int {
        self.shadow_offset + ((a as int / 8) % (2 * self.shadow_offset as int))
    }

    /// Whether the bit of byte `b` that describes offset `t` of its block is
    /// set. Offset 0 is described by the highest bit.
    pub open spec fn byte_bit(b: u8, t: int) -> bool {
        (b >> ((7 - t) as u8)) & 1u8 == 1u8
    }

    /// Whether user address `a` is marked addressable in the shadow.
    pub open spec fn spec_addressable(self, a: u64) -> bool {
        Self::byte_bit(self.shadow.spec_byte(self.spec_map_to_shadow(a) as u64), a as int % 8)
    }

    /// Whether every byte of `[addr, addr + size)` is marked addressable.
    pub open spec fn spec_shadow_ok(self, addr: u64, size: u64) -> bool {
        forall|a: u64| addr <= a < addr + size ==> self.spec_addressable(a)
    }

    /// The requested size after the zero-size rule: a request for zero bytes
    /// is served as if it asked for sixteen.
    pub open spec fn spec_effective_size(size: u64) -> u64 {
        if size == 0 {
            16u64
        } else {
            size
        }
    }

    /// `size` rounded up to the next page boundary (a full extra page when
    /// already on one).
    pub open spec fn spec_round_up_to_page(self, size: u64) -> int {
        ((size + self.page_size) / self.page_size as int) * self.page_size
    }

    /// The raw mapping size backing a request: the rounded size plus two
    /// guard pages.
    pub open spec fn spec_rounded(self, size: u64) -> int {
        self.spec_round_up_to_page(size) + 2 * self.page_size
    }

    /// How many user bytes of a record are currently addressable.
    pub open spec fn spec_live_extent(m: AllocationMetadata) -> int {
        if m.freed {
            0
        } else {
            m.size as int
        }
    }

    /// Structural soundness of one record with respect to the arena.
    pub open spec fn meta_wf(self, m: AllocationMetadata) -> bool {
        &&& m.address % self.page_size == 0
        &&& m.actual_size % self.page_size == 0
        &&& self.base_mapping_addr <= m.address
        &&& m.address + m.actual_size <= self.current_mapping_addr
        &&& m.size + 2 * self.page_size <= m.actual_size
        &&& 3 * self.page_size <= m.actual_size
    }

    /// The shadow encodes exactly the record's live extent: within the raw
    /// region, an address is marked addressable if and only if it lies in
    /// the user range `[address + page, address + page + live extent)`.
    pub open spec fn record_shadow_ok(self, m: AllocationMetadata) -> bool {
        forall|a: u64|
            m.address <= a < m.address + m.actual_size ==> (#[trigger] self.spec_addressable(a)
                <==> m.address + self.page_size <= a < m.address + self.page_size
                + Self::spec_live_extent(m))
    }

    /// The tracked allocations, as a map from user pointer to metadata.
    pub open spec fn live(self) -> Map<u64, AllocationMetadata> {
        table_of(self.allocations)
    }

    /// The reuse queue.
    pub open spec fn queue(self) -> Seq<AllocationMetadata> {
        self.allocation_queue@
    }

    /// Whether the raw regions of two records do not overlap.
    pub open spec fn regions_disjoint(m1: AllocationMetadata, m2: AllocationMetadata) -> bool {
        m1.address + m1.actual_size <= m2.address || m2.address + m2.actual_size <= m1.address
    }

    /// The first shadow byte past every region handed out so far.
    pub open spec fn spec_shadow_cursor(self) -> int {
        self.shadow_offset + self.current_mapping_addr as int / 8
    }

    /// The allocator's invariant.
    pub open spec fn wf(self) -> bool {
        &&& 8 <= self.page_size <= (1u64 << 30)
        &&& self.page_size % 8 == 0
        &&& 5 <= self.shadow_bit <= 61
        &&& self.shadow_offset == pow2(self.shadow_bit as nat)
        &&& self.base_mapping_addr == 2 * self.shadow_offset
        &&& (2 * self.shadow_offset as int) % (self.page_size as int) == 0
        &&& self.base_mapping_addr <= self.current_mapping_addr <= 3 * self.shadow_offset
        &&& self.current_mapping_addr % self.page_size == 0
        &&& self.options.max_allocation <= (1u64 << 48)
        &&& self.options.max_total_allocation <= (1u64 << 60)
        &&& self.total_allocation_size <= self.options.max_total_allocation
        &&& self.live().dom().finite()
        &&& forall|k: u64| #[trigger]
            self.live().contains_key(k) ==> k == self.live()[k].address + self.page_size
        &&& forall|k: u64| #[trigger]
            self.live().contains_key(k) ==> self.meta_wf(self.live()[k])
        &&& forall|k: u64| #[trigger]
            self.live().contains_key(k) ==> self.record_shadow_ok(self.live()[k])
        &&& forall|i: int| 0 <= i < self.queue().len() ==> self.meta_wf(#[trigger] self.queue()[i])
        &&& forall|i: int|
            0 <= i < self.queue().len() ==> (#[trigger] self.queue()[i]).size == 0
                && !self.queue()[i].freed && self.queue()[i].allocation_site_backtrace.is_none()
                && self.queue()[i].release_site_backtrace.is_none()
        &&& forall|i: int|
            0 <= i < self.queue().len() ==> self.record_shadow_ok(#[trigger] self.queue()[i])
        &&& forall|k1: u64, k2: u64|
            self.live().contains_key(k1) && self.live().contains_key(k2) && k1 != k2
                ==> Self::regions_disjoint(#[trigger] self.live()[k1], #[trigger] self.live()[k2])
        &&& forall|k: u64, i: int|
            self.live().contains_key(k) && 0 <= i < self.queue().len() ==> Self::regions_disjoint(
                #[trigger] self.live()[k],
                #[trigger] self.queue()[i],
            )
        &&& forall|i: int, j: int|
            0 <= i < j < self.queue().len() ==> Self::regions_disjoint(
                self.queue()[i],
                self.queue()[j],
            )
        &&& forall|sa: u64|
            self.spec_shadow_cursor() <= sa ==> #[trigger] self.shadow.spec_byte(sa) == 0
    }

    /// Retrieve the shadow bit used by this allocator.
    pub fn shadow_bit(&self) -> (r: u32)
        requires
            self.wf(),
        ensures
            r == self.shadow_bit,
    {
        self.shadow_bit as u32
    }

    /// Checks if the given address is one the arena handed out.
    pub fn is_managed(&self, ptr: u64) -> (r: bool)
        ensures
            r == (self.base_mapping_addr <= ptr < self.current_mapping_addr),
    {
        self.base_mapping_addr <= ptr && ptr < self.current_mapping_addr
    }

    /// Rounds `size` up to the next page boundary.
    fn round_up_to_page(&self, size: u64) -> (r: u64)
        requires
            self.wf(),
            size <= (1u64 << 48),
        ensures
            r == self.spec_round_up_to_page(size),
            r % self.page_size == 0,
            size <= r <= size + self.page_size,
            self.page_size <= r,
    {
        proof {
            lemma_shift_values();
            lemma_round_up_props(size as int, self.page_size as int);
            let page = self.page_size as int;
            vstd::arithmetic::div_mod::lemma_div_by_self(page);
            lemma_div_is_ordered(page, size + page, page);
            vstd::arithmetic::mul::lemma_mul_inequality(1, (size + page) / page, page);
        }
        ((size + self.page_size) / self.page_size) * self.page_size
    }

    /// Rounds `value` down to a page boundary.
    fn round_down_to_page(&self, value: u64) -> (r: u64)
        requires
            self.wf(),
        ensures
            r == (value as int / self.page_size as int) * self.page_size,
            r <= value,
    {
        proof {
            lemma_fundamental_div_mod(value as int, self.page_size as int);
            lemma_mod_bound(value as int, self.page_size as int);
        }
        (value / self.page_size) * self.page_size
    }

    /// Maps a user address to the address of its shadow byte.
    pub fn map_to_shadow(&self, start: u64) -> (r: u64)
        requires
            5 <= self.shadow_bit <= 61,
            self.shadow_offset == pow2(self.shadow_bit as nat),
        ensures
            r == self.spec_map_to_shadow(start),
            self.shadow_offset <= r < 3 * self.shadow_offset,
    {
        proof {
            lemma_shadow_offset_bounds(self.shadow_bit);
            lemma_map_to_shadow_eq(self.shadow_bit, self.shadow_offset, start);
        }
        self.shadow_offset + ((start >> 3u64) & (((1u64 << (self.shadow_bit + 1)) - 1) as u64))
    }
}

/// The shadow offset fits comfortably in the address space.
pub proof fn lemma_shadow_offset_bounds(bit: u64)
    requires
        5 <= bit <= 61,
    ensures
        32 <= pow2(bit as nat),
        pow2(bit as nat) <= 0x2000000000000000,
        3 * pow2(bit as nat) <= u64::MAX,
        pow2((bit + 1) as nat) == 2 * pow2(bit as nat),
        pow2((bit + 1) as nat) <= u64::MAX,
{
    lemma2_to64();
    lemma2_to64_rest();
    lemma_pow2_adds(bit as nat, 1);
    assert(pow2(1) == 2);
    assert(pow2(5) == 32);
    assert(pow2(61) == 0x2000000000000000);
    assert(pow2(62) == 0x4000000000000000);
    if bit < 61 {
        lemma_pow2_strictly_increases(bit as nat, 61);
    }
    if 5 < bit {
        lemma_pow2_strictly_increases(5, bit as nat);
    }
}

/// The executable form of the shadow mapping equals its mathematical form.
proof fn lemma_map_to_shadow_eq(bit: u64, offset: u64, a: u64)
    requires
        5 <= bit <= 61,
        offset == pow2(bit as nat),
    ensures
        (((a >> 3u64) & (((1u64 << ((bit + 1) as u64)) - 1) as u64)) as int) == (a as int / 8) % (2
            * offset as int),
        offset + ((a as int / 8) % (2 * offset as int)) < 3 * offset,
        (1u64 << ((bit + 1) as u64)) == pow2((bit + 1) as nat),
        1 <= (1u64 << ((bit + 1) as u64)),
{
    lemma_shadow_offset_bounds(bit);
    lemma_u64_shr_is_div(a, 3u64);
    lemma2_to64();
    assert(pow2(3) == 8);
    lemma_u64_pow2_no_overflow((bit + 1) as nat);
    lemma_u64_shl_is_mul(1u64, (bit + 1) as u64);
    assert((1u64 << ((bit + 1) as u64)) == pow2((bit + 1) as nat));
    assert(((1u64 << ((bit + 1) as u64)) - 1) as u64 == low_bits_mask((bit + 1) as nat));
    lemma_u64_low_bits_mask_is_mod((a >> 3u64), (bit + 1) as nat);
    lemma_pow2_pos((bit + 1) as nat);
    lemma_mod_bound((a >> 3u64) as int, pow2((bit + 1) as nat) as int);
}

/// Numeric values of the shift constants the contracts use.
pub proof fn lemma_shift_values()
    ensures
        (1u64 << 30) == 0x40000000,
        (1u64 << 48) == 0x1000000000000,
        (1u64 << 60) == 0x1000000000000000,
{
    lemma_u64_pow2_no_overflow(30);
    lemma_u64_pow2_no_overflow(48);
    lemma_u64_pow2_no_overflow(60);
    lemma_u64_shl_is_mul(1u64, 30);
    lemma_u64_shl_is_mul(1u64, 48);
    lemma_u64_shl_is_mul(1u64, 60);
    lemma2_to64();
    lemma2_to64_rest();
}

/// Properties of rounding a size up to a page boundary.
proof fn lemma_round_up_props(size: int, page: int)
    requires
        0 <= size,
        0 < page,
    ensures
        ((size + page) / page) * page % page == 0,
        size <= ((size + page) / page) * page,
        ((size + page) / page) * page <= size + page,
{
    lemma_fundamental_div_mod(size + page, page);
    lemma_mod_bound(size + page, page);
    let q = (size + page) / page;
    lemma_mul_is_commutative(page, q);
    assert(q * page == (size + page) - ((size + page) % page));
    lemma_mod_multiple(q, page);
}

/// A multiple of `m` leaves no remainder.
proof fn lemma_mod_multiple(q: int, m: int)
    requires
        0 < m,
    ensures
        (q * m) % m == 0,
{
    lemma_mod_multiples_vanish(q, 0, m);
    lemma_small_mod(0nat, m as nat);
    assert(m * q == q * m) by {
        lemma_mul_is_commutative(m, q);
    };
}

impl Allocator {
    /// How many shadow bytes a poison or unpoison of `size` user bytes
    /// touches: one per whole block, one more for a trailing partial block.
    pub open spec fn spec_touched(size: u64) -> int {
        size as int / 8 + if size as int % 8 > 0 {
            1int
        } else {
            0int
        }
    }

    /// The value of the shadow byte describing a trailing partial block of
    /// `rem` addressable bytes: the high `rem` bits are set.
    pub open spec fn spec_tail_byte(rem: int) -> u8 {
        0xFFu8 << ((8 - rem) as u8)
    }

    /// Marks `size` bytes of user memory addressable, given the shadow
    /// address of their first block: whole blocks become `0xFF`, and a
    /// trailing partial block keeps its first `size % 8` bytes addressable.
    fn unpoison(&mut self, start: u64, size: u64)
        requires
            start + size / 8 + 1 <= u64::MAX,
        ensures
            (*final(self) == Allocator { shadow: final(self).shadow, ..*old(self) }),
            forall|x: u64|
                !(start <= x < start + Self::spec_touched(size)) ==> final(self).shadow.spec_byte(x)
                    == old(self).shadow.spec_byte(x),
            forall|j: int|
                0 <= j < size / 8 ==> #[trigger] final(self).shadow.spec_byte((start + j) as u64)
                    == 0xFFu8,
            size % 8 > 0 ==> final(self).shadow.spec_byte((start + size / 8) as u64)
                == Self::spec_tail_byte(size as int % 8),
    {
        self.shadow.fill(start, size / 8, 0xFF);
        let remainder = size % 8;
        if remainder > 0 {
            self.shadow.set_byte(start + size / 8, 0xFFu8 << ((8 - remainder) as u8));
        }
    }

    /// Marks `size` bytes of user memory unaddressable, given the shadow
    /// address of their first block. The trailing partial block, if any, is
    /// poisoned whole.
    pub fn poison(&mut self, start: u64, size: u64)
        requires
            start + size / 8 + 1 <= u64::MAX,
        ensures
            (*final(self) == Allocator { shadow: final(self).shadow, ..*old(self) }),
            forall|x: u64|
                !(start <= x < start + Self::spec_touched(size)) ==> final(self).shadow.spec_byte(x)
                    == old(self).shadow.spec_byte(x),
            forall|j: int|
                0 <= j < Self::spec_touched(size) ==> #[trigger] final(self).shadow.spec_byte((
                    start + j) as u64) == 0u8,
    {
        self.shadow.fill(start, size / 8, 0x0);
        let remainder = size % 8;
        if remainder > 0 {
            self.shadow.set_byte(start + size / 8, 0x00);
        }
    }

    /// Checks whether every byte of `[address, address + size)` is marked
    /// addressable in the shadow. A size of zero passes.
    ///
    /// The walk checks a possibly partial leading block against a mask of
    /// the bits that describe it, whole blocks against `0xFF`, and a
    /// trailing partial block against the mask of its leading bits.
    pub fn check_shadow(&self, address: u64, size: u64) -> (r: bool)
        requires
            self.wf(),
            address + size <= u64::MAX,
        ensures
            r == self.spec_shadow_ok(address, size),
    {
        if size == 0 {
            return true;
        }
        let mut a: u64 = address;
        let mut remaining: u64 = size;
        while remaining > 0
            invariant
                self.wf(),
                address <= a,
                a + remaining == address + size,
                address + size <= u64::MAX,
                forall|x: u64| address <= x < a ==> self.spec_addressable(x),
            decreases remaining,
        {
            let block_off: u64 = a % 8;
            let in_block: u64 = if 8 - block_off < remaining {
                8 - block_off
            } else {
                remaining
            };
            let sb = self.shadow.byte_at(self.map_to_shadow(a));
            let need: u8 = (0xFFu8 >> (block_off as u8)) & (0xFFu8 << ((8 - block_off - in_block)
                as u8));
            proof {
                lemma_mask_bits(sb, block_off, in_block);
            }
            if sb & need != need {
                proof {
                    let t = choose|t: int|
                        block_off <= t < block_off + in_block && !Allocator::byte_bit(sb, t);
                    let x = (a - block_off + t) as u64;
                    lemma_same_block(a, x);
                    assert(!self.spec_addressable(x));
                    assert(address <= x < address + size);
                }
                return false;
            }
            proof {
                assert forall|x: u64| a <= x < a + in_block implies self.spec_addressable(x) by {
                    lemma_same_block(a, x);
                    let t = x - (a - block_off);
                    assert(Allocator::byte_bit(sb, t));
                }
            }
            a = a + in_block;
            remaining = remaining - in_block;
        }
        true
    }
}

/// The mask of the shadow-byte bits that describe block offsets
/// `[off, off + cnt)`.
pub open spec fn need_mask(off: u8, cnt: u8) -> u8 {
    (0xFFu8 >> off) & (0xFFu8 << ((8 - off - cnt) as u8))
}

/// A shadow byte matches the mask for `[off, off + cnt)` exactly when every
/// bit describing those block offsets is set.
proof fn lemma_mask_bits(sb: u8, off: u64, cnt: u64)
    requires
        off + cnt <= 8,
        1 <= cnt,
    ensures
        (sb & need_mask(off as u8, cnt as u8) == need_mask(off as u8, cnt as u8)) <==> (forall|
            t: int,
        |
            off <= t < off + cnt ==> Allocator::byte_bit(sb, t)),
{
    let o = off as u8;
    let c = cnt as u8;
    assert((sb & ((0xFFu8 >> o) & (0xFFu8 << ((8 - o - c) as u8))) == ((0xFFu8 >> o) & (0xFFu8 << ((
    8 - o - c) as u8)))) <==> (((o <= 0 && 0 < o + c) ==> ((sb >> 7u8) & 1u8 == 1u8)) && ((o <= 1
        && 1 < o + c) ==> ((sb >> 6u8) & 1u8 == 1u8)) && ((o <= 2 && 2 < o + c) ==> ((sb >> 5u8)
        & 1u8 == 1u8)) && ((o <= 3 && 3 < o + c) ==> ((sb >> 4u8) & 1u8 == 1u8)) && ((o <= 4 && 4
        < o + c) ==> ((sb >> 3u8) & 1u8 == 1u8)) && ((o <= 5 && 5 < o + c) ==> ((sb >> 2u8) & 1u8
        == 1u8)) && ((o <= 6 && 6 < o + c) ==> ((sb >> 1u8) & 1u8 == 1u8)) && ((o <= 7 && 7 < o
        + c) ==> ((sb >> 0u8) & 1u8 == 1u8)))) by (bit_vector)
        requires
            o + c <= 8,
            1 <= c,
    ;
    if sb & need_mask(o, c) == need_mask(o, c) {
        assert forall|t: int| off <= t < off + cnt implies Allocator::byte_bit(sb, t) by {
            if t == 0 {
                assert((sb >> 7u8) & 1u8 == 1u8);
            } else if t == 1 {
                assert((sb >> 6u8) & 1u8 == 1u8);
            } else if t == 2 {
                assert((sb >> 5u8) & 1u8 == 1u8);
            } else if t == 3 {
                assert((sb >> 4u8) & 1u8 == 1u8);
            } else if t == 4 {
                assert((sb >> 3u8) & 1u8 == 1u8);
            } else if t == 5 {
                assert((sb >> 2u8) & 1u8 == 1u8);
            } else if t == 6 {
                assert((sb >> 1u8) & 1u8 == 1u8);
            } else {
                assert(t == 7);
                assert((sb >> 0u8) & 1u8 == 1u8);
            }
        }
    } else {
        assert(!((forall|t: int| off <= t < off + cnt ==> Allocator::byte_bit(sb, t)))) by {
            if (o <= 0 && 0 < o + c) && !((sb >> 7u8) & 1u8 == 1u8) {
                assert(!Allocator::byte_bit(sb, 0));
            } else if (o <= 1 && 1 < o + c) && !((sb >> 6u8) & 1u8 == 1u8) {
                assert(!Allocator::byte_bit(sb, 1));
            } else if (o <= 2 && 2 < o + c) && !((sb >> 5u8) & 1u8 == 1u8) {
                assert(!Allocator::byte_bit(sb, 2));
            } else if (o <= 3 && 3 < o + c) && !((sb >> 4u8) & 1u8 == 1u8) {
                assert(!Allocator::byte_bit(sb, 3));
            } else if (o <= 4 && 4 < o + c) && !((sb >> 3u8) & 1u8 == 1u8) {
                assert(!Allocator::byte_bit(sb, 4));
            } else if (o <= 5 && 5 < o + c) && !((sb >> 2u8) & 1u8 == 1u8) {
                assert(!Allocator::byte_bit(sb, 5));
            } else if (o <= 6 && 6 < o + c) && !((sb >> 1u8) & 1u8 == 1u8) {
                assert(!Allocator::byte_bit(sb, 6));
            } else if (o <= 7 && 7 < o + c) && !((sb >> 0u8) & 1u8 == 1u8) {
                assert(!Allocator::byte_bit(sb, 7));
            }
        }
    }
}

/// An address in the same eight-byte block as `a` shares its shadow byte;
/// its block offset is its distance from the block's base.
proof fn lemma_same_block(a: u64, x: u64)
    requires
        a - (a as int % 8) <= x < a - (a as int % 8) + 8,
    ensures
        x as int / 8 == a as int / 8,
        x as int % 8 == x - (a - (a as int % 8)),
{
    lemma_fundamental_div_mod(a as int, 8);
    lemma_mod_bound(a as int, 8);
    let t = x - (a - (a as int % 8));
    assert(x as int == 8 * (a as int / 8) + t);
    vstd::arithmetic::div_mod::lemma_div_multiples_vanish_fancy(a as int / 8, t, 8);
    lemma_mod_multiples_vanish(a as int / 8, t, 8);
    lemma_small_mod(t as nat, 8nat);
}

/// The largest end address, inside the 48-bit userspace window, of any
/// occupied range.
pub open spec fn spec_userspace_max(rs: Seq<(u64, u64)>) -> int
    decreases rs.len(),
{
    if rs.len() == 0 {
        0
    } else {
        let rest = spec_userspace_max(rs.drop_last());
        let e = rs.last().1 as int;
        if e <= pow2(48) && e > rest {
            e
        } else {
            rest
        }
    }
}

/// The smallest power of two above `um`, probing upward from `p`; 64 when
/// none is found below 64.
pub open spec fn spec_maxbit_from(um: int, p: int) -> int
    decreases 64 - p,
{
    if p < 1 || p >= 64 {
        64
    } else if pow2(p as nat) > um {
        p
    } else {
        spec_maxbit_from(um, p + 1)
    }
}

/// The smallest power of two above `um`.
pub open spec fn spec_maxbit(um: int) -> int {
    spec_maxbit_from(um, 1)
}

/// Whether `bit` can host the shadow layout: `[2^bit, 3 * 2^bit)` fits the
/// address space, the arena base is page-aligned, and no occupied range
/// meets the window.
pub open spec fn spec_candidate_suitable(page: u64, rs: Seq<(u64, u64)>, bit: int) -> bool {
    &&& 5 <= bit <= 61
    &&& (2 * pow2(bit as nat) as int) % (page as int) == 0
    &&& forall|i: int|
        0 <= i < rs.len() ==> !(pow2(bit as nat) <= (#[trigger] rs[i]).1 && rs[i].0 <= 3 * pow2(
            bit as nat,
        ))
}

/// The shadow bit the probe picks: the first suitable candidate of
/// `maxbit`, `maxbit - 4`, `maxbit - 3`, `maxbit - 2`; none when `maxbit`
/// is too small or every candidate is unsuitable.
pub open spec fn spec_chosen_shadow_bit(page: u64, rs: Seq<(u64, u64)>, um: int) -> Option<int> {
    let mb = spec_maxbit(um);
    if mb < 5 {
        None
    } else if spec_candidate_suitable(page, rs, mb) {
        Some(mb)
    } else if spec_candidate_suitable(page, rs, mb - 4) {
        Some(mb - 4)
    } else if spec_candidate_suitable(page, rs, mb - 3) {
        Some(mb - 3)
    } else if spec_candidate_suitable(page, rs, mb - 2) {
        Some(mb - 2)
    } else {
        None
    }
}

/// Whether `bit` can host the shadow layout, executably.
fn candidate_suitable(page_size: u64, occupied_ranges: &Vec<(u64, u64)>, bit: u64) -> (r: bool)
    requires
        8 <= page_size,
    ensures
        r == spec_candidate_suitable(page_size, occupied_ranges@, bit as int),
{
    if bit < 5 || bit > 61 {
        return false;
    }
    proof {
        lemma_shadow_offset_bounds(bit);
        lemma_u64_pow2_no_overflow(bit as nat);
        lemma_u64_shl_is_mul(1u64, bit);
    }
    let offset = 1u64 << bit;
    if (2 * offset) % page_size != 0 {
        return false;
    }
    let shadow_start = offset;
    let shadow_end = 3 * offset;
    let mut i: usize = 0;
    while i < occupied_ranges.len()
        invariant
            i <= occupied_ranges.len(),
            offset == pow2(bit as nat),
            shadow_start == offset,
            shadow_end == 3 * pow2(bit as nat),
            forall|j: int|
                0 <= j < i ==> !(pow2(bit as nat) <= (#[trigger] occupied_ranges@[j]).1
                    && occupied_ranges@[j].0 <= 3 * pow2(bit as nat)),
        decreases occupied_ranges.len() - i,
    {
        let range = occupied_ranges[i];
        if shadow_start <= range.1 && range.0 <= shadow_end {
            return false;
        }
        i = i + 1;
    }
    true
}

impl Allocator {
    /// Creates a new allocator.
    ///
    /// The caller hands in the page size and the process's currently
    /// occupied memory ranges. The probe computes the largest userspace end
    /// address within the 48-bit window, the smallest power of two above
    /// it, and tries that bit and three smaller fallbacks as the shadow
    /// bit; the first whose window `[2^bit, 3 * 2^bit)` is page-aligned and
    /// meets no occupied range is taken. Returns `None` when no candidate
    /// fits: a setup failure the caller treats as fatal.
    pub fn new(options: FuzzerOptions, page_size: u64, occupied_ranges: Vec<(u64, u64)>) -> (r:
        Option<Allocator>)
        requires
            8 <= page_size <= (1u64 << 30),
            page_size % 8 == 0,
            options.max_allocation <= (1u64 << 48),
            options.max_total_allocation <= (1u64 << 60),
        ensures
            match r {
                Some(a) => {
                    &&& a.wf()
                    &&& a.options == options
                    &&& a.page_size == page_size
                    &&& Some(a.shadow_bit as int) == spec_chosen_shadow_bit(
                        page_size,
                        occupied_ranges@,
                        spec_userspace_max(occupied_ranges@),
                    )
                    &&& a.live() == empty_table()
                    &&& a.queue().len() == 0
                    &&& a.total_allocation_size == 0
                    &&& a.largest_allocation == 0
                    &&& a.current_mapping_addr == a.base_mapping_addr
                    &&& forall|sa: u64| a.shadow.spec_byte(sa) == 0
                },
                None => spec_chosen_shadow_bit(
                    page_size,
                    occupied_ranges@,
                    spec_userspace_max(occupied_ranges@),
                ) is None,
            },
    {
        proof {
            lemma_shift_values();
            lemma_u64_pow2_no_overflow(48);
            lemma_u64_shl_is_mul(1u64, 48);
        }
        let two48 = 1u64 << 48;
        let ghost rs = occupied_ranges@;

        let mut userspace_max: u64 = 0;
        let mut idx: usize = 0;
        while idx < occupied_ranges.len()
            invariant
                idx <= occupied_ranges.len(),
                two48 == pow2(48),
                rs == occupied_ranges@,
                userspace_max as int == spec_userspace_max(rs.take(idx as int)),
                userspace_max <= two48,
            decreases occupied_ranges.len() - idx,
        {
            let range = occupied_ranges[idx];
            proof {
                assert(rs.take(idx as int + 1).drop_last() =~= rs.take(idx as int));
                assert(rs.take(idx as int + 1).last() == rs[idx as int]);
            }
            if range.1 <= two48 && range.1 > userspace_max {
                userspace_max = range.1;
            }
            idx = idx + 1;
        }
        proof {
            assert(rs.take(rs.len() as int) =~= rs);
        }
        let ghost um = spec_userspace_max(rs);

        let mut maxbit: u64 = 64;
        let mut power: u64 = 1;
        let mut found = false;
        while power < 64 && !found
            invariant
                1 <= power <= 64,
                two48 == pow2(48),
                userspace_max as int == um,
                userspace_max <= two48,
                !found ==> spec_maxbit(um) == spec_maxbit_from(um, power as int),
                !found ==> maxbit == 64,
                found ==> maxbit == spec_maxbit(um),
                found ==> 1 <= maxbit < 64,
            decreases 64 - power + if found {
                0int
            } else {
                1int
            },
        {
            proof {
                lemma_u64_pow2_no_overflow(power as nat);
                lemma_u64_shl_is_mul(1u64, power);
            }
            if (1u64 << power) > userspace_max {
                maxbit = power;
                found = true;
            } else {
                power = power + 1;
            }
        }
        proof {
            if !found {
                lemma_pow2_strictly_increases(48, 49);
                assert(spec_maxbit(um) == spec_maxbit_from(um, power as int));
            }
        }
        assert(maxbit == spec_maxbit(um));

        if maxbit < 5 {
            return None;
        }
        let bit: u64 = if candidate_suitable(page_size, &occupied_ranges, maxbit) {
            maxbit
        } else if candidate_suitable(page_size, &occupied_ranges, maxbit - 4) {
            maxbit - 4
        } else if candidate_suitable(page_size, &occupied_ranges, maxbit - 3) {
            maxbit - 3
        } else if candidate_suitable(page_size, &occupied_ranges, maxbit - 2) {
            maxbit - 2
        } else {
            return None;
        };

        proof {
            lemma_shadow_offset_bounds(bit);
            lemma_u64_pow2_no_overflow(bit as nat);
            lemma_u64_shl_is_mul(1u64, bit);
        }
        let shadow_offset = 1u64 << bit;
        let a = Allocator {
            options,
            page_size,
            shadow_offset,
            shadow_bit: bit,
            allocations: AllocTable::new(),
            shadow: ShadowMemory::new(),
            allocation_queue: Vec::new(),
            largest_allocation: 0,
            total_allocation_size: 0,
            base_mapping_addr: 2 * shadow_offset,
            current_mapping_addr: 2 * shadow_offset,
        };
        proof {
            assert(a.live() =~= empty_table());
            assert(a.live().dom() =~= Set::<u64>::empty());
        }
        Some(a)
    }
}

/// Division by eight is monotone over an aligned boundary: an address below
/// an eight-aligned bound has a strictly smaller block index.
proof fn lemma_div8_lt(a: int, p: int)
    requires
        0 <= a < p,
        p % 8 == 0,
    ensures
        a / 8 < p / 8,
{
    lemma_fundamental_div_mod(p, 8);
    lemma_fundamental_div_mod(a, 8);
    lemma_mod_bound(a, 8);
}

/// Splitting an offset off an eight-aligned base: block index and offset
/// within the block add independently.
proof fn lemma_div8_split(p: int, t: int)
    requires
        0 <= p,
        0 <= t,
        p % 8 == 0,
    ensures
        (p + t) / 8 == p / 8 + t / 8,
        (p + t) % 8 == t % 8,
{
    lemma_fundamental_div_mod(p, 8);
    lemma_fundamental_div_mod(t, 8);
    lemma_mod_bound(t, 8);
    vstd::arithmetic::div_mod::lemma_div_multiples_vanish_fancy(p / 8 + t / 8, t % 8, 8);
    lemma_mod_multiples_vanish(p / 8 + t / 8, t % 8, 8);
    lemma_small_mod((t % 8) as nat, 8nat);
    assert(p + t == 8 * (p / 8 + t / 8) + t % 8) by {
        assert(8 * (p / 8 + t / 8) == 8 * (p / 8) + 8 * (t / 8));
    }
}

/// Inside the modelled window the shadow mapping does not wrap: it is the
/// reservation base plus the block index.
proof fn lemma_smap_vanish(offset: u64, a: u64)
    requires
        0 < offset,
        a < 16 * offset,
    ensures
        (a as int / 8) % (2 * offset as int) == a as int / 8,
        0 <= a as int / 8 < 2 * offset,
{
    vstd::arithmetic::div_mod::lemma_multiply_divide_lt(a as int, 8, 2 * offset as int);
    lemma_mod_bound(a as int, 8);
    lemma_fundamental_div_mod(a as int, 8);
    lemma_small_mod((a as int / 8) as nat, (2 * offset as int) as nat);
}

/// A bit of the tail byte for `rem` addressable bytes is set exactly for
/// block offsets below `rem`. With `rem == 8` this is the full byte.
proof fn lemma_bit_tail(rem: int, t: int)
    requires
        1 <= rem <= 8,
        0 <= t < 8,
    ensures
        Allocator::byte_bit(Allocator::spec_tail_byte(rem), t) <==> t < rem,
{
    let r = rem as u8;
    let tt = t as u8;
    assert((((0xFFu8 << ((8 - r) as u8)) >> ((7 - tt) as u8)) & 1u8 == 1u8) <==> tt < r)
        by (bit_vector)
        requires
            1 <= r <= 8,
            tt < 8,
    ;
    assert(Allocator::spec_tail_byte(rem) == 0xFFu8 << ((8 - r) as u8));
    assert((7 - t) as u8 == (7 - tt) as u8);
}

/// No bit of a zero byte is set.
proof fn lemma_bit_zero(t: int)
    requires
        0 <= t < 8,
    ensures
        !Allocator::byte_bit(0u8, t),
{
    let tt = t as u8;
    assert((0u8 >> ((7 - tt) as u8)) & 1u8 == 0u8) by (bit_vector);
    assert((7 - t) as u8 == (7 - tt) as u8);
}

/// Every bit of `0xFF` is set.
proof fn lemma_bit_full(t: int)
    requires
        0 <= t < 8,
    ensures
        Allocator::byte_bit(0xFFu8, t),
{
    lemma_bit_tail(8, t);
    assert(Allocator::spec_tail_byte(8) == 0xFFu8) by {
        assert(0xFFu8 << 0u8 == 0xFFu8) by (bit_vector);
    }
}

/// A byte none of whose bits is set is zero.
proof fn lemma_byte_zero(b: u8)
    requires
        forall|t: int| 0 <= t < 8 ==> !Allocator::byte_bit(b, t),
    ensures
        b == 0,
{
    assert(!Allocator::byte_bit(b, 0) && !Allocator::byte_bit(b, 1) && !Allocator::byte_bit(b, 2)
        && !Allocator::byte_bit(b, 3) && !Allocator::byte_bit(b, 4) && !Allocator::byte_bit(b, 5)
        && !Allocator::byte_bit(b, 6) && !Allocator::byte_bit(b, 7));
    assert((((b >> 7u8) & 1u8 != 1u8) && ((b >> 6u8) & 1u8 != 1u8) && ((b >> 5u8) & 1u8 != 1u8) && (
    (b >> 4u8) & 1u8 != 1u8) && ((b >> 3u8) & 1u8 != 1u8) && ((b >> 2u8) & 1u8 != 1u8) && ((b
        >> 1u8) & 1u8 != 1u8) && ((b >> 0u8) & 1u8 != 1u8)) ==> b == 0) by (bit_vector);
}

/// Two allocators with the same configuration whose shadows agree outside
/// the shadow bytes of one region decide addressability identically outside
/// that region, over the whole modelled window.
proof fn lemma_outside_region_preserved(s1: Allocator, s2: Allocator, region_base: u64, region_size: u64)
    requires
        s2.shadow_offset == s1.shadow_offset,
        0 < s1.shadow_offset,
        3 * s1.shadow_offset <= u64::MAX,
        region_base % 8 == 0,
        region_size % 8 == 0,
        2 * s1.shadow_offset <= region_base,
        region_base + region_size <= 3 * s1.shadow_offset,
        forall|x: u64|
            !(s1.shadow_offset + region_base as int / 8 <= x < s1.shadow_offset + (region_base
                + region_size) as int / 8) ==> s2.shadow.spec_byte(x) == s1.shadow.spec_byte(x),
    ensures
        forall|a: u64|
            a < 3 * s1.shadow_offset && !(region_base <= a < region_base + region_size)
                ==> (#[trigger] s2.spec_addressable(a)) == s1.spec_addressable(a),
{
    let o = s1.shadow_offset;
    assert forall|a: u64|
        a < 3 * o && !(region_base <= a < region_base + region_size) implies (
    #[trigger] s2.spec_addressable(a)) == s1.spec_addressable(a) by {
        lemma_smap_vanish(o, a);
        lemma_div8_split(region_base as int, region_size as int);
        if a < region_base {
            lemma_div8_lt(a as int, region_base as int);
        } else {
            lemma_div_is_ordered((region_base + region_size) as int, a as int, 8);
        }
        assert(s2.spec_map_to_shadow(a) == s1.spec_map_to_shadow(a));
        assert(s2.shadow.spec_byte(s2.spec_map_to_shadow(a) as u64) == s1.shadow.spec_byte(
            s1.spec_map_to_shadow(a) as u64,
        ));
    }
}

/// After poisoning the user range of a region whose only addressable bytes
/// lay in that user range, nothing in the region is addressable, and no
/// shadow byte outside the region's shadow changed.
proof fn lemma_region_after_poison(
    s1: Allocator,
    s2: Allocator,
    region_base: u64,
    region_size: u64,
    size: u64,
)
    requires
        s2.shadow_offset == s1.shadow_offset,
        s2.page_size == s1.page_size,
        8 <= s1.page_size,
        s1.page_size % 8 == 0,
        0 < s1.shadow_offset,
        3 * s1.shadow_offset <= u64::MAX,
        region_base % 8 == 0,
        region_size % 8 == 0,
        2 * s1.shadow_offset <= region_base,
        region_base + region_size <= 3 * s1.shadow_offset,
        size + 2 * s1.page_size <= region_size,
        forall|a: u64|
            region_base <= a < region_base + region_size ==> (#[trigger] s1.spec_addressable(a)
                ==> region_base + s1.page_size <= a < region_base + s1.page_size + size),
        forall|x: u64|
            !(s1.spec_map_to_shadow((region_base + s1.page_size) as u64) <= x
                < s1.spec_map_to_shadow((region_base + s1.page_size) as u64)
                + Allocator::spec_touched(size)) ==> s2.shadow.spec_byte(x)
                == s1.shadow.spec_byte(x),
        forall|j: int|
            0 <= j < Allocator::spec_touched(size) ==> #[trigger] s2.shadow.spec_byte(
                (s1.spec_map_to_shadow((region_base + s1.page_size) as u64) + j) as u64,
            ) == 0u8,
    ensures
        forall|a: u64|
            region_base <= a < region_base + region_size ==> !(#[trigger] s2.spec_addressable(a)),
        forall|x: u64|
            !(s1.shadow_offset + region_base as int / 8 <= x < s1.shadow_offset + (region_base
                + region_size) as int / 8) ==> s2.shadow.spec_byte(x) == s1.shadow.spec_byte(x),
    {
    let o = s1.shadow_offset;
    let page = s1.page_size;
    let p = (region_base + page) as u64;
    lemma_smap_vanish(o, p);
    lemma_div8_split(region_base as int, page as int);
    lemma_div8_split(region_base as int, region_size as int);
    let sstart = s1.spec_map_to_shadow(p);
    let touched = Allocator::spec_touched(size);
    assert(sstart == o + p as int / 8);
    // the touched bytes stay inside the region's shadow bytes
    assert(8 * (size as int / 8) <= size) by {
        lemma_fundamental_div_mod(size as int, 8);
        lemma_mod_bound(size as int, 8);
    }
    assert(p as int / 8 + touched <= (region_base + region_size) as int / 8) by {
        lemma_div8_split(p as int, (8 * touched) as int);
        assert((p + 8 * touched) as int / 8 == p as int / 8 + touched) by {
            vstd::arithmetic::div_mod::lemma_div_multiples_vanish(touched, 8);
        }
        assert(p + 8 * touched <= region_base + region_size);
        lemma_div_is_ordered((p + 8 * touched) as int, (region_base + region_size) as int, 8);
    }
    assert forall|a: u64| region_base <= a < region_base + region_size implies !(
    #[trigger] s2.spec_addressable(a)) by {
        lemma_smap_vanish(o, a);
        let x = (o + a as int / 8) as u64;
        assert(s2.spec_map_to_shadow(a) == x);
        if x < sstart || x >= sstart + touched {
            // untouched byte: the old bit decides, and it was outside the
            // old live range or unset
            assert(s2.shadow.spec_byte(x) == s1.shadow.spec_byte(x));
            assert(s2.spec_addressable(a) == s1.spec_addressable(a));
            if s1.spec_addressable(a) {
                assert(region_base + page <= a < region_base + page + size);
                // a lies in a block whose byte was rewritten: contradiction
                lemma_div8_split(p as int, (a - p) as int);
                assert(a as int / 8 == p as int / 8 + (a - p) as int / 8);
                assert((a - p) as int / 8 < touched) by {
                    lemma_fundamental_div_mod((a - p) as int, 8);
                    lemma_mod_bound((a - p) as int, 8);
                }
                assert(false);
            }
        } else {
            // a rewritten byte is zero
            assert(s2.shadow.spec_byte(x) == 0u8) by {
                let j = x as int - sstart;
                assert(s2.shadow.spec_byte((sstart + j) as u64) == 0u8);
            }
            lemma_mod_bound(a as int, 8);
            lemma_bit_zero(a as int % 8);
        }
    }
}

/// After unpoisoning `size` bytes at the user pointer of a region whose
/// shadow bytes were all zero, exactly the user range is addressable, and
/// no shadow byte outside the region's shadow changed.
proof fn lemma_region_after_unpoison(
    s1: Allocator,
    s2: Allocator,
    region_base: u64,
    region_size: u64,
    size: u64,
)
    requires
        s2.shadow_offset == s1.shadow_offset,
        s2.page_size == s1.page_size,
        8 <= s1.page_size,
        s1.page_size % 8 == 0,
        0 < s1.shadow_offset,
        3 * s1.shadow_offset <= u64::MAX,
        region_base % 8 == 0,
        region_size % 8 == 0,
        2 * s1.shadow_offset <= region_base,
        region_base + region_size <= 3 * s1.shadow_offset,
        size + 2 * s1.page_size <= region_size,
        forall|x: u64|
            s1.shadow_offset + region_base as int / 8 <= x < s1.shadow_offset + (region_base
                + region_size) as int / 8 ==> s1.shadow.spec_byte(x) == 0u8,
        forall|x: u64|
            !(s1.spec_map_to_shadow((region_base + s1.page_size) as u64) <= x
                < s1.spec_map_to_shadow((region_base + s1.page_size) as u64)
                + Allocator::spec_touched(size)) ==> s2.shadow.spec_byte(x)
                == s1.shadow.spec_byte(x),
        forall|j: int|
            0 <= j < size as int / 8 ==> #[trigger] s2.shadow.spec_byte(
                (s1.spec_map_to_shadow((region_base + s1.page_size) as u64) + j) as u64,
            ) == 0xFFu8,
        size as int % 8 > 0 ==> s2.shadow.spec_byte(
            (s1.spec_map_to_shadow((region_base + s1.page_size) as u64) + size as int / 8) as u64,
        ) == Allocator::spec_tail_byte(size as int % 8),
    ensures
        forall|a: u64|
            region_base <= a < region_base + region_size ==> ((#[trigger] s2.spec_addressable(a))
                <==> region_base + s1.page_size <= a < region_base + s1.page_size + size),
        forall|x: u64|
            !(s1.shadow_offset + region_base as int / 8 <= x < s1.shadow_offset + (region_base
                + region_size) as int / 8) ==> s2.shadow.spec_byte(x) == s1.shadow.spec_byte(x),
{
    let o = s1.shadow_offset;
    let page = s1.page_size;
    let p = (region_base + page) as u64;
    lemma_smap_vanish(o, p);
    lemma_div8_split(region_base as int, page as int);
    lemma_div8_split(region_base as int, region_size as int);
    let sstart = s1.spec_map_to_shadow(p);
    let touched = Allocator::spec_touched(size);
    assert(sstart == o + p as int / 8);
    assert(8 * (size as int / 8) <= size) by {
        lemma_fundamental_div_mod(size as int, 8);
        lemma_mod_bound(size as int, 8);
    }
    assert(p as int / 8 + touched <= (region_base + region_size) as int / 8) by {
        assert((p + 8 * touched) as int / 8 == p as int / 8 + touched) by {
            lemma_div8_split(p as int, (8 * touched) as int);
            vstd::arithmetic::div_mod::lemma_div_multiples_vanish(touched, 8);
        }
        assert(p + 8 * touched <= region_base + region_size);
        lemma_div_is_ordered((p + 8 * touched) as int, (region_base + region_size) as int, 8);
    }
    assert forall|a: u64| region_base <= a < region_base + region_size implies ((
    #[trigger] s2.spec_addressable(a)) <==> region_base + page <= a < region_base + page + size) by {
        lemma_smap_vanish(o, a);
        let x = (o + a as int / 8) as u64;
        assert(s2.spec_map_to_shadow(a) == x);
        lemma_mod_bound(a as int, 8);
        if a < p {
            // below the user pointer: its block lies below the written range
            lemma_div8_lt(a as int, p as int);
            assert(s2.shadow.spec_byte(x) == s1.shadow.spec_byte(x));
            assert(s1.shadow.spec_byte(x) == 0u8);
            lemma_bit_zero(a as int % 8);
        } else {
            lemma_div8_split(p as int, (a - p) as int);
            let j = (a - p) as int / 8;
            let t = (a - p) as int % 8;
            assert(a as int / 8 == p as int / 8 + j);
            assert(a as int % 8 == t) by {
                lemma_fundamental_div_mod(a as int, 8);
            }
            lemma_fundamental_div_mod((a - p) as int, 8);
            lemma_mod_bound((a - p) as int, 8);
            if j < size as int / 8 {
                assert(s2.shadow.spec_byte((sstart + j) as u64) == 0xFFu8);
                assert(x as int == sstart + j);
                lemma_bit_full(t);
                assert(Allocator::spec_tail_byte(8) == 0xFFu8) by {
                    assert(0xFFu8 << 0u8 == 0xFFu8) by (bit_vector);
                }
                assert(a - p < size);
            } else if j == size as int / 8 && size as int % 8 > 0 {
                assert(x as int == sstart + j);
                assert(s2.shadow.spec_byte(x) == Allocator::spec_tail_byte(size as int % 8));
                lemma_bit_tail(size as int % 8, t);
                assert((a - p < size) <==> (t < size as int % 8));
            } else {
                // past the written range: untouched and zero
                assert(x as int >= sstart + touched);
                assert(s2.shadow.spec_byte(x) == s1.shadow.spec_byte(x));
                assert(s1.shadow.spec_byte(x) == 0u8);
                lemma_bit_zero(t);
                assert(a - p >= size);
            }
        }
    }
}

impl Allocator {
    /// Releases the allocation at the given user pointer.
    ///
    /// A null pointer is ignored. A pointer the allocator never handed out
    /// is reported as an `UnallocatedFree` and nothing else changes.
    /// Releasing an allocation that is already freed is reported as a
    /// `DoubleFree`, and the release then proceeds as usual: the record is
    /// marked freed and the user range's shadow is poisoned. The mapping is
    /// retained so that later touches of the freed range are caught by
    /// shadow inspection rather than a fault.
    pub fn release(&mut self, ptr: u64, errors: &mut AsanErrors)
        requires
            old(self).wf(),
        ensures
            final(self).wf(),
            final(self).options == old(self).options,
            final(self).page_size == old(self).page_size,
            final(self).shadow_bit == old(self).shadow_bit,
            final(self).shadow_offset == old(self).shadow_offset,
            final(self).base_mapping_addr == old(self).base_mapping_addr,
            final(self).current_mapping_addr == old(self).current_mapping_addr,
            final(self).total_allocation_size == old(self).total_allocation_size,
            final(self).largest_allocation == old(self).largest_allocation,
            final(self).queue() == old(self).queue(),
            !old(self).live().contains_key(ptr) ==> *final(self) == *old(self),
            !old(self).live().contains_key(ptr) && ptr == 0 ==> final(errors)@ == old(errors)@,
            !old(self).live().contains_key(ptr) && ptr != 0 ==> exists|bt: Vec<u64>|
                final(errors)@ == old(errors)@.push(
                    AsanError::UnallocatedFree { address: ptr, backtrace: bt },
                ),
            old(self).live().contains_key(ptr) ==> {
                let m = old(self).live()[ptr];
                let m2 = final(self).live()[ptr];
                &&& final(self).live().dom() == old(self).live().dom()
                &&& forall|k: u64|
                    #[trigger] final(self).live().contains_key(k) && k != ptr
                        ==> final(self).live()[k] == old(self).live()[k]
                &&& m2.address == m.address
                &&& m2.size == m.size
                &&& m2.actual_size == m.actual_size
                &&& m2.is_malloc_zero == m.is_malloc_zero
                &&& m2.allocation_site_backtrace == m.allocation_site_backtrace
                &&& m2.freed
                &&& old(self).options.allocation_backtraces ==> m2.release_site_backtrace.is_some()
                &&& !old(self).options.allocation_backtraces ==> m2.release_site_backtrace
                    == m.release_site_backtrace
                &&& forall|a: u64| ptr <= a < ptr + m.size ==> !final(self).spec_addressable(a)
                &&& forall|a: u64|
                    a < 3 * old(self).shadow_offset && !(m.address <= a < m.address
                        + m.actual_size) ==> final(self).spec_addressable(a)
                        == old(self).spec_addressable(a)
                &&& m.freed ==> exists|bt: Vec<u64>|
                    final(errors)@ == old(errors)@.push(
                        AsanError::DoubleFree { address: ptr, metadata: m, backtrace: bt },
                    )
                &&& !m.freed ==> final(errors)@ == old(errors)@
            },
    {
        let found = self.allocations.get(ptr);
        match found {
            None => {
                if ptr != 0 {
                    let bt = capture_stack();
                    errors.report_error(AsanError::UnallocatedFree { address: ptr, backtrace: bt });
                }
            },
            Some(m) => {
                let ghost s0 = *self;
                let ghost old_m = m;
                if m.freed {
                    let bt = capture_stack();
                    errors.report_error(
                        AsanError::DoubleFree { address: ptr, metadata: m, backtrace: bt },
                    );
                }
                let shadow_start = self.map_to_shadow(ptr);
                let mut m2 = self.allocations.get(ptr).unwrap();
                let size = m2.size;
                m2.freed = true;
                if self.options.allocation_backtraces {
                    m2.release_site_backtrace = Some(capture_stack());
                }
                self.allocations.insert(ptr, m2);
                let ghost s1 = *self;
                proof {
                    lemma_shadow_offset_bounds(self.shadow_bit);
                    assert(s0.meta_wf(old_m));
                    assert(ptr == old_m.address + s0.page_size);
                    assert(size + s0.page_size <= old_m.actual_size);
                    assert(size as int / 8 <= size) by {
                        lemma_fundamental_div_mod(size as int, 8);
                        lemma_mod_bound(size as int, 8);
                    }
                    assert(shadow_start + size as int / 8 + 1 <= u64::MAX);
                }
                self.poison(shadow_start, size);
                proof {
                    let s2 = *self;
                    let aa = old_m.address;
                    let act = old_m.actual_size;
                    assert(aa % 8 == 0 && act % 8 == 0) by {
                        lemma_mod_8_of_page_multiple(aa as int, s0.page_size as int);
                        lemma_mod_8_of_page_multiple(act as int, s0.page_size as int);
                    }
                    assert(s1.shadow == s0.shadow);
                    assert forall|a: u64| s1.spec_addressable(a) == s0.spec_addressable(a) by {
                        assert(s1.spec_map_to_shadow(a) == s0.spec_map_to_shadow(a));
                    }
                    assert forall|a: u64|
                        aa <= a < aa + act implies (s1.spec_addressable(a) ==> aa + s1.page_size
                        <= a < aa + s1.page_size + size) by {
                        assert(s0.record_shadow_ok(old_m));
                        if s1.spec_addressable(a) {
                            assert(s0.spec_addressable(a));
                        }
                    }
                    assert(shadow_start == s1.spec_map_to_shadow((aa + s1.page_size) as u64));
                    lemma_region_after_poison(s1, s2, aa, act, size);
                    lemma_outside_region_preserved(s1, s2, aa, act);
                    // the new record encodes a live extent of zero
                    assert(s2.record_shadow_ok(s2.live()[ptr]));
                    // every other record keeps its encoding
                    assert forall|k: u64|
                        #[trigger] s2.live().contains_key(k) && k != ptr implies s2.record_shadow_ok(
                        s2.live()[k],
                    ) by {
                        let mk = s2.live()[k];
                        assert(s0.live().contains_key(k) && s0.live()[k] == mk);
                        assert(Allocator::regions_disjoint(old_m, mk));
                        assert forall|a: u64| mk.address <= a < mk.address + mk.actual_size implies (
                        #[trigger] s2.spec_addressable(a) <==> mk.address + s2.page_size <= a
                            < mk.address + s2.page_size + Allocator::spec_live_extent(mk)) by {
                            assert(s2.spec_addressable(a) == s1.spec_addressable(a));
                            assert(s0.record_shadow_ok(mk));
                        }
                    }
                    assert forall|i: int| 0 <= i < s2.queue().len() implies s2.record_shadow_ok(
                        #[trigger] s2.queue()[i],
                    ) by {
                        let mk = s2.queue()[i];
                        assert(Allocator::regions_disjoint(old_m, mk));
                        assert forall|a: u64| mk.address <= a < mk.address + mk.actual_size implies (
                        #[trigger] s2.spec_addressable(a) <==> mk.address + s2.page_size <= a
                            < mk.address + s2.page_size + Allocator::spec_live_extent(mk)) by {
                            assert(s2.spec_addressable(a) == s1.spec_addressable(a));
                            assert(s0.record_shadow_ok(mk));
                        }
                    }
                    // bytes at or past the cursor kept their value
                    assert forall|sa: u64| s2.spec_shadow_cursor() <= sa implies #[trigger] s2.shadow.spec_byte(sa)
                        == 0 by {
                        lemma_div_is_ordered((aa + act) as int, s2.current_mapping_addr as int, 8);
                        assert(s2.shadow.spec_byte(sa) == s1.shadow.spec_byte(sa));
                    }
                    assert(s2.live().dom() =~= s0.live().dom());
                    assert(s2.wf());
                }
            },
        }
    }

    /// Gets the usable size of the allocation at the given user pointer.
    pub fn get_usable_size(&self, ptr: u64) -> (r: u64)
        requires
            self.wf(),
            self.live().contains_key(ptr),
        ensures
            r == self.live()[ptr].size,
    {
        self.allocations.get(ptr).unwrap().size
    }
}

/// A multiple of the page size is a multiple of eight.
proof fn lemma_mod_8_of_page_multiple(v: int, page: int)
    requires
        0 <= v,
        8 <= page,
        page % 8 == 0,
        v % page == 0,
    ensures
        v % 8 == 0,
{
    lemma_fundamental_div_mod(v, page);
    lemma_fundamental_div_mod(page, 8);
    let q = v / page;
    let pq = page / 8;
    assert(v == page * q);
    assert(page == 8 * pq);
    assert(v == 8 * (pq * q)) by {
        assert((8 * pq) * q == 8 * (pq * q)) by {
            vstd::arithmetic::mul::lemma_mul_is_associative(8, pq, q);
        }
    }
    lemma_mod_multiples_vanish(pq * q, 0, 8);
    lemma_small_mod(0nat, 8nat);
}

/// Whether a queued record's raw mapping can back a request that needs
/// `need` bytes.
pub open spec fn spec_fits(m: AllocationMetadata, need: int) -> bool {
    need <= m.actual_size
}

/// No queued record can back a request that needs `need` bytes.
pub open spec fn spec_no_fit(q: Seq<AllocationMetadata>, need: int) -> bool {
    forall|j: int| 0 <= j < q.len() ==> !spec_fits(#[trigger] q[j], need)
}

/// Index `i` holds the record the reuse scan picks for `need` bytes: it
/// fits, no fitting record is smaller, and it is the last of its size.
pub open spec fn spec_is_best_fit(q: Seq<AllocationMetadata>, need: int, i: int) -> bool {
    &&& 0 <= i < q.len()
    &&& spec_fits(q[i], need)
    &&& forall|j: int|
        0 <= j < q.len() && spec_fits(#[trigger] q[j], need) ==> q[i].actual_size
            <= q[j].actual_size
    &&& forall|j: int|
        i < j < q.len() ==> !(spec_fits(#[trigger] q[j], need) && q[j].actual_size
            == q[i].actual_size)
}

/// In a region none of whose addresses is addressable, every shadow byte of
/// the region is zero: each of its bits describes an address of the region.
proof fn lemma_region_bytes_zero(s: Allocator, region_base: u64, region_size: u64)
    requires
        0 < s.shadow_offset,
        3 * s.shadow_offset <= u64::MAX,
        region_base % 8 == 0,
        region_size % 8 == 0,
        2 * s.shadow_offset <= region_base,
        region_base + region_size <= 3 * s.shadow_offset,
        forall|a: u64|
            region_base <= a < region_base + region_size ==> !(#[trigger] s.spec_addressable(a)),
    ensures
        forall|x: u64|
            s.shadow_offset + region_base as int / 8 <= x < s.shadow_offset + (region_base
                + region_size) as int / 8 ==> s.shadow.spec_byte(x) == 0u8,
{
    let o = s.shadow_offset;
    lemma_div8_split(region_base as int, region_size as int);
    assert forall|x: u64|
        o + region_base as int / 8 <= x < o + (region_base + region_size) as int / 8 implies s.shadow.spec_byte(
        x,
    ) == 0u8 by {
        let block = 8 * (x - o);
        assert(region_base <= block && block + 8 <= region_base + region_size) by {
            lemma_fundamental_div_mod(region_base as int, 8);
            lemma_fundamental_div_mod((region_base + region_size) as int, 8);
        }
        assert forall|t: int| 0 <= t < 8 implies !Allocator::byte_bit(s.shadow.spec_byte(x), t) by {
            let a = (block + t) as u64;
            assert(region_base <= a < region_base + region_size);
            assert(!s.spec_addressable(a));
            lemma_smap_vanish(o, a);
            assert(a as int / 8 == x - o && a as int % 8 == t) by {
                vstd::arithmetic::div_mod::lemma_div_multiples_vanish_fancy((x - o) as int, t, 8);
                lemma_mod_multiples_vanish((x - o) as int, t, 8);
                lemma_small_mod(t as nat, 8nat);
            }
            assert(s.spec_map_to_shadow(a) == x);
        }
        lemma_byte_zero(s.shadow.spec_byte(x));
    }
}

impl Allocator {
    /// Takes the queued record the reuse policy picks for a request that
    /// needs `size` bytes: the smallest fitting record, preferring the most
    /// recently queued among equals.
    fn find_smallest_fit(&mut self, size: u64) -> (r: Option<AllocationMetadata>)
        ensures
            (*final(self) == Allocator {
                allocation_queue: final(self).allocation_queue,
                ..*old(self)
            }),
            match r {
                Some(m) => exists|i: int|
                    {
                        &&& #[trigger] spec_is_best_fit(old(self).queue(), size as int, i)
                        &&& m == old(self).queue()[i]
                        &&& final(self).queue() == old(self).queue().remove(i)
                    },
                None => spec_no_fit(old(self).queue(), size as int) && *final(self) == *old(self),
            },
    {
        let ghost q = self.allocation_queue@;
        let mut best: usize = 0;
        let mut have_best = false;
        let mut i: usize = 0;
        while i < self.allocation_queue.len()
            invariant
                q == self.allocation_queue@,
                i <= q.len(),
                !have_best ==> forall|j: int| 0 <= j < i ==> !spec_fits(#[trigger] q[j], size as int),
                have_best ==> best < i && spec_fits(q[best as int], size as int),
                have_best ==> forall|j: int|
                    0 <= j < i && spec_fits(#[trigger] q[j], size as int)
                        ==> q[best as int].actual_size <= q[j].actual_size,
                have_best ==> forall|j: int|
                    best < j < i ==> !(spec_fits(#[trigger] q[j], size as int) && q[j].actual_size
                        == q[best as int].actual_size),
            decreases q.len() - i,
        {
            let fits_here = self.allocation_queue[i].actual_size >= size;
            if fits_here && (!have_best || self.allocation_queue[i].actual_size
                <= self.allocation_queue[best].actual_size) {
                best = i;
                have_best = true;
            }
            i = i + 1;
        }
        if have_best {
            let m = self.allocation_queue.remove(best);
            proof {
                assert(spec_is_best_fit(old(self).queue(), size as int, best as int));
                assert(m == old(self).queue()[best as int]);
                assert(self.allocation_queue@ == old(self).queue().remove(best as int));
                assert(self.allocations == old(self).allocations);
            }
            Some(m)
        } else {
            None
        }
    }
}

impl Allocator {
    /// Whether the allocator refuses a request of `size` bytes in its
    /// current state: the effective size is over the per-call cap, the
    /// rounded size would push the running total over the budget, or no
    /// queued mapping fits and the arena cannot host a fresh one.
    pub open spec fn spec_refuses(self, size: u64) -> bool {
        let s = Self::spec_effective_size(size);
        let rounded = self.spec_rounded(s);
        ||| s > self.options.max_allocation
        ||| self.total_allocation_size + rounded > self.options.max_total_allocation
        ||| (spec_no_fit(self.queue(), rounded) && self.current_mapping_addr + rounded
            + self.page_size > 3 * self.shadow_offset)
    }

    /// Serves an allocation of `size` bytes and returns the user pointer,
    /// or null (0) when the request is refused.
    ///
    /// A request for zero bytes is served as a sixteen-byte stub marked
    /// `is_malloc_zero`. The raw mapping is the requested size rounded up
    /// to a page plus two guard pages; it is reused from the smallest
    /// fitting released mapping when one exists, and otherwise placed fresh
    /// at the arena cursor. Exactly the requested bytes are unpoisoned: the
    /// byte before the returned pointer and the byte after the requested
    /// range stay unaddressable. The alignment argument is accepted for the
    /// allocator interface's sake and ignored.
    pub fn allocate(&mut self, size: u64, _alignment: u64) -> (r: u64)
        requires
            old(self).wf(),
            old(self).options.max_allocation_panics ==> Self::spec_effective_size(size) <= old(self).options.max_allocation,
        ensures
            final(self).wf(),
            final(self).options == old(self).options,
            final(self).page_size == old(self).page_size,
            final(self).shadow_bit == old(self).shadow_bit,
            final(self).shadow_offset == old(self).shadow_offset,
            final(self).base_mapping_addr == old(self).base_mapping_addr,
            (r == 0) == old(self).spec_refuses(size),
            Self::spec_effective_size(size) > old(self).options.max_allocation ==> *final(self)
                == *old(self),
            (Self::spec_effective_size(size) <= old(self).options.max_allocation && old(self).total_allocation_size + old(self).spec_rounded(Self::spec_effective_size(size)) > old(self).options.max_total_allocation) ==> *final(self) == *old(self),
            (old(self).spec_refuses(size) && Self::spec_effective_size(size) <= old(self).options.max_allocation && old(self).total_allocation_size + old(self).spec_rounded(
                Self::spec_effective_size(size),
            ) <= old(self).options.max_total_allocation) ==> (*final(self) == Allocator {
                total_allocation_size: (old(self).total_allocation_size + old(self).spec_rounded(
                    Self::spec_effective_size(size),
                )) as u64,
                ..*old(self)
            }),
            !old(self).spec_refuses(size) ==> ({
                let s = Self::spec_effective_size(size);
                let rounded = old(self).spec_rounded(s);
                let m = final(self).live()[r];
                &&& r != 0
                &&& !old(self).live().contains_key(r)
                &&& final(self).live() == old(self).live().insert(r, m)
                &&& r == m.address + old(self).page_size
                &&& m.size == s
                &&& m.freed == false
                &&& m.is_malloc_zero == (size == 0)
                &&& m.allocation_site_backtrace.is_some() == old(self).options.allocation_backtraces
                &&& m.release_site_backtrace.is_none()
                &&& final(self).total_allocation_size == old(self).total_allocation_size + rounded
                &&& final(self).largest_allocation == (if old(self).largest_allocation
                    >= m.actual_size {
                    old(self).largest_allocation
                } else {
                    m.actual_size
                })
                &&& final(self).spec_shadow_ok(r, s)
                &&& !final(self).spec_addressable((r - 1) as u64)
                &&& !final(self).spec_addressable((r + s) as u64)
                &&& (!spec_no_fit(old(self).queue(), rounded) ==> exists|i: int|
                    {
                        &&& #[trigger] spec_is_best_fit(old(self).queue(), rounded, i)
                        &&& m.address == old(self).queue()[i].address
                        &&& m.actual_size == old(self).queue()[i].actual_size
                        &&& final(self).queue() == old(self).queue().remove(i)
                        &&& final(self).current_mapping_addr == old(self).current_mapping_addr
                    })
                &&& (spec_no_fit(old(self).queue(), rounded) ==> {
                    &&& m.address == old(self).current_mapping_addr
                    &&& m.actual_size == rounded
                    &&& final(self).current_mapping_addr == old(self).current_mapping_addr
                        + rounded + old(self).page_size
                    &&& final(self).queue() == old(self).queue()
                })
            }),
    {
        let ghost s0 = *self;
        let mut is_malloc_zero = false;
        let s: u64 = if size == 0 {
            is_malloc_zero = true;
            16
        } else {
            size
        };
        if s > self.options.max_allocation {
            return 0;
        }
        proof {
            lemma_shift_values();
            lemma_shadow_offset_bounds(self.shadow_bit);
        }
        let ru = self.round_up_to_page(s);
        let rounded = ru + 2 * self.page_size;
        proof {
            lemma_mod_multiples_vanish(2int, ru as int, self.page_size as int);
        }
        if self.total_allocation_size + rounded > self.options.max_total_allocation {
            return 0;
        }
        self.total_allocation_size = self.total_allocation_size + rounded;
        let fit = self.find_smallest_fit(rounded);
        match fit {
            Some(fit_meta) => {
                let ghost s_fit = *self;
                let mut metadata = fit_meta;
                metadata.is_malloc_zero = is_malloc_zero;
                metadata.size = s;
                if self.options.allocation_backtraces {
                    metadata.allocation_site_backtrace = Some(capture_stack());
                }
                if metadata.actual_size > self.largest_allocation {
                    self.largest_allocation = metadata.actual_size;
                }
                let ghost i_fit = choose|i: int|
                    spec_is_best_fit(s0.queue(), rounded as int, i) && fit_meta == s0.queue()[i]
                        && s_fit.queue() == s0.queue().remove(i);
                let ghost mrec = metadata;
                let p = metadata.address + self.page_size;
                let shadow_start = self.map_to_shadow(p);
                proof {
                    assert(s0.meta_wf(s0.queue()[i_fit]));
                    assert(p == mrec.address + s0.page_size);
                    assert(!s0.live().contains_key(p)) by {
                        if s0.live().contains_key(p) {
                            assert(p == s0.live()[p].address + s0.page_size);
                            assert(Allocator::regions_disjoint(s0.live()[p], s0.queue()[i_fit]));
                        }
                    }
                }
                self.allocations.insert(p, metadata);
                let ghost s_ins = *self;
                proof {
                    assert(s_ins.meta_wf(mrec));
                    assert(s + 2 * s_ins.page_size <= mrec.actual_size) by {
                        assert(s + 2 * s_ins.page_size <= rounded);
                        assert(rounded <= mrec.actual_size);
                    }
                    assert(s as int / 8 <= s) by {
                        lemma_fundamental_div_mod(s as int, 8);
                        lemma_mod_bound(s as int, 8);
                    }
                }
                self.unpoison(shadow_start, s);
                proof {
                    let s2 = *self;
                    lemma_queue_after_remove(s0, s2, i_fit);
                    assert forall|k: u64| #[trigger] s0.live().contains_key(k) implies Allocator::regions_disjoint(
                        s0.live()[k],
                        mrec,
                    ) by {
                        assert(Allocator::regions_disjoint(s0.live()[k], s0.queue()[i_fit]));
                    }
                    assert forall|j: int| #![trigger s_ins.queue()[j]] 0 <= j
                        < s_ins.queue().len() implies ({
                        let mq = s_ins.queue()[j];
                        &&& s0.meta_wf(mq)
                        &&& mq.size == 0
                        &&& !mq.freed
                        &&& mq.allocation_site_backtrace.is_none()
                        &&& mq.release_site_backtrace.is_none()
                        &&& s0.record_shadow_ok(mq)
                        &&& Allocator::regions_disjoint(mq, mrec)
                    }) by {
                        let j0 = if j < i_fit {
                            j
                        } else {
                            j + 1
                        };
                        assert(s_ins.queue()[j] == s0.queue()[j0]);
                        assert(s0.meta_wf(s0.queue()[j0]));
                        assert(s0.record_shadow_ok(s0.queue()[j0]));
                        if j0 < i_fit {
                            assert(Allocator::regions_disjoint(s0.queue()[j0], s0.queue()[i_fit]));
                        } else {
                            assert(Allocator::regions_disjoint(s0.queue()[i_fit], s0.queue()[j0]));
                        }
                    }
                    assert forall|k: u64, j: int|
                        s0.live().contains_key(k) && 0 <= j
                        < s_ins.queue().len() implies Allocator::regions_disjoint(
                        #[trigger] s0.live()[k],
                        #[trigger] s_ins.queue()[j],
                    ) by {
                        let j0 = if j < i_fit {
                            j
                        } else {
                            j + 1
                        };
                        assert(s_ins.queue()[j] == s0.queue()[j0]);
                        assert(Allocator::regions_disjoint(s0.live()[k], s0.queue()[j0]));
                    }
                    assert(s_ins.shadow == s0.shadow);
                    assert(mrec.address == s0.queue()[i_fit].address);
                    assert(mrec.actual_size == s0.queue()[i_fit].actual_size);
                    assert forall|a: u64|
                        mrec.address <= a < mrec.address + mrec.actual_size implies !s_ins.spec_addressable(
                        a,
                    ) by {
                        assert(s_ins.spec_map_to_shadow(a) == s0.spec_map_to_shadow(a));
                        assert(s_ins.spec_addressable(a) == s0.spec_addressable(a));
                        assert(s0.record_shadow_ok(s0.queue()[i_fit]));
                        assert(Allocator::spec_live_extent(s0.queue()[i_fit]) == 0);
                    }
                    lemma_shadow_offset_bounds(s0.shadow_bit);
                    lemma_mod_8_of_page_multiple(mrec.address as int, s0.page_size as int);
                    lemma_mod_8_of_page_multiple(mrec.actual_size as int, s0.page_size as int);
                    lemma_region_bytes_zero(s_ins, mrec.address, mrec.actual_size);
                    lemma_alloc_finish(s0, s_ins, s2, p, s, mrec, shadow_start);
                    assert(s2.live().dom() =~= s0.live().dom().insert(p));
                    assert(s2.spec_shadow_ok(p, s));
                }
                p
            },
            None => {
                let arena_end = 3 * self.shadow_offset;
                if self.current_mapping_addr + rounded + self.page_size > arena_end {
                    proof {
                        lemma_wf_counters_only(s0, *self);
                    }
                    return 0;
                }
                let address = self.current_mapping_addr;
                proof {
                    lemma_round_up_props(rounded as int, self.page_size as int);
                    lemma_advance_is_rounded_plus_page(rounded as int, self.page_size as int);
                }
                let advance = ((rounded + self.page_size) / self.page_size) * self.page_size;
                self.current_mapping_addr = address + advance;
                let bt: Option<Vec<u64>> = if self.options.allocation_backtraces {
                    Some(capture_stack())
                } else {
                    None
                };
                let metadata = AllocationMetadata {
                    address,
                    size: s,
                    actual_size: rounded,
                    allocation_site_backtrace: bt,
                    release_site_backtrace: None,
                    freed: false,
                    is_malloc_zero,
                };
                let ghost mrec = metadata;
                if metadata.actual_size > self.largest_allocation {
                    self.largest_allocation = metadata.actual_size;
                }
                let p = address + self.page_size;
                let shadow_start = self.map_to_shadow(p);
                proof {
                    assert(!s0.live().contains_key(p)) by {
                        if s0.live().contains_key(p) {
                            assert(s0.meta_wf(s0.live()[p]));
                            assert(p == s0.live()[p].address + s0.page_size);
                        }
                    }
                }
                self.allocations.insert(p, metadata);
                let ghost s_ins = *self;
                proof {
                    assert(s_ins.meta_wf(mrec)) by {
                        assert(3 * s_ins.page_size <= rounded);
                    }
                    assert(s as int / 8 <= s) by {
                        lemma_fundamental_div_mod(s as int, 8);
                        lemma_mod_bound(s as int, 8);
                    }
                }
                self.unpoison(shadow_start, s);
                proof {
                    let s2 = *self;
                    assert forall|j: int| #![trigger s_ins.queue()[j]] 0 <= j
                        < s_ins.queue().len() implies ({
                        let mq = s_ins.queue()[j];
                        &&& s0.meta_wf(mq)
                        &&& mq.size == 0
                        &&& !mq.freed
                        &&& mq.allocation_site_backtrace.is_none()
                        &&& mq.release_site_backtrace.is_none()
                        &&& s0.record_shadow_ok(mq)
                        &&& Allocator::regions_disjoint(mq, mrec)
                    }) by {
                        assert(s_ins.queue()[j] == s0.queue()[j]);
                        assert(s0.meta_wf(s0.queue()[j]));
                        assert(s0.record_shadow_ok(s0.queue()[j]));
                    }
                    assert forall|j1: int, j2: int| 0 <= j1 < j2
                        < s_ins.queue().len() implies Allocator::regions_disjoint(
                        #[trigger] s_ins.queue()[j1],
                        #[trigger] s_ins.queue()[j2],
                    ) by {
                        assert(s_ins.queue()[j1] == s0.queue()[j1]);
                        assert(s_ins.queue()[j2] == s0.queue()[j2]);
                    }
                    assert forall|k: u64, j: int|
                        s0.live().contains_key(k) && 0 <= j
                        < s_ins.queue().len() implies Allocator::regions_disjoint(
                        #[trigger] s0.live()[k],
                        #[trigger] s_ins.queue()[j],
                    ) by {
                        assert(s_ins.queue()[j] == s0.queue()[j]);
                    }
                    assert(s_ins.current_mapping_addr % s0.page_size == 0) by {
                        lemma_mod_add_zero(
                            s0.current_mapping_addr as int,
                            rounded as int,
                            s0.page_size as int,
                        );
                        vstd::arithmetic::div_mod::lemma_mod_self_0(s0.page_size as int);
                        lemma_mod_add_zero(
                            (s0.current_mapping_addr + rounded) as int,
                            s0.page_size as int,
                            s0.page_size as int,
                        );
                    }
                    lemma_shadow_offset_bounds(s0.shadow_bit);
                    lemma_alloc_finish(s0, s_ins, s2, p, s, mrec, shadow_start);
                    assert(s2.live().dom() =~= s0.live().dom().insert(p));
                    assert(s2.spec_shadow_ok(p, s));
                }
                p
            },
        }
    }
}

/// The arena cursor's advance: rounding a page-multiple plus one page to
/// the allocation granularity (a page) adds exactly one page.
proof fn lemma_advance_is_rounded_plus_page(rounded: int, page: int)
    requires
        0 < page,
        0 <= rounded,
        rounded % page == 0,
    ensures
        ((rounded + page) / page) * page == rounded + page,
{
    lemma_fundamental_div_mod(rounded, page);
    let q = rounded / page;
    assert(rounded + page == page * (q + 1)) by {
        vstd::arithmetic::mul::lemma_mul_is_distributive_add(page, q, 1);
    }
    vstd::arithmetic::div_mod::lemma_div_multiples_vanish(q + 1, page);
    assert(((rounded + page) / page) * page == (q + 1) * page);
    lemma_mul_is_commutative(q + 1, page);
}

/// After removing one queue entry and leaving the rest alone, every
/// remaining entry is a former entry at a shifted index, and distinct
/// remaining entries were distinct entries before.
proof fn lemma_queue_after_remove(s0: Allocator, s2: Allocator, i: int)
    requires
        s0.wf(),
        0 <= i < s0.queue().len(),
        s2.queue() == s0.queue().remove(i),
    ensures
        s2.queue().len() == s0.queue().len() - 1,
        forall|j: int|
            #![trigger s2.queue()[j]]
            0 <= j < s2.queue().len() ==> s2.queue()[j] == (if j < i {
                s0.queue()[j]
            } else {
                s0.queue()[j + 1]
            }),
        forall|j1: int, j2: int|
            0 <= j1 < j2 < s2.queue().len() ==> Allocator::regions_disjoint(
                #[trigger] s2.queue()[j1],
                #[trigger] s2.queue()[j2],
            ),
{
    s0.queue().remove_ensures(i);
    assert forall|j1: int, j2: int| 0 <= j1 < j2 < s2.queue().len() implies Allocator::regions_disjoint(
        #[trigger] s2.queue()[j1],
        #[trigger] s2.queue()[j2],
    ) by {
        let k1 = if j1 < i {
            j1
        } else {
            j1 + 1
        };
        let k2 = if j2 < i {
            j2
        } else {
            j2 + 1
        };
        assert(s2.queue()[j1] == s0.queue()[k1]);
        assert(s2.queue()[j2] == s0.queue()[k2]);
        assert(Allocator::regions_disjoint(s0.queue()[k1], s0.queue()[k2]));
    }
}

/// The common tail of the allocation paths: after inserting the new record
/// and unpoisoning exactly its requested size, the allocator is well formed
/// again and the new user range is the one addressable range of its region.
proof fn lemma_alloc_finish(
    s0: Allocator,
    s_ins: Allocator,
    s2: Allocator,
    p: u64,
    s: u64,
    mrec: AllocationMetadata,
    shadow_start: u64,
)
    requires
        s0.wf(),
        // configuration is shared
        s_ins.page_size == s0.page_size,
        s_ins.shadow_bit == s0.shadow_bit,
        s_ins.shadow_offset == s0.shadow_offset,
        s_ins.base_mapping_addr == s0.base_mapping_addr,
        s_ins.options == s0.options,
        s_ins.shadow == s0.shadow,
        s2 == (Allocator { shadow: s2.shadow, ..s_ins }),
        // the inserted record
        s_ins.live() == s0.live().insert(p, mrec),
        p == mrec.address + s0.page_size,
        !s0.live().contains_key(p),
        mrec.size == s,
        !mrec.freed,
        s_ins.meta_wf(mrec),
        // the arena only ever grows
        s0.base_mapping_addr <= s0.current_mapping_addr <= s_ins.current_mapping_addr,
        s_ins.current_mapping_addr <= 3 * s0.shadow_offset,
        s_ins.current_mapping_addr % s0.page_size == 0,
        s_ins.total_allocation_size <= s0.options.max_total_allocation,
        // other records are unchanged and lie within the old arena
        forall|k: u64|
            #[trigger] s0.live().contains_key(k) ==> s0.live()[k].address
                + s0.live()[k].actual_size <= s0.current_mapping_addr,
        forall|j: int|
            #![trigger s_ins.queue()[j]]
            0 <= j < s_ins.queue().len() ==> ({
                let mq = s_ins.queue()[j];
                &&& s0.meta_wf(mq)
                &&& mq.size == 0
                &&& !mq.freed
                &&& mq.allocation_site_backtrace.is_none()
                &&& mq.release_site_backtrace.is_none()
                &&& s0.record_shadow_ok(mq)
            }),
        // the new region is free of every old record
        forall|k: u64|
            #[trigger] s0.live().contains_key(k) ==> Allocator::regions_disjoint(
                s0.live()[k],
                mrec,
            ),
        forall|j: int|
            0 <= j < s_ins.queue().len() ==> Allocator::regions_disjoint(
                #[trigger] s_ins.queue()[j],
                mrec,
            ),
        forall|j1: int, j2: int|
            0 <= j1 < j2 < s_ins.queue().len() ==> Allocator::regions_disjoint(
                #[trigger] s_ins.queue()[j1],
                #[trigger] s_ins.queue()[j2],
            ),
        forall|k: u64, j: int|
            s0.live().contains_key(k) && 0 <= j < s_ins.queue().len()
                ==> Allocator::regions_disjoint(
                #[trigger] s0.live()[k],
                #[trigger] s_ins.queue()[j],
            ),
        // the region's shadow bytes are all zero before the unpoison
        forall|x: u64|
            s0.shadow_offset + mrec.address as int / 8 <= x < s0.shadow_offset + (mrec.address
                + mrec.actual_size) as int / 8 ==> s_ins.shadow.spec_byte(x) == 0u8,
        // what the unpoison wrote
        shadow_start == s_ins.spec_map_to_shadow(p),
        forall|x: u64|
            !(shadow_start <= x < shadow_start + Allocator::spec_touched(s)) ==> s2.shadow.spec_byte(
                x,
            ) == s_ins.shadow.spec_byte(x),
        forall|j: int|
            0 <= j < s as int / 8 ==> #[trigger] s2.shadow.spec_byte((shadow_start + j) as u64)
                == 0xFFu8,
        s as int % 8 > 0 ==> s2.shadow.spec_byte((shadow_start + s as int / 8) as u64)
            == Allocator::spec_tail_byte(s as int % 8),
    ensures
        s2.wf(),
        s2.spec_shadow_ok(p, s),
        !s2.spec_addressable((p - 1) as u64),
        !s2.spec_addressable((p + s) as u64),
{
    let o = s0.shadow_offset;
    let page = s0.page_size;
    let aa = mrec.address;
    let act = mrec.actual_size;
    lemma_shadow_offset_bounds(s0.shadow_bit);
    lemma_mod_8_of_page_multiple(aa as int, page as int);
    lemma_mod_8_of_page_multiple(act as int, page as int);
    lemma_mod_8_of_page_multiple(page as int, page as int);
    lemma_region_after_unpoison(s_ins, s2, aa, act, s);
    lemma_outside_region_preserved(s_ins, s2, aa, act);
    assert forall|a: u64| s_ins.spec_addressable(a) == s0.spec_addressable(a) by {
        assert(s_ins.spec_map_to_shadow(a) == s0.spec_map_to_shadow(a));
    }
    // the new record's shadow encoding
    assert(s2.record_shadow_ok(mrec)) by {
        assert(Allocator::spec_live_extent(mrec) == s as int);
        assert(forall|a: u64|
            aa <= a < aa + act ==> ((#[trigger] s2.spec_addressable(a)) <==> p <= a < p + s));
    }
    assert(s2.spec_shadow_ok(p, s)) by {
        assert forall|a: u64| p <= a < p + s implies s2.spec_addressable(a) by {
            assert(aa <= a < aa + act);
        }
    }
    assert(!s2.spec_addressable((p - 1) as u64));
    assert(!s2.spec_addressable((p + s) as u64));
    // every other live record keeps its encoding
    assert forall|k: u64|
        #[trigger] s2.live().contains_key(k) && k != p implies s2.record_shadow_ok(
        s2.live()[k],
    ) by {
        let mk = s2.live()[k];
        assert(s0.live().contains_key(k) && s0.live()[k] == mk);
        assert(Allocator::regions_disjoint(mk, mrec));
        assert(s0.meta_wf(mk));
        assert forall|a: u64| mk.address <= a < mk.address + mk.actual_size implies (
        #[trigger] s2.spec_addressable(a) <==> mk.address + s2.page_size <= a < mk.address
            + s2.page_size + Allocator::spec_live_extent(mk)) by {
            assert(a < 3 * o);
            assert(!(aa <= a < aa + act));
            assert(s2.spec_addressable(a) == s_ins.spec_addressable(a));
            assert(s0.record_shadow_ok(mk));
        }
    }
    // every queued record keeps its encoding
    assert(s2.queue() == s_ins.queue());
    assert forall|j: int| 0 <= j < s2.queue().len() implies s2.record_shadow_ok(
        #[trigger] s2.queue()[j],
    ) by {
        let mk = s_ins.queue()[j];
        assert(mk == s2.queue()[j]);
        assert(s0.meta_wf(mk));
        assert(Allocator::regions_disjoint(mk, mrec));
        assert forall|a: u64| mk.address <= a < mk.address + mk.actual_size implies (
        #[trigger] s2.spec_addressable(a) <==> mk.address + s2.page_size <= a < mk.address
            + s2.page_size + Allocator::spec_live_extent(mk)) by {
            assert(a < 3 * o);
            assert(!(aa <= a < aa + act));
            assert(s2.spec_addressable(a) == s_ins.spec_addressable(a));
            assert(s0.record_shadow_ok(mk));
        }
    }
    // queued records keep their structural facts
    assert forall|j: int| 0 <= j < s2.queue().len() implies (s2.meta_wf(#[trigger] s2.queue()[j])
        && s2.queue()[j].size == 0 && !s2.queue()[j].freed
        && s2.queue()[j].allocation_site_backtrace.is_none()
        && s2.queue()[j].release_site_backtrace.is_none()) by {
        assert(s0.meta_wf(s_ins.queue()[j]));
    }
    // bytes at or past the cursor are still zero
    assert forall|sa: u64| s2.spec_shadow_cursor() <= sa implies #[trigger] s2.shadow.spec_byte(sa)
        == 0 by {
        lemma_div_is_ordered((aa + act) as int, s2.current_mapping_addr as int, 8);
        lemma_div_is_ordered(s0.current_mapping_addr as int, s2.current_mapping_addr as int, 8);
        assert(s2.shadow.spec_byte(sa) == s_ins.shadow.spec_byte(sa));
    }
    assert(s2.live().dom().finite()) by {
        assert(s2.live().dom() =~= s0.live().dom().insert(p));
    }
    assert(s2.wf()) by {
        assert(8 <= s2.page_size <= (1u64 << 30));
        assert(5 <= s2.shadow_bit <= 61);
        assert(s2.shadow_offset == pow2(s2.shadow_bit as nat));
        assert(s2.base_mapping_addr == 2 * s2.shadow_offset);
        assert((2 * s2.shadow_offset as int) % (s2.page_size as int) == 0);
        assert(s2.base_mapping_addr <= s2.current_mapping_addr <= 3 * s2.shadow_offset);
        assert(s2.current_mapping_addr % s2.page_size == 0);
        assert(s2.total_allocation_size <= s2.options.max_total_allocation);
        assert(forall|k: u64| #[trigger]
            s2.live().contains_key(k) ==> k == s2.live()[k].address + s2.page_size);
        assert forall|k: u64| #[trigger] s2.live().contains_key(k) implies s2.meta_wf(
            s2.live()[k],
        ) by {
            if k != p {
                assert(s0.live().contains_key(k));
                assert(s0.meta_wf(s0.live()[k]));
            }
        }
        assert forall|k1: u64, k2: u64|
            s2.live().contains_key(k1) && s2.live().contains_key(k2) && k1 != k2 implies Allocator::regions_disjoint(
            #[trigger] s2.live()[k1],
            #[trigger] s2.live()[k2],
        ) by {
            if k1 != p && k2 != p {
                assert(Allocator::regions_disjoint(s0.live()[k1], s0.live()[k2]));
            } else if k1 == p {
                assert(Allocator::regions_disjoint(s0.live()[k2], mrec));
            } else {
                assert(Allocator::regions_disjoint(s0.live()[k1], mrec));
            }
        }
        assert forall|k: u64, i: int|
            s2.live().contains_key(k) && 0 <= i < s2.queue().len() implies Allocator::regions_disjoint(
            #[trigger] s2.live()[k],
            #[trigger] s2.queue()[i],
        ) by {
            assert(s2.queue()[i] == s_ins.queue()[i]);
            if k == p {
                assert(Allocator::regions_disjoint(s_ins.queue()[i], mrec));
            } else {
                assert(s0.live().contains_key(k));
                assert(Allocator::regions_disjoint(s0.live()[k], s_ins.queue()[i]));
            }
        }
    }
}

/// The sum of two multiples of `m` is a multiple of `m`.
proof fn lemma_mod_add_zero(a: int, b: int, m: int)
    requires
        0 < m,
        0 <= a,
        0 <= b,
        a % m == 0,
        b % m == 0,
    ensures
        (a + b) % m == 0,
{
    lemma_fundamental_div_mod(a, m);
    lemma_fundamental_div_mod(b, m);
    assert(a + b == m * (a / m + b / m)) by {
        vstd::arithmetic::mul::lemma_mul_is_distributive_add(m, a / m, b / m);
    }
    lemma_mod_multiples_vanish(a / m + b / m, 0, m);
    lemma_small_mod(0nat, m as nat);
}

/// An allocator that differs from a well-formed one only in its counters,
/// while keeping the total inside the budget, is well formed.
proof fn lemma_wf_counters_only(s0: Allocator, s1: Allocator)
    requires
        s0.wf(),
        s1 == (Allocator {
            total_allocation_size: s1.total_allocation_size,
            largest_allocation: s1.largest_allocation,
            ..s0
        }),
        s1.total_allocation_size <= s1.options.max_total_allocation,
    ensures
        s1.wf(),
{
    assert forall|a: u64| s1.spec_addressable(a) == s0.spec_addressable(a) by {
        assert(s1.spec_map_to_shadow(a) == s0.spec_map_to_shadow(a));
    }
    assert forall|k: u64| #[trigger] s1.live().contains_key(k) implies s1.record_shadow_ok(
        s1.live()[k],
    ) by {
        assert(s0.record_shadow_ok(s0.live()[k]));
    }
    assert forall|i: int| 0 <= i < s1.queue().len() implies s1.record_shadow_ok(
        #[trigger] s1.queue()[i],
    ) by {
        assert(s0.record_shadow_ok(s0.queue()[i]));
    }
}

impl Allocator {
    /// Resets the allocator between fuzzing iterations.
    ///
    /// Every released record is migrated from the live table into the reuse
    /// queue: its user range is poisoned again, its size is zeroed, its
    /// freed flag and backtraces are cleared. Records that are still live
    /// are kept unchanged, so an allocation leaked within an iteration
    /// survives the reset. The running total of allocation sizes is zeroed,
    /// restoring the budget.
    #[verifier::rlimit(100)]
    #[verifier::spinoff_prover]
    pub fn reset(&mut self)
        requires
            old(self).wf(),
        ensures
            final(self).wf(),
            final(self).options == old(self).options,
            final(self).page_size == old(self).page_size,
            final(self).shadow_bit == old(self).shadow_bit,
            final(self).shadow_offset == old(self).shadow_offset,
            final(self).base_mapping_addr == old(self).base_mapping_addr,
            final(self).current_mapping_addr == old(self).current_mapping_addr,
            final(self).largest_allocation == old(self).largest_allocation,
            final(self).total_allocation_size == 0,
            forall|k: u64| #[trigger]
                final(self).live().contains_key(k) <==> (old(self).live().contains_key(k) && !old(self).live()[k].freed),
            forall|k: u64| #[trigger]
                final(self).live().contains_key(k) ==> final(self).live()[k] == old(self).live()[k],
            forall|t: int|
                0 <= t < old(self).queue().len() ==> final(self).queue()[t] == old(self).queue()[t],
            old(self).queue().len() <= final(self).queue().len(),
            forall|t: int|
                old(self).queue().len() <= t < final(self).queue().len()
                    ==> ((#[trigger] final(self).queue()[t]).size == 0
                    && !final(self).queue()[t].freed && exists|k: u64|
                    {
                        &&& #[trigger] old(self).live().contains_key(k)
                        &&& old(self).live()[k].freed
                        &&& final(self).queue()[t].address == old(self).live()[k].address
                        &&& final(self).queue()[t].actual_size == old(self).live()[k].actual_size
                    }),
            forall|k: u64| #[trigger]
                old(self).live().contains_key(k) && old(self).live()[k].freed ==> exists|t: int|
                    {
                        &&& old(self).queue().len() <= t < final(self).queue().len()
                        &&& (#[trigger] final(self).queue()[t]).address
                            == old(self).live()[k].address
                        &&& final(self).queue()[t].actual_size == old(self).live()[k].actual_size
                    },
            forall|k: u64, a: u64|
                #![trigger old(self).live()[k], final(self).spec_addressable(a)]
                old(self).live().contains_key(k) && old(self).live()[k].freed && k <= a < k + old(self).live()[k].size ==> !final(self).spec_addressable(a),
    {
        broadcast use vstd::seq_lib::group_seq_properties;

        let ghost s0 = *old(self);
        let mut entries = self.allocations.entries();
        let ghost orig = entries@;
        let ghost n = orig.len() as int;
        self.allocations = AllocTable::new();
        proof {
            assert(self.live().dom() =~= Set::<u64>::empty());
            lemma_shadow_offset_bounds(s0.shadow_bit);
            lemma_same_shadow_same_encoding(s0, *self);
            assert forall|j: int|
                0 <= j < n implies (s0.live().contains_key(#[trigger] orig[j].0)
                && s0.live()[orig[j].0] == orig[j].1) by {
                assert(table_of(s0.allocations).contains_key(orig[j].0));
            }
            assert forall|t: int| 0 <= t < self.queue().len() implies (self.meta_wf(
                #[trigger] self.queue()[t],
            ) && self.record_shadow_ok(self.queue()[t])) by {
                assert(s0.meta_wf(s0.queue()[t]));
                assert(s0.record_shadow_ok(s0.queue()[t]));
            }
            assert forall|j: int| 0 <= j < entries@.len() implies self.record_shadow_ok(
                (#[trigger] orig[j]).1,
            ) by {
                assert(s0.record_shadow_ok(s0.live()[orig[j].0]));
            }
        }
        while entries.len() > 0
            invariant
                s0.wf(),
                // facts about the drained entries
                forall|j: int|
                    0 <= j < n ==> #[trigger] s0.live().contains_key(orig[j].0)
                        && s0.live()[orig[j].0] == orig[j].1,
                forall|j1: int, j2: int| 0 <= j1 < j2 < n ==> orig[j1].0 != orig[j2].0,
                forall|k: u64| #[trigger]
                    s0.live().contains_key(k) ==> exists|j: int| 0 <= j < n && orig[j].0 == k,
                // the loop pops from the back
                entries@.len() <= n,
                forall|x: int| 0 <= x < entries@.len() ==> entries@[x] == orig[x],
                // configuration is untouched
                self.options == s0.options,
                self.page_size == s0.page_size,
                self.shadow_bit == s0.shadow_bit,
                self.shadow_offset == s0.shadow_offset,
                self.base_mapping_addr == s0.base_mapping_addr,
                self.current_mapping_addr == s0.current_mapping_addr,
                self.largest_allocation == s0.largest_allocation,
                self.total_allocation_size == s0.total_allocation_size,
                // the rebuilt live table
                self.live().dom().finite(),
                forall|k: u64| #[trigger]
                    self.live().contains_key(k) ==> s0.live().contains_key(k)
                        && self.live()[k] == s0.live()[k] && !s0.live()[k].freed && k
                        == self.live()[k].address + self.page_size,
                forall|j: int|
                    entries@.len() <= j < n && !orig[j].1.freed ==> self.live().contains_key(
                        #[trigger] orig[j].0,
                    ) && self.live()[orig[j].0] == orig[j].1,
                // the grown queue
                forall|t: int|
                    0 <= t < s0.queue().len() ==> #[trigger] self.queue()[t] == s0.queue()[t],
                s0.queue().len() <= self.queue().len(),
                forall|t: int|
                    s0.queue().len() <= t < self.queue().len() ==> ({
                        let e = #[trigger] self.queue()[t];
                        &&& e.size == 0
                        &&& !e.freed
                        &&& e.allocation_site_backtrace.is_none()
                        &&& e.release_site_backtrace.is_none()
                        &&& exists|j: int|
                            {
                                &&& entries@.len() <= j < n
                                &&& (#[trigger] orig[j]).1.freed
                                &&& e.address == orig[j].1.address
                                &&& e.actual_size == orig[j].1.actual_size
                            }
                    }),
                forall|j: int|
                    entries@.len() <= j < n && (#[trigger] orig[j]).1.freed ==> exists|t: int|
                        {
                            &&& s0.queue().len() <= t < self.queue().len()
                            &&& (#[trigger] self.queue()[t]).address == orig[j].1.address
                            &&& self.queue()[t].actual_size == orig[j].1.actual_size
                        },
                // every record, processed or not, is structurally sound and
                // correctly encoded in the current shadow
                forall|k: u64| #[trigger]
                    self.live().contains_key(k) ==> self.record_shadow_ok(self.live()[k]),
                forall|t: int|
                    0 <= t < self.queue().len() ==> self.meta_wf(#[trigger] self.queue()[t])
                        && self.record_shadow_ok(self.queue()[t]),
                forall|t1: int, t2: int|
                    0 <= t1 < t2 < self.queue().len() ==> Allocator::regions_disjoint(
                        #[trigger] self.queue()[t1],
                        #[trigger] self.queue()[t2],
                    ),
                forall|j: int|
                    0 <= j < entries@.len() ==> self.record_shadow_ok((#[trigger] orig[j]).1),
                forall|sa: u64|
                    self.spec_shadow_cursor() <= sa ==> #[trigger] self.shadow.spec_byte(sa) == 0,
            decreases entries@.len(),
        {
            let ghost pre = *self;
            let ghost pre_entries = entries@;
            let ghost i = pre_entries.len() as int - 1;
            let pair = entries.pop().unwrap();
            let k = pair.0;
            let mut m = pair.1;
            proof {
                assert(pair == pre_entries[i]);
                assert(pair == orig[i]);
                assert forall|x: int| 0 <= x < entries@.len() implies entries@[x] == orig[x] by {
                    assert(entries@[x] == pre_entries[x]);
                }
                assert(k == orig[i].0 && m == orig[i].1);
                assert(s0.live().contains_key(orig[i].0) && s0.live()[orig[i].0] == orig[i].1);
                assert(s0.meta_wf(m));
                assert(k == m.address + s0.page_size);
            }
            if !m.freed {
                let user_key = m.address + self.page_size;
                self.allocations.insert(user_key, m);
                proof {
                    assert(user_key == k);
                    assert(self.live().dom() =~= pre.live().dom().insert(k));
                    lemma_same_shadow_same_encoding(pre, *self);
                    assert forall|k2: u64| #[trigger]
                        self.live().contains_key(k2) implies self.record_shadow_ok(
                        self.live()[k2],
                    ) by {
                        if k2 == k {
                            assert(pre.record_shadow_ok(orig[i].1));
                        } else {
                            assert(pre.record_shadow_ok(pre.live()[k2]));
                        }
                    }
                }
            } else {
                let shadow_addr = self.map_to_shadow(k);
                proof {
                    lemma_shadow_offset_bounds(s0.shadow_bit);
                    assert(m.size as int / 8 <= m.size) by {
                        lemma_fundamental_div_mod(m.size as int, 8);
                        lemma_mod_bound(m.size as int, 8);
                    }
                }
                self.poison(shadow_addr, m.size);
                m.size = 0;
                m.freed = false;
                m.allocation_site_backtrace = None;
                m.release_site_backtrace = None;
                self.allocation_queue.push(m);
                proof {
                    let s2 = *self;
                    let aa = orig[i].1.address;
                    let act = orig[i].1.actual_size;
                    lemma_mod_8_of_page_multiple(aa as int, s0.page_size as int);
                    lemma_mod_8_of_page_multiple(act as int, s0.page_size as int);
                    assert(shadow_addr == pre.spec_map_to_shadow((aa + pre.page_size) as u64));
                    assert forall|a: u64|
                        aa <= a < aa + act implies (pre.spec_addressable(a) ==> aa + pre.page_size
                        <= a < aa + pre.page_size + orig[i].1.size) by {
                        assert(pre.record_shadow_ok(orig[i].1));
                    }
                    lemma_region_after_poison(pre, s2, aa, act, orig[i].1.size);
                    lemma_outside_region_preserved(pre, s2, aa, act);
                    // the migrated record is fully poisoned
                    assert(s2.record_shadow_ok(m)) by {
                        assert(Allocator::spec_live_extent(m) == 0);
                        assert(m.address == aa && m.actual_size == act);
                    }
                    // every already-settled record keeps its encoding
                    assert forall|k2: u64| #[trigger]
                        s2.live().contains_key(k2) implies s2.record_shadow_ok(
                        s2.live()[k2],
                    ) by {
                        let mk = s2.live()[k2];
                        assert(pre.record_shadow_ok(mk));
                        assert(s0.live().contains_key(k2) && s0.live()[k2] == mk);
                        assert(Allocator::regions_disjoint(s0.live()[k], s0.live()[k2]));
                        assert forall|a: u64|
                            mk.address <= a < mk.address + mk.actual_size implies (
                        #[trigger] s2.spec_addressable(a) <==> mk.address + s2.page_size <= a
                            < mk.address + s2.page_size + Allocator::spec_live_extent(mk)) by {
                            assert(s2.spec_addressable(a) == pre.spec_addressable(a));
                        }
                    }
                    assert forall|t: int| 0 <= t < s2.queue().len() - 1 implies s2.record_shadow_ok(
                        #[trigger] s2.queue()[t],
                    ) by {
                        let mk = s2.queue()[t];
                        assert(mk == pre.queue()[t]);
                        assert(pre.record_shadow_ok(mk));
                        assert(pre.meta_wf(mk));
                        assert(Allocator::regions_disjoint(mk, orig[i].1)) by {
                            if t < s0.queue().len() {
                                assert(mk == s0.queue()[t]);
                                assert(Allocator::regions_disjoint(s0.live()[k], s0.queue()[t]));
                            } else {
                                let j = choose|j: int|
                                    {
                                        &&& i + 1 <= j < n
                                        &&& (#[trigger] orig[j]).1.freed
                                        &&& mk.address == orig[j].1.address
                                        &&& mk.actual_size == orig[j].1.actual_size
                                    };
                                assert(s0.live().contains_key(orig[j].0));
                                assert(s0.live()[orig[j].0] == orig[j].1);
                                assert(orig[j].0 != k);
                                assert(Allocator::regions_disjoint(
                                    s0.live()[orig[j].0],
                                    s0.live()[k],
                                ));
                            }
                        }
                        assert forall|a: u64|
                            mk.address <= a < mk.address + mk.actual_size implies (
                        #[trigger] s2.spec_addressable(a) <==> mk.address + s2.page_size <= a
                            < mk.address + s2.page_size + Allocator::spec_live_extent(mk)) by {
                            assert(s2.spec_addressable(a) == pre.spec_addressable(a));
                        }
                    }
                    assert forall|t1: int, t2: int|
                        0 <= t1 < t2 < s2.queue().len() implies Allocator::regions_disjoint(
                        #[trigger] s2.queue()[t1],
                        #[trigger] s2.queue()[t2],
                    ) by {
                        if t2 < s2.queue().len() - 1 {
                            assert(s2.queue()[t1] == pre.queue()[t1]);
                            assert(s2.queue()[t2] == pre.queue()[t2]);
                            assert(Allocator::regions_disjoint(pre.queue()[t1], pre.queue()[t2]));
                        } else {
                            let mk = s2.queue()[t1];
                            assert(mk == pre.queue()[t1]);
                            assert(Allocator::regions_disjoint(mk, orig[i].1)) by {
                                if t1 < s0.queue().len() {
                                    assert(mk == s0.queue()[t1]);
                                    assert(Allocator::regions_disjoint(
                                        s0.live()[k],
                                        s0.queue()[t1],
                                    ));
                                } else {
                                    let j = choose|j: int|
                                        {
                                            &&& i + 1 <= j < n
                                            &&& (#[trigger] orig[j]).1.freed
                                            &&& mk.address == orig[j].1.address
                                            &&& mk.actual_size == orig[j].1.actual_size
                                        };
                                    assert(s0.live().contains_key(orig[j].0));
                                    assert(s0.live()[orig[j].0] == orig[j].1);
                                    assert(orig[j].0 != k);
                                    assert(Allocator::regions_disjoint(
                                        s0.live()[orig[j].0],
                                        s0.live()[k],
                                    ));
                                }
                            }
                        }
                    }
                    // unprocessed records keep their encoding
                    assert forall|j: int| 0 <= j < entries@.len() implies s2.record_shadow_ok(
                        (#[trigger] orig[j]).1,
                    ) by {
                        let mk = orig[j].1;
                        assert(pre.record_shadow_ok(mk));
                        assert(s0.live().contains_key(orig[j].0));
                        assert(s0.live()[orig[j].0] == mk);
                        assert(s0.meta_wf(mk));
                        assert(orig[j].0 != k);
                        assert(Allocator::regions_disjoint(s0.live()[orig[j].0], s0.live()[k]));
                        assert forall|a: u64|
                            mk.address <= a < mk.address + mk.actual_size implies (
                        #[trigger] s2.spec_addressable(a) <==> mk.address + s2.page_size <= a
                            < mk.address + s2.page_size + Allocator::spec_live_extent(mk)) by {
                            assert(s2.spec_addressable(a) == pre.spec_addressable(a));
                        }
                    }
                    // bytes at or past the cursor are untouched
                    assert forall|sa: u64| s2.spec_shadow_cursor() <= sa implies #[trigger] s2.shadow.spec_byte(
                        sa,
                    ) == 0 by {
                        lemma_div_is_ordered(
                            (aa + act) as int,
                            s2.current_mapping_addr as int,
                            8,
                        );
                        assert(s2.shadow.spec_byte(sa) == pre.shadow.spec_byte(sa));
                    }
                    // the appended record is accounted for, and earlier
                    // appended records keep their provenance
                    assert(s2.queue()[s2.queue().len() - 1] == m);
                    assert(m.address == orig[i].1.address);
                    assert(m.actual_size == orig[i].1.actual_size);
                    assert forall|t: int|
                        s0.queue().len() <= t < s2.queue().len() - 1 implies s2.queue()[t]
                        == pre.queue()[t] by {}
                    assert forall|j: int|
                        entries@.len() <= j < n && (#[trigger] orig[j]).1.freed implies exists|
                        t: int,
                    |
                        {
                            &&& s0.queue().len() <= t < s2.queue().len()
                            &&& (#[trigger] s2.queue()[t]).address == orig[j].1.address
                            &&& s2.queue()[t].actual_size == orig[j].1.actual_size
                        } by {
                        if j == i {
                            assert(s2.queue()[s2.queue().len() - 1].address == orig[j].1.address);
                        } else {
                            let t = choose|t: int|
                                {
                                    &&& s0.queue().len() <= t < pre.queue().len()
                                    &&& (#[trigger] pre.queue()[t]).address == orig[j].1.address
                                    &&& pre.queue()[t].actual_size == orig[j].1.actual_size
                                };
                            assert(s2.queue()[t] == pre.queue()[t]);
                            assert(s2.queue()[t].address == orig[j].1.address);
                        }
                    }
                }
            }
        }
        let ghost s_exit = *self;
        self.total_allocation_size = 0;
        proof {
            lemma_same_shadow_same_encoding(s_exit, *self);
            assert forall|t: int|
                s0.queue().len() <= t < self.queue().len() implies ((#[trigger] self.queue()[t]).size
                == 0 && !self.queue()[t].freed && exists|k: u64|
                {
                    &&& #[trigger] s0.live().contains_key(k)
                    &&& s0.live()[k].freed
                    &&& self.queue()[t].address == s0.live()[k].address
                    &&& self.queue()[t].actual_size == s0.live()[k].actual_size
                }) by {
                let e = self.queue()[t];
                assert(e == s_exit.queue()[t]);
                let j = choose|j: int|
                    {
                        &&& 0 <= j < n
                        &&& (#[trigger] orig[j]).1.freed
                        &&& e.address == orig[j].1.address
                        &&& e.actual_size == orig[j].1.actual_size
                    };
                assert(s0.live().contains_key(orig[j].0));
                assert(s0.live()[orig[j].0] == orig[j].1);
            }
            assert forall|k: u64| #[trigger]
                s0.live().contains_key(k) && !s0.live()[k].freed implies self.live().contains_key(
                k,
            ) by {
                let j = choose|j: int| 0 <= j < n && orig[j].0 == k;
                assert(orig[j].1 == s0.live()[k]);
            }
            assert forall|k: u64| #[trigger]
                s0.live().contains_key(k) && s0.live()[k].freed implies exists|t: int|
                {
                    &&& s0.queue().len() <= t < self.queue().len()
                    &&& (#[trigger] self.queue()[t]).address == s0.live()[k].address
                    &&& self.queue()[t].actual_size == s0.live()[k].actual_size
                } by {
                let j = choose|j: int| 0 <= j < n && orig[j].0 == k;
                assert(orig[j].1 == s0.live()[k]);
                assert(orig[j].1.freed);
            }
            assert forall|k: u64, a: u64|
                #![trigger s0.live()[k], self.spec_addressable(a)]
                s0.live().contains_key(k) && s0.live()[k].freed && k <= a < k
                + s0.live()[k].size implies !self.spec_addressable(a) by {
                let t = choose|t: int|
                    {
                        &&& s0.queue().len() <= t < self.queue().len()
                        &&& (#[trigger] self.queue()[t]).address == s0.live()[k].address
                        &&& self.queue()[t].actual_size == s0.live()[k].actual_size
                    };
                let e = self.queue()[t];
                assert(e == s_exit.queue()[t]);
                assert(s0.meta_wf(s0.live()[k]));
                assert(k == s0.live()[k].address + s0.page_size);
                assert(e.address <= a < e.address + e.actual_size);
                assert(s_exit.record_shadow_ok(e));
                assert(self.record_shadow_ok(e));
                assert(Allocator::spec_live_extent(e) == 0);
            }
            assert forall|k1: u64, k2: u64|
                self.live().contains_key(k1) && self.live().contains_key(k2) && k1
                != k2 implies Allocator::regions_disjoint(
                #[trigger] self.live()[k1],
                #[trigger] self.live()[k2],
            ) by {
                assert(Allocator::regions_disjoint(s0.live()[k1], s0.live()[k2]));
            }
            assert forall|k: u64, t: int|
                self.live().contains_key(k) && 0 <= t
                < self.queue().len() implies Allocator::regions_disjoint(
                #[trigger] self.live()[k],
                #[trigger] self.queue()[t],
            ) by {
                if t < s0.queue().len() {
                    assert(Allocator::regions_disjoint(s0.live()[k], s0.queue()[t]));
                } else {
                    let e = self.queue()[t];
                    let k2 = choose|k2: u64|
                        {
                            &&& #[trigger] s0.live().contains_key(k2)
                            &&& s0.live()[k2].freed
                            &&& e.address == s0.live()[k2].address
                            &&& e.actual_size == s0.live()[k2].actual_size
                        };
                    assert(k != k2);
                    assert(Allocator::regions_disjoint(s0.live()[k], s0.live()[k2]));
                }
            }
            assert forall|k: u64| #[trigger] self.live().contains_key(k) implies self.meta_wf(
                self.live()[k],
            ) by {
                assert(s_exit.meta_wf(s0.live()[k]));
            }
            assert forall|k: u64| #[trigger]
                self.live().contains_key(k) implies self.record_shadow_ok(self.live()[k]) by {
                assert(s_exit.record_shadow_ok(s_exit.live()[k]));
            }
            assert forall|t: int| 0 <= t < self.queue().len() implies (self.meta_wf(
                #[trigger] self.queue()[t],
            ) && self.record_shadow_ok(self.queue()[t])) by {
                assert(s_exit.meta_wf(s_exit.queue()[t]));
                assert(s_exit.record_shadow_ok(s_exit.queue()[t]));
            }
            assert(self.wf());
        }
    }
}

/// Two allocators with the same shadow and configuration agree on
/// addressability, record encodings, and record soundness.
proof fn lemma_same_shadow_same_encoding(s1: Allocator, s2: Allocator)
    requires
        s2.shadow == s1.shadow,
        s2.shadow_offset == s1.shadow_offset,
        s2.page_size == s1.page_size,
        s2.base_mapping_addr == s1.base_mapping_addr,
        s2.current_mapping_addr == s1.current_mapping_addr,
    ensures
        forall|a: u64| #[trigger] s2.spec_addressable(a) == s1.spec_addressable(a),
        forall|m: AllocationMetadata| #[trigger] s2.record_shadow_ok(m) == s1.record_shadow_ok(m),
        forall|m: AllocationMetadata| #[trigger] s2.meta_wf(m) == s1.meta_wf(m),
{
    assert forall|a: u64| #[trigger] s2.spec_addressable(a) == s1.spec_addressable(a) by {
        assert(s2.spec_map_to_shadow(a) == s1.spec_map_to_shadow(a));
    }
    assert forall|m: AllocationMetadata| #[trigger] s2.record_shadow_ok(m)
        == s1.record_shadow_ok(m) by {
        if s1.record_shadow_ok(m) {
            assert forall|a: u64| m.address <= a < m.address + m.actual_size implies (
            #[trigger] s2.spec_addressable(a) <==> m.address + s2.page_size <= a < m.address
                + s2.page_size + Allocator::spec_live_extent(m)) by {
                assert(s2.spec_addressable(a) == s1.spec_addressable(a));
            }
        }
        if s2.record_shadow_ok(m) {
            assert forall|a: u64| m.address <= a < m.address + m.actual_size implies (
            #[trigger] s1.spec_addressable(a) <==> m.address + s1.page_size <= a < m.address
                + s1.page_size + Allocator::spec_live_extent(m)) by {
                assert(s2.spec_addressable(a) == s1.spec_addressable(a));
            }
        }
    }
}

/// The distance between a pointer and a record's base address.
pub open spec fn spec_dist(p: int, a: int) -> int {
    if p >= a {
        p - a
    } else {
        a - p
    }
}

impl Allocator {
    /// Finds the record most likely to own `ptr`: one at the smallest
    /// distance between `ptr` and the record's raw base address. When the
    /// caller's hint names a record base that achieves that distance, that
    /// record is the one returned. Used to attribute a wild access to a
    /// likely owner for the diagnostic.
    pub fn find_metadata(&self, ptr: u64, hint_base: u64) -> (r: Option<AllocationMetadata>)
        requires
            self.wf(),
        ensures
            (r is None) <==> self.live().dom().len() == 0,
            r matches Some(m) ==> ({
                &&& exists|k: u64| #[trigger] self.live().contains_key(k) && self.live()[k] == m
                &&& forall|k2: u64| #[trigger]
                    self.live().contains_key(k2) ==> spec_dist(ptr as int, m.address as int)
                        <= spec_dist(ptr as int, self.live()[k2].address as int)
                &&& forall|k2: u64| #[trigger]
                    self.live().contains_key(k2) && self.live()[k2].address == hint_base
                        && spec_dist(ptr as int, hint_base as int) == spec_dist(
                        ptr as int,
                        m.address as int,
                    ) ==> m.address == hint_base
            }),
    {
        let entries = self.allocations.entries();
        let ghost es = entries@;
        let mut best: Option<AllocationMetadata> = None;
        let mut idx: usize = 0;
        while idx < entries.len()
            invariant
                self.wf(),
                es == entries@,
                idx <= es.len(),
                forall|j: int|
                    0 <= j < es.len() ==> #[trigger] self.live().contains_key(es[j].0)
                        && self.live()[es[j].0] == es[j].1,
                forall|k: u64| #[trigger]
                    self.live().contains_key(k) ==> exists|j: int|
                        0 <= j < es.len() && es[j].0 == k,
                es.len() == self.live().dom().len(),
                (best is None) <==> idx == 0,
                best matches Some(b) ==> ({
                    &&& exists|j: int| 0 <= j < idx && (#[trigger] es[j]).1 == b
                    &&& forall|j: int|
                        0 <= j < idx ==> spec_dist(ptr as int, b.address as int) <= spec_dist(
                            ptr as int,
                            (#[trigger] es[j]).1.address as int,
                        )
                    &&& forall|j: int|
                        0 <= j < idx && (#[trigger] es[j]).1.address == hint_base && spec_dist(
                            ptr as int,
                            hint_base as int,
                        ) == spec_dist(ptr as int, b.address as int) ==> b.address == hint_base
                }),
            decreases es.len() - idx,
        {
            let cand_addr = entries[idx].1.address;
            let cand_dist: u64 = if ptr >= cand_addr {
                ptr - cand_addr
            } else {
                cand_addr - ptr
            };
            let replace: bool = match &best {
                None => true,
                Some(b) => {
                    let best_dist: u64 = if ptr >= b.address {
                        ptr - b.address
                    } else {
                        b.address - ptr
                    };
                    cand_dist < best_dist || (cand_dist == best_dist && cand_addr == hint_base)
                },
            };
            if replace {
                let e = self.allocations.get(entries[idx].0);
                best = e;
                proof {
                    assert(self.live().contains_key(es[idx as int].0));
                    assert(best == Some(es[idx as int].1));
                }
            }
            idx = idx + 1;
        }
        proof {
            if best is Some {
                let b = best.unwrap();
                assert forall|k2: u64| #[trigger]
                    self.live().contains_key(k2) implies spec_dist(ptr as int, b.address as int)
                    <= spec_dist(ptr as int, self.live()[k2].address as int) by {
                    let j = choose|j: int| 0 <= j < es.len() && es[j].0 == k2;
                    assert(es[j].1 == self.live()[k2]);
                }
                assert forall|k2: u64| #[trigger]
                    self.live().contains_key(k2) && self.live()[k2].address == hint_base
                    && spec_dist(ptr as int, hint_base as int) == spec_dist(
                    ptr as int,
                    b.address as int,
                ) implies b.address == hint_base by {
                    let j = choose|j: int| 0 <= j < es.len() && es[j].0 == k2;
                    assert(es[j].1 == self.live()[k2]);
                }
                let j = choose|j: int| 0 <= j < es.len() && (#[trigger] es[j]).1 == b;
                assert(self.live().contains_key(es[j].0));
            }
        }
        best
    }

    /// Emits one `Leak` finding for every allocation that is still live.
    pub fn check_for_leaks(&self, errors: &mut AsanErrors)
        requires
            self.wf(),
        ensures
            old(errors)@.len() <= final(errors)@.len(),
            forall|i: int| 0 <= i < old(errors)@.len() ==> final(errors)@[i] == old(errors)@[i],
            forall|i: int|
                #![trigger final(errors)@[i]]
                old(errors)@.len() <= i < final(errors)@.len() ==> final(errors)@[i].spec_kind()
                    == AsanErrorKind::Leak,
            forall|k: u64| #[trigger]
                self.live().contains_key(k) && !self.live()[k].freed ==> exists|i: int|
                    #![trigger final(errors)@[i]]
                    old(errors)@.len() <= i < final(errors)@.len() && final(errors)@[i] == (
                    AsanError::Leak { address: self.live()[k].address, metadata: self.live()[k] }),
    {
        let entries = self.allocations.entries();
        let ghost es = entries@;
        let ghost e0 = errors@;
        proof {
            assert forall|j: int|
                0 <= j < es.len() implies (self.live().contains_key(#[trigger] es[j].0)
                && self.live()[es[j].0] == es[j].1) by {
                assert(table_of(self.allocations).contains_key(es[j].0));
            }
        }
        let ghost mut owner: Map<int, u64> = Map::empty();
        let ghost mut spot: Map<u64, int> = Map::empty();
        let mut idx: usize = 0;
        while idx < entries.len()
            invariant
                es == entries@,
                idx <= es.len(),
                forall|j: int|
                    0 <= j < es.len() ==> #[trigger] self.live().contains_key(es[j].0)
                        && self.live()[es[j].0] == es[j].1,
                forall|j1: int, j2: int| 0 <= j1 < j2 < es.len() ==> es[j1].0 != es[j2].0,
                e0.len() <= errors@.len(),
                forall|i: int| 0 <= i < e0.len() ==> errors@[i] == e0[i],
                forall|i: int|
                    #![trigger owner.index(i)]
                    e0.len() <= i < errors@.len() ==> owner.contains_key(i)
                        && self.live().contains_key(owner[i]) && !self.live()[owner[i]].freed
                        && errors@[i] == (AsanError::Leak {
                        address: self.live()[owner[i]].address,
                        metadata: self.live()[owner[i]],
                    }),
                forall|j: int|
                    0 <= j < idx && !(#[trigger] es[j]).1.freed ==> spot.contains_key(es[j].0)
                        && e0.len() <= spot[es[j].0] < errors@.len() && errors@[spot[es[j].0]] == (
                    AsanError::Leak { address: es[j].1.address, metadata: es[j].1 }),
            decreases es.len() - idx,
        {
            let ghost pre = errors@;
            if !entries[idx].1.freed {
                let m = self.allocations.get(entries[idx].0).unwrap();
                let address = m.address;
                errors.report_error(AsanError::Leak { address, metadata: m });
                proof {
                    assert(m == es[idx as int].1);
                    owner = owner.insert(pre.len() as int, es[idx as int].0);
                    spot = spot.insert(es[idx as int].0, pre.len() as int);
                    assert forall|j: int|
                        0 <= j < idx + 1 && !(#[trigger] es[j]).1.freed implies spot.contains_key(
                        es[j].0,
                    ) && e0.len() <= spot[es[j].0] < errors@.len() && errors@[spot[es[j].0]] == (
                    AsanError::Leak { address: es[j].1.address, metadata: es[j].1 }) by {
                        if j < idx {
                            assert(es[j].0 != es[idx as int].0);
                        }
                    }
                }
            }
            idx = idx + 1;
        }
        proof {
            assert forall|i: int|
                #![trigger errors@[i]]
                e0.len() <= i < errors@.len() implies errors@[i].spec_kind()
                == AsanErrorKind::Leak by {
                let k = owner[i];
                assert(errors@[i] == (AsanError::Leak {
                    address: self.live()[k].address,
                    metadata: self.live()[k],
                }));
            }
            assert forall|k: u64| #[trigger]
                self.live().contains_key(k) && !self.live()[k].freed implies exists|i: int|
                #![trigger errors@[i]]
                e0.len() <= i < errors@.len() && errors@[i] == (AsanError::Leak {
                    address: self.live()[k].address,
                    metadata: self.live()[k],
                }) by {
                let j = choose|j: int| 0 <= j < es.len() && es[j].0 == k;
                assert(es[j].1 == self.live()[k]);
                let i = spot[es[j].0];
                assert(e0.len() <= i < errors@.len() && errors@[i] == (AsanError::Leak {
                    address: self.live()[k].address,
                    metadata: self.live()[k],
                }));
            }
        }
    }

    /// Computes and returns the shadow range covering `[start, end)`, and
    /// unpoisons it when asked to. Unpoisoning is meant for memory that
    /// already exists below the shadow reservation: static data, stacks and
    /// heap blocks the guest had before instrumentation began.
    pub fn map_shadow_for_region(&mut self, start: u64, end: u64, unpoison: bool) -> (r: (u64, u64))
        requires
            old(self).wf(),
            start <= end,
            unpoison ==> end <= old(self).shadow_offset && start % 8 == 0 && (end - start) % 8
                == 0,
        ensures
            final(self).wf(),
            (*final(self) == Allocator { shadow: final(self).shadow, ..*old(self) }),
            r.0 == old(self).spec_map_to_shadow(start),
            r.1 == (end - start) as int / 8,
            !unpoison ==> *final(self) == *old(self),
            unpoison ==> forall|a: u64| start <= a < end ==> final(self).spec_addressable(a),
            forall|a: u64|
                old(self).base_mapping_addr <= a < 3 * old(self).shadow_offset ==> final(self).spec_addressable(a) == old(self).spec_addressable(a),
            forall|a: u64|
                a < old(self).shadow_offset && old(self).spec_addressable(a) ==> final(self).spec_addressable(a),
    {
        let ghost s0 = *old(self);
        let shadow_mapping_start = self.map_to_shadow(start);
        if end - start == 0 {
            return (shadow_mapping_start, 0);
        }
        if !unpoison {
            proof {
                lemma_fundamental_div_mod((end - start) as int, 8);
            }
            return (shadow_mapping_start, (end - start) / 8);
        }
        proof {
            lemma_shadow_offset_bounds(self.shadow_bit);
            assert((end - start) as int / 8 <= end - start) by {
                lemma_fundamental_div_mod((end - start) as int, 8);
                lemma_mod_bound((end - start) as int, 8);
            }
        }
        self.unpoison(shadow_mapping_start, end - start);
        proof {
            let s2 = *self;
            let o = s0.shadow_offset;
            let size = (end - start) as u64;
            lemma_smap_vanish(o, start);
            assert(shadow_mapping_start == o + start as int / 8);
            lemma_div8_split(start as int, size as int);
            // everything written lies below the shadow bytes of the arena
            assert(Allocator::spec_touched(size) == size as int / 8);
            lemma_pow2_mod8(s0.shadow_bit);
            assert(o % 8 == 0);
            lemma_div8_split(o as int, o as int);
            assert((2 * o) as int / 8 == 2 * (o as int / 8));
            assert(4 <= o as int / 8) by {
                lemma_div_is_ordered(32, o as int, 8);
            }
            assert(start as int / 8 + size as int / 8 == end as int / 8);
            assert(end as int / 8 <= o as int / 8) by {
                lemma_div_is_ordered(end as int, o as int, 8);
            }
            assert forall|x: u64|
                o + (2 * o) as int / 8 <= x implies s2.shadow.spec_byte(x) == s0.shadow.spec_byte(
                x,
            ) by {}
            // the unpoisoned range is addressable
            assert forall|a: u64| start <= a < end implies s2.spec_addressable(a) by {
                lemma_smap_vanish(o, a);
                lemma_div8_split(start as int, (a - start) as int);
                assert(a as int / 8 - start as int / 8 == (a - start) as int / 8);
                assert((a - start) as int / 8 < size as int / 8) by {
                    lemma_div8_lt((a - start) as int, size as int);
                }
                assert(s2.shadow.spec_byte((o + a as int / 8) as u64) == 0xFF) by {
                    let j = a as int / 8 - start as int / 8;
                    assert(s2.shadow.spec_byte((shadow_mapping_start + j) as u64) == 0xFF);
                }
                lemma_mod_bound(a as int, 8);
                lemma_bit_full(a as int % 8);
            }
            // record encodings are untouched: their shadow bytes lie above
            // everything written
            assert forall|a: u64|
                s0.base_mapping_addr <= a < 3 * o implies s2.spec_addressable(a)
                == s0.spec_addressable(a) by {
                lemma_smap_vanish(o, a);
                assert((2 * o) as int / 8 <= a as int / 8) by {
                    lemma_div_is_ordered(2 * o as int, a as int, 8);
                }
                assert(s2.shadow.spec_byte(s2.spec_map_to_shadow(a) as u64) == s0.shadow.spec_byte(
                    s0.spec_map_to_shadow(a) as u64,
                ));
            }
            assert forall|k: u64| #[trigger] s2.live().contains_key(k) implies s2.record_shadow_ok(
                s2.live()[k],
            ) by {
                let mk = s2.live()[k];
                assert(s0.record_shadow_ok(mk));
                assert(s0.meta_wf(mk));
            }
            assert forall|i: int| 0 <= i < s2.queue().len() implies s2.record_shadow_ok(
                #[trigger] s2.queue()[i],
            ) by {
                let mk = s2.queue()[i];
                assert(s0.record_shadow_ok(mk));
                assert(s0.meta_wf(mk));
            }
            assert forall|sa: u64| s2.spec_shadow_cursor() <= sa implies #[trigger] s2.shadow.spec_byte(
                sa,
            ) == 0 by {
                assert(s2.shadow.spec_byte(sa) == s0.shadow.spec_byte(sa));
            }
            assert forall|a: u64|
                a < o && s0.spec_addressable(a) implies s2.spec_addressable(a) by {
                lemma_smap_vanish(o, a);
                let x = (o + a as int / 8) as u64;
                if shadow_mapping_start <= x < shadow_mapping_start + size as int / 8 {
                    let j = x - shadow_mapping_start;
                    assert(s2.shadow.spec_byte((shadow_mapping_start + j) as u64) == 0xFF);
                    lemma_mod_bound(a as int, 8);
                    lemma_bit_full(a as int % 8);
                } else {
                    assert(s2.shadow.spec_byte(x) == s0.shadow.spec_byte(x));
                }
            }
            assert(s2.wf());
            lemma_fundamental_div_mod(size as int, 8);
        }
        (shadow_mapping_start, (end - start) / 8)
    }

    /// Unpoisons the shadow of every given readable and writable range, so
    /// that memory the guest owned before instrumentation began does not
    /// raise spurious findings on first access. The ranges are expected to
    /// be page-aligned regions below the shadow reservation, as a walk of
    /// the process's mappings yields them.
    pub fn unpoison_all_existing_memory(&mut self, ranges: Vec<(u64, u64)>)
        requires
            old(self).wf(),
            forall|i: int|
                0 <= i < ranges@.len() ==> ((#[trigger] ranges@[i]).0 <= ranges@[i].1
                    && ranges@[i].1 <= old(self).shadow_offset && ranges@[i].0 % 8 == 0 && (
                ranges@[i].1 - ranges@[i].0) % 8 == 0),
        ensures
            final(self).wf(),
            (*final(self) == Allocator { shadow: final(self).shadow, ..*old(self) }),
            forall|i: int, a: u64|
                #![trigger ranges@[i], final(self).spec_addressable(a)]
                0 <= i < ranges@.len() && ranges@[i].0 <= a < ranges@[i].1 ==> final(self).spec_addressable(a),
            forall|a: u64|
                old(self).base_mapping_addr <= a < 3 * old(self).shadow_offset ==> final(self).spec_addressable(a) == old(self).spec_addressable(a),
    {
        let ghost s0 = *old(self);
        let mut i: usize = 0;
        while i < ranges.len()
            invariant
                s0.wf(),
                self.wf(),
                (*self == Allocator { shadow: self.shadow, ..s0 }),
                i <= ranges@.len(),
                forall|j: int|
                    0 <= j < ranges@.len() ==> ((#[trigger] ranges@[j]).0 <= ranges@[j].1
                        && ranges@[j].1 <= s0.shadow_offset && ranges@[j].0 % 8 == 0 && (
                    ranges@[j].1 - ranges@[j].0) % 8 == 0),
                forall|j: int, a: u64|
                    #![trigger ranges@[j], self.spec_addressable(a)]
                    0 <= j < i && ranges@[j].0 <= a < ranges@[j].1 ==> self.spec_addressable(a),
                forall|a: u64|
                    s0.base_mapping_addr <= a < 3 * s0.shadow_offset ==> self.spec_addressable(a)
                        == s0.spec_addressable(a),
            decreases ranges@.len() - i,
        {
            let ghost pre = *self;
            let range = ranges[i];
            self.map_shadow_for_region(range.0, range.1, true);
            proof {
                assert forall|j: int, a: u64|
                    #![trigger ranges@[j], self.spec_addressable(a)]
                    0 <= j < i + 1 && ranges@[j].0 <= a < ranges@[j].1 implies self.spec_addressable(
                    a,
                ) by {
                    if j < i {
                        assert(pre.spec_addressable(a));
                        assert(a < pre.shadow_offset);
                    }
                }
            }
            i = i + 1;
        }
    }
}

/// For every live allocation of requested size `s` at user pointer `p`, the
/// shadow marks exactly `[p, p + s)` addressable: a check of the full range
/// passes, and checks of the byte before and the byte after fail.
pub proof fn lemma_live_allocation_checkable(a: Allocator, p: u64)
    requires
        a.wf(),
        a.live().contains_key(p),
        !a.live()[p].freed,
    ensures
        a.spec_shadow_ok(p, a.live()[p].size),
        !a.spec_addressable((p - 1) as u64),
        !a.spec_addressable((p + a.live()[p].size) as u64),
        !a.spec_shadow_ok((p - 1) as u64, 1),
        !a.spec_shadow_ok((p + a.live()[p].size) as u64, 1),
{
    let m = a.live()[p];
    assert(a.meta_wf(m));
    assert(a.record_shadow_ok(m));
    lemma_shadow_offset_bounds(a.shadow_bit);
    assert forall|x: u64| p <= x < p + m.size implies a.spec_addressable(x) by {
        assert(m.address <= x < m.address + m.actual_size);
    }
    assert(!a.spec_addressable((p - 1) as u64));
    assert(!a.spec_addressable((p + m.size) as u64));
    let q1 = (p - 1) as u64;
    assert(!a.spec_shadow_ok(q1, 1)) by {
        assert(q1 <= q1 && q1 < q1 + 1);
        assert(!a.spec_addressable(q1));
    }
    let q2 = (p + m.size) as u64;
    assert(!a.spec_shadow_ok(q2, 1)) by {
        assert(q2 <= q2 && q2 < q2 + 1);
        assert(!a.spec_addressable(q2));
    }
}

/// After a release, every non-empty access range that lies inside the freed
/// user range fails the shadow check.
pub proof fn lemma_released_allocation_poisoned(a: Allocator, p: u64, addr: u64, size: u64)
    requires
        a.wf(),
        a.live().contains_key(p),
        a.live()[p].freed,
        p <= addr,
        addr + size <= p + a.live()[p].size,
        1 <= size,
    ensures
        !a.spec_shadow_ok(addr, size),
{
    let m = a.live()[p];
    assert(a.meta_wf(m));
    assert(a.record_shadow_ok(m));
    assert(m.address <= addr < m.address + m.actual_size);
    assert(Allocator::spec_live_extent(m) == 0);
    assert(!a.spec_addressable(addr));
}

/// The shadow mapping of every address below the reservation lands inside
/// the reservation, away from the address itself.
pub proof fn lemma_shadow_mapping_separates(a: Allocator, addr: u64)
    requires
        a.wf(),
        addr < a.shadow_offset,
    ensures
        a.spec_map_to_shadow(addr) != addr,
        a.shadow_offset <= a.spec_map_to_shadow(addr) < 2 * a.shadow_offset,
{
    lemma_shadow_offset_bounds(a.shadow_bit);
    lemma_smap_vanish(a.shadow_offset, addr);
    assert(addr as int / 8 < a.shadow_offset) by {
        lemma_div_is_ordered(addr as int, a.shadow_offset as int, 8);
        lemma_fundamental_div_mod(a.shadow_offset as int, 8);
        lemma_mod_bound(a.shadow_offset as int, 8);
    }
}

/// A power of two with exponent at least three is a multiple of eight.
proof fn lemma_pow2_mod8(bit: u64)
    requires
        3 <= bit,
    ensures
        pow2(bit as nat) as int % 8 == 0,
{
    lemma_pow2_adds(3, (bit - 3) as nat);
    lemma2_to64();
    assert(pow2(bit as nat) == 8 * pow2((bit - 3) as nat));
    lemma_mod_multiples_vanish(pow2((bit - 3) as nat) as int, 0, 8);
    lemma_small_mod(0nat, 8nat);
}

} // verus!
