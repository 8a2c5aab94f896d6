//! Prefix enumeration: IP prefixes as finite bit sequences, and the
//! decomposition of an address range into aligned CIDR blocks.
use vstd::prelude::*;

use vstd::std_specs::bits::u8_trailing_zeros;

verus! {

/// Number of trailing zero bits of a byte string read as one big-endian
/// number: eight for each zero byte at the end plus those of the last
/// nonzero byte, and the whole bit length when every byte is zero.
pub open spec fn spec_trailing_zeros(s: Seq<u8>) -> nat
    decreases s.len(),
{
    if s.len() == 0 {
        0
    } else if s[s.len() - 1] == 0 {
        (8 + spec_trailing_zeros(s.drop_last())) as nat
    } else {
        u8_trailing_zeros(s[s.len() - 1]) as nat
    }
}

/// A run of zero bytes at the end contributes eight bits each.
proof fn lemma_tz_suffix(s: Seq<u8>, i: int)
    requires
        0 <= i <= s.len(),
        forall|j: int| i <= j < s.len() ==> s[j] == 0,
    ensures
        spec_trailing_zeros(s) == 8 * (s.len() - i) + spec_trailing_zeros(s.take(i)),
    decreases s.len() - i,
{
    if i < s.len() {
        assert(s[s.len() - 1] == 0);
        lemma_tz_suffix(s.drop_last(), i);
        assert(s.drop_last().take(i) =~= s.take(i));
    } else {
        assert(s.take(i) =~= s);
    }
}

/// Number of trailing zero bits of `s` read as one big-endian number.
#[verifier::loop_isolation(false)]
pub fn trailing_zeros(s: &[u8]) -> (r: usize)
    requires
        8 * s@.len() <= usize::MAX,
    ensures
        r == spec_trailing_zeros(s@),
{
    let mut count: usize = 0;
    let mut i: usize = s.len();
    while i > 0
        invariant
            0 <= i <= s@.len(),
            count == 8 * (s@.len() - i),
            forall|j: int| i <= j < s@.len() ==> s@[j] == 0,
        decreases i,
    {
        let b = s[i - 1];
        if b == 0 {
            count += 8;
            i -= 1;
        } else {
            proof {
                lemma_tz_suffix(s@, i as int);
                assert(s@.take(i as int)[i - 1] == b);
                assert(s@.take(i as int).len() == i);
                vstd::std_specs::bits::axiom_u8_trailing_zeros(b);
            }
            return count + (b.trailing_zeros() as usize);
        }
    }
    proof {
        lemma_tz_suffix(s@, 0);
        assert(s@.take(0) =~= Seq::<u8>::empty());
    }
    count
}

/// Floor of the base-two logarithm; zero for inputs below two.
pub open spec fn spec_log2(n: nat) -> nat
    decreases n,
{
    if n <= 1 {
        0
    } else {
        (1 + spec_log2(n / 2)) as nat
    }
}

/// Two to the `spec_log2` of a positive number never exceeds the number.
proof fn lemma_log2_bound(n: nat)
    requires
        n >= 1,
    ensures
        vstd::arithmetic::power2::pow2(spec_log2(n)) <= n,
    decreases n,
{
    if n > 1 {
        lemma_log2_bound(n / 2);
        vstd::arithmetic::power2::lemma_pow2_unfold(spec_log2(n));
        assert(vstd::arithmetic::power2::pow2(spec_log2(n)) == 2
            * vstd::arithmetic::power2::pow2(spec_log2(n / 2)));
    } else {
        assert(vstd::arithmetic::power2::pow2(0) == 1) by {
            vstd::arithmetic::power2::lemma2_to64();
        }
    }
}

/// The base-two logarithm never exceeds its argument.
proof fn lemma_log2_le(n: nat)
    ensures
        spec_log2(n) <= n,
    decreases n,
{
    if n > 1 {
        lemma_log2_le(n / 2);
    }
}

/// Floor of the base-two logarithm.
#[verifier::loop_isolation(false)]
pub fn log2_floor(n: usize) -> (r: usize)
    ensures
        r == spec_log2(n as nat),
{
    let mut v: usize = n;
    let mut r: usize = 0;
    while v > 1
        invariant
            spec_log2(n as nat) == r + spec_log2(v as nat),
            v <= n,
        decreases v,
    {
        proof {
            lemma_log2_le(n as nat);
            assert(spec_log2(v as nat) == 1 + spec_log2((v as nat) / 2));
        }
        v = v / 2;
        r += 1;
    }
    r
}

/// The address bytes after adding two to the `bit`-th power at byte `b`,
/// carrying leftward; wrapping at the top byte ends the carry, so an
/// overflow of the address space leaves the remaining high bytes zeroed.
pub open spec fn spec_advance(s: Seq<u8>, b: int, bit: nat) -> Seq<u8>
    decreases b + 1,
{
    if !(0 <= b < s.len()) || bit > 7 {
        s
    } else if s[b] + vstd::arithmetic::power2::pow2(bit) < 256 {
        s.update(b, (s[b] + vstd::arithmetic::power2::pow2(bit)) as u8)
    } else if b == 0 {
        s.update(0, 0u8)
    } else {
        spec_advance(s.update(b, 0u8), b - 1, 0)
    }
}

/// One step of the enumeration: the block at `s` of `2^suffix` addresses.
pub open spec fn spec_block_suffix(s: Seq<u8>, count: nat) -> nat {
    vstd::math::min(spec_trailing_zeros(s) as int, spec_log2(count) as int) as nat
}

/// The blocks covering `count` addresses from `s` on, as the greedy
/// enumeration yields them: each step emits the largest aligned block that
/// starts at `s` and holds at most `count` addresses, then advances `s`
/// past it.  Addresses are byte strings; masks count prefix bits.
pub open spec fn spec_blocks(s: Seq<u8>, count: nat) -> Seq<(Seq<u8>, nat)>
    decreases count,
{
    if count == 0 {
        Seq::empty()
    } else {
        let suffix = spec_block_suffix(s, count);
        let mask = (8 * s.len() - suffix) as nat;
        let advanced = spec_advance(s, s.len() - 1 - suffix / 8, suffix % 8);
        if vstd::arithmetic::power2::pow2(suffix) <= count {
            proof {
                vstd::arithmetic::power2::lemma_pow2_pos(suffix);
            }
            seq![(s, mask)] + spec_blocks(advanced, (count - vstd::arithmetic::power2::pow2(
                suffix,
            )) as nat)
        } else {
            Seq::empty()
        }
    }
}

/// The view of an emitted block list: each address vector as a byte
/// sequence, each mask as a natural number.
pub open spec fn spec_blocks_view(v: Seq<(Vec<u8>, u8)>) -> Seq<(Seq<u8>, nat)> {
    v.map_values(|p: (Vec<u8>, u8)| (p.0@, p.1 as nat))
}

/// Trailing zeros never exceed the bit length.
proof fn lemma_tz_le(s: Seq<u8>)
    ensures
        spec_trailing_zeros(s) <= 8 * s.len(),
    decreases s.len(),
{
    if s.len() > 0 {
        if s[s.len() - 1] == 0 {
            lemma_tz_le(s.drop_last());
        } else {
            vstd::std_specs::bits::axiom_u8_trailing_zeros(s[s.len() - 1]);
        }
    }
}

/// Two to the `bit`-th power, as a byte.
fn pow2_u8(bit: usize) -> (r: u8)
    requires
        bit <= 7,
    ensures
        r == vstd::arithmetic::power2::pow2(bit as nat),
{
    proof {
        vstd::arithmetic::power2::lemma2_to64();
    }
    if bit == 0 {
        1
    } else if bit == 1 {
        2
    } else if bit == 2 {
        4
    } else if bit == 3 {
        8
    } else if bit == 4 {
        16
    } else if bit == 5 {
        32
    } else if bit == 6 {
        64
    } else {
        128
    }
}

/// Two to the `e`-th power, as a machine word.
#[verifier::loop_isolation(false)]
fn pow2_usize(e: usize) -> (r: usize)
    requires
        vstd::arithmetic::power2::pow2(e as nat) <= usize::MAX,
    ensures
        r == vstd::arithmetic::power2::pow2(e as nat),
{
    let mut r: usize = 1;
    let mut i: usize = 0;
    proof {
        vstd::arithmetic::power2::lemma2_to64();
    }
    while i < e
        invariant
            i <= e,
            r == vstd::arithmetic::power2::pow2(i as nat),
        decreases e - i,
    {
        proof {
            if (i as nat) + 1 < e as nat {
                vstd::arithmetic::power2::lemma_pow2_strictly_increases(
                    (i + 1) as nat,
                    e as nat,
                );
            }
            vstd::arithmetic::power2::lemma_pow2_unfold((i + 1) as nat);
        }
        r = r * 2;
        i += 1;
    }
    r
}

/// Adds two to the `bit`-th power at byte `b` of `start`, carrying leftward
/// and wrapping at the top byte.
#[verifier::loop_isolation(false)]
fn advance(start: &mut Vec<u8>, b: usize, bit: usize)
    requires
        b < old(start)@.len(),
        bit <= 7,
    ensures
        final(start)@ == spec_advance(old(start)@, b as int, bit as nat),
        final(start)@.len() == old(start)@.len(),
{
    let mut byte_to_change: usize = b;
    let mut bit_to_change: usize = bit;
    loop
        invariant
            byte_to_change < start@.len(),
            bit_to_change <= 7,
            start@.len() == old(start)@.len(),
            spec_advance(old(start)@, b as int, bit as nat) == spec_advance(
                start@,
                byte_to_change as int,
                bit_to_change as nat,
            ),
        decreases byte_to_change,
    {
        let add = pow2_u8(bit_to_change);
        let cur = start[byte_to_change];
        if cur <= 255 - add {
            let ghost pre = start@;
            start.set(byte_to_change, cur + add);
            proof {
                assert(start@ == pre.update(
                    byte_to_change as int,
                    (pre[byte_to_change as int] + vstd::arithmetic::power2::pow2(
                        bit_to_change as nat,
                    )) as u8,
                ));
            }
            return ;
        } else {
            let ghost pre = start@;
            start.set(byte_to_change, 0);
            if byte_to_change == 0 {
                return ;
            }
            byte_to_change -= 1;
            bit_to_change = 0;
        }
    }
}

/// Decomposes the range of `count` addresses starting at `start` into
/// aligned blocks, greedily: each block is the largest power of two that is
/// aligned at the current address and does not overshoot the remaining
/// count.  Returns the blocks in ascending address order as pairs of
/// address bytes and prefix mask length.
#[verifier::loop_isolation(false)]
pub fn octets_with_mask(start: &[u8], count: usize) -> (r: Vec<(Vec<u8>, u8)>)
    requires
        1 <= start@.len(),
        8 * start@.len() <= 255,
        (count as nat) < vstd::arithmetic::power2::pow2((8 * start@.len()) as nat),
    ensures
        spec_blocks_view(r@) == spec_blocks(start@, count as nat),
{
    let mut result: Vec<(Vec<u8>, u8)> = Vec::new();
    let mut cur: Vec<u8> = vstd::slice::slice_to_vec(start);
    let mut remaining: usize = count;
    while remaining > 0
        invariant
            cur@.len() == start@.len(),
            remaining <= count,
            spec_blocks(start@, count as nat) == spec_blocks_view(result@) + spec_blocks(
                cur@,
                remaining as nat,
            ),
        decreases remaining,
    {
        let ghost pre_blocks = result@;
        let ghost pre_cur = cur@;
        let zeros = trailing_zeros(cur.as_slice());
        let lg = log2_floor(remaining);
        let suffix: usize = if zeros < lg {
            zeros
        } else {
            lg
        };
        proof {
            lemma_tz_le(cur@);
            lemma_log2_bound(remaining as nat);
            assert(suffix == spec_block_suffix(cur@, remaining as nat));
            if suffix as nat == 8 * cur@.len() && spec_log2(remaining as nat) > (8 * cur@.len()) as nat {
                vstd::arithmetic::power2::lemma_pow2_strictly_increases(
                    (8 * cur@.len()) as nat,
                    spec_log2(remaining as nat),
                );
            }
            if spec_log2(remaining as nat) > suffix as nat {
                vstd::arithmetic::power2::lemma_pow2_strictly_increases(
                    suffix as nat,
                    spec_log2(remaining as nat),
                );
            }
        }
        let mask = start.len() * 8 - suffix;
        result.push((vstd::slice::slice_to_vec(cur.as_slice()), mask as u8));
        let byte_to_change = cur.len() - 1 - suffix / 8;
        advance(&mut cur, byte_to_change, suffix % 8);
        proof {
            vstd::arithmetic::power2::lemma_pow2_pos(suffix as nat);
        }
        let step = pow2_usize(suffix);
        remaining -= step;
        proof {
            assert(spec_blocks_view(result@) =~= spec_blocks_view(pre_blocks) + seq![
                (pre_cur, mask as nat),
            ]);
            assert(spec_blocks(pre_cur, (remaining + step) as nat) == seq![(pre_cur, mask as nat)]
                + spec_blocks(cur@, remaining as nat));
            vstd::seq_lib::lemma_concat_associative(
                spec_blocks_view(pre_blocks),
                seq![(pre_cur, mask as nat)],
                spec_blocks(cur@, remaining as nat),
            );
        }
    }
    proof {
        assert(spec_blocks(cur@, 0) == Seq::<(Seq<u8>, nat)>::empty());
        assert(spec_blocks_view(result@) + Seq::<(Seq<u8>, nat)>::empty() =~= spec_blocks_view(
            result@,
        ));
    }
    result
}

/// Bit `i` of a big-endian byte string: bit 0 is the highest bit of the
/// first byte.
pub open spec fn spec_addr_bit(s: Seq<u8>, i: int) -> bool {
    (s[i / 8] >> ((7 - (i % 8)) as u8)) & 1 == 1
}

/// Anything that can stand for a finite bit sequence, consumed once,
/// left to right.
pub trait IntoBitPath: Sized {
    /// Whether this value is a well-formed bit path source.
    spec fn spec_valid(&self) -> bool;

    /// The bit sequence this value stands for.
    spec fn spec_bits(&self) -> Seq<bool>;

    /// The bits, in order.
    fn into_bit_path(self) -> (r: Vec<bool>)
        requires
            self.spec_valid(),
        ensures
            r@ == self.spec_bits(),
    ;
}

impl IntoBitPath for Vec<bool> {
    /// Any bit vector is a bit path.
    open spec fn spec_valid(&self) -> bool {
        true
    }

    /// The vector's own bits.
    open spec fn spec_bits(&self) -> Seq<bool> {
        self@
    }

    fn into_bit_path(self) -> (r: Vec<bool>) {
        self
    }
}

/// An IP prefix: address bytes and a mask length, read most significant
/// bit first as a bit string of `mask` bits.
#[derive(Clone, Debug, PartialEq, Eq)]
pub struct IpAddrWithMask {
    pub octets: Vec<u8>,
    pub mask: u8,
}

impl IpAddrWithMask {
    /// A well-formed prefix: four or sixteen address bytes, and a mask no
    /// longer than the address.
    pub open spec fn wf(&self) -> bool {
        &&& (self.octets@.len() == 4 || self.octets@.len() == 16)
        &&& self.mask <= 8 * self.octets@.len()
    }

    /// The prefix of the address bytes `octets` of length `mask` bits.
    pub fn new(octets: Vec<u8>, mask: u8) -> (r: IpAddrWithMask)
        requires
            octets@.len() == 4 || octets@.len() == 16,
            mask <= 8 * octets@.len(),
        ensures
            r.octets@ == octets@,
            r.mask == mask,
            r.wf(),
    {
        IpAddrWithMask { octets, mask }
    }

    /// The minimal aligned prefixes covering `count` addresses from `addr`
    /// on, in ascending address order.
    #[verifier::loop_isolation(false)]
    pub fn from_count(addr: &[u8], count: usize) -> (r: Vec<IpAddrWithMask>)
        requires
            addr@.len() == 4 || addr@.len() == 16,
            (count as nat) < vstd::arithmetic::power2::pow2((8 * addr@.len()) as nat),
        ensures
            r@.map_values(|ip: IpAddrWithMask| (ip.octets@, ip.mask as nat)) == spec_blocks(
                addr@,
                count as nat,
            ),
            forall|i: int| 0 <= i < r@.len() ==> (#[trigger] r@[i]).wf(),
    {
        let blocks = octets_with_mask(addr, count);
        let mut result: Vec<IpAddrWithMask> = Vec::new();
        let mut i: usize = 0;
        proof {
            lemma_blocks_wf(addr@, count as nat);
        }
        while i < blocks.len()
            invariant
                i <= blocks@.len(),
                result@.len() == i,
                spec_blocks_view(blocks@) == spec_blocks(addr@, count as nat),
                forall|j: int|
                    0 <= j < i ==> (#[trigger] result@[j]).octets@ == blocks@[j].0@
                        && result@[j].mask == blocks@[j].1,
                forall|j: int| 0 <= j < i ==> (#[trigger] result@[j]).wf(),
            decreases blocks@.len() - i,
        {
            let block = &blocks[i];
            let octets = vstd::slice::slice_to_vec(block.0.as_slice());
            proof {
                assert(spec_blocks_view(blocks@)[i as int] == (blocks@[i as int].0@, blocks@[
                    i as int].1 as nat));
                assert(spec_blocks(addr@, count as nat)[i as int].0.len() == addr@.len());
                assert(spec_blocks(addr@, count as nat)[i as int].1 <= 8 * addr@.len());
            }
            result.push(IpAddrWithMask { octets, mask: block.1 });
            i += 1;
        }
        proof {
            assert(result@.map_values(|ip: IpAddrWithMask| (ip.octets@, ip.mask as nat))
                =~= spec_blocks_view(blocks@));
        }
        result
    }
}

/// Every emitted block has the address width of the starting address and a
/// mask no longer than the address.
proof fn lemma_blocks_wf(s: Seq<u8>, count: nat)
    ensures
        forall|i: int|
            0 <= i < spec_blocks(s, count).len() ==> (#[trigger] spec_blocks(s, count)[i]).0.len()
                == s.len() && spec_blocks(s, count)[i].1 <= 8 * s.len(),
    decreases count,
{
    if count > 0 {
        let suffix = spec_block_suffix(s, count);
        let advanced = spec_advance(s, s.len() - 1 - suffix / 8, suffix % 8);
        if vstd::arithmetic::power2::pow2(suffix) <= count {
            vstd::arithmetic::power2::lemma_pow2_pos(suffix);
            lemma_advance_len(s, s.len() - 1 - suffix / 8, suffix % 8);
            let rest = spec_blocks(advanced, (count - vstd::arithmetic::power2::pow2(
                suffix,
            )) as nat);
            lemma_blocks_wf(advanced, (count - vstd::arithmetic::power2::pow2(suffix)) as nat);
            let bl = spec_blocks(s, count);
            let mask = (8 * s.len() - suffix) as nat;
            assert(bl == seq![(s, mask)] + rest);
            lemma_tz_le(s);
            assert forall|i: int| 0 <= i < bl.len() implies (#[trigger] bl[i]).0.len() == s.len()
                && bl[i].1 <= 8 * s.len() by {
                if i == 0 {
                    assert(bl[0] == (s, mask));
                } else {
                    assert(bl[i] == rest[i - 1]);
                }
            }
        }
    }
}

/// Advancing an address keeps its byte length.
proof fn lemma_advance_len(s: Seq<u8>, b: int, bit: nat)
    ensures
        spec_advance(s, b, bit).len() == s.len(),
    decreases b + 1,
{
    if 0 <= b < s.len() && bit <= 7 {
        if s[b] + vstd::arithmetic::power2::pow2(bit) < 256 {
        } else if b == 0 {
        } else {
            lemma_advance_len(s.update(b, 0u8), b - 1, 0);
        }
    }
}

impl IntoBitPath for IpAddrWithMask {
    /// A well-formed prefix.
    open spec fn spec_valid(&self) -> bool {
        self.wf()
    }

    /// The first `mask` bits of the address, most significant first.
    open spec fn spec_bits(&self) -> Seq<bool> {
        Seq::new(self.mask as nat, |i: int| spec_addr_bit(self.octets@, i))
    }

    #[verifier::loop_isolation(false)]
    fn into_bit_path(self) -> (r: Vec<bool>) {
        let mut r: Vec<bool> = Vec::new();
        let mut bit: usize = 0;
        while bit < self.mask as usize
            invariant
                bit <= self.mask,
                r@.len() == bit,
                forall|j: int| 0 <= j < bit ==> r@[j] == spec_addr_bit(self.octets@, j),
            decreases self.mask - bit,
        {
            let byte = self.octets[bit / 8];
            let shift = (7 - (bit % 8)) as u8;
            let b = byte & (1u8 << shift) != 0;
            proof {
                let sh = shift;
                let by = byte;
                assert(((by >> sh) & 1 == 1) <==> (by & (1u8 << sh) != 0)) by (bit_vector)
                    requires
                        sh <= 7,
                ;
            }
            r.push(b);
            bit += 1;
        }
        proof {
            assert(r@ =~= self.spec_bits());
        }
        r
    }
}

/// Total number of addresses a block list covers: a block of mask `m` over
/// addresses of `width_bits` bits covers two to the `width_bits - m`.
pub open spec fn spec_block_count(b: Seq<(Seq<u8>, nat)>, width_bits: nat) -> nat
    decreases b.len(),
{
    if b.len() == 0 {
        0
    } else {
        (vstd::arithmetic::power2::pow2((width_bits - b[0].1) as nat) + spec_block_count(
            b.drop_first(),
            width_bits,
        )) as nat
    }
}

/// The enumeration covers its range exactly: the sizes of the emitted
/// blocks add up to the requested address count, with nothing dropped and
/// nothing counted twice.
pub proof fn lemma_blocks_cover_count(s: Seq<u8>, count: nat)
    ensures
        spec_block_count(spec_blocks(s, count), 8 * s.len()) == count,
    decreases count,
{
    if count > 0 {
        let suffix = spec_block_suffix(s, count);
        let mask = (8 * s.len() - suffix) as nat;
        let advanced = spec_advance(s, s.len() - 1 - suffix / 8, suffix % 8);
        lemma_tz_le(s);
        lemma_log2_bound(count);
        assert(vstd::arithmetic::power2::pow2(suffix) <= count) by {
            if (suffix as nat) < spec_log2(count) {
                vstd::arithmetic::power2::lemma_pow2_strictly_increases(
                    suffix as nat,
                    spec_log2(count),
                );
            }
        }
        vstd::arithmetic::power2::lemma_pow2_pos(suffix);
        lemma_advance_len(s, s.len() - 1 - suffix / 8, suffix % 8);
        let rest = spec_blocks(advanced, (count - vstd::arithmetic::power2::pow2(suffix)) as nat);
        lemma_blocks_cover_count(advanced, (count - vstd::arithmetic::power2::pow2(suffix)) as nat);
        let whole = spec_blocks(s, count);
        assert(whole == seq![(s, mask)] + rest);
        assert(whole.drop_first() =~= rest);
        assert(whole[0] == (s, mask));
        assert((8 * s.len() - mask) as nat == suffix);
    }
}

} // verus!
