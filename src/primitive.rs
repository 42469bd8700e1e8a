//! Fixed-width primitive values and their little- and big-endian byte forms.

use vstd::prelude::*;
use vstd::arithmetic::power2::{
    pow2, lemma_pow2_unfold, lemma_pow2_pos, lemma_pow2_adds, lemma2_to64,
    lemma_pow2_strictly_increases,
};

verus! {

/// Byte order of a multi-byte value in the packed buffer.
#[derive(Clone, Copy, Debug, PartialEq, Eq, Structural)]
pub enum ByteOrder {
    Little,
    Big,
}

/// Primitive numeric kinds. Floats are carried as their IEEE-754 bit pattern.
#[derive(Clone, Copy, Debug, PartialEq, Eq, Structural)]
pub enum PrimKind {
    U8,
    U16,
    U32,
    U64,
    U128,
    I8,
    I16,
    I32,
    I64,
    I128,
    F32,
    F64,
}

impl PrimKind {
    /// Number of bytes a value of this kind occupies.
    pub open spec fn spec_byte_len(self) -> nat {
        match self {
            PrimKind::U8 | PrimKind::I8 => 1,
            PrimKind::U16 | PrimKind::I16 => 2,
            PrimKind::U32 | PrimKind::I32 | PrimKind::F32 => 4,
            PrimKind::U64 | PrimKind::I64 | PrimKind::F64 => 8,
            PrimKind::U128 | PrimKind::I128 => 16,
        }
    }

    /// Number of bits a value of this kind occupies.
    pub open spec fn spec_bit_width(self) -> nat {
        8 * self.spec_byte_len()
    }

    /// Signed integer kinds, whose values are stored in two's complement.
    pub open spec fn spec_is_signed(self) -> bool {
        match self {
            PrimKind::I8 | PrimKind::I16 | PrimKind::I32 | PrimKind::I64 | PrimKind::I128 => true,
            _ => false,
        }
    }

    /// Unsigned integer kinds, the ones a bitfield can be based on.
    pub open spec fn spec_is_unsigned_int(self) -> bool {
        match self {
            PrimKind::U8 | PrimKind::U16 | PrimKind::U32 | PrimKind::U64 | PrimKind::U128 => true,
            _ => false,
        }
    }

    pub fn byte_len(&self) -> (r: usize)
        ensures
            r == self.spec_byte_len(),
    {
        match self {
            PrimKind::U8 | PrimKind::I8 => 1,
            PrimKind::U16 | PrimKind::I16 => 2,
            PrimKind::U32 | PrimKind::I32 | PrimKind::F32 => 4,
            PrimKind::U64 | PrimKind::I64 | PrimKind::F64 => 8,
            PrimKind::U128 | PrimKind::I128 => 16,
        }
    }

    pub fn is_signed(&self) -> (r: bool)
        ensures
            r == self.spec_is_signed(),
    {
        match self {
            PrimKind::I8 | PrimKind::I16 | PrimKind::I32 | PrimKind::I64 | PrimKind::I128 => true,
            _ => false,
        }
    }

    pub fn is_unsigned_int(&self) -> (r: bool)
        ensures
            r == self.spec_is_unsigned_int(),
    {
        match self {
            PrimKind::U8 | PrimKind::U16 | PrimKind::U32 | PrimKind::U64 | PrimKind::U128 => true,
            _ => false,
        }
    }
}

/// The `n` low-order bytes of `v`, least significant first.
pub open spec fn le_bytes(v: nat, n: nat) -> Seq<u8>
    decreases n,
{
    if n == 0 {
        Seq::empty()
    } else {
        seq![(v % 256) as u8] + le_bytes(v / 256, (n - 1) as nat)
    }
}

/// The number whose little-endian bytes are `s`.
pub open spec fn le_value(s: Seq<u8>) -> nat
    decreases s.len(),
{
    if s.len() == 0 {
        0
    } else {
        (s[0] + 256 * le_value(s.drop_first())) as nat
    }
}

/// The `n` low-order bytes of `v` in the given byte order.
pub open spec fn ordered_bytes(v: nat, n: nat, order: ByteOrder) -> Seq<u8> {
    match order {
        ByteOrder::Little => le_bytes(v, n),
        ByteOrder::Big => le_bytes(v, n).reverse(),
    }
}

/// The number whose bytes in the given byte order are `s`.
pub open spec fn ordered_value(s: Seq<u8>, order: ByteOrder) -> nat {
    match order {
        ByteOrder::Little => le_value(s),
        ByteOrder::Big => le_value(s.reverse()),
    }
}

pub proof fn lemma_pow2_128()
    ensures
        pow2(8) == 256,
        pow2(64) == 0x1_0000_0000_0000_0000,
        pow2(128) == 0x1_0000_0000_0000_0000_0000_0000_0000_0000,
{
    lemma2_to64();
    lemma_pow2_adds(64, 64);
}

/// `pow2(8 * (n + 1)) == 256 * pow2(8 * n)`.
pub proof fn lemma_pow256_step(n: nat)
    ensures
        pow2(8 * (n + 1)) == 256 * pow2(8 * n),
{
    lemma_pow2_128();
    lemma_pow2_adds(8, 8 * n);
    assert(8 * (n + 1) == 8 + 8 * n);
}

pub proof fn lemma_le_bytes_len(v: nat, n: nat)
    ensures
        le_bytes(v, n).len() == n,
    decreases n,
{
    if n > 0 {
        lemma_le_bytes_len(v / 256, (n - 1) as nat);
    }
}

pub proof fn lemma_le_value_bound(s: Seq<u8>)
    ensures
        le_value(s) < pow2(8 * s.len()),
    decreases s.len(),
{
    if s.len() == 0 {
        lemma2_to64();
    } else {
        let t = s.drop_first();
        lemma_le_value_bound(t);
        lemma_pow256_step(t.len());
        assert(8 * s.len() == 8 * (t.len() + 1));
    }
}

/// Decoding the little-endian bytes of a value that fits gives the value back.
pub proof fn lemma_le_round_trip(v: nat, n: nat)
    requires
        v < pow2((8 * n) as nat),
    ensures
        le_value(le_bytes(v, n)) == v,
        le_bytes(v, n).len() == n,
    decreases n,
{
    lemma_le_bytes_len(v, n);
    if n == 0 {
        lemma2_to64();
    } else {
        let m = (n - 1) as nat;
        lemma_pow256_step(m);
        assert(8 * n == 8 * (m + 1));
        assert(v / 256 < pow2(8 * m)) by (nonlinear_arith)
            requires v < 256 * pow2(8 * m);
        lemma_le_round_trip(v / 256, m);
        let s = le_bytes(v, n);
        assert(s.drop_first() =~= le_bytes(v / 256, m));
    }
}

/// Decoding the bytes of a value that fits, in either order, gives the value back.
pub proof fn lemma_ordered_round_trip(v: nat, n: nat, order: ByteOrder)
    requires
        v < pow2((8 * n) as nat),
    ensures
        ordered_value(ordered_bytes(v, n, order), order) == v,
        ordered_bytes(v, n, order).len() == n,
{
    lemma_le_round_trip(v, n);
    let s = le_bytes(v, n);
    assert(s.reverse().reverse() =~= s);
}

/// Appends the `n` low-order bytes of `v` in the given order.
pub fn encode_uint(v: u128, n: usize, order: ByteOrder, out: &mut Vec<u8>)
    requires
        n <= 16,
        v < pow2((8 * n) as nat),
    ensures
        final(out)@ == old(out)@ + ordered_bytes(v as nat, n as nat, order),
{
    let mut le: Vec<u8> = Vec::new();
    let mut x: u128 = v;
    let mut i: usize = 0;
    while i < n
        invariant
            i <= n,
            le@ + le_bytes(x as nat, (n - i) as nat) == le_bytes(v as nat, n as nat),
        decreases n - i,
    {
        let ghost rest = le_bytes(x as nat, (n - i) as nat);
        assert(rest == seq![(x % 256) as u8] + le_bytes((x / 256) as nat, (n - i - 1) as nat));
        le.push((x % 256) as u8);
        x = x / 256;
        i = i + 1;
        assert(le@ + le_bytes(x as nat, (n - i) as nat) =~= le_bytes(v as nat, n as nat));
    }
    proof {
        lemma_le_bytes_len(v as nat, n as nat);
        assert(le@ =~= le_bytes(v as nat, n as nat));
    }
    let ghost start = out@;
    match order {
        ByteOrder::Little => {
            let mut j: usize = 0;
            while j < n
                invariant
                    j <= n,
                    le@.len() == n,
                    out@ == start + le@.subrange(0, j as int),
                decreases n - j,
            {
                out.push(le[j]);
                j = j + 1;
                assert(out@ =~= start + le@.subrange(0, j as int));
            }
            assert(le@.subrange(0, n as int) =~= le@);
        },
        ByteOrder::Big => {
            let mut j: usize = 0;
            while j < n
                invariant
                    j <= n,
                    le@.len() == n,
                    out@ == start + le@.reverse().subrange(0, j as int),
                decreases n - j,
            {
                out.push(le[n - 1 - j]);
                j = j + 1;
                assert(out@ =~= start + le@.reverse().subrange(0, j as int));
            }
            assert(le@.reverse().subrange(0, n as int) =~= le@.reverse());
        },
    }
}

/// Reads `n` bytes starting at `start` as an unsigned number in the given order.
pub fn decode_uint(bytes: &[u8], start: usize, n: usize, order: ByteOrder) -> (r: u128)
    requires
        n <= 16,
        start + n <= bytes@.len(),
    ensures
        r == ordered_value(bytes@.subrange(start as int, start + n), order),
        r < pow2((8 * n) as nat),
{
    let ghost s = bytes@.subrange(start as int, start + n);
    proof {
        lemma_pow2_128();
        lemma_le_value_bound(s);
        assert(s.reverse().len() == s.len());
        lemma_le_value_bound(s.reverse());
    }
    let total: usize = bytes.len();
    let mut acc: u128 = 0;
    match order {
        ByteOrder::Little => {
            let mut i: usize = n;
            while i > 0
                invariant
                    i <= n,
                    n <= 16,
                    start + n <= total,
                    total == bytes@.len(),
                    s == bytes@.subrange(start as int, start + n),
                    acc == le_value(s.subrange(i as int, n as int)),
                decreases i,
            {
                i = i - 1;
                let ghost t = s.subrange(i as int, n as int);
                assert(t.drop_first() =~= s.subrange(i + 1, n as int));
                proof {
                    let k = (n - i - 1) as nat;
                    lemma_le_value_bound(s.subrange(i + 1, n as int));
                    if k < 15 {
                        lemma_pow2_strictly_increases(8 * k, 120);
                    }
                    lemma_pow256_step(15);
                    lemma_pow2_128();
                }
                acc = acc * 256 + bytes[start + i] as u128;
            }
            assert(s.subrange(0, n as int) =~= s);
        },
        ByteOrder::Big => {
            let mut i: usize = 0;
            while i < n
                invariant
                    i <= n,
                    n <= 16,
                    start + n <= total,
                    total == bytes@.len(),
                    s == bytes@.subrange(start as int, start + n),
                    acc == le_value(s.subrange(0, i as int).reverse()),
                decreases n - i,
            {
                let ghost t = s.subrange(0, i + 1).reverse();
                assert(t.drop_first() =~= s.subrange(0, i as int).reverse());
                proof {
                    lemma_le_value_bound(s.subrange(0, i as int).reverse());
                    if i < 15 {
                        lemma_pow2_strictly_increases(8 * i as nat, 120);
                    }
                    lemma_pow256_step(15);
                    lemma_pow2_128();
                }
                acc = acc * 256 + bytes[start + i] as u128;
                i = i + 1;
            }
            assert(s.subrange(0, n as int) =~= s);
        },
    }
    acc
}

/// `2^w` as a `u128`.
pub(crate) fn pow2_u128(w: u32) -> (r: u128)
    requires
        w < 128,
    ensures
        r == pow2(w as nat),
{
    proof {
        lemma_pow2_128();
        lemma_pow2_pos(0);
        lemma2_to64();
    }
    let mut r: u128 = 1;
    let mut k: u32 = 0;
    while k < w
        invariant
            k <= w < 128,
            r == pow2(k as nat),
        decreases w - k,
    {
        proof {
            lemma_pow2_unfold((k + 1) as nat);
            lemma_pow2_strictly_increases((k + 1) as nat, 128);
            lemma_pow2_128();
        }
        r = r * 2;
        k = k + 1;
    }
    r
}

/// The `bits`-bit two's complement pattern of `x`.
pub open spec fn twos_complement(x: int, bits: nat) -> nat {
    if x < 0 {
        (x + pow2(bits)) as nat
    } else {
        x as nat
    }
}

/// The signed number whose `bits`-bit two's complement pattern is `b`.
pub open spec fn from_twos_complement(b: nat, bits: nat) -> int {
    if bits > 0 && b >= pow2((bits - 1) as nat) {
        b - pow2(bits)
    } else {
        b as int
    }
}

/// `x` is representable as a `bits`-bit signed number.
pub open spec fn signed_fits(x: int, bits: nat) -> bool {
    &&& bits > 0
    &&& -pow2((bits - 1) as nat) <= x < pow2((bits - 1) as nat)
}

pub proof fn lemma_twos_round_trip(x: int, bits: nat)
    requires
        signed_fits(x, bits),
    ensures
        twos_complement(x, bits) < pow2(bits),
        from_twos_complement(twos_complement(x, bits), bits) == x,
{
    lemma_pow2_unfold(bits);
}

proof fn lemma_half_bounds(n: usize)
    requires
        1 <= n <= 16,
    ensures
        pow2((8 * n - 1) as nat) <= 0x8000_0000_0000_0000_0000_0000_0000_0000,
        n < 16 ==> pow2((8 * n) as nat) <= 0x1_0000_0000_0000_0000_0000_0000_0000_0000nat / 256,
        pow2((8 * n) as nat) == 2 * pow2((8 * n - 1) as nat),
        n == 16 ==> pow2((8 * n - 1) as nat) == 0x8000_0000_0000_0000_0000_0000_0000_0000,
{
    lemma_pow2_128();
    lemma_pow2_unfold(128);
    lemma_pow2_unfold((8 * n) as nat);
    if n < 16 {
        lemma_pow2_strictly_increases((8 * n - 1) as nat, 127);
        lemma_pow256_step(15);
        if n < 15 {
            lemma_pow2_strictly_increases((8 * n) as nat, 120);
        }
    }
}

/// The two's complement pattern of `x` in `n` bytes.
pub fn to_twos_complement(x: i128, n: usize) -> (r: u128)
    requires
        1 <= n <= 16,
        signed_fits(x as int, (8 * n) as nat),
    ensures
        r == twos_complement(x as int, (8 * n) as nat),
{
    proof {
        lemma_half_bounds(n);
        lemma_pow2_128();
    }
    if x >= 0 {
        x as u128
    } else {
        let m: u128 = if n == 16 {
            u128::MAX
        } else {
            pow2_u128((8 * n) as u32) - 1
        };
        m - (-(x + 1)) as u128
    }
}

/// The signed number whose two's complement pattern in `n` bytes is `b`.
pub fn from_twos_complement_bits(b: u128, n: usize) -> (r: i128)
    requires
        1 <= n <= 16,
        b < pow2((8 * n) as nat),
    ensures
        r == from_twos_complement(b as nat, (8 * n) as nat),
{
    proof {
        lemma_half_bounds(n);
        lemma_pow2_128();
    }
    let half = pow2_u128((8 * n - 1) as u32);
    if b >= half {
        let m: u128 = if n == 16 {
            u128::MAX
        } else {
            pow2_u128((8 * n) as u32) - 1
        };
        -((m - b) as i128) - 1
    } else {
        b as i128
    }
}

/// Whether `x` fits in `n` bytes unsigned.
pub fn fits_unsigned(x: u128, n: usize) -> (r: bool)
    requires
        1 <= n <= 16,
    ensures
        r == (x < pow2((8 * n) as nat)),
{
    proof {
        lemma_half_bounds(n);
        lemma_pow2_128();
    }
    if n == 16 {
        true
    } else {
        x < pow2_u128((8 * n) as u32)
    }
}

/// Whether `x` fits in `n` bytes signed.
pub fn fits_signed(x: i128, n: usize) -> (r: bool)
    requires
        1 <= n <= 16,
    ensures
        r == signed_fits(x as int, (8 * n) as nat),
{
    proof {
        lemma_half_bounds(n);
        lemma_pow2_128();
    }
    if n == 16 {
        true
    } else {
        let half = pow2_u128((8 * n - 1) as u32) as i128;
        -half <= x && x < half
    }
}

} // verus!
