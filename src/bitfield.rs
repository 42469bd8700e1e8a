//! Bitfields: named sub-fields of fixed bit width packed into one unsigned
//! base integer, least significant bits first, in declaration order.
//!
//! A sub-field value wider than its declared width is rejected by the codec
//! (see `fits_widths`) rather than truncated.

use vstd::prelude::*;
use vstd::arithmetic::power2::{pow2, lemma_pow2_pos, lemma_pow2_adds, lemma_pow2_unfold, lemma_pow2_strictly_increases};
use vstd::arithmetic::div_mod::{lemma_fundamental_div_mod, lemma_fundamental_div_mod_converse, lemma_small_mod, lemma_basic_div};
use crate::primitive::{lemma_pow2_128, pow2_u128};

verus! {

/// One named sub-field of a bitfield and its width in bits.
pub struct SubField {
    pub name: String,
    pub bits: u32,
}

/// The widths of the sub-fields, in declaration order.
pub open spec fn widths_of(fs: Seq<SubField>) -> Seq<nat> {
    Seq::new(fs.len(), |i: int| fs[i].bits as nat)
}

/// Sum of the widths.
pub open spec fn total_bits(ws: Seq<nat>) -> nat
    decreases ws.len(),
{
    if ws.len() == 0 {
        0
    } else {
        ws[0] + total_bits(ws.drop_first())
    }
}

/// One value per width, each within its width.
pub open spec fn fits_widths(ws: Seq<nat>, vs: Seq<u128>) -> bool {
    &&& vs.len() == ws.len()
    &&& forall|i: int| 0 <= i < ws.len() ==> vs[i] < pow2(#[trigger] ws[i])
}

/// The base integer holding `vs[0]` in its lowest `ws[0]` bits, `vs[1]` in
/// the next `ws[1]` bits, and so on.
pub open spec fn pack_bits(ws: Seq<nat>, vs: Seq<u128>) -> nat
    decreases ws.len(),
{
    if ws.len() == 0 || vs.len() == 0 {
        0
    } else {
        (vs[0] + pow2(ws[0]) * pack_bits(ws.drop_first(), vs.drop_first())) as nat
    }
}

/// The sub-field values of `x`: its lowest `ws[0]` bits, then the next `ws[1]`
/// bits, and so on.
pub open spec fn unpack_bits(ws: Seq<nat>, x: nat) -> Seq<u128>
    decreases ws.len(),
{
    if ws.len() == 0 {
        Seq::empty()
    } else {
        seq![(x % pow2(ws[0])) as u128] + unpack_bits(ws.drop_first(), x / pow2(ws[0]))
    }
}

pub proof fn lemma_total_suffix(ws: Seq<nat>, i: int)
    requires
        0 <= i <= ws.len(),
    ensures
        total_bits(ws.subrange(i, ws.len() as int)) <= total_bits(ws),
        i < ws.len() ==> total_bits(ws.subrange(i, ws.len() as int)) == ws[i] + total_bits(
            ws.subrange(i + 1, ws.len() as int),
        ),
    decreases i,
{
    let n = ws.len() as int;
    if i < n {
        assert(ws.subrange(i, n).drop_first() =~= ws.subrange(i + 1, n));
    }
    if i == 0 {
        assert(ws.subrange(0, n) =~= ws);
    } else {
        lemma_total_suffix(ws, i - 1);
    }
}

/// A packed value that fits stays below `2^total`.
pub proof fn lemma_pack_bound(ws: Seq<nat>, vs: Seq<u128>)
    requires
        fits_widths(ws, vs),
    ensures
        pack_bits(ws, vs) < pow2(total_bits(ws)),
    decreases ws.len(),
{
    if ws.len() == 0 {
        lemma_pow2_pos(0);
    } else {
        let (w, t) = (ws[0], ws.drop_first());
        let u = vs.drop_first();
        assert(fits_widths(t, u)) by {
            assert forall|i: int| 0 <= i < t.len() implies u[i] < pow2(#[trigger] t[i]) by {
                assert(t[i] == ws[i + 1]);
            }
        }
        lemma_pack_bound(t, u);
        let (p, r, rest) = (pow2(w), pow2(total_bits(t)), pack_bits(t, u));
        assert(vs[0] < p);
        assert(vs[0] + p * rest < p * r) by (nonlinear_arith)
            requires vs[0] < p, rest < r, 0 < p;
        lemma_pow2_adds(w, total_bits(t));
    }
}

/// Unpacking packed values that fit gives them back.
pub proof fn lemma_unpack_pack(ws: Seq<nat>, vs: Seq<u128>)
    requires
        fits_widths(ws, vs),
    ensures
        unpack_bits(ws, pack_bits(ws, vs)) == vs,
    decreases ws.len(),
{
    if ws.len() > 0 {
        let (w, t) = (ws[0], ws.drop_first());
        let u = vs.drop_first();
        assert(fits_widths(t, u)) by {
            assert forall|i: int| 0 <= i < t.len() implies u[i] < pow2(#[trigger] t[i]) by {
                assert(t[i] == ws[i + 1]);
            }
        }
        lemma_unpack_pack(t, u);
        let p = pow2(w);
        lemma_pow2_pos(w);
        let x = pack_bits(ws, vs);
        let rest = pack_bits(t, u);
        assert(x == rest * p + vs[0]) by (nonlinear_arith)
            requires x == vs[0] + p * rest;
        lemma_fundamental_div_mod_converse(x as int, p as int, pack_bits(t, u) as int, vs[0] as int);
        assert(unpack_bits(ws, x) =~= vs);
    }
}

/// Packing the unpacked sub-fields of a base value gives it back, and those
/// sub-fields fit their widths.
pub proof fn lemma_pack_unpack(ws: Seq<nat>, x: nat)
    requires
        total_bits(ws) <= 128,
        x < pow2(total_bits(ws)),
    ensures
        fits_widths(ws, unpack_bits(ws, x)),
        pack_bits(ws, unpack_bits(ws, x)) == x,
    decreases ws.len(),
{
    if ws.len() == 0 {
        assert(pow2(0) == 1) by {
            lemma_pow2_pos(0);
            vstd::arithmetic::power2::lemma2_to64();
        }
    } else {
        let (w, t) = (ws[0], ws.drop_first());
        let (p, r) = (pow2(w), pow2(total_bits(t)));
        lemma_pow2_pos(w);
        lemma_pow2_adds(w, total_bits(t));
        lemma_fundamental_div_mod(x as int, p as int);
        let q = x / p;
        assert(q < r) by (nonlinear_arith)
            requires x == p * q + x % p, x % p >= 0, x < p * r, p > 0;
        lemma_pack_unpack(t, q);
        lemma_pow2_128();
        if w < 128 {
            lemma_pow2_strictly_increases(w, 128);
        } else {
            if w > 128 {
                lemma_pow2_strictly_increases(128, w);
            }
        }
        assert(x % p < pow2(128));
        let us = unpack_bits(ws, x);
        assert(us.drop_first() =~= unpack_bits(t, q));
        assert(fits_widths(ws, us)) by {
            assert forall|i: int| 0 <= i < ws.len() implies us[i] < pow2(#[trigger] ws[i]) by {
                if i > 0 {
                    assert(us[i] == unpack_bits(t, q)[i - 1]);
                    assert(ws[i] == t[i - 1]);
                }
            }
        }
    }
}

/// Packs sub-field values into their base integer.
pub fn pack(fields: &Vec<SubField>, values: &Vec<u128>) -> (r: u128)
    requires
        total_bits(widths_of(fields@)) <= 128,
        fits_widths(widths_of(fields@), values@),
    ensures
        r == pack_bits(widths_of(fields@), values@),
{
    let ghost ws = widths_of(fields@);
    let ghost vs = values@;
    let n = fields.len();
    let mut acc: u128 = 0;
    let mut i: usize = n;
    proof {
        lemma_pow2_pos(0);
        assert(ws.subrange(n as int, n as int) =~= Seq::<nat>::empty());
    }
    while i > 0
        invariant
            i <= n,
            n == fields@.len(),
            ws == widths_of(fields@),
            vs == values@,
            total_bits(ws) <= 128,
            fits_widths(ws, vs),
            acc == pack_bits(ws.subrange(i as int, n as int), vs.subrange(i as int, n as int)),
            acc < pow2(total_bits(ws.subrange(i as int, n as int))),
        decreases i,
    {
        i = i - 1;
        let ghost (ti, tn) = (ws.subrange(i as int, n as int), ws.subrange(i + 1, n as int));
        let ghost (ui, un) = (vs.subrange(i as int, n as int), vs.subrange(i + 1, n as int));
        proof {
            assert(ti.drop_first() =~= tn);
            assert(ui.drop_first() =~= un);
            lemma_total_suffix(ws, i as int);
            lemma_pow2_adds(ws[i as int], total_bits(tn));
            lemma_pow2_pos(total_bits(tn));
            lemma_pow2_pos(ws[i as int]);
            lemma_pow2_128();
        }
        let w = fields[i].bits;
        let v = values[i];
        assert(ti[0] == w && ui[0] == v);
        assert(pack_bits(ti, ui) == v + pow2(w as nat) * pack_bits(tn, un));
        assert(v < pow2(w as nat));
        if acc == 0 {
            proof {
                if total_bits(tn) > 0 {
                    lemma_pow2_strictly_increases(w as nat, (w + total_bits(tn)) as nat);
                }
            }
            assert(pack_bits(ti, ui) == v) by {
                assert(pow2(w as nat) * 0 == 0) by (nonlinear_arith);
            }
            acc = v;
        } else {
            proof {
                if total_bits(tn) == 0 {
                    vstd::arithmetic::power2::lemma2_to64();
                }
                lemma_pow2_strictly_increases(w as nat, 128);
                if w + total_bits(tn) < 128 {
                    lemma_pow2_strictly_increases((w + total_bits(tn)) as nat, 128);
                }
            }
            let p = pow2_u128(w);
            let ghost (rp, ra) = (pow2(total_bits(tn)), acc);
            assert(v + p * ra < p * rp) by (nonlinear_arith)
                requires v < p, ra < rp, 0 < p;
            acc = v + p * acc;
            assert(acc == pack_bits(ti, ui));
        }
    }
    proof {
        assert(ws.subrange(0, n as int) =~= ws);
        assert(vs.subrange(0, n as int) =~= vs);
    }
    acc
}

/// Splits a base integer into its sub-field values.
pub fn unpack(fields: &Vec<SubField>, x: u128) -> (r: Vec<u128>)
    ensures
        r@ == unpack_bits(widths_of(fields@), x as nat),
{
    let ghost ws = widths_of(fields@);
    let n = fields.len();
    let mut out: Vec<u128> = Vec::new();
    let mut rest: u128 = x;
    let mut i: usize = 0;
    proof {
        assert(ws.subrange(0, n as int) =~= ws);
    }
    while i < n
        invariant
            i <= n,
            n == fields@.len(),
            ws == widths_of(fields@),
            out@ + unpack_bits(ws.subrange(i as int, n as int), rest as nat) == unpack_bits(ws, x as nat),
        decreases n - i,
    {
        let ghost t = ws.subrange(i as int, n as int);
        assert(t.drop_first() =~= ws.subrange(i + 1, n as int));
        let w = fields[i].bits;
        proof {
            lemma_pow2_pos(w as nat);
        }
        if w >= 128 {
            proof {
                lemma_pow2_128();
                if w > 128 {
                    lemma_pow2_strictly_increases(128, w as nat);
                }
                lemma_small_mod(rest as nat, pow2(w as nat));
                lemma_basic_div(rest as int, pow2(w as nat) as int);
            }
            out.push(rest);
            rest = 0;
        } else {
            let p = pow2_u128(w);
            out.push(rest % p);
            rest = rest / p;
        }
        i = i + 1;
        assert(out@ + unpack_bits(ws.subrange(i as int, n as int), rest as nat) =~= unpack_bits(ws, x as nat));
    }
    assert(out@ + unpack_bits(ws.subrange(n as int, n as int), rest as nat) =~= out@);
    out
}

/// Whether the values are one per sub-field, each within its width.
pub fn values_fit(fields: &Vec<SubField>, values: &Vec<u128>) -> (r: bool)
    ensures
        r == fits_widths(widths_of(fields@), values@),
{
    let ghost ws = widths_of(fields@);
    if values.len() != fields.len() {
        return false;
    }
    let n = fields.len();
    let mut i: usize = 0;
    while i < n
        invariant
            i <= n,
            n == fields@.len(),
            n == values@.len(),
            ws == widths_of(fields@),
            forall|j: int| 0 <= j < i ==> values@[j] < pow2(#[trigger] ws[j]),
        decreases n - i,
    {
        let w = fields[i].bits;
        assert(ws[i as int] == w);
        if w < 128 {
            if values[i] >= pow2_u128(w) {
                return false;
            }
        } else {
            proof {
                lemma_pow2_128();
                if w > 128 {
                    lemma_pow2_strictly_increases(128, w as nat);
                }
            }
        }
        i = i + 1;
    }
    true
}

} // verus!
