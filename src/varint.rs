use vstd::prelude::*;

use crate::wire_type::WireType;

verus! {

/// The most bytes a varint holding a 64-bit value may take.
pub const MAX_VARINT_LEN: usize = 10;

/// `128` raised to the power `n`.
pub open spec fn pow128(n: nat) -> nat
    decreases n,
{
    if n == 0 {
        1
    } else {
        128 * pow128((n - 1) as nat)
    }
}

/// Whether a byte has its continuation bit set.
pub open spec fn continues(b: u8) -> bool {
    b >= 128
}

/// The number that a run of varint bytes spells: seven payload bits per byte,
/// low bits first; the continuation bits are ignored.
pub open spec fn varint_value(s: Seq<u8>) -> nat
    decreases s.len(),
{
    if s.len() == 0 {
        0
    } else {
        (s[0] % 128) as nat + 128 * varint_value(s.drop_first())
    }
}

/// The LEB128 encoding of `v`: seven bits per byte, low bits first, the
/// continuation bit set on every byte but the last.
pub open spec fn varint_bytes(v: nat) -> Seq<u8>
    decreases v,
{
    if v < 128 {
        seq![v as u8]
    } else {
        seq![(v % 128 + 128) as u8] + varint_bytes(v / 128)
    }
}

/// The index of the first byte at or after `p` whose continuation bit is clear,
/// or `d.len()` when there is none.
pub open spec fn varint_end(d: Seq<u8>, p: int) -> int
    decreases d.len() - p,
{
    if p >= d.len() {
        d.len() as int
    } else if !continues(d[p]) {
        p
    } else {
        varint_end(d, p + 1)
    }
}

/// The header of a field: `(tag << 3) | code`.
pub open spec fn header_value(tag: nat, wire_type: WireType) -> nat {
    tag * 8 + wire_type.code()
}

/// The bytes of a field header.
pub open spec fn header_bytes(tag: nat, wire_type: WireType) -> Seq<u8> {
    varint_bytes(header_value(tag, wire_type))
}

pub proof fn lemma_pow128_positive(n: nat)
    ensures
        pow128(n) >= 1,
    decreases n,
{
    if n > 0 {
        lemma_pow128_positive((n - 1) as nat);
    }
}

/// Appending a byte adds its payload bits above those already there.
pub proof fn lemma_value_push(s: Seq<u8>, b: u8)
    ensures
        varint_value(s.push(b)) == varint_value(s) + (b % 128) as nat * pow128(s.len()),
    decreases s.len(),
{
    if s.len() == 0 {
        assert(s.push(b).drop_first() =~= Seq::<u8>::empty());
        assert(varint_value(Seq::<u8>::empty()) == 0);
    } else {
        assert(s.push(b).drop_first() =~= s.drop_first().push(b));
        lemma_value_push(s.drop_first(), b);
        let t = s.drop_first();
        assert(pow128(s.len()) == 128 * pow128(t.len()));
        assert(128 * (varint_value(t) + (b % 128) as nat * pow128(t.len())) == 128
            * varint_value(t) + (b % 128) as nat * (128 * pow128(t.len()))) by (nonlinear_arith);
    }
}

/// The value of `n` varint bytes is below `128^n`.
pub proof fn lemma_value_bound(s: Seq<u8>)
    ensures
        varint_value(s) < pow128(s.len()),
    decreases s.len(),
{
    if s.len() > 0 {
        lemma_value_bound(s.drop_first());
        let t = s.drop_first();
        assert(pow128(s.len()) == 128 * pow128(t.len()));
        assert((s[0] % 128) as nat + 128 * varint_value(t) < 128 * pow128(t.len())) by (nonlinear_arith)
            requires
                (s[0] % 128) < 128,
                varint_value(t) < pow128(t.len()),
        ;
    }
}

pub proof fn lemma_pow128_ten()
    ensures
        pow128(9) == 0x8000_0000_0000_0000,
        pow128(10) > 0xffff_ffff_ffff_ffff,
{
    reveal_with_fuel(pow128, 11);
}

/// Facts on the encoding of `v`: it spells `v`, only its last byte ends it, and
/// a value below `128^n` takes at most `n` bytes.
pub proof fn lemma_varint_bytes(v: nat)
    ensures
        varint_bytes(v).len() >= 1,
        varint_value(varint_bytes(v)) == v,
        !continues(varint_bytes(v).last()),
        forall|i: int| 0 <= i < varint_bytes(v).len() - 1 ==> continues(#[trigger] varint_bytes(v)[i]),
        forall|n: nat| n >= 1 && v < pow128(n) ==> varint_bytes(v).len() <= n,
    decreases v,
{
    if v >= 128 {
        lemma_varint_bytes(v / 128);
        let s = varint_bytes(v);
        let t = varint_bytes(v / 128);
        assert(s.drop_first() =~= t);
        assert(s[0] % 128 == v % 128);
        assert(v == v % 128 + 128 * (v / 128));
        assert forall|i: int| 0 <= i < s.len() - 1 implies continues(#[trigger] s[i]) by {
            if i > 0 {
                assert(s[i] == t[i - 1]);
            }
        }
        assert forall|n: nat| n >= 1 && v < pow128(n) implies s.len() <= n by {
            if n == 1 {
                assert(pow128(1) == 128 * pow128(0));
            } else {
                let m = (n - 1) as nat;
                assert(pow128(n) == 128 * pow128(m));
                assert(v / 128 < pow128(m)) by (nonlinear_arith)
                    requires
                        v < 128 * pow128(m),
                ;
            }
        }
    } else {
        assert forall|n: nat| n >= 1 && v < pow128(n) implies varint_bytes(v).len() <= n by {}
        assert(varint_bytes(v).drop_first() =~= Seq::<u8>::empty());
        assert(varint_value(Seq::<u8>::empty()) == 0);
        assert(varint_bytes(v)[0] % 128 == v);
    }
}

/// A varint that stands in a stream at `p` ends at its own last byte.
pub proof fn lemma_end_of_encoding(pre: Seq<u8>, v: nat, rest: Seq<u8>)
    ensures
        varint_end(pre + varint_bytes(v) + rest, pre.len() as int) == pre.len() + varint_bytes(v).len() - 1,
        (pre + varint_bytes(v) + rest).subrange(pre.len() as int, pre.len() + varint_bytes(v).len() as int)
            == varint_bytes(v),
{
    lemma_varint_bytes(v);
    let d = pre + varint_bytes(v) + rest;
    let e = varint_bytes(v);
    let k = e.len() as int;
    assert forall|i: int| 0 <= i < e.len() implies d[pre.len() + i] == e[i] by {}
    lemma_end_scan(d, e, pre.len() as int, k - 1);
    assert(d.subrange(pre.len() as int, pre.len() + k) =~= e);
}

proof fn lemma_end_scan(d: Seq<u8>, e: Seq<u8>, base: int, left: int)
    requires
        0 <= base,
        e.len() >= 1,
        0 <= left < e.len(),
        base + e.len() <= d.len(),
        forall|i: int| 0 <= i < e.len() ==> d[base + i] == e[i],
        !continues(e.last()),
        forall|i: int| 0 <= i < e.len() - 1 ==> continues(#[trigger] e[i]),
    ensures
        varint_end(d, base + e.len() - 1 - left) == base + e.len() - 1,
    decreases left,
{
    let p = base + e.len() - 1 - left;
    assert(d[p] == e[e.len() - 1 - left]);
    if left > 0 {
        lemma_end_scan(d, e, base, left - 1);
    }
}

} // verus!
