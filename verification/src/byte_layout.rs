//! Little-endian byte layouts of unsigned integers, and the packing of
//! several narrow integers into one wide one.

use vstd::prelude::*;

verus! {

/// 256 to the power `n`: the number of values that `n` bytes can hold.
pub open spec fn pow256(n: nat) -> nat
    decreases n,
{
    if n == 0 {
        1
    } else {
        256 * pow256((n - 1) as nat)
    }
}

/// The powers of 256 that fit a machine word, and the first that does not.
pub proof fn lemma_pow256_values()
    ensures
        pow256(0) == 1,
        pow256(1) == 0x100,
        pow256(2) == 0x1_0000,
        pow256(3) == 0x100_0000,
        pow256(4) == 0x1_0000_0000,
        pow256(5) == 0x100_0000_0000,
        pow256(6) == 0x1_0000_0000_0000,
        pow256(7) == 0x100_0000_0000_0000,
        pow256(8) == 0x1_0000_0000_0000_0000,
{
    reveal_with_fuel(pow256, 10);
}

/// Powers add in the exponent.
pub proof fn lemma_pow256_add(a: nat, b: nat)
    ensures
        pow256(a + b) == pow256(a) * pow256(b),
        pow256(a) > 0,
    decreases a,
{
    if a == 0 {
        assert(pow256(0) == 1);
    } else {
        lemma_pow256_add((a - 1) as nat, b);
        assert(pow256(a + b) == 256 * pow256((a + b - 1) as nat));
        assert(256 * (pow256((a - 1) as nat) * pow256(b)) == (256 * pow256((a - 1) as nat)) * pow256(b)) by (nonlinear_arith);
    }
}

/// Powers grow with the exponent.
pub proof fn lemma_pow256_monotonic(a: nat, b: nat)
    requires
        a <= b,
    ensures
        pow256(a) <= pow256(b),
{
    lemma_pow256_add(a, (b - a) as nat);
    lemma_pow256_add((b - a) as nat, 0);
    assert(pow256(a) <= pow256(a) * pow256((b - a) as nat)) by (nonlinear_arith)
        requires
            pow256((b - a) as nat) > 0,
            pow256(a) > 0,
    ;
}

/// The `w` low bytes of `x`, least significant first.
pub open spec fn le_bytes(x: nat, w: nat) -> Seq<u8>
    decreases w,
{
    if w == 0 {
        Seq::empty()
    } else {
        seq![(x % 256) as u8] + le_bytes(x / 256, (w - 1) as nat)
    }
}

/// The number whose little-endian bytes are `b`.
pub open spec fn le_value(b: Seq<u8>) -> nat
    decreases b.len(),
{
    if b.len() == 0 {
        0
    } else {
        b[0] as nat + 256 * le_value(b.drop_first())
    }
}

/// `w` bytes come out.
pub proof fn lemma_le_bytes_len(x: nat, w: nat)
    ensures
        le_bytes(x, w).len() == w,
    decreases w,
{
    if w > 0 {
        lemma_le_bytes_len(x / 256, (w - 1) as nat);
    }
}

/// `n` bytes hold a number below 256 to the `n`.
pub proof fn lemma_le_value_bound(b: Seq<u8>)
    ensures
        le_value(b) < pow256(b.len()),
    decreases b.len(),
{
    if b.len() > 0 {
        lemma_le_value_bound(b.drop_first());
    }
}

/// Reading back the `w` low bytes of `x` gives `x` when `x` fits `w` bytes.
pub proof fn lemma_le_round_trip(x: nat, w: nat)
    requires
        x < pow256(w),
    ensures
        le_value(le_bytes(x, w)) == x,
    decreases w,
{
    if w > 0 {
        let rest = le_bytes(x / 256, (w - 1) as nat);
        let all = le_bytes(x, w);
        assert(all.drop_first() =~= rest);
        assert(x / 256 < pow256((w - 1) as nat)) by (nonlinear_arith)
            requires
                x < 256 * pow256((w - 1) as nat),
        ;
        lemma_le_round_trip(x / 256, (w - 1) as nat);
        assert(x == 256 * (x / 256) + x % 256) by (nonlinear_arith);
    }
}

/// Several fields laid out one after another, least significant first, as
/// one number: field `i` has `widths[i]` bytes and holds `vals[i]`.
pub open spec fn pack(vals: Seq<nat>, widths: Seq<nat>) -> nat
    decreases vals.len(),
{
    if vals.len() == 0 {
        0
    } else {
        vals[0] + pow256(widths[0]) * pack(vals.drop_first(), widths.drop_first())
    }
}

/// The bytes that a list of fields takes.
pub open spec fn span(widths: Seq<nat>) -> nat
    decreases widths.len(),
{
    if widths.len() == 0 {
        0
    } else {
        widths[0] + span(widths.drop_first())
    }
}

/// Fields that each fit their width pack into a number that fits their
/// span.
pub proof fn lemma_pack_bound(vals: Seq<nat>, widths: Seq<nat>)
    requires
        vals.len() == widths.len(),
        forall|i: int| 0 <= i < vals.len() ==> vals[i] < pow256(#[trigger] widths[i]),
    ensures
        pack(vals, widths) < pow256(span(widths)),
    decreases vals.len(),
{
    if vals.len() > 0 {
        let v = vals.drop_first();
        let w = widths.drop_first();
        assert forall|i: int| 0 <= i < v.len() implies v[i] < pow256(#[trigger] w[i]) by {
            assert(vals[i + 1] < pow256(widths[i + 1]));
        }
        lemma_pack_bound(v, w);
        lemma_pow256_add(widths[0], span(w));
        let p = pow256(widths[0]);
        let q = pow256(span(w));
        let rest = pack(v, w);
        assert(vals[0] < pow256(widths[0]));
        assert(vals[0] + p * rest < p * q) by (nonlinear_arith)
            requires
                vals[0] < p,
                rest < q,
        ;
    } else {
        assert(pow256(0) == 1);
    }
}

/// The field of `width` bytes that starts `offset` bytes into `key`.
pub open spec fn field_at(key: nat, offset: nat, width: nat) -> nat {
    (key / pow256(offset)) % pow256(width)
}

/// The span of two lists of fields laid end to end.
pub proof fn lemma_span_concat(a: Seq<nat>, b: Seq<nat>)
    ensures
        span(a + b) == span(a) + span(b),
    decreases a.len(),
{
    if a.len() == 0 {
        assert(a + b =~= b);
    } else {
        assert((a + b).drop_first() =~= a.drop_first() + b);
        lemma_span_concat(a.drop_first(), b);
    }
}

/// The span of `n` fields of `w` bytes each.
pub proof fn lemma_span_uniform(widths: Seq<nat>, w: nat)
    requires
        forall|i: int| 0 <= i < widths.len() ==> widths[i] == w,
    ensures
        span(widths) == widths.len() * w,
    decreases widths.len(),
{
    if widths.len() > 0 {
        lemma_span_uniform(widths.drop_first(), w);
        assert(widths.len() * w == w + (widths.len() - 1) * w) by (nonlinear_arith);
    }
}

/// The longer a suffix, the larger its span.
pub proof fn lemma_span_suffix(widths: Seq<nat>, k: int)
    requires
        0 <= k <= widths.len(),
    ensures
        span(widths.subrange(k, widths.len() as int)) <= span(widths),
    decreases k,
{
    if k == 0 {
        assert(widths.subrange(0, widths.len() as int) =~= widths);
    } else {
        lemma_span_suffix(widths, k - 1);
        assert(widths.subrange(k - 1, widths.len() as int).drop_first() =~= widths.subrange(k, widths.len() as int));
    }
}

/// The power of 256 for an exponent below 8.
pub fn pow256_word(n: usize) -> (p: u64)
    requires
        n < 8,
    ensures
        p == pow256(n as nat),
{
    proof {
        lemma_pow256_values();
    }
    if n == 0 {
        1
    } else if n == 1 {
        0x100
    } else if n == 2 {
        0x1_0000
    } else if n == 3 {
        0x100_0000
    } else if n == 4 {
        0x1_0000_0000
    } else if n == 5 {
        0x100_0000_0000
    } else if n == 6 {
        0x1_0000_0000_0000
    } else {
        0x100_0000_0000_0000
    }
}

/// Appends the `w` low bytes of `x` to `out`, least significant first.
pub fn push_le_bytes(out: &mut Vec<u8>, x: u64, w: usize)
    ensures
        final(out)@ == old(out)@ + le_bytes(x as nat, w as nat),
{
    let mut y: u64 = x;
    let mut i: usize = 0;
    assert(out@ + le_bytes(y as nat, w as nat) =~= old(out)@ + le_bytes(x as nat, w as nat));
    while i < w
        invariant
            i <= w,
            out@ + le_bytes(y as nat, (w - i) as nat) == old(out)@ + le_bytes(x as nat, w as nat),
        decreases w - i,
    {
        let ghost before = out@;
        out.push((y % 256) as u8);
        proof {
            assert(before + le_bytes(y as nat, (w - i) as nat) =~= before.push((y % 256) as u8) + le_bytes(
                (y / 256) as nat,
                (w - i - 1) as nat,
            ));
        }
        y = y / 256;
        i += 1;
    }
    assert(le_bytes(y as nat, 0) =~= Seq::<u8>::empty());
    assert(out@ + Seq::<u8>::empty() =~= out@);
}

/// Reads the number held by the `w` bytes of `bytes` that start at `pos`.
pub fn read_le_value(bytes: &Vec<u8>, pos: usize, w: usize) -> (x: u64)
    requires
        w <= 8,
        pos + w <= bytes@.len(),
    ensures
        x == le_value(bytes@.subrange(pos as int, pos + w)),
{
    let mut acc: u64 = 0;
    let mut i: usize = w;
    let n = bytes.len();
    assert(bytes@.subrange(pos + w, pos + w) =~= Seq::<u8>::empty());
    while i > 0
        invariant
            i <= w,
            w <= 8,
            n == bytes@.len(),
            pos + w <= n,
            acc == le_value(bytes@.subrange(pos + i, pos + w)),
        decreases i,
    {
        proof {
            let tail = bytes@.subrange(pos + i, pos + w);
            let more = bytes@.subrange(pos + i - 1, pos + w);
            assert(more.drop_first() =~= tail);
            lemma_le_value_bound(more);
            lemma_pow256_monotonic(more.len(), 8);
            lemma_pow256_values();
        }
        i -= 1;
        acc = bytes[pos + i] as u64 + 256 * acc;
    }
    acc
}

} // verus!
