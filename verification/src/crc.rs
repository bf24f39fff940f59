//! CRC-16/XMODEM (polynomial 0x1021, initial value 0, no reflection, no final xor),
//! computed byte by byte through a 256-entry lookup table and proved equal to the
//! bit-by-bit definition of the checksum.
use vstd::prelude::*;

verus! {

/// One clock of the CRC shift register: shift left by one and, if the bit that
/// fell out was set, fold the generator polynomial back in.
pub open spec fn crc_step(c: u16) -> u16 {
    if c & 0x8000 != 0 {
        (c << 1u16) ^ 0x1021u16
    } else {
        c << 1u16
    }
}

/// `n` clocks of the shift register.
pub open spec fn crc_steps(c: u16, n: nat) -> u16
    decreases n,
{
    if n == 0 {
        c
    } else {
        crc_step(crc_steps(c, (n - 1) as nat))
    }
}

/// Eight clocks of the shift register, written out so that the bit-vector solver can read it.
pub open spec fn crc_shift8(c: u16) -> u16 {
    crc_step(crc_step(crc_step(crc_step(crc_step(crc_step(crc_step(crc_step(c))))))))
}

/// The register after one more message byte has been fed in, bit by bit.
pub open spec fn crc_update(crc: u16, byte: u8) -> u16 {
    crc_shift8(crc ^ ((byte as u16) << 8u16))
}

/// The register after feeding `data`, starting from `init`.
pub open spec fn crc16_from(init: u16, data: Seq<u8>) -> u16
    decreases data.len(),
{
    if data.len() == 0 {
        init
    } else {
        crc_update(crc16_from(init, data.drop_last()), data.last())
    }
}

/// CRC-16/XMODEM of a byte sequence.
pub open spec fn crc16_spec(data: Seq<u8>) -> u16 {
    crc16_from(0, data)
}

/// Entry `i` of the lookup table: the register after eight clocks from `i << 8`.
pub open spec fn crc_table_entry(i: u16) -> u16 {
    crc_shift8(i << 8u16)
}

proof fn lemma_steps_eight(c: u16)
    ensures
        crc_steps(c, 8) == crc_shift8(c),
{
    reveal_with_fuel(crc_steps, 9);
}

/// Feeding a byte bit by bit is the same as one table lookup indexed by the
/// high byte of the register xored with the message byte.
proof fn lemma_table_lookup(crc: u16, byte: u8)
    ensures
        crc_update(crc, byte) == (crc << 8u16) ^ crc_table_entry(((((crc >> 8u16) as u8) ^ byte) as u16)),
{
    assert(crc_shift8(crc ^ ((byte as u16) << 8u16)) == (crc << 8u16) ^ crc_shift8(
        ((((crc >> 8u16) as u8) ^ byte) as u16) << 8u16,
    )) by (bit_vector);
}

/// Two different registers stay different after the same byte is fed in.
proof fn lemma_update_keeps_difference(x: u16, y: u16, byte: u8)
    requires
        x != y,
    ensures
        crc_update(x, byte) != crc_update(y, byte),
{
    assert(x != y ==> crc_shift8(x ^ ((byte as u16) << 8u16)) != crc_shift8(
        y ^ ((byte as u16) << 8u16),
    )) by (bit_vector);
}

/// Feeding two different bytes into the same register gives different registers.
proof fn lemma_update_separates_bytes(c: u16, b1: u8, b2: u8)
    requires
        b1 != b2,
    ensures
        crc_update(c, b1) != crc_update(c, b2),
{
    assert(b1 != b2 ==> crc_shift8(c ^ ((b1 as u16) << 8u16)) != crc_shift8(
        c ^ ((b2 as u16) << 8u16),
    )) by (bit_vector);
}

/// Replacing any one byte of the data by a different byte changes the CRC:
/// every single-byte error (a single-bit error among them) is detected.
pub proof fn lemma_crc_detects_byte_change(init: u16, data: Seq<u8>, i: int, v: u8)
    requires
        0 <= i < data.len(),
        v != data[i],
    ensures
        crc16_from(init, data.update(i, v)) != crc16_from(init, data),
    decreases data.len(),
{
    let changed = data.update(i, v);
    if i == data.len() - 1 {
        assert(changed.drop_last() =~= data.drop_last());
        lemma_update_separates_bytes(crc16_from(init, data.drop_last()), v, data.last());
    } else {
        assert(changed.drop_last() =~= data.drop_last().update(i, v));
        lemma_crc_detects_byte_change(init, data.drop_last(), i, v);
        lemma_update_keeps_difference(
            crc16_from(init, changed.drop_last()),
            crc16_from(init, data.drop_last()),
            data.last(),
        );
    }
}

/// The bytes of `a` and `b` combined by exclusive or, position by position.
pub open spec fn xor_bytes(a: Seq<u8>, b: Seq<u8>) -> Seq<u8> {
    Seq::new(a.len(), |i: int| a[i] ^ b[i])
}

/// Byte `i` of `s`, or zero past either end.
pub open spec fn byte_or_zero(s: Seq<u8>, i: int) -> u8 {
    if 0 <= i < s.len() {
        s[i]
    } else {
        0
    }
}

/// Bytes `k`, `k + 1`, `k + 2` of `s` (zero past the end) as one 24-bit word,
/// byte `k` most significant: bit `23 - t` of the word is bit `t` of the stream
/// counted from the most significant bit of byte `k`.
pub open spec fn window_word(s: Seq<u8>, k: int) -> u32 {
    ((byte_or_zero(s, k) as u32) << 16u32) | ((byte_or_zero(s, k + 1) as u32) << 8u32) | (
    byte_or_zero(s, k + 2) as u32)
}

/// All bits in which `a` and `b` differ lie within one window of 16 consecutive
/// bits of the stream (bytes in order, most significant bit first) that starts in
/// byte `k`: outside bytes `k..k + 3` they agree, and within them the differing
/// bits sit in bits `shift .. shift + 16` of the 24-bit word of those bytes.
pub open spec fn differ_within_16_bits(a: Seq<u8>, b: Seq<u8>, k: int, shift: u32) -> bool {
    &&& 0 <= k < a.len()
    &&& shift <= 8
    &&& forall|j: int| 0 <= j < a.len() && (j < k || j >= k + 3) ==> #[trigger] a[j] == b[j]
    &&& window_word(xor_bytes(a, b), k) & !(0xffffu32 << shift) == 0
}

/// Feeding `a + b` is feeding `a`, then `b`.
pub proof fn lemma_crc_concat(init: u16, a: Seq<u8>, b: Seq<u8>)
    ensures
        crc16_from(init, a + b) == crc16_from(crc16_from(init, a), b),
    decreases b.len(),
{
    if b.len() == 0 {
        assert(a + b =~= a);
    } else {
        assert((a + b).drop_last() =~= a + b.drop_last());
        lemma_crc_concat(init, a, b.drop_last());
    }
}

proof fn lemma_steps_linear(x: u16, y: u16, n: nat)
    ensures
        crc_steps(x ^ y, n) == crc_steps(x, n) ^ crc_steps(y, n),
    decreases n,
{
    if n > 0 {
        lemma_steps_linear(x, y, (n - 1) as nat);
        let a = crc_steps(x, (n - 1) as nat);
        let b = crc_steps(y, (n - 1) as nat);
        assert(crc_step(a ^ b) == crc_step(a) ^ crc_step(b)) by (bit_vector);
    }
}

proof fn lemma_steps_zero(c: u16, n: nat)
    ensures
        (crc_steps(c, n) == 0) == (c == 0),
    decreases n,
{
    if n > 0 {
        lemma_steps_zero(c, (n - 1) as nat);
        let a = crc_steps(c, (n - 1) as nat);
        assert((crc_step(a) == 0) == (a == 0)) by (bit_vector);
    }
}

proof fn lemma_steps_small(v: u16, k: u16)
    requires
        v < 256,
        k <= 8,
    ensures
        crc_steps(v, k as nat) == v << k,
    decreases k,
{
    if k == 0 {
        assert(v << 0u16 == v) by (bit_vector);
    } else {
        let j = (k - 1) as u16;
        lemma_steps_small(v, j);
        assert(crc_step(v << j) == v << k) by (bit_vector)
            requires
                v < 256,
                j < 8,
                k == j + 1,
        ;
    }
}

proof fn lemma_update_linear(x: u16, y: u16, a: u8, b: u8)
    ensures
        crc_update(x ^ y, a ^ b) == crc_update(x, a) ^ crc_update(y, b),
{
    let p = x ^ ((a as u16) << 8u16);
    let q = y ^ ((b as u16) << 8u16);
    assert((x ^ y) ^ (((a ^ b) as u16) << 8u16) == p ^ q) by (bit_vector)
        requires
            p == x ^ ((a as u16) << 8u16),
            q == y ^ ((b as u16) << 8u16),
    ;
    lemma_steps_linear(p, q, 8);
    lemma_steps_eight(p ^ q);
    lemma_steps_eight(p);
    lemma_steps_eight(q);
}

/// The register is linear: starting from `x ^ y` and feeding `a ^ b` gives the
/// exclusive or of feeding `a` from `x` and `b` from `y`.
pub proof fn lemma_crc_from_linear(x: u16, y: u16, a: Seq<u8>, b: Seq<u8>)
    requires
        a.len() == b.len(),
    ensures
        crc16_from(x ^ y, xor_bytes(a, b)) == crc16_from(x, a) ^ crc16_from(y, b),
    decreases a.len(),
{
    if a.len() > 0 {
        assert(xor_bytes(a, b).drop_last() =~= xor_bytes(a.drop_last(), b.drop_last()));
        lemma_crc_from_linear(x, y, a.drop_last(), b.drop_last());
        lemma_update_linear(
            crc16_from(x, a.drop_last()),
            crc16_from(y, b.drop_last()),
            a.last(),
            b.last(),
        );
    }
}

/// CRC-16/XMODEM is linear over exclusive or: the CRC of `a ^ b` is the
/// exclusive or of the CRCs of equal-length `a` and `b`.
pub proof fn lemma_crc_linear(a: Seq<u8>, b: Seq<u8>)
    requires
        a.len() == b.len(),
    ensures
        crc16_spec(xor_bytes(a, b)) == crc16_spec(a) ^ crc16_spec(b),
{
    assert(0u16 ^ 0u16 == 0u16) by (bit_vector);
    lemma_crc_from_linear(0, 0, a, b);
}

/// Appending the CRC of `data`, high byte first, leaves a CRC of zero.
pub proof fn lemma_crc_residue(data: Seq<u8>)
    ensures
        crc16_spec(
            data + seq![(crc16_spec(data) >> 8u16) as u8, (crc16_spec(data) & 0xffu16) as u8],
        ) == 0,
{
    let c = crc16_spec(data);
    let hi = (c >> 8u16) as u8;
    let lo = (c & 0xffu16) as u8;
    let ext = data + seq![hi, lo];
    assert(ext.drop_last().drop_last() =~= data);
    let v = c & 0xffu16;
    assert(c ^ ((hi as u16) << 8u16) == v && v < 256 && (v << 8u16) ^ ((lo as u16) << 8u16) == 0)
        by (bit_vector)
        requires
            hi == (c >> 8u16) as u8,
            lo == (c & 0xffu16) as u8,
            v == c & 0xffu16,
    ;
    lemma_steps_small(v, 8u16);
    lemma_steps_eight(v);
    lemma_steps_zero(0, 8);
    lemma_steps_eight(0);
    let r1 = crc_update(c, hi);
    assert(r1 == v << 8u16);
    assert(crc_update(r1, lo) == 0);
    assert(ext.drop_last().drop_last() =~= data);
    assert(crc16_from(0, ext.drop_last()) == r1);
    assert(crc16_from(0, ext) == crc_update(r1, lo));
}

/// Zero bytes keep the register at zero, and keep a non-zero register non-zero.
proof fn lemma_zero_bytes(init: u16, zeros: Seq<u8>)
    requires
        forall|j: int| 0 <= j < zeros.len() ==> #[trigger] zeros[j] == 0,
    ensures
        (crc16_from(init, zeros) == 0) == (init == 0),
    decreases zeros.len(),
{
    if zeros.len() > 0 {
        lemma_zero_bytes(init, zeros.drop_last());
        let r = crc16_from(init, zeros.drop_last());
        assert(r ^ ((0u8 as u16) << 8u16) == r) by (bit_vector);
        lemma_steps_zero(r, 8);
        lemma_steps_eight(r);
    }
}

/// Three bytes whose 24-bit word is non-zero and confined to 16 consecutive bits
/// drive a cleared register to a non-zero value.
proof fn lemma_burst_register(b0: u8, b1: u8, b2: u8, shift: u32)
    requires
        shift <= 8,
        ((b0 as u32) << 16u32) | ((b1 as u32) << 8u32) | (b2 as u32) != 0,
        (((b0 as u32) << 16u32) | ((b1 as u32) << 8u32) | (b2 as u32)) & !(0xffffu32 << shift) == 0,
    ensures
        crc_update(crc_update(crc_update(0, b0), b1), b2) != 0,
{
    let s0: u16 = 0u16 ^ ((b0 as u16) << 8u16);
    let s1: u16 = crc_step(s0);
    let s2: u16 = crc_step(s1);
    let s3: u16 = crc_step(s2);
    let s4: u16 = crc_step(s3);
    let s5: u16 = crc_step(s4);
    let s6: u16 = crc_step(s5);
    let s7: u16 = crc_step(s6);
    let s8: u16 = crc_step(s7);
    let t0: u16 = s8 ^ ((b1 as u16) << 8u16);
    let t1: u16 = crc_step(t0);
    let t2: u16 = crc_step(t1);
    let t3: u16 = crc_step(t2);
    let t4: u16 = crc_step(t3);
    let t5: u16 = crc_step(t4);
    let t6: u16 = crc_step(t5);
    let t7: u16 = crc_step(t6);
    let t8: u16 = crc_step(t7);
    let w0: u16 = t8 ^ ((b2 as u16) << 8u16);
    let w1: u16 = crc_step(w0);
    let w2: u16 = crc_step(w1);
    let w3: u16 = crc_step(w2);
    let w4: u16 = crc_step(w3);
    let w5: u16 = crc_step(w4);
    let w6: u16 = crc_step(w5);
    let w7: u16 = crc_step(w6);
    let w8: u16 = crc_step(w7);
    assert(w8 != 0) by (bit_vector)
        requires
            s0 == 0u16 ^ ((b0 as u16) << 8u16),
            s1 == crc_step(s0),
            s2 == crc_step(s1),
            s3 == crc_step(s2),
            s4 == crc_step(s3),
            s5 == crc_step(s4),
            s6 == crc_step(s5),
            s7 == crc_step(s6),
            s8 == crc_step(s7),
            t1 == crc_step(t0),
            t2 == crc_step(t1),
            t3 == crc_step(t2),
            t4 == crc_step(t3),
            t5 == crc_step(t4),
            t6 == crc_step(t5),
            t7 == crc_step(t6),
            t8 == crc_step(t7),
            w1 == crc_step(w0),
            w2 == crc_step(w1),
            w3 == crc_step(w2),
            w4 == crc_step(w3),
            w5 == crc_step(w4),
            w6 == crc_step(w5),
            w7 == crc_step(w6),
            w8 == crc_step(w7),
            t0 == s8 ^ ((b1 as u16) << 8u16),
            w0 == t8 ^ ((b2 as u16) << 8u16),
            shift <= 8,
            ((b0 as u32) << 16u32) | ((b1 as u32) << 8u32) | (b2 as u32) != 0,
            (((b0 as u32) << 16u32) | ((b1 as u32) << 8u32) | (b2 as u32)) & !(0xffffu32 << shift) == 0,
    ;
}

/// Feeding a zero byte clears only a cleared register.
proof fn lemma_update_zero(r: u16)
    ensures
        (crc_update(r, 0u8) == 0) == (r == 0),
{
    assert(r ^ ((0u8 as u16) << 8u16) == r) by (bit_vector);
    lemma_steps_zero(r, 8);
    lemma_steps_eight(r);
}

/// Every error burst of at most 16 bits is detected: data that differ only in
/// bits lying within one window of 16 consecutive bits have different CRCs.
pub proof fn lemma_crc_detects_short_burst(a: Seq<u8>, b: Seq<u8>, k: int, shift: u32)
    requires
        a.len() == b.len(),
        a != b,
        differ_within_16_bits(a, b, k, shift),
    ensures
        crc16_spec(a) != crc16_spec(b),
{
    let e = xor_bytes(a, b);
    lemma_crc_linear(a, b);
    assert(!(a =~= b));
    let j = choose|j: int| 0 <= j < a.len() && a[j] != b[j];
    assert(e[j] == a[j] ^ b[j]);
    let (aj, bj) = (a[j], b[j]);
    assert(aj != bj ==> aj ^ bj != 0) by (bit_vector);
    assert(k <= j < k + 3);
    let m = if k + 3 <= e.len() { k + 3 } else { e.len() as int };
    let pre = e.take(k);
    let mid = e.subrange(k, m);
    let post = e.skip(m);
    assert(e =~= pre + mid + post);
    assert forall|i: int| 0 <= i < pre.len() implies #[trigger] pre[i] == 0 by {
        assert(a[i] == b[i]);
        let x = a[i];
        assert(x ^ x == 0) by (bit_vector);
    }
    assert forall|i: int| 0 <= i < post.len() implies #[trigger] post[i] == 0 by {
        assert(a[m + i] == b[m + i]);
        let x = a[m + i];
        assert(x ^ x == 0) by (bit_vector);
    }
    lemma_zero_bytes(0, pre);
    lemma_crc_concat(0, pre, mid);
    lemma_crc_concat(0, pre + mid, post);
    let b0 = byte_or_zero(e, k);
    let b1 = byte_or_zero(e, k + 1);
    let b2 = byte_or_zero(e, k + 2);
    assert(window_word(e, k) == ((b0 as u32) << 16u32) | ((b1 as u32) << 8u32) | (b2 as u32));
    assert(((b0 as u32) << 16u32) | ((b1 as u32) << 8u32) | (b2 as u32) == 0 ==> b0 == 0 && b1 == 0
        && b2 == 0) by (bit_vector);
    assert(e[j] != 0);
    lemma_burst_register(b0, b1, b2, shift);
    let r1 = crc_update(0, b0);
    let r2 = crc_update(r1, b1);
    assert(mid[0] == b0);
    assert(mid.take(1).drop_last() =~= Seq::<u8>::empty());
    assert(crc16_from(0, mid.take(1).drop_last()) == 0);
    assert(mid.take(1).last() == b0);
    assert(crc16_from(0, mid.take(1)) == r1);
    if mid.len() == 1 {
        assert(b1 == 0 && b2 == 0);
        assert(mid.take(1) =~= mid);
        lemma_update_zero(r1);
        lemma_update_zero(r2);
    } else {
        assert(mid.take(2).drop_last() =~= mid.take(1));
        assert(mid.take(2).last() == b1);
        assert(crc16_from(0, mid.take(2)) == r2);
        if mid.len() == 2 {
            assert(b2 == 0);
            assert(mid.take(2) =~= mid);
            lemma_update_zero(r2);
        } else {
            assert(mid.drop_last() =~= mid.take(2));
            assert(mid.last() == b2);
        }
    }
    assert(crc16_from(0, mid) != 0);
    lemma_zero_bytes(crc16_from(0, pre + mid), post);
    let x = crc16_spec(a);
    let y = crc16_spec(b);
    assert(x ^ y != 0 ==> x != y) by (bit_vector);
}

/// Builds the 256-entry lookup table, entry `i` being eight register clocks from `i << 8`.
fn crc16_table() -> (table: Vec<u16>)
    ensures
        table@.len() == 256,
        forall|i: int| 0 <= i < 256 ==> #[trigger] table@[i] == crc_table_entry(i as u16),
{
    let mut table: Vec<u16> = Vec::new();
    let mut i: usize = 0;
    while i < 256
        invariant
            i <= 256,
            table@.len() == i,
            forall|j: int| 0 <= j < i ==> #[trigger] table@[j] == crc_table_entry(j as u16),
        decreases 256 - i,
    {
        let start: u16 = (i as u16) << 8u16;
        let mut crc: u16 = start;
        let mut bit: u32 = 0;
        while bit < 8
            invariant
                bit <= 8,
                crc == crc_steps(start, bit as nat),
            decreases 8 - bit,
        {
            if crc & 0x8000 != 0 {
                crc = (crc << 1u16) ^ 0x1021u16;
            } else {
                crc = crc << 1u16;
            }
            bit += 1;
        }
        proof {
            lemma_steps_eight(start);
        }
        table.push(crc);
        i += 1;
    }
    table
}

/// CRC-16/XMODEM of `data`.
pub fn crc16_xmodem(data: &[u8]) -> (crc: u16)
    ensures
        crc == crc16_spec(data@),
{
    let table = crc16_table();
    let mut crc: u16 = 0;
    let mut i: usize = 0;
    while i < data.len()
        invariant
            i <= data@.len(),
            table@.len() == 256,
            forall|k: int| 0 <= k < 256 ==> #[trigger] table@[k] == crc_table_entry(k as u16),
            crc == crc16_from(0, data@.take(i as int)),
        decreases data@.len() - i,
    {
        let byte = data[i];
        let idx: u8 = ((crc >> 8u16) as u8) ^ byte;
        proof {
            lemma_table_lookup(crc, byte);
            assert(data@.take(i + 1).drop_last() =~= data@.take(i as int));
        }
        crc = (crc << 8u16) ^ table[idx as usize];
        i += 1;
    }
    assert(data@.take(data@.len() as int) =~= data@);
    crc
}

} // verus!
