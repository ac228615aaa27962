//! Bit-string helpers for framing. Bits are MSB-first within bytes, matching
//! how FSK symbols arrive on the air.

use vstd::prelude::*;

verus! {

/// `1` for a set bit, `0` otherwise.
pub open spec fn bit_val(b: bool) -> u8 {
    if b { 1u8 } else { 0u8 }
}

/// Bit `i` (MSB-first) of a byte sequence.
pub open spec fn spec_bit_at(bytes: Seq<u8>, i: int) -> bool {
    (bytes[i / 8] >> ((7 - i % 8) as u8)) & 1u8 == 1u8
}

/// The first `k` bits starting at `s`, packed MSB-first into a byte.
pub open spec fn pack_bits(bits: Seq<bool>, s: int, k: nat) -> u8
    decreases k,
{
    if k == 0 {
        0u8
    } else {
        ((pack_bits(bits, s, (k - 1) as nat) << 1u8) | bit_val(bits[s + k - 1])) as u8
    }
}

/// The byte whose eight bits start at bit offset `s`.
pub open spec fn byte_at(bits: Seq<bool>, s: int) -> u8 {
    pack_bits(bits, s, 8)
}

/// MSB-first unpacking of a byte sequence.
pub open spec fn spec_to_bits(bytes: Seq<u8>) -> Seq<bool> {
    Seq::new(bytes.len() * 8, |i: int| spec_bit_at(bytes, i))
}

/// Every bit flipped.
pub open spec fn spec_inverted(bits: Seq<bool>) -> Seq<bool> {
    Seq::new(bits.len(), |i: int| !bits[i])
}

/// `n` bytes packed from the bits starting at `from`, if that many bits remain.
pub open spec fn spec_extract_bytes(bits: Seq<bool>, from: int, n: int) -> Option<Seq<u8>> {
    if from + n * 8 > bits.len() {
        None
    } else {
        Some(Seq::new(n as nat, |b: int| byte_at(bits, from + b * 8)))
    }
}

/// The `pattern_bits` first bits of `pattern` occur in `haystack` at bit offset `off`.
pub open spec fn matches_at(haystack: Seq<bool>, pattern: Seq<u8>, pattern_bits: int, off: int) -> bool {
    &&& 0 <= off
    &&& off + pattern_bits <= haystack.len()
    &&& forall|j: int| 0 <= j < pattern_bits ==> #[trigger] haystack[off + j] == spec_bit_at(pattern, j)
}

/// Differential Manchester decoding from bit `i`, with `prev` the half-bit
/// before `i`: each symbol is a pair of differing half-bits, and it decodes to
/// `1` exactly when its first half differs from the half before it. Stops
/// after `remaining` symbols, at the end of the bits, or at a pair without its
/// mid-symbol transition. Returns the decoded bits and where decoding stopped.
pub open spec fn spec_dm_decode(bits: Seq<bool>, i: int, prev: bool, remaining: nat) -> (Seq<bool>, int)
    decreases remaining,
{
    if remaining == 0 || i < 0 || i + 1 >= bits.len() || bits[i] == bits[i + 1] {
        (Seq::<bool>::empty(), i)
    } else {
        let rest = spec_dm_decode(bits, i + 2, bits[i + 1], (remaining - 1) as nat);
        (seq![bits[i] != prev] + rest.0, rest.1)
    }
}

/// Differential Manchester encoding of `data` after a line at level `level`.
pub open spec fn spec_dm_encode(data: Seq<bool>, level: bool) -> Seq<bool>
    decreases data.len(),
{
    if data.len() == 0 {
        Seq::<bool>::empty()
    } else {
        let first = if data[0] { !level } else { level };
        seq![first, !first] + spec_dm_encode(data.drop_first(), !first)
    }
}

fn bit_u8(b: bool) -> (r: u8)
    ensures
        r == bit_val(b),
{
    if b {
        1
    } else {
        0
    }
}

/// Bit `i` (MSB-first) of a byte slice.
pub fn bit_at(bytes: &[u8], i: usize) -> (b: bool)
    requires
        i / 8 < bytes.len(),
    ensures
        b == spec_bit_at(bytes@, i as int),
{
    let sh: u8 = (7 - i % 8) as u8;
    (bytes[i / 8] >> sh) & 1 == 1
}

/// Search `haystack` for `pattern` (given as bytes, `pattern_bits` long, MSB
/// first) starting at bit offset `from`. Returns the bit offset of the first
/// match at or after `from`. A haystack shorter than the pattern holds no
/// match, and then the pattern's bytes are not read.
pub fn find_pattern(haystack: &[bool], pattern: &[u8], pattern_bits: usize, from: usize) -> (r: Option<usize>)
    requires
        pattern_bits <= pattern.len() * 8 || haystack.len() < pattern_bits,
    ensures
        match r {
            Some(off) => {
                &&& from <= off
                &&& matches_at(haystack@, pattern@, pattern_bits as int, off as int)
                &&& forall|o: int| from <= o < off ==> !matches_at(haystack@, pattern@, pattern_bits as int, o)
                &&& pattern_bits > 0
            },
            None => pattern_bits == 0 || forall|o: int|
                from <= o ==> !matches_at(haystack@, pattern@, pattern_bits as int, o),
        },
{
    if pattern_bits == 0 || haystack.len() < pattern_bits {
        return None;
    }
    let mut pat: Vec<bool> = Vec::new();
    let mut i: usize = 0;
    while i < pattern_bits
        invariant
            i <= pattern_bits,
            pattern_bits <= pattern.len() * 8,
            pat@.len() == i,
            forall|j: int| 0 <= j < i ==> pat@[j] == spec_bit_at(pattern@, j),
        decreases pattern_bits - i,
    {
        pat.push(bit_at(pattern, i));
        i = i + 1;
    }
    let last = haystack.len() - pattern_bits;
    let mut off: usize = from;
    while off <= last
        invariant
            from <= off,
            pattern_bits > 0,
            last == haystack.len() - pattern_bits,
            pattern_bits <= haystack.len(),
            pat@.len() == pattern_bits,
            forall|j: int| 0 <= j < pattern_bits ==> pat@[j] == spec_bit_at(pattern@, j),
            forall|o: int| from <= o < off ==> !matches_at(haystack@, pattern@, pattern_bits as int, o),
        decreases last + 1 - off,
    {
        let mut j: usize = 0;
        let mut ok = true;
        while j < pattern_bits && ok
            invariant
                j <= pattern_bits,
                off <= last,
                last == haystack.len() - pattern_bits,
                pat@.len() == pattern_bits,
                ok ==> forall|k: int| 0 <= k < j ==> haystack@[off + k] == pat@[k],
                !ok ==> !matches_at(haystack@, pattern@, pattern_bits as int, off as int),
                forall|k: int| 0 <= k < pattern_bits ==> pat@[k] == spec_bit_at(pattern@, k),
            decreases pattern_bits - j + (if ok { 1int } else { 0int }),
        {
            if haystack[off + j] != pat[j] {
                ok = false;
                assert(haystack@[off + j as int] != spec_bit_at(pattern@, j as int));
            } else {
                j = j + 1;
            }
        }
        if ok {
            assert forall|k: int| 0 <= k < pattern_bits implies #[trigger] haystack@[off + k] == spec_bit_at(pattern@, k) by {
                assert(haystack@[off + k] == pat@[k]);
            }
            assert(matches_at(haystack@, pattern@, pattern_bits as int, off as int));
            return Some(off);
        }
        off = off + 1;
    }
    None
}

/// Pack `n_bytes` bytes starting at bit offset `from`, MSB first. Returns
/// `None` if not enough bits remain.
pub fn extract_bytes(bits: &[bool], from: usize, n_bytes: usize) -> (r: Option<Vec<u8>>)
    ensures
        match r {
            Some(v) => spec_extract_bytes(bits@, from as int, n_bytes as int) == Some(v@),
            None => spec_extract_bytes(bits@, from as int, n_bytes as int) is None,
        },
{
    if from > bits.len() || n_bytes > (bits.len() - from) / 8 {
        return None;
    }
    let mut out: Vec<u8> = Vec::new();
    let mut b: usize = 0;
    while b < n_bytes
        invariant
            b <= n_bytes,
            from + n_bytes * 8 <= bits.len(),
            out@.len() == b,
            forall|c: int| 0 <= c < b ==> out@[c] == byte_at(bits@, from + c * 8),
        decreases n_bytes - b,
    {
        let base = from + b * 8;
        let mut acc: u8 = 0;
        let mut k: usize = 0;
        while k < 8
            invariant
                k <= 8,
                b < n_bytes,
                base == from + b * 8,
                base + 8 <= bits.len(),
                acc == pack_bits(bits@, base as int, k as nat),
            decreases 8 - k,
        {
            acc = (acc << 1) | bit_u8(bits[base + k]);
            k = k + 1;
        }
        out.push(acc);
        b = b + 1;
    }
    proof {
        assert(out@ =~= Seq::new(n_bytes as nat, |c: int| byte_at(bits@, from + c * 8)));
    }
    Some(out)
}

/// Unpack bytes to MSB-first bits (inverse of `extract_bytes`).
pub fn to_bits(bytes: &[u8]) -> (r: Vec<bool>)
    requires
        bytes.len() * 8 <= usize::MAX,
    ensures
        r@ == spec_to_bits(bytes@),
{
    let n = bytes.len() * 8;
    let mut out: Vec<bool> = Vec::new();
    let mut i: usize = 0;
    while i < n
        invariant
            i <= n,
            n == bytes.len() * 8,
            out@.len() == i,
            forall|j: int| 0 <= j < i ==> out@[j] == spec_bit_at(bytes@, j),
        decreases n - i,
    {
        out.push(bit_at(bytes, i));
        i = i + 1;
    }
    assert(out@ =~= spec_to_bits(bytes@));
    out
}

/// Flip every bit (FSK tone polarity is not knowable a priori).
pub fn inverted(bits: &[bool]) -> (r: Vec<bool>)
    ensures
        r@ == spec_inverted(bits@),
{
    let mut out: Vec<bool> = Vec::new();
    let mut i: usize = 0;
    while i < bits.len()
        invariant
            i <= bits.len(),
            out@.len() == i,
            forall|j: int| 0 <= j < i ==> out@[j] == !bits@[j],
        decreases bits.len() - i,
    {
        out.push(!bits[i]);
        i = i + 1;
    }
    assert(out@ =~= spec_inverted(bits@));
    out
}

/// Differential Manchester decoding of at most `max_bits` symbols starting at
/// bit `start`; the half-bit just before `start` is the reference level (for
/// a framed signal, the last bit of the sync word). Returns the decoded bits
/// and the offset where decoding stopped. Nothing is decoded from offset 0,
/// which has no reference level.
pub fn differential_manchester_decode(bits: &[bool], start: usize, max_bits: usize) -> (r: (Vec<bool>, usize))
    ensures
        start == 0 || start > bits.len() ==> r.0@.len() == 0 && r.1 == start,
        0 < start <= bits.len() ==> {
            let s = spec_dm_decode(bits@, start as int, bits@[start - 1], max_bits as nat);
            r.0@ == s.0 && r.1 as int == s.1
        },
{
    let mut out: Vec<bool> = Vec::new();
    if start == 0 || start > bits.len() {
        return (out, start);
    }
    let ghost total = spec_dm_decode(bits@, start as int, bits@[start - 1], max_bits as nat);
    let mut prev = bits[start - 1];
    let mut i = start;
    while out.len() < max_bits && bits.len() - i > 1 && bits[i] != bits[i + 1]
        invariant
            start <= i <= bits.len(),
            out@.len() <= max_bits,
            out@ + spec_dm_decode(bits@, i as int, prev, (max_bits - out@.len()) as nat).0 == total.0,
            spec_dm_decode(bits@, i as int, prev, (max_bits - out@.len()) as nat).1 == total.1,
        decreases bits.len() - i,
    {
        let ghost rem = (max_bits - out@.len()) as nat;
        let ghost step = spec_dm_decode(bits@, i as int, prev, rem);
        let ghost next = spec_dm_decode(bits@, i + 2, bits@[i + 1], (rem - 1) as nat);
        assert(step.0 == seq![bits@[i as int] != prev] + next.0);
        out.push(bits[i] != prev);
        prev = bits[i + 1];
        i = i + 2;
        assert(out@ + next.0 =~= total.0);
    }
    proof {
        let rem = (max_bits - out@.len()) as nat;
        assert(spec_dm_decode(bits@, i as int, prev, rem).0 =~= Seq::<bool>::empty());
        assert(out@ =~= total.0);
    }
    (out, i)
}

/// Differential Manchester encoding of `data` (two half-bits per symbol,
/// a transition at the start of a symbol for `1`), continuing a line that is
/// at level `level`.
pub fn differential_manchester_encode(data: &[bool], level: bool) -> (r: Vec<bool>)
    requires
        data.len() * 2 <= usize::MAX,
    ensures
        r@ == spec_dm_encode(data@, level),
{
    let mut out: Vec<bool> = Vec::new();
    let mut prev = level;
    let mut i: usize = 0;
    assert(data@.skip(0) =~= data@);
    while i < data.len()
        invariant
            i <= data.len(),
            out@ + spec_dm_encode(data@.skip(i as int), prev) == spec_dm_encode(data@, level),
        decreases data.len() - i,
    {
        let ghost rest = data@.skip(i as int);
        let first = if data[i] { !prev } else { prev };
        proof {
            assert(rest[0] == data@[i as int]);
            assert(rest.drop_first() =~= data@.skip(i + 1));
        }
        out.push(first);
        out.push(!first);
        prev = !first;
        i = i + 1;
        proof {
            assert(out@ + spec_dm_encode(data@.skip(i as int), prev) =~= spec_dm_encode(data@, level));
        }
    }
    proof {
        assert(data@.skip(i as int) =~= Seq::<bool>::empty());
        assert(out@ =~= spec_dm_encode(data@, level));
    }
    out
}

// ---------------------------------------------------------------------------
// Laws

/// The eight bits of a byte, packed again, give the byte back.
proof fn lemma_pack_unpack_byte(bits: Seq<bool>, s: int, x: u8)
    requires
        0 <= s,
        s + 8 <= bits.len(),
        forall|k: int| 0 <= k < 8 ==> #[trigger] bits[s + k] == ((x >> ((7 - k) as u8)) & 1u8 == 1u8),
    ensures
        byte_at(bits, s) == x,
{
    reveal_with_fuel(pack_bits, 9);
    let b0 = bits[s + 0];
    let b1 = bits[s + 1];
    let b2 = bits[s + 2];
    let b3 = bits[s + 3];
    let b4 = bits[s + 4];
    let b5 = bits[s + 5];
    let b6 = bits[s + 6];
    let b7 = bits[s + 7];
    assert(b0 == ((x >> 7u8) & 1u8 == 1u8));
    assert(b1 == ((x >> 6u8) & 1u8 == 1u8));
    assert(b2 == ((x >> 5u8) & 1u8 == 1u8));
    assert(b3 == ((x >> 4u8) & 1u8 == 1u8));
    assert(b4 == ((x >> 3u8) & 1u8 == 1u8));
    assert(b5 == ((x >> 2u8) & 1u8 == 1u8));
    assert(b6 == ((x >> 1u8) & 1u8 == 1u8));
    assert(b7 == ((x >> 0u8) & 1u8 == 1u8));
    let v0 = bit_val(b0);
    let v1 = bit_val(b1);
    let v2 = bit_val(b2);
    let v3 = bit_val(b3);
    let v4 = bit_val(b4);
    let v5 = bit_val(b5);
    let v6 = bit_val(b6);
    let v7 = bit_val(b7);
    let a1 = pack_bits(bits, s, 1);
    let a2 = pack_bits(bits, s, 2);
    let a3 = pack_bits(bits, s, 3);
    let a4 = pack_bits(bits, s, 4);
    let a5 = pack_bits(bits, s, 5);
    let a6 = pack_bits(bits, s, 6);
    let a7 = pack_bits(bits, s, 7);
    let a8 = pack_bits(bits, s, 8);
    assert(a1 == ((0u8 << 1u8) | v0) as u8);
    assert(a2 == ((a1 << 1u8) | v1) as u8);
    assert(a3 == ((a2 << 1u8) | v2) as u8);
    assert(a4 == ((a3 << 1u8) | v3) as u8);
    assert(a5 == ((a4 << 1u8) | v4) as u8);
    assert(a6 == ((a5 << 1u8) | v5) as u8);
    assert(a7 == ((a6 << 1u8) | v6) as u8);
    assert(a8 == ((a7 << 1u8) | v7) as u8);
    assert(a8 == x) by (bit_vector)
        requires
            v0 == (if (x >> 7u8) & 1u8 == 1u8 { 1u8 } else { 0u8 }),
            v1 == (if (x >> 6u8) & 1u8 == 1u8 { 1u8 } else { 0u8 }),
            v2 == (if (x >> 5u8) & 1u8 == 1u8 { 1u8 } else { 0u8 }),
            v3 == (if (x >> 4u8) & 1u8 == 1u8 { 1u8 } else { 0u8 }),
            v4 == (if (x >> 3u8) & 1u8 == 1u8 { 1u8 } else { 0u8 }),
            v5 == (if (x >> 2u8) & 1u8 == 1u8 { 1u8 } else { 0u8 }),
            v6 == (if (x >> 1u8) & 1u8 == 1u8 { 1u8 } else { 0u8 }),
            v7 == (if (x >> 0u8) & 1u8 == 1u8 { 1u8 } else { 0u8 }),
            a1 == ((0u8 << 1u8) | v0) as u8,
            a2 == ((a1 << 1u8) | v1) as u8,
            a3 == ((a2 << 1u8) | v2) as u8,
            a4 == ((a3 << 1u8) | v3) as u8,
            a5 == ((a4 << 1u8) | v4) as u8,
            a6 == ((a5 << 1u8) | v5) as u8,
            a7 == ((a6 << 1u8) | v6) as u8,
            a8 == ((a7 << 1u8) | v7) as u8,
    ;
}

/// The bits of a packed byte are the bits it was packed from.
proof fn lemma_unpack_pack_byte(bits: Seq<bool>, s: int)
    requires
        0 <= s,
        s + 8 <= bits.len(),
    ensures
        forall|k: int| 0 <= k < 8 ==> #[trigger] bits[s + k] == ((byte_at(bits, s) >> ((7 - k) as u8)) & 1u8 == 1u8),
{
    reveal_with_fuel(pack_bits, 9);
    let v0 = bit_val(bits[s + 0]);
    let v1 = bit_val(bits[s + 1]);
    let v2 = bit_val(bits[s + 2]);
    let v3 = bit_val(bits[s + 3]);
    let v4 = bit_val(bits[s + 4]);
    let v5 = bit_val(bits[s + 5]);
    let v6 = bit_val(bits[s + 6]);
    let v7 = bit_val(bits[s + 7]);
    let a1 = pack_bits(bits, s, 1);
    let a2 = pack_bits(bits, s, 2);
    let a3 = pack_bits(bits, s, 3);
    let a4 = pack_bits(bits, s, 4);
    let a5 = pack_bits(bits, s, 5);
    let a6 = pack_bits(bits, s, 6);
    let a7 = pack_bits(bits, s, 7);
    let a8 = pack_bits(bits, s, 8);
    assert(a1 == ((0u8 << 1u8) | v0) as u8);
    assert(a2 == ((a1 << 1u8) | v1) as u8);
    assert(a3 == ((a2 << 1u8) | v2) as u8);
    assert(a4 == ((a3 << 1u8) | v3) as u8);
    assert(a5 == ((a4 << 1u8) | v4) as u8);
    assert(a6 == ((a5 << 1u8) | v5) as u8);
    assert(a7 == ((a6 << 1u8) | v6) as u8);
    assert(a8 == ((a7 << 1u8) | v7) as u8);
    assert({
        &&& (a8 >> 7u8) & 1u8 == v0
        &&& (a8 >> 6u8) & 1u8 == v1
        &&& (a8 >> 5u8) & 1u8 == v2
        &&& (a8 >> 4u8) & 1u8 == v3
        &&& (a8 >> 3u8) & 1u8 == v4
        &&& (a8 >> 2u8) & 1u8 == v5
        &&& (a8 >> 1u8) & 1u8 == v6
        &&& (a8 >> 0u8) & 1u8 == v7
    }) by (bit_vector)
        requires
            v0 <= 1u8,
            v1 <= 1u8,
            v2 <= 1u8,
            v3 <= 1u8,
            v4 <= 1u8,
            v5 <= 1u8,
            v6 <= 1u8,
            v7 <= 1u8,
            a1 == ((0u8 << 1u8) | v0) as u8,
            a2 == ((a1 << 1u8) | v1) as u8,
            a3 == ((a2 << 1u8) | v2) as u8,
            a4 == ((a3 << 1u8) | v3) as u8,
            a5 == ((a4 << 1u8) | v4) as u8,
            a6 == ((a5 << 1u8) | v5) as u8,
            a7 == ((a6 << 1u8) | v6) as u8,
            a8 == ((a7 << 1u8) | v7) as u8,
    ;
    assert forall|k: int| 0 <= k < 8 implies #[trigger] bits[s + k] == ((byte_at(bits, s) >> ((7 - k) as u8)) & 1u8 == 1u8) by {
        if k == 0 {
        } else if k == 1 {
        } else if k == 2 {
        } else if k == 3 {
        } else if k == 4 {
        } else if k == 5 {
        } else if k == 6 {
        } else {
        }
    }
}

/// Packing bits into bytes and unpacking them again gives the bits back:
/// when `bits` holds exactly `k` bytes, `to_bits(extract_bytes(bits, 0, k))`
/// is `bits`.
pub proof fn lemma_to_bits_extract(bits: Seq<bool>, k: int)
    requires
        0 <= k,
        bits.len() == k * 8,
    ensures
        spec_extract_bytes(bits, 0, k) is Some,
        spec_to_bits(spec_extract_bytes(bits, 0, k)->0) == bits,
{
    let bytes = spec_extract_bytes(bits, 0, k)->0;
    assert(bytes.len() == k);
    assert forall|i: int| 0 <= i < bits.len() implies #[trigger] spec_to_bits(bytes)[i] == bits[i] by {
        let c = i / 8;
        let j = i % 8;
        assert(0 <= c < k && 0 <= j < 8 && i == c * 8 + j) by (nonlinear_arith)
            requires
                0 <= i < k * 8,
                c == i / 8,
                j == i % 8,
        ;
        assert(c * 8 + 8 <= bits.len()) by (nonlinear_arith)
            requires
                c < k,
                bits.len() == k * 8,
        ;
        assert(0 + c * 8 == c * 8);
        assert(bytes[c] == byte_at(bits, c * 8));
        lemma_unpack_pack_byte(bits, c * 8);
        assert(bits[c * 8 + j] == ((bytes[c] >> ((7 - j) as u8)) & 1u8 == 1u8));
    }
    assert(spec_to_bits(bytes) =~= bits);
}

/// Unpacking bytes and packing them again gives the same bytes:
/// `extract_bytes(to_bits(bytes), 8·k, n)` is `bytes[k..k + n]`.
pub proof fn lemma_extract_to_bits(bytes: Seq<u8>, k: int, n: int)
    requires
        0 <= k,
        0 <= n,
        k + n <= bytes.len(),
    ensures
        spec_extract_bytes(spec_to_bits(bytes), k * 8, n) == Some(bytes.subrange(k, k + n)),
{
    let bits = spec_to_bits(bytes);
    assert forall|c: int| 0 <= c < n implies #[trigger] byte_at(bits, k * 8 + c * 8) == bytes[k + c] by {
        let s = k * 8 + c * 8;
        assert(s == (k + c) * 8) by (nonlinear_arith)
            requires s == k * 8 + c * 8;
        assert forall|j: int| 0 <= j < 8 implies #[trigger] bits[s + j] == ((bytes[k + c] >> ((7 - j) as u8)) & 1u8 == 1u8) by {
            assert((s + j) / 8 == k + c) by (nonlinear_arith)
                requires s == (k + c) * 8, 0 <= j < 8;
            assert((s + j) % 8 == j) by (nonlinear_arith)
                requires s == (k + c) * 8, 0 <= j < 8;
            assert(s + j < bytes.len() * 8) by (nonlinear_arith)
                requires s == (k + c) * 8, 0 <= j < 8, k + c < bytes.len();
        }
        assert(s + 8 <= bytes.len() * 8) by (nonlinear_arith)
            requires s == (k + c) * 8, k + c < bytes.len();
        lemma_pack_unpack_byte(bits, s, bytes[k + c]);
    }
    assert(k * 8 + n * 8 <= bytes.len() * 8) by (nonlinear_arith)
        requires k + n <= bytes.len(), 0 <= k, 0 <= n;
    assert(Seq::new(n as nat, |c: int| byte_at(bits, k * 8 + c * 8)) =~= bytes.subrange(k, k + n));
}

/// Inverting twice gives the bits back.
pub proof fn lemma_inverted_involution(bits: Seq<bool>)
    ensures
        spec_inverted(spec_inverted(bits)) == bits,
{
    assert(spec_inverted(spec_inverted(bits)) =~= bits);
}

/// Decoding what was encoded gives the data back: after a reference half-bit
/// at `level`, the differential Manchester encoding of `data` decodes to
/// `data`, whatever follows it, ending exactly after the encoding.
pub proof fn lemma_dm_roundtrip(prefix: Seq<bool>, level: bool, data: Seq<bool>, tail: Seq<bool>)
    requires
        prefix.len() >= 1,
        prefix.last() == level,
    ensures
        spec_dm_decode(prefix + spec_dm_encode(data, level) + tail, prefix.len() as int, level, data.len())
            == (data, (prefix.len() + 2 * data.len()) as int),
    decreases data.len(),
{
    let bits = prefix + spec_dm_encode(data, level) + tail;
    let i = prefix.len() as int;
    if data.len() == 0 {
        assert(spec_dm_decode(bits, i, level, 0).0 =~= data);
    } else {
        let first = if data[0] { !level } else { level };
        let prefix2 = prefix + seq![first, !first];
        let rest = spec_dm_encode(data.drop_first(), !first);
        assert(spec_dm_encode(data, level) == seq![first, !first] + rest);
        assert(bits =~= prefix2 + rest + tail);
        assert(bits[i] == first);
        assert(bits[i + 1] == !first);
        lemma_dm_roundtrip(prefix2, !first, data.drop_first(), tail);
        let r = spec_dm_decode(bits, i + 2, !first, (data.len() - 1) as nat);
        assert(r == (data.drop_first(), (prefix2.len() + 2 * (data.len() - 1)) as int));
        assert(seq![first != level] + data.drop_first() =~= data);
    }
}

} // verus!
