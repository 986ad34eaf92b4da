//! MD5 per RFC 1321, used only to name files in the freedesktop thumbnail cache, where its
//! collision weakness does not matter for a cache key.
use vstd::prelude::*;
use crate::text::push_char;

verus! {

/// K[i] is floor(abs(sin(i + 1)) * 2^32), RFC 1321 section 3.4.
pub const K: [u32; 64] = [
    0xd76aa478, 0xe8c7b756, 0x242070db, 0xc1bdceee, 0xf57c0faf, 0x4787c62a, 0xa8304613, 0xfd469501,
    0x698098d8, 0x8b44f7af, 0xffff5bb1, 0x895cd7be, 0x6b901122, 0xfd987193, 0xa679438e, 0x49b40821,
    0xf61e2562, 0xc040b340, 0x265e5a51, 0xe9b6c7aa, 0xd62f105d, 0x02441453, 0xd8a1e681, 0xe7d3fbc8,
    0x21e1cde6, 0xc33707d6, 0xf4d50d87, 0x455a14ed, 0xa9e3e905, 0xfcefa3f8, 0x676f02d9, 0x8d2a4c8a,
    0xfffa3942, 0x8771f681, 0x6d9d6122, 0xfde5380c, 0xa4beea44, 0x4bdecfa9, 0xf6bb4b60, 0xbebfbc70,
    0x289b7ec6, 0xeaa127fa, 0xd4ef3085, 0x04881d05, 0xd9d4d039, 0xe6db99e5, 0x1fa27cf8, 0xc4ac5665,
    0xf4292244, 0x432aff97, 0xab9423a7, 0xfc93a039, 0x655b59c3, 0x8f0ccc92, 0xffeff47d, 0x85845dd1,
    0x6fa87e4f, 0xfe2ce6e0, 0xa3014314, 0x4e0811a1, 0xf7537e82, 0xbd3af235, 0x2ad7d2bb, 0xeb86d391,
];

/// The lowercase hexadecimal digits.
pub const HEX_DIGITS: [char; 16] = [
    '0', '1', '2', '3', '4', '5', '6', '7', '8', '9', 'a', 'b', 'c', 'd', 'e', 'f',
];

/// The four state words a, b, c, d.
pub struct Md5State {
    pub a: u32,
    pub b: u32,
    pub c: u32,
    pub d: u32,
}

/// The initial state words, RFC 1321 section 3.3.
pub open spec fn initial_state() -> Md5State {
    Md5State { a: 0x67452301, b: 0xefcdab89, c: 0x98badcfe, d: 0x10325476 }
}

/// Addition modulo 2^32.
pub open spec fn add32(x: u32, y: u32) -> u32 {
    vstd::wrapping::u32_specs::wrapping_add(x, y)
}

/// Left rotation of a 32-bit word by `s` bits, for `0 < s < 32`.
pub open spec fn rotl(x: u32, s: u32) -> u32 {
    (x << s) | (x >> (32 - s) as u32)
}

/// The mixing function of round `i` and the message word it reads: F, G, H, I of
/// RFC 1321 section 3.4, one per group of 16 rounds.
pub open spec fn mix(b: u32, c: u32, d: u32, i: int) -> (u32, int) {
    if i < 16 {
        ((b & c) | (!b & d), i)
    } else if i < 32 {
        ((d & b) | (!d & c), (5 * i + 1) % 16)
    } else if i < 48 {
        (b ^ c ^ d, (3 * i + 5) % 16)
    } else {
        (c ^ (b | !d), (7 * i) % 16)
    }
}

/// The left rotation of round `i`, RFC 1321 section 3.4: each group of 16 rounds cycles
/// through four amounts of its own.
pub open spec fn round_shift(i: int) -> u32 {
    let k = i % 4;
    if i < 16 {
        if k == 0 { 7 } else if k == 1 { 12 } else if k == 2 { 17 } else { 22 }
    } else if i < 32 {
        if k == 0 { 5 } else if k == 1 { 9 } else if k == 2 { 14 } else { 20 }
    } else if i < 48 {
        if k == 0 { 4 } else if k == 1 { 11 } else if k == 2 { 16 } else { 23 }
    } else {
        if k == 0 { 6 } else if k == 1 { 10 } else if k == 2 { 15 } else { 21 }
    }
}

/// One round of the compression function.
pub open spec fn md5_step(st: Md5State, m: Seq<u32>, i: int) -> Md5State {
    let (f, g) = mix(st.b, st.c, st.d, i);
    let f = add32(add32(add32(f, st.a), K@[i]), m[g]);
    Md5State { a: st.d, b: add32(st.b, rotl(f, round_shift(i))), c: st.b, d: st.c }
}

/// The first `n` rounds applied to `st`.
pub open spec fn md5_rounds(st: Md5State, m: Seq<u32>, n: int) -> Md5State
    decreases n,
{
    if n <= 0 {
        st
    } else {
        md5_step(md5_rounds(st, m, n - 1), m, n - 1)
    }
}

/// One 16-word block folded into the state: the 64 rounds, then the words added back.
pub open spec fn compress(st: Md5State, m: Seq<u32>) -> Md5State {
    let r = md5_rounds(st, m, 64);
    Md5State { a: add32(st.a, r.a), b: add32(st.b, r.b), c: add32(st.c, r.c), d: add32(st.d, r.d) }
}

/// The little-endian 32-bit word at byte offset `o`.
pub open spec fn le_word(p: Seq<u8>, o: int) -> u32 {
    (p[o] as u32) | ((p[o + 1] as u32) << 8u32) | ((p[o + 2] as u32) << 16u32) | ((p[o + 3] as u32)
        << 24u32)
}

/// The 16 words of block `blk`.
pub open spec fn block_words(p: Seq<u8>, blk: int) -> Seq<u32> {
    Seq::new(16, |j: int| le_word(p, 64 * blk + 4 * j))
}

/// The number of zero bytes padding puts between the 0x80 byte and the length.
pub open spec fn zero_count(n: nat) -> nat {
    ((56 + 64 - (n + 1) % 64) % 64) as nat
}

/// The message length in bits, modulo 2^64.
pub open spec fn bit_length(n: nat) -> u64 {
    ((n * 8) % 0x1_0000_0000_0000_0000) as u64
}

/// The little-endian bytes of a 64-bit word.
pub open spec fn le_bytes64(x: u64) -> Seq<u8> {
    Seq::new(8, |i: int| ((x >> (8 * i) as u64) & 0xff) as u8)
}

/// The padded message, RFC 1321 sections 3.1 and 3.2: a 1 bit, zeros up to 56 bytes modulo 64,
/// then the length in bits.
pub open spec fn padded(msg: Seq<u8>) -> Seq<u8> {
    msg + seq![0x80u8] + Seq::new(zero_count(msg.len()), |i: int| 0u8) + le_bytes64(
        bit_length(msg.len()),
    )
}

/// The state after the first `n` blocks of `p`.
pub open spec fn state_after(p: Seq<u8>, n: int) -> Md5State
    decreases n,
{
    if n <= 0 {
        initial_state()
    } else {
        compress(state_after(p, n - 1), block_words(p, n - 1))
    }
}

/// The little-endian bytes of a 32-bit word.
pub open spec fn le_bytes32(x: u32) -> Seq<u8> {
    seq![(x & 0xff) as u8, ((x >> 8u32) & 0xff) as u8, ((x >> 16u32) & 0xff) as u8, ((x >> 24u32) & 0xff) as u8]
}

/// The MD5 digest of `msg`: the final state words, each little-endian.
pub open spec fn md5(msg: Seq<u8>) -> Seq<u8> {
    let st = state_after(padded(msg), (padded(msg).len() / 64) as int);
    le_bytes32(st.a) + le_bytes32(st.b) + le_bytes32(st.c) + le_bytes32(st.d)
}

/// MD5 compresses every block of the padded message, in order. The padded message is the
/// message, the byte 0x80, and whole blocks' worth more: one block more than the message and
/// its 9 bytes of padding fill. The digest is the state after the last of those blocks, each
/// word little-endian; and the state after each block is that block's 16 little-endian words
/// compressed into the state before it, from the initial state.
pub proof fn law_digest_compresses_every_block(msg: Seq<u8>)
    ensures
        padded(msg).len() == 64 * ((msg.len() + 8) / 64 + 1),
        padded(msg).subrange(0, msg.len() as int) == msg,
        padded(msg)[msg.len() as int] == 0x80u8,
        state_after(padded(msg), 0) == initial_state(),
        forall|k: int|
            0 <= k < (msg.len() + 8) / 64 + 1 ==> #[trigger] state_after(padded(msg), k + 1)
                == compress(
                state_after(padded(msg), k),
                Seq::new(16, |j: int| le_word(padded(msg), 64 * k + 4 * j)),
            ),
        ({
            let st = state_after(padded(msg), ((msg.len() + 8) / 64 + 1) as int);
            md5(msg) == le_bytes32(st.a) + le_bytes32(st.b) + le_bytes32(st.c) + le_bytes32(st.d)
        }),
{
    let n = msg.len();
    let p = padded(msg);
    assert(p.len() == n + 1 + zero_count(n) + 8);
    assert(p.len() == 64 * ((n + 8) / 64 + 1));
    assert(p.subrange(0, n as int) =~= msg);
    assert forall|k: int|
        0 <= k < (msg.len() + 8) / 64 + 1 implies #[trigger] state_after(padded(msg), k + 1)
            == compress(
            state_after(padded(msg), k),
            Seq::new(16, |j: int| le_word(padded(msg), 64 * k + 4 * j)),
        ) by {
        assert(block_words(p, k) =~= Seq::new(16, |j: int| le_word(p, 64 * k + 4 * j)));
    }
}

/// The lowercase hexadecimal form of `bytes`, two digits per byte, high nibble first.
pub open spec fn hex_of(bytes: Seq<u8>) -> Seq<char>
    decreases bytes.len(),
{
    if bytes.len() == 0 {
        seq![]
    } else {
        hex_of(bytes.drop_last()) + seq![HEX_DIGITS@[(bytes.last() >> 4u8) as int], HEX_DIGITS@[(bytes.last() & 0xfu8) as int]]
    }
}

/// The MD5 digest of `bytes` in lowercase hexadecimal, the thumbnail cache's file name stem.
pub fn hex(bytes: &[u8]) -> (s: String)
    requires
        bytes@.len() + 128 <= usize::MAX,
    ensures
        s@ == hex_of(md5(bytes@)),
        s@.len() == 32,
{
    let d = digest(bytes);
    let mut s = String::new();
    let mut i: usize = 0;
    while i < d.len()
        invariant
            i <= d.len(),
            d@ == md5(bytes@),
            s@ == hex_of(d@.take(i as int)),
            s@.len() == 2 * i,
        decreases d.len() - i,
    {
        let b = d[i];
        assert((b >> 4u8) < 16 && (b & 0xfu8) < 16) by (bit_vector);
        push_char(&mut s, HEX_DIGITS[(b >> 4) as usize]);
        push_char(&mut s, HEX_DIGITS[(b & 0xf) as usize]);
        assert(d@.take(i + 1).drop_last() =~= d@.take(i as int));
        i = i + 1;
    }
    assert(d@.take(i as int) =~= d@);
    s
}

/// Left rotation, `u32::rotate_left` for the amounts MD5 uses.
fn rotate(x: u32, s: u32) -> (r: u32)
    requires
        0 < s < 32,
    ensures
        r == rotl(x, s),
{
    (x << s) | (x >> (32 - s))
}

/// The rotation amount of round `i`, always between 4 and 23.
fn shift_of(i: usize) -> (r: u32)
    requires
        i < 64,
    ensures
        r == round_shift(i as int),
        0 < r < 32,
{
    let k = i % 4;
    if i < 16 {
        if k == 0 { 7 } else if k == 1 { 12 } else if k == 2 { 17 } else { 22 }
    } else if i < 32 {
        if k == 0 { 5 } else if k == 1 { 9 } else if k == 2 { 14 } else { 20 }
    } else if i < 48 {
        if k == 0 { 4 } else if k == 1 { 11 } else if k == 2 { 16 } else { 23 }
    } else {
        if k == 0 { 6 } else if k == 1 { 10 } else if k == 2 { 15 } else { 21 }
    }
}

/// The digest of `bytes`: 16 bytes.
fn digest(bytes: &[u8]) -> (r: Vec<u8>)
    requires
        bytes@.len() + 128 <= usize::MAX,
    ensures
        r@ == md5(bytes@),
        r@.len() == 16,
{
    let n = bytes.len();
    let mut msg: Vec<u8> = Vec::new();
    let mut i: usize = 0;
    while i < n
        invariant
            n == bytes@.len(),
            i <= n,
            msg@ == bytes@.take(i as int),
        decreases n - i,
    {
        msg.push(bytes[i]);
        assert(bytes@.take(i + 1) =~= bytes@.take(i as int).push(bytes@[i as int]));
        i = i + 1;
    }
    assert(bytes@.take(n as int) =~= bytes@);
    let bit_len: u64 = ((n as u64) % 0x2000_0000_0000_0000) * 8;
    proof {
        let q = (n as int) / 0x2000_0000_0000_0000;
        let r = (n as int) % 0x2000_0000_0000_0000;
        vstd::arithmetic::div_mod::lemma_fundamental_div_mod(n as int, 0x2000_0000_0000_0000);
        assert(n * 8 == 0x1_0000_0000_0000_0000 * q + 8 * r);
        vstd::arithmetic::div_mod::lemma_mod_multiples_vanish(q, 8 * r, 0x1_0000_0000_0000_0000);
        vstd::arithmetic::div_mod::lemma_small_mod((8 * r) as nat, 0x1_0000_0000_0000_0000);
        assert(bit_len == bit_length(n as nat));
    }
    msg.push(0x80);
    let z: usize = (56 + 64 - (n + 1) % 64) % 64;
    assert(z == zero_count(n as nat));
    let mut j: usize = 0;
    while j < z
        invariant
            j <= z,
            z == zero_count(bytes@.len()),
            msg@ == bytes@ + seq![0x80u8] + Seq::new(j as nat, |k: int| 0u8),
        decreases z - j,
    {
        msg.push(0);
        assert(Seq::new((j + 1) as nat, |k: int| 0u8) =~= Seq::new(j as nat, |k: int| 0u8).push(0u8));
        j = j + 1;
    }
    let ghost before_len = msg@;
    let mut t: usize = 0;
    while t < 8
        invariant
            t <= 8,
            msg@ == before_len + le_bytes64(bit_len).take(t as int),
        decreases 8 - t,
    {
        let byte = (#[verifier::truncate] (((bit_len >> (8 * t) as u64) & 0xff) as u8));
        msg.push(byte);
        assert(le_bytes64(bit_len).take(t + 1) =~= le_bytes64(bit_len).take(t as int).push(byte));
        t = t + 1;
    }
    let ghost p = padded(bytes@);
    assert(le_bytes64(bit_len).take(8) =~= le_bytes64(bit_len));
    assert(msg@ =~= p);
    assert(msg@.len() % 64 == 0);
    let nblocks = msg.len() / 64;
    let mut a0: u32 = 0x67452301;
    let mut b0: u32 = 0xefcdab89;
    let mut c0: u32 = 0x98badcfe;
    let mut d0: u32 = 0x10325476;
    let mut blk: usize = 0;
    while blk < nblocks
        invariant
            msg@ == p,
            nblocks == p.len() / 64,
            p.len() % 64 == 0,
            blk <= nblocks,
            (Md5State { a: a0, b: b0, c: c0, d: d0 }) == state_after(p, blk as int),
        decreases nblocks - blk,
    {
        let mut m: Vec<u32> = Vec::new();
        let mut w: usize = 0;
        while w < 16
            invariant
                msg@ == p,
                blk < nblocks,
                nblocks == p.len() / 64,
                w <= 16,
                m@ == block_words(p, blk as int).take(w as int),
            decreases 16 - w,
        {
            proof {
                vstd::arithmetic::div_mod::lemma_fundamental_div_mod(p.len() as int, 64);
                assert(64 * blk + 64 <= 64 * nblocks);
                assert(64 * nblocks <= p.len());
                assert(p.len() == msg.len());
            }
            let o = 64 * blk + 4 * w;
            let word = (msg[o] as u32) | ((msg[o + 1] as u32) << 8) | ((msg[o + 2] as u32) << 16)
                | ((msg[o + 3] as u32) << 24);
            m.push(word);
            assert(block_words(p, blk as int).take(w + 1) =~= block_words(p, blk as int).take(
                w as int,
            ).push(word));
            w = w + 1;
        }
        assert(block_words(p, blk as int).take(16) =~= block_words(p, blk as int));
        let ghost st0 = Md5State { a: a0, b: b0, c: c0, d: d0 };
        let (mut a, mut b, mut c, mut d) = (a0, b0, c0, d0);
        let mut i: usize = 0;
        while i < 64
            invariant
                i <= 64,
                m@ == block_words(p, blk as int),
                m@.len() == 16,
                (Md5State { a, b, c, d }) == md5_rounds(st0, m@, i as int),
            decreases 64 - i,
        {
            let (f, g) = if i < 16 {
                ((b & c) | (!b & d), i)
            } else if i < 32 {
                ((d & b) | (!d & c), (5 * i + 1) % 16)
            } else if i < 48 {
                (b ^ c ^ d, (3 * i + 5) % 16)
            } else {
                (c ^ (b | !d), (7 * i) % 16)
            };
            let f = f.wrapping_add(a).wrapping_add(K[i]).wrapping_add(m[g]);
            a = d;
            d = c;
            c = b;
            b = b.wrapping_add(rotate(f, shift_of(i)));
            i = i + 1;
        }
        a0 = a0.wrapping_add(a);
        b0 = b0.wrapping_add(b);
        c0 = c0.wrapping_add(c);
        d0 = d0.wrapping_add(d);
        blk = blk + 1;
    }
    let mut out: Vec<u8> = Vec::new();
    let words = [a0, b0, c0, d0];
    let mut q: usize = 0;
    while q < 4
        invariant
            q <= 4,
            words@ == seq![a0, b0, c0, d0],
            out@.len() == 4 * q,
            q >= 1 ==> out@.subrange(0, 4) == le_bytes32(a0),
            q >= 2 ==> out@.subrange(4, 8) == le_bytes32(b0),
            q >= 3 ==> out@.subrange(8, 12) == le_bytes32(c0),
            q >= 4 ==> out@.subrange(12, 16) == le_bytes32(d0),
        decreases 4 - q,
    {
        let x = words[q];
        let ghost prev = out@;
        out.push(#[verifier::truncate] ((x & 0xff) as u8));
        out.push(#[verifier::truncate] (((x >> 8) & 0xff) as u8));
        out.push(#[verifier::truncate] (((x >> 16) & 0xff) as u8));
        out.push(#[verifier::truncate] (((x >> 24) & 0xff) as u8));
        assert(out@.subrange(4 * q as int, 4 * q + 4) =~= le_bytes32(x));
        assert(forall|u: int, v: int| 0 <= u <= v <= 4 * q ==> out@.subrange(u, v) =~= prev.subrange(u, v));
        q = q + 1;
    }
    assert(out@ =~= le_bytes32(a0) + le_bytes32(b0) + le_bytes32(c0) + le_bytes32(d0));
    out
}

} // verus!
