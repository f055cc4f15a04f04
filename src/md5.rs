use vstd::prelude::*;

use crate::sha1::{rotl, wadd, zero_count};

verus! {

/// The four chaining words of MD5.
pub type Md5State = (u32, u32, u32, u32);

/// The additive constants of the 64 rounds.
pub open spec fn md5_k() -> Seq<u32> {
    seq![
        0xd76aa478u32, 0xe8c7b756u32, 0x242070dbu32, 0xc1bdceeeu32,
        0xf57c0fafu32, 0x4787c62au32, 0xa8304613u32, 0xfd469501u32,
        0x698098d8u32, 0x8b44f7afu32, 0xffff5bb1u32, 0x895cd7beu32,
        0x6b901122u32, 0xfd987193u32, 0xa679438eu32, 0x49b40821u32,
        0xf61e2562u32, 0xc040b340u32, 0x265e5a51u32, 0xe9b6c7aau32,
        0xd62f105du32, 0x02441453u32, 0xd8a1e681u32, 0xe7d3fbc8u32,
        0x21e1cde6u32, 0xc33707d6u32, 0xf4d50d87u32, 0x455a14edu32,
        0xa9e3e905u32, 0xfcefa3f8u32, 0x676f02d9u32, 0x8d2a4c8au32,
        0xfffa3942u32, 0x8771f681u32, 0x6d9d6122u32, 0xfde5380cu32,
        0xa4beea44u32, 0x4bdecfa9u32, 0xf6bb4b60u32, 0xbebfbc70u32,
        0x289b7ec6u32, 0xeaa127fau32, 0xd4ef3085u32, 0x04881d05u32,
        0xd9d4d039u32, 0xe6db99e5u32, 0x1fa27cf8u32, 0xc4ac5665u32,
        0xf4292244u32, 0x432aff97u32, 0xab9423a7u32, 0xfc93a039u32,
        0x655b59c3u32, 0x8f0ccc92u32, 0xffeff47du32, 0x85845dd1u32,
        0x6fa87e4fu32, 0xfe2ce6e0u32, 0xa3014314u32, 0x4e0811a1u32,
        0xf7537e82u32, 0xbd3af235u32, 0x2ad7d2bbu32, 0xeb86d391u32
    ]
}

/// The rotation of round `i`.
pub open spec fn md5_shift(i: nat) -> u32 {
    let j = i % 4;
    if i < 16 {
        if j == 0 { 7 } else if j == 1 { 12 } else if j == 2 { 17 } else { 22 }
    } else if i < 32 {
        if j == 0 { 5 } else if j == 1 { 9 } else if j == 2 { 14 } else { 20 }
    } else if i < 48 {
        if j == 0 { 4 } else if j == 1 { 11 } else if j == 2 { 16 } else { 23 }
    } else {
        if j == 0 { 6 } else if j == 1 { 10 } else if j == 2 { 15 } else { 21 }
    }
}

/// The little-endian word of `s` at byte `i`.
pub open spec fn le_word(s: Seq<u8>, i: int) -> u32 {
    (s[i] as u32) | ((s[i + 1] as u32) << 8u32) | ((s[i + 2] as u32) << 16u32) | ((s[i + 3] as u32) << 24u32)
}

/// The mixing function of round `i` and the index of the message word it adds.
pub open spec fn md5_fg(i: nat, b: u32, c: u32, d: u32) -> (u32, nat) {
    if i < 16 {
        ((b & c) | ((!b) & d), i)
    } else if i < 32 {
        ((d & b) | ((!d) & c), (5 * i + 1) % 16)
    } else if i < 48 {
        (b ^ c ^ d, (3 * i + 5) % 16)
    } else {
        (c ^ (b | (!d)), (7 * i) % 16)
    }
}

/// The working variables after the first `t` rounds on `block`.
pub open spec fn md5_rounds(block: Seq<u8>, h: Md5State, t: nat) -> Md5State
    decreases t,
{
    if t == 0 {
        h
    } else {
        let s = md5_rounds(block, h, (t - 1) as nat);
        let i = (t - 1) as nat;
        let (f, g) = md5_fg(i, s.1, s.2, s.3);
        let f2 = wadd(wadd(wadd(f, s.0), md5_k()[i as int]), le_word(block, 4 * g as int));
        (s.3, wadd(s.1, rotl(f2, md5_shift(i))), s.1, s.2)
    }
}

pub open spec fn md5_compress(h: Md5State, block: Seq<u8>) -> Md5State {
    let r = md5_rounds(block, h, 64);
    (wadd(h.0, r.0), wadd(h.1, r.1), wadd(h.2, r.2), wadd(h.3, r.3))
}

pub open spec fn md5_initial() -> Md5State {
    (0x67452301u32, 0xefcdab89u32, 0x98badcfeu32, 0x10325476u32)
}

/// The eight little-endian bytes of `x`.
pub open spec fn le64(x: u64) -> Seq<u8> {
    Seq::new(8, |i: int| #[verifier::truncate] (((x >> ((8 * i) as u64)) & 0xFF) as u8))
}

/// The four little-endian bytes of `x`.
pub open spec fn le32(x: u32) -> Seq<u8> {
    seq![
        #[verifier::truncate]
        (x as u8),
        #[verifier::truncate]
        ((x >> 8u32) as u8),
        #[verifier::truncate]
        ((x >> 16u32) as u8),
        #[verifier::truncate]
        ((x >> 24u32) as u8),
    ]
}

/// The padded message: a one bit, zeros, and the bit length modulo 2^64 in
/// little-endian order.
pub open spec fn md5_pad(m: Seq<u8>) -> Seq<u8> {
    m + seq![0x80u8] + Seq::new(zero_count(m.len()), |i: int| 0u8) + le64(
        ((m.len() * 8) % 0x1_0000_0000_0000_0000) as u64,
    )
}

pub open spec fn md5_blocks(p: Seq<u8>, k: nat) -> Md5State
    decreases k,
{
    if k == 0 {
        md5_initial()
    } else {
        md5_compress(md5_blocks(p, (k - 1) as nat), p.subrange(64 * (k - 1), 64 * k as int))
    }
}

/// The MD5 digest of a message.
pub open spec fn md5(m: Seq<u8>) -> Seq<u8> {
    let p = md5_pad(m);
    let h = md5_blocks(p, p.len() / 64);
    le32(h.0) + le32(h.1) + le32(h.2) + le32(h.3)
}

fn k_at(i: usize) -> (r: u32)
    requires
        i < 64,
    ensures
        r == md5_k()[i as int],
{
    let k: [u32; 64] = [
        0xd76aa478u32, 0xe8c7b756u32, 0x242070dbu32, 0xc1bdceeeu32,
        0xf57c0fafu32, 0x4787c62au32, 0xa8304613u32, 0xfd469501u32,
        0x698098d8u32, 0x8b44f7afu32, 0xffff5bb1u32, 0x895cd7beu32,
        0x6b901122u32, 0xfd987193u32, 0xa679438eu32, 0x49b40821u32,
        0xf61e2562u32, 0xc040b340u32, 0x265e5a51u32, 0xe9b6c7aau32,
        0xd62f105du32, 0x02441453u32, 0xd8a1e681u32, 0xe7d3fbc8u32,
        0x21e1cde6u32, 0xc33707d6u32, 0xf4d50d87u32, 0x455a14edu32,
        0xa9e3e905u32, 0xfcefa3f8u32, 0x676f02d9u32, 0x8d2a4c8au32,
        0xfffa3942u32, 0x8771f681u32, 0x6d9d6122u32, 0xfde5380cu32,
        0xa4beea44u32, 0x4bdecfa9u32, 0xf6bb4b60u32, 0xbebfbc70u32,
        0x289b7ec6u32, 0xeaa127fau32, 0xd4ef3085u32, 0x04881d05u32,
        0xd9d4d039u32, 0xe6db99e5u32, 0x1fa27cf8u32, 0xc4ac5665u32,
        0xf4292244u32, 0x432aff97u32, 0xab9423a7u32, 0xfc93a039u32,
        0x655b59c3u32, 0x8f0ccc92u32, 0xffeff47du32, 0x85845dd1u32,
        0x6fa87e4fu32, 0xfe2ce6e0u32, 0xa3014314u32, 0x4e0811a1u32,
        0xf7537e82u32, 0xbd3af235u32, 0x2ad7d2bbu32, 0xeb86d391u32
    ];
    proof {
        assert(k@ =~= md5_k());
    }
    k[i]
}

fn shift_at(i: usize) -> (r: u32)
    requires
        i < 64,
    ensures
        r == md5_shift(i as nat),
{
    let j = i % 4;
    if i < 16 {
        if j == 0 { 7 } else if j == 1 { 12 } else if j == 2 { 17 } else { 22 }
    } else if i < 32 {
        if j == 0 { 5 } else if j == 1 { 9 } else if j == 2 { 14 } else { 20 }
    } else if i < 48 {
        if j == 0 { 4 } else if j == 1 { 11 } else if j == 2 { 16 } else { 23 }
    } else {
        if j == 0 { 6 } else if j == 1 { 10 } else if j == 2 { 15 } else { 21 }
    }
}

fn md5_pad_bytes(bytes: &[u8]) -> (r: Vec<u8>)
    ensures
        r@ == md5_pad(bytes@),
        r@.len() % 64 == 0,
{
    let mut message: Vec<u8> = Vec::new();
    crate::tracker::push_all(&mut message, bytes);
    message.push(0x80);
    let zeros: usize = (119 - bytes.len() % 64) % 64;
    let mut z: usize = 0;
    while z < zeros
        invariant
            z <= zeros,
            zeros == zero_count(bytes@.len() as nat),
            message@ == bytes@ + seq![0x80u8] + Seq::new(z as nat, |i: int| 0u8),
        decreases zeros - z,
    {
        message.push(0);
        proof {
            assert(message@ =~= bytes@ + seq![0x80u8] + Seq::new((z + 1) as nat, |i: int| 0u8));
        }
        z = z + 1;
    }
    let bit_len: u64 = (bytes.len() as u64).wrapping_mul(8);
    let mut j: usize = 0;
    let ghost before = message@;
    while j < 8
        invariant
            j <= 8,
            message@ == before + le64(bit_len).take(j as int),
        decreases 8 - j,
    {
        let byte = #[verifier::truncate]
        (((bit_len >> ((8 * j) as u64)) & 0xFF) as u8);
        message.push(byte);
        proof {
            assert(message@ =~= before + le64(bit_len).take(j + 1));
        }
        j = j + 1;
    }
    proof {
        assert(bit_len == ((bytes@.len() * 8) % 0x1_0000_0000_0000_0000) as u64);
        assert(le64(bit_len).take(8) =~= le64(bit_len));
        assert(message@ =~= md5_pad(bytes@));
        let l = bytes@.len() as int;
        assert((l + 1 + (119 - l % 64) % 64 + 8) % 64 == 0) by (nonlinear_arith);
    }
    message
}

fn md5_compress_block(msg: &Vec<u8>, off: usize, h: Md5State) -> (r: Md5State)
    requires
        off + 64 <= msg@.len(),
    ensures
        r == md5_compress(h, msg@.subrange(off as int, off + 64)),
{
    let ghost block = msg@.subrange(off as int, off + 64);
    let n = msg.len();
    let mut w: Vec<u32> = Vec::new();
    let mut t: usize = 0;
    while t < 16
        invariant
            t <= 16,
            off + 64 <= msg@.len(),
            n == msg@.len(),
            block == msg@.subrange(off as int, off + 64),
            w@.len() == t,
            forall|j: int| 0 <= j < t ==> #[trigger] w@[j] == le_word(block, 4 * j),
        decreases 16 - t,
    {
        let p = off + 4 * t;
        let word: u32 = (msg[p] as u32) | ((msg[p + 1] as u32) << 8u32) | ((msg[p + 2] as u32) << 16u32)
            | ((msg[p + 3] as u32) << 24u32);
        proof {
            assert(block[4 * t as int] == msg@[p as int]);
            assert(block[4 * t + 1] == msg@[p + 1]);
            assert(block[4 * t + 2] == msg@[p + 2]);
            assert(block[4 * t + 3] == msg@[p + 3]);
        }
        w.push(word);
        t = t + 1;
    }
    let mut a = h.0;
    let mut b = h.1;
    let mut c = h.2;
    let mut d = h.3;
    let mut i: usize = 0;
    while i < 64
        invariant
            i <= 64,
            w@.len() == 16,
            forall|j: int| 0 <= j < 16 ==> #[trigger] w@[j] == le_word(block, 4 * j),
            (a, b, c, d) == md5_rounds(block, h, i as nat),
        decreases 64 - i,
    {
        let (f, g) = if i < 16 {
            ((b & c) | ((!b) & d), i)
        } else if i < 32 {
            ((d & b) | ((!d) & c), (5 * i + 1) % 16)
        } else if i < 48 {
            (b ^ c ^ d, (3 * i + 5) % 16)
        } else {
            (c ^ (b | (!d)), (7 * i) % 16)
        };
        let f2 = f.wrapping_add(a).wrapping_add(k_at(i)).wrapping_add(w[g]);
        let s = shift_at(i);
        let rot = (f2 << s) | (f2 >> (32 - s));
        a = d;
        d = c;
        c = b;
        b = b.wrapping_add(rot);
        i = i + 1;
    }
    (h.0.wrapping_add(a), h.1.wrapping_add(b), h.2.wrapping_add(c), h.3.wrapping_add(d))
}

/// The MD5 digest of `bytes`.
pub fn md5_hash(bytes: &[u8]) -> (r: [u8; 16])
    ensures
        r@ == md5(bytes@),
{
    let message = md5_pad_bytes(bytes);
    let len = message.len();
    let nblocks = len / 64;
    let mut h: Md5State = (0x67452301u32, 0xefcdab89u32, 0x98badcfeu32, 0x10325476u32);
    let mut k: usize = 0;
    while k < nblocks
        invariant
            k <= nblocks,
            nblocks == message@.len() / 64,
            len == message@.len(),
            message@ == md5_pad(bytes@),
            h == md5_blocks(message@, k as nat),
        decreases nblocks - k,
    {
        proof {
            assert(64 * k + 64 <= message@.len()) by (nonlinear_arith)
                requires
                    k < nblocks,
                    nblocks == message@.len() / 64,
            ;
        }
        h = md5_compress_block(&message, 64 * k, h);
        k = k + 1;
    }
    let r: [u8; 16] = [
        #[verifier::truncate]
        (h.0 as u8),
        #[verifier::truncate]
        ((h.0 >> 8u32) as u8),
        #[verifier::truncate]
        ((h.0 >> 16u32) as u8),
        #[verifier::truncate]
        ((h.0 >> 24u32) as u8),
        #[verifier::truncate]
        (h.1 as u8),
        #[verifier::truncate]
        ((h.1 >> 8u32) as u8),
        #[verifier::truncate]
        ((h.1 >> 16u32) as u8),
        #[verifier::truncate]
        ((h.1 >> 24u32) as u8),
        #[verifier::truncate]
        (h.2 as u8),
        #[verifier::truncate]
        ((h.2 >> 8u32) as u8),
        #[verifier::truncate]
        ((h.2 >> 16u32) as u8),
        #[verifier::truncate]
        ((h.2 >> 24u32) as u8),
        #[verifier::truncate]
        (h.3 as u8),
        #[verifier::truncate]
        ((h.3 >> 8u32) as u8),
        #[verifier::truncate]
        ((h.3 >> 16u32) as u8),
        #[verifier::truncate]
        ((h.3 >> 24u32) as u8),
    ];
    proof {
        assert(r@ =~= le32(h.0) + le32(h.1) + le32(h.2) + le32(h.3));
    }
    r
}

} // verus!
