use vstd::prelude::*;

verus! {

/// The five chaining words of SHA-1.
pub type Sha1State = (u32, u32, u32, u32, u32);

pub open spec fn wadd(x: u32, y: u32) -> u32 {
    if x + y > u32::MAX {
        (x + y - 0x1_0000_0000) as u32
    } else {
        (x + y) as u32
    }
}

pub open spec fn rotl(x: u32, n: u32) -> u32 {
    (x << n) | (x >> ((32 - n) as u32))
}

/// The big-endian word of `s` at byte `i`.
pub open spec fn be_word(s: Seq<u8>, i: int) -> u32 {
    ((s[i] as u32) << 24u32) | ((s[i + 1] as u32) << 16u32) | ((s[i + 2] as u32) << 8u32) | (s[i
        + 3] as u32)
}

/// Word `t` of the message schedule of a 64-byte block.
pub open spec fn schedule(block: Seq<u8>, t: nat) -> u32
    decreases t,
{
    if t < 16 {
        be_word(block, 4 * t as int)
    } else {
        rotl(
            schedule(block, (t - 3) as nat) ^ schedule(block, (t - 8) as nat) ^ schedule(
                block,
                (t - 14) as nat,
            ) ^ schedule(block, (t - 16) as nat),
            1,
        )
    }
}

/// The round function and constant of round `t`.
pub open spec fn round_fk(t: nat, b: u32, c: u32, d: u32) -> (u32, u32) {
    if t < 20 {
        ((b & c) | ((!b) & d), 0x5A827999u32)
    } else if t < 40 {
        (b ^ c ^ d, 0x6ED9EBA1u32)
    } else if t < 60 {
        ((b & c) | (b & d) | (c & d), 0x8F1BBCDCu32)
    } else {
        (b ^ c ^ d, 0xCA62C1D6u32)
    }
}

/// The working variables after the first `t` rounds on `block`.
pub open spec fn rounds(block: Seq<u8>, h: Sha1State, t: nat) -> Sha1State
    decreases t,
{
    if t == 0 {
        h
    } else {
        let s = rounds(block, h, (t - 1) as nat);
        let (f, k) = round_fk((t - 1) as nat, s.1, s.2, s.3);
        let temp = wadd(
            wadd(wadd(wadd(rotl(s.0, 5), f), s.4), k),
            schedule(block, (t - 1) as nat),
        );
        (temp, s.0, rotl(s.1, 30), s.2, s.3)
    }
}

/// One application of the compression function.
pub open spec fn compress(h: Sha1State, block: Seq<u8>) -> Sha1State {
    let r = rounds(block, h, 80);
    (wadd(h.0, r.0), wadd(h.1, r.1), wadd(h.2, r.2), wadd(h.3, r.3), wadd(h.4, r.4))
}

pub open spec fn initial_state() -> Sha1State {
    (0x67452301u32, 0xEFCDAB89u32, 0x98BADCFEu32, 0x10325476u32, 0xC3D2E1F0u32)
}

/// The number of zero bytes that pad a message of `len` bytes.
pub open spec fn zero_count(len: nat) -> nat {
    ((119 - len % 64) % 64) as nat
}

/// The eight big-endian bytes of `x`.
pub open spec fn be64(x: u64) -> Seq<u8> {
    Seq::new(8, |i: int| #[verifier::truncate] (((x >> ((56 - 8 * i) as u64)) & 0xFF) as u8))
}

/// The four big-endian bytes of `x`.
pub open spec fn be32(x: u32) -> Seq<u8> {
    seq![
        #[verifier::truncate]
        ((x >> 24u32) as u8),
        #[verifier::truncate]
        ((x >> 16u32) as u8),
        #[verifier::truncate]
        ((x >> 8u32) as u8),
        #[verifier::truncate]
        (x as u8),
    ]
}

/// The padded message: a one bit, zeros, and the bit length modulo 2^64.
pub open spec fn pad(m: Seq<u8>) -> Seq<u8> {
    m + seq![0x80u8] + Seq::new(zero_count(m.len()), |i: int| 0u8) + be64(
        ((m.len() * 8) % 0x1_0000_0000_0000_0000) as u64,
    )
}

/// The chaining state after the first `k` blocks of `p`.
pub open spec fn hash_blocks(p: Seq<u8>, k: nat) -> Sha1State
    decreases k,
{
    if k == 0 {
        initial_state()
    } else {
        compress(hash_blocks(p, (k - 1) as nat), p.subrange(64 * (k - 1), 64 * k as int))
    }
}

pub open spec fn digest(h: Sha1State) -> Seq<u8> {
    be32(h.0) + be32(h.1) + be32(h.2) + be32(h.3) + be32(h.4)
}

/// The SHA-1 digest of a message.
pub open spec fn sha1(m: Seq<u8>) -> Seq<u8> {
    let p = pad(m);
    digest(hash_blocks(p, p.len() / 64))
}

/// The message followed by its SHA-1 padding.
fn pad_bytes(bytes: &[u8]) -> (r: Vec<u8>)
    ensures
        r@ == pad(bytes@),
        r@.len() % 64 == 0,
{
    let mut message: Vec<u8> = Vec::new();
    let mut i: usize = 0;
    while i < bytes.len()
        invariant
            i <= bytes@.len(),
            message@ == bytes@.take(i as int),
        decreases bytes@.len() - i,
    {
        message.push(bytes[i]);
        proof {
            assert(message@ =~= bytes@.take(i + 1));
        }
        i = i + 1;
    }
    proof {
        assert(bytes@.take(i as int) =~= bytes@);
    }
    message.push(0x80);
    let zeros: usize = (119 - bytes.len() % 64) % 64;
    let mut z: usize = 0;
    while z < zeros
        invariant
            z <= zeros,
            zeros == zero_count(bytes@.len() as nat),
            message@ == bytes@ + seq![0x80u8] + Seq::new(z as nat, |i: int| 0u8),
        decreases zeros - z,
    {
        message.push(0);
        proof {
            assert(message@ =~= bytes@ + seq![0x80u8] + Seq::new((z + 1) as nat, |i: int| 0u8));
        }
        z = z + 1;
    }
    let bit_len: u64 = (bytes.len() as u64).wrapping_mul(8);
    let mut j: usize = 0;
    let ghost before = message@;
    while j < 8
        invariant
            j <= 8,
            message@ == before + be64(bit_len).take(j as int),
        decreases 8 - j,
    {
        let byte = #[verifier::truncate]
        (((bit_len >> ((56 - 8 * j) as u64)) & 0xFF) as u8);
        message.push(byte);
        proof {
            assert(message@ =~= before + be64(bit_len).take(j + 1));
        }
        j = j + 1;
    }
    proof {
        assert(bit_len == ((bytes@.len() * 8) % 0x1_0000_0000_0000_0000) as u64);
        assert(be64(bit_len).take(8) =~= be64(bit_len));
        assert(message@ =~= pad(bytes@));
        let l = bytes@.len() as int;
        assert((l + 1 + (119 - l % 64) % 64 + 8) % 64 == 0) by (nonlinear_arith);
    }
    message
}

/// The compression function on the block of `msg` at byte `off`.
fn compress_block(msg: &Vec<u8>, off: usize, h: Sha1State) -> (r: Sha1State)
    requires
        off + 64 <= msg@.len(),
    ensures
        r == compress(h, msg@.subrange(off as int, off + 64)),
{
    let ghost block = msg@.subrange(off as int, off + 64);
    let n = msg.len();
    let mut w: Vec<u32> = Vec::new();
    let mut t: usize = 0;
    while t < 16
        invariant
            t <= 16,
            off + 64 <= msg@.len(),
            n == msg@.len(),
            block == msg@.subrange(off as int, off + 64),
            w@.len() == t,
            forall|j: int| 0 <= j < t ==> #[trigger] w@[j] == schedule(block, j as nat),
        decreases 16 - t,
    {
        let p = off + 4 * t;
        let word: u32 = ((msg[p] as u32) << 24u32) | ((msg[p + 1] as u32) << 16u32) | ((msg[p
            + 2] as u32) << 8u32) | (msg[p + 3] as u32);
        proof {
            assert(block[4 * t as int] == msg@[p as int]);
            assert(block[4 * t + 1] == msg@[p + 1]);
            assert(block[4 * t + 2] == msg@[p + 2]);
            assert(block[4 * t + 3] == msg@[p + 3]);
        }
        w.push(word);
        t = t + 1;
    }
    while t < 80
        invariant
            16 <= t <= 80,
            w@.len() == t,
            forall|j: int| 0 <= j < t ==> #[trigger] w@[j] == schedule(block, j as nat),
        decreases 80 - t,
    {
        let x = w[t - 3] ^ w[t - 8] ^ w[t - 14] ^ w[t - 16];
        let word = (x << 1u32) | (x >> 31u32);
        proof {
            assert(w@[t - 3] == schedule(block, (t - 3) as nat));
            assert(w@[t - 8] == schedule(block, (t - 8) as nat));
            assert(w@[t - 14] == schedule(block, (t - 14) as nat));
            assert(w@[t - 16] == schedule(block, (t - 16) as nat));
        }
        w.push(word);
        t = t + 1;
    }
    let mut a = h.0;
    let mut b = h.1;
    let mut c = h.2;
    let mut d = h.3;
    let mut e = h.4;
    let mut i: usize = 0;
    while i < 80
        invariant
            i <= 80,
            w@.len() == 80,
            forall|j: int| 0 <= j < 80 ==> #[trigger] w@[j] == schedule(block, j as nat),
            (a, b, c, d, e) == rounds(block, h, i as nat),
        decreases 80 - i,
    {
        let (f, k) = if i < 20 {
            ((b & c) | ((!b) & d), 0x5A827999u32)
        } else if i < 40 {
            (b ^ c ^ d, 0x6ED9EBA1u32)
        } else if i < 60 {
            ((b & c) | (b & d) | (c & d), 0x8F1BBCDCu32)
        } else {
            (b ^ c ^ d, 0xCA62C1D6u32)
        };
        let rot_a = (a << 5u32) | (a >> 27u32);
        let temp = rot_a.wrapping_add(f).wrapping_add(e).wrapping_add(k).wrapping_add(w[i]);
        e = d;
        d = c;
        c = (b << 30u32) | (b >> 2u32);
        b = a;
        a = temp;
        i = i + 1;
    }
    (h.0.wrapping_add(a), h.1.wrapping_add(b), h.2.wrapping_add(c), h.3.wrapping_add(d), h.4.wrapping_add(e))
}

/// The SHA-1 digest of `bytes`.
pub fn sha1_hash(bytes: &[u8]) -> (r: [u8; 20])
    ensures
        r@ == sha1(bytes@),
{
    let message = pad_bytes(bytes);
    let len = message.len();
    let nblocks = len / 64;
    let mut h: Sha1State = (0x67452301u32, 0xEFCDAB89u32, 0x98BADCFEu32, 0x10325476u32, 0xC3D2E1F0u32);
    let mut k: usize = 0;
    while k < nblocks
        invariant
            k <= nblocks,
            nblocks == message@.len() / 64,
            len == message@.len(),
            message@ == pad(bytes@),
            h == hash_blocks(message@, k as nat),
        decreases nblocks - k,
    {
        proof {
            assert(64 * k + 64 <= message@.len()) by (nonlinear_arith)
                requires
                    k < nblocks,
                    nblocks == message@.len() / 64,
            ;
        }
        h = compress_block(&message, 64 * k, h);
        k = k + 1;
    }
    let r: [u8; 20] = [
        #[verifier::truncate]
        ((h.0 >> 24u32) as u8),
        #[verifier::truncate]
        ((h.0 >> 16u32) as u8),
        #[verifier::truncate]
        ((h.0 >> 8u32) as u8),
        #[verifier::truncate]
        (h.0 as u8),
        #[verifier::truncate]
        ((h.1 >> 24u32) as u8),
        #[verifier::truncate]
        ((h.1 >> 16u32) as u8),
        #[verifier::truncate]
        ((h.1 >> 8u32) as u8),
        #[verifier::truncate]
        (h.1 as u8),
        #[verifier::truncate]
        ((h.2 >> 24u32) as u8),
        #[verifier::truncate]
        ((h.2 >> 16u32) as u8),
        #[verifier::truncate]
        ((h.2 >> 8u32) as u8),
        #[verifier::truncate]
        (h.2 as u8),
        #[verifier::truncate]
        ((h.3 >> 24u32) as u8),
        #[verifier::truncate]
        ((h.3 >> 16u32) as u8),
        #[verifier::truncate]
        ((h.3 >> 8u32) as u8),
        #[verifier::truncate]
        (h.3 as u8),
        #[verifier::truncate]
        ((h.4 >> 24u32) as u8),
        #[verifier::truncate]
        ((h.4 >> 16u32) as u8),
        #[verifier::truncate]
        ((h.4 >> 8u32) as u8),
        #[verifier::truncate]
        (h.4 as u8),
    ];
    proof {
        assert(r@ =~= digest(h));
    }
    r
}

} // verus!
