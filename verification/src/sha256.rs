//! SHA-256 (FIPS 180-4), specified by its padding, message schedule and
//! compression function, and computed by a verified implementation.

use vstd::prelude::*;
use vstd::wrapping::u32_specs::wrapping_add;
use vstd::wrapping::u64_specs::wrapping_mul;

verus! {

/// Right rotation of a 32-bit word by `n` bits, `0 < n < 32`.
pub open spec fn rotr(x: u32, n: u32) -> u32 {
    (x >> n) | (x << ((32 - n) as u32))
}

pub open spec fn big_sigma0(a: u32) -> u32 {
    rotr(a, 2) ^ rotr(a, 13) ^ rotr(a, 22)
}

pub open spec fn big_sigma1(e: u32) -> u32 {
    rotr(e, 6) ^ rotr(e, 11) ^ rotr(e, 25)
}

pub open spec fn small_sigma0(w: u32) -> u32 {
    rotr(w, 7) ^ rotr(w, 18) ^ (w >> 3)
}

pub open spec fn small_sigma1(w: u32) -> u32 {
    rotr(w, 17) ^ rotr(w, 19) ^ (w >> 10)
}

pub open spec fn choose_bits(e: u32, f: u32, g: u32) -> u32 {
    (e & f) ^ (!e & g)
}

pub open spec fn majority(a: u32, b: u32, c: u32) -> u32 {
    (a & b) ^ (a & c) ^ (b & c)
}

/// The initial hash value.
pub open spec fn initial_hash() -> Seq<u32> {
    seq![0x6a09e667u32, 0xbb67ae85u32, 0x3c6ef372u32, 0xa54ff53au32, 0x510e527fu32, 0x9b05688cu32, 0x1f83d9abu32, 0x5be0cd19u32]
}

/// The round constants.
pub open spec fn round_constants() -> Seq<u32> {
    seq![
        0x428a2f98u32, 0x71374491u32, 0xb5c0fbcfu32, 0xe9b5dba5u32, 0x3956c25bu32, 0x59f111f1u32, 0x923f82a4u32,
        0xab1c5ed5u32, 0xd807aa98u32, 0x12835b01u32, 0x243185beu32, 0x550c7dc3u32, 0x72be5d74u32, 0x80deb1feu32,
        0x9bdc06a7u32, 0xc19bf174u32, 0xe49b69c1u32, 0xefbe4786u32, 0x0fc19dc6u32, 0x240ca1ccu32, 0x2de92c6fu32,
        0x4a7484aau32, 0x5cb0a9dcu32, 0x76f988dau32, 0x983e5152u32, 0xa831c66du32, 0xb00327c8u32, 0xbf597fc7u32,
        0xc6e00bf3u32, 0xd5a79147u32, 0x06ca6351u32, 0x14292967u32, 0x27b70a85u32, 0x2e1b2138u32, 0x4d2c6dfcu32,
        0x53380d13u32, 0x650a7354u32, 0x766a0abbu32, 0x81c2c92eu32, 0x92722c85u32, 0xa2bfe8a1u32, 0xa81a664bu32,
        0xc24b8b70u32, 0xc76c51a3u32, 0xd192e819u32, 0xd6990624u32, 0xf40e3585u32, 0x106aa070u32, 0x19a4c116u32,
        0x1e376c08u32, 0x2748774cu32, 0x34b0bcb5u32, 0x391c0cb3u32, 0x4ed8aa4au32, 0x5b9cca4fu32, 0x682e6ff3u32,
        0x748f82eeu32, 0x78a5636fu32, 0x84c87814u32, 0x8cc70208u32, 0x90befffau32, 0xa4506cebu32, 0xbef9a3f7u32,
        0xc67178f2u32,
    ]
}

/// The big-endian 32-bit word at byte offset `i` of `b`.
pub open spec fn be_word(b: Seq<u8>, i: int) -> u32 {
    ((b[i] as u32) << 24u32) | ((b[i + 1] as u32) << 16u32) | ((b[i + 2] as u32) << 8u32) | (b[i + 3] as u32)
}

/// The eight big-endian bytes of `x`.
pub open spec fn be64(x: u64) -> Seq<u8> {
    seq![(x >> 56u64) as u8, (x >> 48u64) as u8, (x >> 40u64) as u8, (x >> 32u64) as u8,
         (x >> 24u64) as u8, (x >> 16u64) as u8, (x >> 8u64) as u8, x as u8]
}

/// The four big-endian bytes of `x`.
pub open spec fn be32(x: u32) -> Seq<u8> {
    seq![(x >> 24u32) as u8, (x >> 16u32) as u8, (x >> 8u32) as u8, x as u8]
}

/// How many zero bytes follow the 0x80 marker for a message of `len` bytes.
pub open spec fn zero_pad_len(len: nat) -> nat {
    ((119 - (len % 64)) % 64) as nat
}

/// The padded message: the message, 0x80, zeros, and the bit length modulo
/// 2^64 in big-endian order.
pub open spec fn pad(m: Seq<u8>) -> Seq<u8> {
    m + seq![0x80u8] + Seq::new(zero_pad_len(m.len()), |i: int| 0u8) + be64(wrapping_mul(m.len() as u64, 8))
}

/// Word `t` of the message schedule of a 64-byte block.
pub open spec fn schedule_word(block: Seq<u8>, t: nat) -> u32
    decreases t,
{
    if t < 16 {
        be_word(block, (4 * t) as int)
    } else {
        wrapping_add(
            wrapping_add(
                wrapping_add(schedule_word(block, (t - 16) as nat), small_sigma0(schedule_word(block, (t - 15) as nat))),
                schedule_word(block, (t - 7) as nat),
            ),
            small_sigma1(schedule_word(block, (t - 2) as nat)),
        )
    }
}

/// One compression round on the working variables.
pub open spec fn round(st: Seq<u32>, k: u32, w: u32) -> Seq<u32> {
    let t1 = wrapping_add(wrapping_add(wrapping_add(wrapping_add(st[7], big_sigma1(st[4])), choose_bits(st[4], st[5], st[6])), k), w);
    let t2 = wrapping_add(big_sigma0(st[0]), majority(st[0], st[1], st[2]));
    seq![wrapping_add(t1, t2), st[0], st[1], st[2], wrapping_add(st[3], t1), st[4], st[5], st[6]]
}

/// The working variables after the first `n` rounds on `block`.
pub open spec fn rounds(st: Seq<u32>, block: Seq<u8>, n: nat) -> Seq<u32>
    decreases n,
{
    if n == 0 {
        st
    } else {
        round(rounds(st, block, (n - 1) as nat), round_constants()[n - 1], schedule_word(block, (n - 1) as nat))
    }
}

/// The compression function: the hash value after one 64-byte block.
pub open spec fn compress(st: Seq<u32>, block: Seq<u8>) -> Seq<u32> {
    Seq::new(8, |i: int| wrapping_add(st[i], rounds(st, block, 64)[i]))
}

/// The hash value after the 64-byte blocks of `m`, starting from `st`.
pub open spec fn hash_blocks(st: Seq<u32>, m: Seq<u8>) -> Seq<u32>
    decreases m.len(),
{
    if m.len() < 64 {
        st
    } else {
        hash_blocks(compress(st, m.subrange(0, 64)), m.subrange(64, m.len() as int))
    }
}

/// The 32 digest bytes of a hash value.
pub open spec fn digest_bytes(st: Seq<u32>) -> Seq<u8> {
    Seq::new(32, |k: int| be32(st[k / 4])[k % 4])
}

/// The SHA-256 digest of `m`.
pub open spec fn sha256_spec(m: Seq<u8>) -> Seq<u8> {
    digest_bytes(hash_blocks(initial_hash(), pad(m)))
}

fn rotr_exec(x: u32, n: u32) -> (r: u32)
    requires
        0 < n < 32,
    ensures
        r == rotr(x, n),
{
    (x >> n) | (x << (32 - n))
}

fn pad_exec(input: &[u8]) -> (r: Vec<u8>)
    ensures
        r@ == pad(input@),
{
    let len = input.len();
    let bit_len = (len as u64).wrapping_mul(8);
    let mut padded: Vec<u8> = Vec::new();
    let mut i: usize = 0;
    while i < len
        invariant
            len == input@.len(),
            i <= len,
            padded@ == input@.subrange(0, i as int),
        decreases len - i,
    {
        padded.push(input[i]);
        proof {
            assert(padded@ =~= input@.subrange(0, i + 1));
        }
        i = i + 1;
    }
    proof {
        assert(input@.subrange(0, len as int) =~= input@);
    }
    padded.push(0x80);
    let zeros: usize = (119 - (len % 64)) % 64;
    let ghost head = padded@;
    let mut z: usize = 0;
    while z < zeros
        invariant
            z <= zeros,
            padded@ == head + Seq::new(z as nat, |i: int| 0u8),
        decreases zeros - z,
    {
        padded.push(0);
        proof {
            assert(padded@ =~= head + Seq::new((z + 1) as nat, |i: int| 0u8));
        }
        z = z + 1;
    }
    let ghost body = padded@;
    padded.push((bit_len >> 56) as u8);
    padded.push((bit_len >> 48) as u8);
    padded.push((bit_len >> 40) as u8);
    padded.push((bit_len >> 32) as u8);
    padded.push((bit_len >> 24) as u8);
    padded.push((bit_len >> 16) as u8);
    padded.push((bit_len >> 8) as u8);
    padded.push(bit_len as u8);
    proof {
        assert(zeros == zero_pad_len(input@.len()));
        assert(padded@ =~= body + be64(bit_len));
        assert(pad(input@) =~= body + be64(bit_len));
    }
    padded
}

fn be_word_exec(b: &Vec<u8>, i: usize) -> (r: u32)
    requires
        i + 4 <= b@.len(),
        b@.len() <= usize::MAX,
    ensures
        r == be_word(b@, i as int),
{
    ((b[i] as u32) << 24) | ((b[i + 1] as u32) << 16) | ((b[i + 2] as u32) << 8) | (b[i + 3] as u32)
}

/// The message schedule of the block at byte offset `off`.
fn schedule_exec(m: &Vec<u8>, off: usize) -> (r: [u32; 64])
    requires
        off + 64 <= m@.len(),
        m@.len() <= usize::MAX,
    ensures
        forall|t: int| 0 <= t < 64 ==> #[trigger] r@[t] == schedule_word(m@.subrange(off as int, off + 64), t as nat),
{
    let ghost block = m@.subrange(off as int, off + 64);
    let mut w: [u32; 64] = [0u32; 64];
    let mut t: usize = 0;
    while t < 16
        invariant
            t <= 16,
            off + 64 <= m@.len(),
            m@.len() <= usize::MAX,
            block == m@.subrange(off as int, off + 64),
            forall|j: int| 0 <= j < t ==> #[trigger] w@[j] == schedule_word(block, j as nat),
        decreases 16 - t,
    {
        let v = be_word_exec(m, off + 4 * t);
        proof {
            assert(be_word(m@, off + 4 * t) == be_word(block, 4 * t));
        }
        w[t] = v;
        t = t + 1;
    }
    while t < 64
        invariant
            16 <= t <= 64,
            forall|j: int| 0 <= j < t ==> #[trigger] w@[j] == schedule_word(block, j as nat),
        decreases 64 - t,
    {
        let a = w[t - 15];
        let b = w[t - 2];
        let s0 = rotr_exec(a, 7) ^ rotr_exec(a, 18) ^ (a >> 3);
        let s1 = rotr_exec(b, 17) ^ rotr_exec(b, 19) ^ (b >> 10);
        let v = w[t - 16].wrapping_add(s0).wrapping_add(w[t - 7]).wrapping_add(s1);
        proof {
            assert(w@[t - 16] == schedule_word(block, (t - 16) as nat));
            assert(w@[t - 15] == schedule_word(block, (t - 15) as nat));
            assert(w@[t - 7] == schedule_word(block, (t - 7) as nat));
            assert(w@[t - 2] == schedule_word(block, (t - 2) as nat));
        }
        w[t] = v;
        t = t + 1;
    }
    w
}

/// The round constants, as an array.
fn constants_exec() -> (r: [u32; 64])
    ensures
        r@ == round_constants(),
{
    let k: [u32; 64] = [
        0x428a2f98, 0x71374491, 0xb5c0fbcf, 0xe9b5dba5, 0x3956c25b, 0x59f111f1, 0x923f82a4,
        0xab1c5ed5, 0xd807aa98, 0x12835b01, 0x243185be, 0x550c7dc3, 0x72be5d74, 0x80deb1fe,
        0x9bdc06a7, 0xc19bf174, 0xe49b69c1, 0xefbe4786, 0x0fc19dc6, 0x240ca1cc, 0x2de92c6f,
        0x4a7484aa, 0x5cb0a9dc, 0x76f988da, 0x983e5152, 0xa831c66d, 0xb00327c8, 0xbf597fc7,
        0xc6e00bf3, 0xd5a79147, 0x06ca6351, 0x14292967, 0x27b70a85, 0x2e1b2138, 0x4d2c6dfc,
        0x53380d13, 0x650a7354, 0x766a0abb, 0x81c2c92e, 0x92722c85, 0xa2bfe8a1, 0xa81a664b,
        0xc24b8b70, 0xc76c51a3, 0xd192e819, 0xd6990624, 0xf40e3585, 0x106aa070, 0x19a4c116,
        0x1e376c08, 0x2748774c, 0x34b0bcb5, 0x391c0cb3, 0x4ed8aa4a, 0x5b9cca4f, 0x682e6ff3,
        0x748f82ee, 0x78a5636f, 0x84c87814, 0x8cc70208, 0x90befffa, 0xa4506ceb, 0xbef9a3f7,
        0xc67178f2,
    ];
    proof {
        assert(k@ =~= round_constants());
    }
    k
}

/// Applies the compression function to `st` and the block at byte offset `off`.
fn compress_exec(st: &[u32; 8], m: &Vec<u8>, off: usize) -> (r: [u32; 8])
    requires
        off + 64 <= m@.len(),
        m@.len() <= usize::MAX,
    ensures
        r@ == compress(st@, m@.subrange(off as int, off + 64)),
{
    let ghost block = m@.subrange(off as int, off + 64);
    let w = schedule_exec(m, off);
    let k = constants_exec();
    let mut work: [u32; 8] = *st;
    let mut t: usize = 0;
    while t < 64
        invariant
            t <= 64,
            k@ == round_constants(),
            forall|j: int| 0 <= j < 64 ==> #[trigger] w@[j] == schedule_word(block, j as nat),
            work@ == rounds(st@, block, t as nat),
        decreases 64 - t,
    {
        let e = work[4];
        let a = work[0];
        let big1 = rotr_exec(e, 6) ^ rotr_exec(e, 11) ^ rotr_exec(e, 25);
        let ch = (e & work[5]) ^ (!e & work[6]);
        let temp1 = work[7].wrapping_add(big1).wrapping_add(ch).wrapping_add(k[t]).wrapping_add(w[t]);
        let big0 = rotr_exec(a, 2) ^ rotr_exec(a, 13) ^ rotr_exec(a, 22);
        let maj = (a & work[1]) ^ (a & work[2]) ^ (work[1] & work[2]);
        let temp2 = big0.wrapping_add(maj);
        let next: [u32; 8] = [
            temp1.wrapping_add(temp2),
            work[0],
            work[1],
            work[2],
            work[3].wrapping_add(temp1),
            work[4],
            work[5],
            work[6],
        ];
        proof {
            assert(w@[t as int] == schedule_word(block, t as nat));
            assert(next@ =~= round(work@, round_constants()[t as int], schedule_word(block, t as nat)));
        }
        work = next;
        t = t + 1;
    }
    let mut out: [u32; 8] = *st;
    let mut i: usize = 0;
    while i < 8
        invariant
            i <= 8,
            work@ == rounds(st@, block, 64),
            forall|j: int| 0 <= j < i ==> #[trigger] out@[j] == wrapping_add(st@[j], work@[j]),
            forall|j: int| i <= j < 8 ==> #[trigger] out@[j] == st@[j],
        decreases 8 - i,
    {
        out[i] = out[i].wrapping_add(work[i]);
        i = i + 1;
    }
    proof {
        assert(out@ =~= compress(st@, block));
    }
    out
}

/// The SHA-256 digest of `input`.
pub fn sha256(input: &[u8]) -> (r: [u8; 32])
    ensures
        r@ == sha256_spec(input@),
{
    let padded = pad_exec(input);
    let mut st: [u32; 8] = [0x6a09e667, 0xbb67ae85, 0x3c6ef372, 0xa54ff53a, 0x510e527f, 0x9b05688c, 0x1f83d9ab, 0x5be0cd19];
    proof {
        assert(st@ =~= initial_hash());
    }
    let mut off: usize = 0;
    proof {
        assert(padded@.subrange(0, padded@.len() as int) =~= padded@);
    }
    while padded.len() - off >= 64
        invariant
            off <= padded@.len(),
            padded@ == pad(input@),
            hash_blocks(st@, padded@.subrange(off as int, padded@.len() as int)) == hash_blocks(initial_hash(), padded@),
        decreases padded@.len() - off,
    {
        let ghost rest = padded@.subrange(off as int, padded@.len() as int);
        let next = compress_exec(&st, &padded, off);
        proof {
            assert(rest.subrange(0, 64) =~= padded@.subrange(off as int, off + 64));
            assert(rest.subrange(64, rest.len() as int) =~= padded@.subrange(off + 64, padded@.len() as int));
        }
        st = next;
        off = off + 64;
    }
    proof {
        assert(padded@.subrange(0, padded@.len() as int) =~= padded@);
    }
    let mut out: [u8; 32] = [0u8; 32];
    let mut i: usize = 0;
    while i < 8
        invariant
            i <= 8,
            forall|k: int| 0 <= k < 4 * i ==> #[trigger] out@[k] == be32(st@[k / 4])[k % 4],
        decreases 8 - i,
    {
        let w = st[i];
        out[4 * i] = (w >> 24) as u8;
        out[4 * i + 1] = (w >> 16) as u8;
        out[4 * i + 2] = (w >> 8) as u8;
        out[4 * i + 3] = w as u8;
        proof {
            assert forall|k: int| 0 <= k < 4 * (i + 1) implies #[trigger] out@[k] == be32(st@[k / 4])[k % 4] by {
                if k >= 4 * i {
                    assert(k / 4 == i as int);
                }
            }
        }
        i = i + 1;
    }
    proof {
        assert(out@ =~= digest_bytes(st@));
    }
    out
}


/// Appends `src` to `out`.
pub fn append_bytes(out: &mut Vec<u8>, src: &[u8])
    ensures
        final(out)@ == old(out)@ + src@,
{
    let ghost start = out@;
    let mut i: usize = 0;
    while i < src.len()
        invariant
            i <= src@.len(),
            out@ == start + src@.subrange(0, i as int),
        decreases src@.len() - i,
    {
        out.push(src[i]);
        proof {
            assert(out@ =~= start + src@.subrange(0, i + 1));
        }
        i = i + 1;
    }
    proof {
        assert(src@.subrange(0, src@.len() as int) =~= src@);
    }
}

/// Appends the eight big-endian bytes of `x` to `out`.
pub fn push_be64(out: &mut Vec<u8>, x: u64)
    ensures
        final(out)@ == old(out)@ + be64(x),
{
    let ghost start = out@;
    out.push((x >> 56) as u8);
    out.push((x >> 48) as u8);
    out.push((x >> 40) as u8);
    out.push((x >> 32) as u8);
    out.push((x >> 24) as u8);
    out.push((x >> 16) as u8);
    out.push((x >> 8) as u8);
    out.push(x as u8);
    proof {
        assert(out@ =~= start + be64(x));
    }
}

/// The lower-case hexadecimal digit of `d < 16`.
pub open spec fn hex_digit(d: u8) -> char {
    if d < 10 { ((d + 48) as u8) as char } else { ((d + 87) as u8) as char }
}

/// The lower-case hexadecimal rendering of `bytes`, two digits per byte.
pub open spec fn hex_text(bytes: Seq<u8>) -> Seq<char>
    decreases bytes.len(),
{
    if bytes.len() == 0 {
        Seq::empty()
    } else {
        hex_text(bytes.drop_last()) + seq![hex_digit(bytes.last() >> 4u8), hex_digit(bytes.last() & 0x0fu8)]
    }
}

pub(crate) fn hex_digit_str(d: u8) -> (r: &'static str)
    requires
        d < 16,
    ensures
        r@ == seq![hex_digit(d)],
{
    proof {
        reveal_strlit("0"); reveal_strlit("1"); reveal_strlit("2"); reveal_strlit("3");
        reveal_strlit("4"); reveal_strlit("5"); reveal_strlit("6"); reveal_strlit("7");
        reveal_strlit("8"); reveal_strlit("9"); reveal_strlit("a"); reveal_strlit("b");
        reveal_strlit("c"); reveal_strlit("d"); reveal_strlit("e"); reveal_strlit("f");
    }
    let r = match d {
        0 => "0", 1 => "1", 2 => "2", 3 => "3", 4 => "4", 5 => "5", 6 => "6", 7 => "7",
        8 => "8", 9 => "9", 10 => "a", 11 => "b", 12 => "c", 13 => "d", 14 => "e", _ => "f",
    };
    proof {
        assert(r@ =~= seq![hex_digit(d)]);
    }
    r
}

/// Renders `bytes` in lower-case hexadecimal.
pub fn hex(bytes: &[u8]) -> (r: String)
    ensures
        r@ == hex_text(bytes@),
{
    let mut out = String::new();
    let mut i: usize = 0;
    while i < bytes.len()
        invariant
            i <= bytes@.len(),
            out@ == hex_text(bytes@.subrange(0, i as int)),
        decreases bytes@.len() - i,
    {
        let b = bytes[i];
        let hi: u8 = b >> 4;
        let lo: u8 = b & 0x0f;
        assert(hi < 16) by (bit_vector)
            requires hi == b >> 4u8;
        assert(lo < 16) by (bit_vector)
            requires lo == b & 0x0fu8;
        out.append(hex_digit_str(hi));
        out.append(hex_digit_str(lo));
        proof {
            let pre = bytes@.subrange(0, i + 1);
            assert(pre.drop_last() =~= bytes@.subrange(0, i as int));
            assert(pre.last() == b);
            assert(out@ =~= hex_text(pre));
        }
        i = i + 1;
    }
    proof {
        assert(bytes@.subrange(0, bytes@.len() as int) =~= bytes@);
    }
    out
}

/// Whether two digests are equal, byte by byte.
pub fn digest_eq(a: &[u8; 32], b: &[u8; 32]) -> (r: bool)
    ensures
        r == (a@ == b@),
{
    let mut i: usize = 0;
    while i < 32
        invariant
            i <= 32,
            a@.len() == 32,
            b@.len() == 32,
            forall|j: int| 0 <= j < i ==> a@[j] == b@[j],
        decreases 32 - i,
    {
        if a[i] != b[i] {
            return false;
        }
        i = i + 1;
    }
    proof {
        assert(a@ =~= b@);
    }
    true
}
} // verus!
