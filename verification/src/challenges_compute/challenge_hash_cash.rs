use vstd::prelude::*;
use vstd::slice::slice_to_vec;
use vstd::string::StrSliceExecFns;
use vstd::utf8::encode_utf8;
use crate::messages::input::challenges::hash_cash_input::Md5HashCashInput;
use crate::messages::output::challenges::hash_cash_output::MD5HashCashOutput;

verus! {

/// Additive constants of the 64 MD5 steps.
pub const K: [u32; 64] = [
    0xd76aa478, 0xe8c7b756, 0x242070db, 0xc1bdceee,
    0xf57c0faf, 0x4787c62a, 0xa8304613, 0xfd469501,
    0x698098d8, 0x8b44f7af, 0xffff5bb1, 0x895cd7be,
    0x6b901122, 0xfd987193, 0xa679438e, 0x49b40821,
    0xf61e2562, 0xc040b340, 0x265e5a51, 0xe9b6c7aa,
    0xd62f105d, 0x02441453, 0xd8a1e681, 0xe7d3fbc8,
    0x21e1cde6, 0xc33707d6, 0xf4d50d87, 0x455a14ed,
    0xa9e3e905, 0xfcefa3f8, 0x676f02d9, 0x8d2a4c8a,
    0xfffa3942, 0x8771f681, 0x6d9d6122, 0xfde5380c,
    0xa4beea44, 0x4bdecfa9, 0xf6bb4b60, 0xbebfbc70,
    0x289b7ec6, 0xeaa127fa, 0xd4ef3085, 0x04881d05,
    0xd9d4d039, 0xe6db99e5, 0x1fa27cf8, 0xc4ac5665,
    0xf4292244, 0x432aff97, 0xab9423a7, 0xfc93a039,
    0x655b59c3, 0x8f0ccc92, 0xffeff47d, 0x85845dd1,
    0x6fa87e4f, 0xfe2ce6e0, 0xa3014314, 0x4e0811a1,
    0xf7537e82, 0xbd3af235, 0x2ad7d2bb, 0xeb86d391,
];

/// Left-rotation amounts of the 64 MD5 steps.
pub const S: [u32; 64] = [
    7, 12, 17, 22, 7, 12, 17, 22, 7, 12, 17, 22, 7, 12, 17, 22,
    5, 9, 14, 20, 5, 9, 14, 20, 5, 9, 14, 20, 5, 9, 14, 20,
    4, 11, 16, 23, 4, 11, 16, 23, 4, 11, 16, 23, 4, 11, 16, 23,
    6, 10, 15, 21, 6, 10, 15, 21, 6, 10, 15, 21, 6, 10, 15, 21,
];

/// The MD5 hash-cash solver.
pub struct Md5HashCash {
    pub input: Md5HashCashInput,
}

// ---------------------------------------------------------------------------
// The MD5 digest (RFC 1321), as a function of the message bytes.
// ---------------------------------------------------------------------------

/// The four chaining words (A, B, C, D) before the first block.
pub open spec fn md5_init() -> (u32, u32, u32, u32) {
    (0x67452301u32, 0xEFCDAB89u32, 0x98BADCFEu32, 0x10325476u32)
}

/// Addition modulo 2^32.
pub open spec fn wadd(x: u32, y: u32) -> u32 {
    vstd::wrapping::u32_specs::wrapping_add(x, y)
}

/// Rotation of `x` to the left by `s` bits (0 < s < 32).
pub open spec fn rotl(x: u32, s: u32) -> u32 {
    ((x << s) | (x >> ((32 - s) as u32))) as u32
}

/// The little-endian 32-bit word made of `bytes[at .. at + 4]`.
pub open spec fn le_word(bytes: Seq<u8>, at: int) -> u32 {
    ((bytes[at] as u32) | ((bytes[at + 1] as u32) << 8u32) | ((bytes[at + 2] as u32) << 16u32)
        | ((bytes[at + 3] as u32) << 24u32)) as u32
}

/// The auxiliary function of step `j` (F, G, H or I).
pub open spec fn md5_f(j: int, b: u32, c: u32, d: u32) -> u32 {
    if j <= 15 {
        (b & c) | (!b & d)
    } else if j <= 31 {
        (d & b) | (!d & c)
    } else if j <= 47 {
        b ^ c ^ d
    } else {
        c ^ (b | !d)
    }
}

/// The index of the message word that step `j` reads.
pub open spec fn md5_g(j: int) -> int {
    if j <= 15 {
        j
    } else if j <= 31 {
        (5 * j + 1) % 16
    } else if j <= 47 {
        (3 * j + 5) % 16
    } else {
        (7 * j) % 16
    }
}

/// Step `j` of the compression of the 64-byte `block`.
pub open spec fn md5_step(st: (u32, u32, u32, u32), block: Seq<u8>, j: int) -> (u32, u32, u32, u32) {
    let (a, b, c, d) = st;
    let sum = wadd(wadd(wadd(a, md5_f(j, b, c, d)), K[j]), le_word(block, 4 * md5_g(j)));
    (d, wadd(b, rotl(sum, S[j])), b, c)
}

/// The state after the first `n` steps on `block`.
pub open spec fn md5_rounds(st: (u32, u32, u32, u32), block: Seq<u8>, n: nat) -> (u32, u32, u32, u32)
    decreases n,
{
    if n == 0 {
        st
    } else {
        md5_step(md5_rounds(st, block, (n - 1) as nat), block, n - 1)
    }
}

/// The chaining state after one 64-byte block.
pub open spec fn md5_compress(st: (u32, u32, u32, u32), block: Seq<u8>) -> (u32, u32, u32, u32) {
    let r = md5_rounds(st, block, 64);
    (wadd(st.0, r.0), wadd(st.1, r.1), wadd(st.2, r.2), wadd(st.3, r.3))
}

/// The chaining state after the first `n` blocks of `padded`.
pub open spec fn md5_blocks(padded: Seq<u8>, n: nat) -> (u32, u32, u32, u32)
    decreases n,
{
    if n == 0 {
        md5_init()
    } else {
        md5_compress(
            md5_blocks(padded, (n - 1) as nat),
            padded.subrange(64 * (n - 1), 64 * n as int),
        )
    }
}

/// How many zero bytes follow the 0x80 byte in the padding of a message of `len` bytes.
pub open spec fn md5_zero_count(len: nat) -> nat {
    ((119 - (len % 64)) % 64) as nat
}

/// The eight little-endian bytes of `x`.
pub open spec fn le_bytes_u64(x: u64) -> Seq<u8> {
    Seq::new(8, |k: int| (x >> ((8 * k) as u64)) as u8)
}

/// A message length the padding can be computed for without overflow.
pub open spec fn md5_len_ok(len: nat) -> bool {
    &&& len + 72 <= usize::MAX
    &&& 8 * len <= u64::MAX
}

/// The padded message: 0x80, zeros up to 56 modulo 64, and the bit length.
pub open spec fn md5_pad(m: Seq<u8>) -> Seq<u8> {
    m + seq![0x80u8] + Seq::new(md5_zero_count(m.len()), |i: int| 0u8) + le_bytes_u64(
        (8 * m.len()) as u64,
    )
}

/// The final chaining state of MD5 on `m`.
pub open spec fn md5_digest(m: Seq<u8>) -> (u32, u32, u32, u32) {
    let p = md5_pad(m);
    md5_blocks(p, p.len() / 64)
}

/// The upper-case hexadecimal digit of `n` (n < 16).
pub open spec fn hex_digit(n: u8) -> char {
    if n == 0 {
        '0'
    } else if n == 1 {
        '1'
    } else if n == 2 {
        '2'
    } else if n == 3 {
        '3'
    } else if n == 4 {
        '4'
    } else if n == 5 {
        '5'
    } else if n == 6 {
        '6'
    } else if n == 7 {
        '7'
    } else if n == 8 {
        '8'
    } else if n == 9 {
        '9'
    } else if n == 10 {
        'A'
    } else if n == 11 {
        'B'
    } else if n == 12 {
        'C'
    } else if n == 13 {
        'D'
    } else if n == 14 {
        'E'
    } else {
        'F'
    }
}

/// Two upper-case hexadecimal digits of a byte.
pub open spec fn hex_byte(b: u8) -> Seq<char> {
    seq![hex_digit(b >> 4u8), hex_digit(b & 15u8)]
}

/// The bytes of `w` in little-endian order, each as two hexadecimal digits.
pub open spec fn hex_word_le(w: u32) -> Seq<char> {
    hex_byte(w as u8) + hex_byte((w >> 8u32) as u8) + hex_byte((w >> 16u32) as u8) + hex_byte(
        (w >> 24u32) as u8,
    )
}

/// The MD5 digest of `m` in upper-case hexadecimal (32 characters).
pub open spec fn md5_hex(m: Seq<u8>) -> Seq<char> {
    let d = md5_digest(m);
    hex_word_le(d.0) + hex_word_le(d.1) + hex_word_le(d.2) + hex_word_le(d.3)
}

// ---------------------------------------------------------------------------
// Executable MD5.
// ---------------------------------------------------------------------------

fn rotate_left(x: u32, s: u32) -> (r: u32)
    requires
        0 < s < 32,
    ensures
        r == rotl(x, s),
{
    (x << s) | (x >> (32 - s))
}

proof fn lemma_shift_amounts(j: int)
    requires
        0 <= j < 64,
    ensures
        0 < S[j] < 32,
{
    assert(0 < S[j] < 32);
}

fn hex_digit_str(n: u8) -> (s: &'static str)
    requires
        n < 16,
    ensures
        s@ == seq![hex_digit(n)],
{
    proof {
        reveal_strlit("0");
        reveal_strlit("1");
        reveal_strlit("2");
        reveal_strlit("3");
        reveal_strlit("4");
        reveal_strlit("5");
        reveal_strlit("6");
        reveal_strlit("7");
        reveal_strlit("8");
        reveal_strlit("9");
        reveal_strlit("A");
        reveal_strlit("B");
        reveal_strlit("C");
        reveal_strlit("D");
        reveal_strlit("E");
        reveal_strlit("F");
    }
    if n == 0 {
        "0"
    } else if n == 1 {
        "1"
    } else if n == 2 {
        "2"
    } else if n == 3 {
        "3"
    } else if n == 4 {
        "4"
    } else if n == 5 {
        "5"
    } else if n == 6 {
        "6"
    } else if n == 7 {
        "7"
    } else if n == 8 {
        "8"
    } else if n == 9 {
        "9"
    } else if n == 10 {
        "A"
    } else if n == 11 {
        "B"
    } else if n == 12 {
        "C"
    } else if n == 13 {
        "D"
    } else if n == 14 {
        "E"
    } else {
        "F"
    }
}

fn push_hex_byte(out: &mut String, b: u8)
    ensures
        final(out)@ == old(out)@ + hex_byte(b),
{
    assert(b >> 4u8 < 16 && b & 15u8 < 16) by (bit_vector);
    out.append(hex_digit_str(b >> 4));
    out.append(hex_digit_str(b & 15));
}

fn push_hex_word_le(out: &mut String, w: u32)
    ensures
        final(out)@ == old(out)@ + hex_word_le(w),
{
    push_hex_byte(out, w as u8);
    push_hex_byte(out, (w >> 8u32) as u8);
    push_hex_byte(out, (w >> 16u32) as u8);
    push_hex_byte(out, (w >> 24u32) as u8);
}

impl Md5HashCash {
    /// The MD5 digest of the UTF-8 bytes of `message`, as 32 upper-case
    /// hexadecimal digits (the bytes of A, B, C and D in little-endian order).
    pub fn md5(message: &str) -> (digest: String)
        requires
            md5_len_ok(encode_utf8(message@).len()),
        ensures
            digest@ == md5_hex(encode_utf8(message@)),
    {
        let bytes = message.as_bytes();
        let padded = Self::pad_message(bytes);
        let ghost p = padded@;
        let mut a0: u32 = 0x67452301;
        let mut b0: u32 = 0xEFCDAB89;
        let mut c0: u32 = 0x98BADCFE;
        let mut d0: u32 = 0x10325476;
        let nblocks = padded.len() / 64;
        let mut i: usize = 0;
        while i < nblocks
            invariant
                padded@ == p,
                nblocks == p.len() / 64,
                i <= nblocks,
                (a0, b0, c0, d0) == md5_blocks(p, i as nat),
            decreases nblocks - i,
        {
            let ghost block = p.subrange(64 * i, 64 * i + 64);
            let mut a = a0;
            let mut b = b0;
            let mut c = c0;
            let mut d = d0;
            let mut j: usize = 0;
            while j < 64
                invariant
                    padded@ == p,
                    nblocks == p.len() / 64,
                    i < nblocks,
                    block == p.subrange(64 * i, 64 * i + 64),
                    j <= 64,
                    (a, b, c, d) == md5_rounds((a0, b0, c0, d0), block, j as nat),
                decreases 64 - j,
            {
                let f: u32;
                let g: usize;
                if j <= 15 {
                    f = (b & c) | (!b & d);
                    g = j;
                } else if j <= 31 {
                    f = (d & b) | (!d & c);
                    g = (5 * j + 1) % 16;
                } else if j <= 47 {
                    f = b ^ c ^ d;
                    g = (3 * j + 5) % 16;
                } else {
                    f = c ^ (b | !d);
                    g = (7 * j) % 16;
                }
                assert(i * 64 + 64 <= p.len()) by (nonlinear_arith)
                    requires
                        i < nblocks,
                        nblocks == p.len() / 64,
                ;
                assert(p.len() == padded.len());
                let at = i * 64 + 4 * g;
                let w = (padded[at] as u32) | ((padded[at + 1] as u32) << 8u32) | ((padded[at
                    + 2] as u32) << 16u32) | ((padded[at + 3] as u32) << 24u32);
                assert(w == le_word(block, 4 * md5_g(j as int)));
                proof {
                    lemma_shift_amounts(j as int);
                }
                let sum = a.wrapping_add(f).wrapping_add(K[j]).wrapping_add(w);
                let tmp = d;
                d = c;
                c = b;
                b = b.wrapping_add(rotate_left(sum, S[j]));
                a = tmp;
                j = j + 1;
            }
            a0 = a0.wrapping_add(a);
            b0 = b0.wrapping_add(b);
            c0 = c0.wrapping_add(c);
            d0 = d0.wrapping_add(d);
            i = i + 1;
        }
        let mut output = String::new();
        push_hex_word_le(&mut output, a0);
        push_hex_word_le(&mut output, b0);
        push_hex_word_le(&mut output, c0);
        push_hex_word_le(&mut output, d0);
        output
    }

    /// MD5 padding: the message, the byte 0x80, zero bytes up to a length of
    /// 56 modulo 64, and the bit length of the message as 8 little-endian bytes.
    pub fn pad_message(message: &[u8]) -> (padded: Vec<u8>)
        requires
            md5_len_ok(message@.len()),
        ensures
            padded@ == md5_pad(message@),
    {
        let initial_len = message.len();
        let bit_len: u64 = 8 * (initial_len as u64);
        let mut padded_message = slice_to_vec(message);
        padded_message.push(0x80);
        let ghost zc = md5_zero_count(initial_len as nat);
        while padded_message.len() % 64 != 56
            invariant
                initial_len == message@.len(),
                md5_len_ok(initial_len as nat),
                initial_len + 1 <= padded_message.len() <= initial_len + 1 + zc,
                zc == md5_zero_count(initial_len as nat),
                padded_message@ == message@ + seq![0x80u8] + Seq::new(
                    (padded_message.len() - initial_len - 1) as nat,
                    |i: int| 0u8,
                ),
            decreases initial_len + 1 + zc - padded_message.len(),
        {
            padded_message.push(0);
            assert(padded_message@ =~= message@ + seq![0x80u8] + Seq::new(
                (padded_message.len() - initial_len - 1) as nat,
                |i: int| 0u8,
            ));
        }
        assert(padded_message.len() == initial_len + 1 + zc);
        let ghost prefix = padded_message@;
        let mut k: usize = 0;
        while k < 8
            invariant
                k <= 8,
                bit_len == 8 * initial_len,
                padded_message@ == prefix + le_bytes_u64(bit_len).subrange(0, k as int),
            decreases 8 - k,
        {
            padded_message.push((bit_len >> (8 * k as u64)) as u8);
            assert(padded_message@ =~= prefix + le_bytes_u64(bit_len).subrange(0, k + 1));
            k = k + 1;
        }
        assert(le_bytes_u64(bit_len).subrange(0, 8) =~= le_bytes_u64(bit_len));
        padded_message
    }
}


// ---------------------------------------------------------------------------
// Hash cash: a seed whose seeded message has a digest with leading zero bits.
// ---------------------------------------------------------------------------

/// The bits of a hexadecimal digit, most significant first (empty for any
/// other character).
pub open spec fn hex_bits(c: char) -> Seq<char> {
    if c == '0' {
        seq!['0', '0', '0', '0']
    } else if c == '1' {
        seq!['0', '0', '0', '1']
    } else if c == '2' {
        seq!['0', '0', '1', '0']
    } else if c == '3' {
        seq!['0', '0', '1', '1']
    } else if c == '4' {
        seq!['0', '1', '0', '0']
    } else if c == '5' {
        seq!['0', '1', '0', '1']
    } else if c == '6' {
        seq!['0', '1', '1', '0']
    } else if c == '7' {
        seq!['0', '1', '1', '1']
    } else if c == '8' {
        seq!['1', '0', '0', '0']
    } else if c == '9' {
        seq!['1', '0', '0', '1']
    } else if c == 'A' {
        seq!['1', '0', '1', '0']
    } else if c == 'B' {
        seq!['1', '0', '1', '1']
    } else if c == 'C' {
        seq!['1', '1', '0', '0']
    } else if c == 'D' {
        seq!['1', '1', '0', '1']
    } else if c == 'E' {
        seq!['1', '1', '1', '0']
    } else if c == 'F' {
        seq!['1', '1', '1', '1']
    } else {
        seq![]
    }
}

/// The bits of every character of `hex`, in order.
pub open spec fn hex_to_bits(hex: Seq<char>) -> Seq<char>
    decreases hex.len(),
{
    if hex.len() == 0 {
        seq![]
    } else {
        hex_to_bits(hex.drop_last()) + hex_bits(hex.last())
    }
}

/// The value of a string of binary digits, most significant first.
pub open spec fn binary_value(bits: Seq<char>) -> nat
    decreases bits.len(),
{
    if bits.len() == 0 {
        0
    } else {
        2 * binary_value(bits.drop_last()) + (if bits.last() == '1' {
            1nat
        } else {
            0nat
        })
    }
}

/// Every character is a binary digit.
pub open spec fn is_binary(bits: Seq<char>) -> bool {
    forall|i: int| 0 <= i < bits.len() ==> #[trigger] bits[i] == '0' || bits[i] == '1'
}

/// `x` as 16 upper-case hexadecimal digits, zero-padded on the left.
pub open spec fn hex16(x: u32) -> Seq<char> {
    Seq::new(
        16,
        |k: int|
            if k < 8 {
                '0'
            } else {
                hex_digit(((x >> ((4 * (15 - k)) as u32)) & 15u32) as u8)
            },
    )
}

/// The digest `hex` is accepted at `complexity`: its first `complexity` bits,
/// read as a signed machine integer, give 0 (or cannot be read: no bits, or a
/// value beyond `isize::MAX`).
pub open spec fn digest_accepted(hex: Seq<char>, complexity: int) -> bool {
    let bits = hex_to_bits(hex).subrange(0, complexity);
    bits.len() == 0 || binary_value(bits) == 0 || binary_value(bits) > isize::MAX
}

/// The digest of the seeded message: the seed as 16 hexadecimal digits,
/// followed by the message, encoded in UTF-8.
pub open spec fn seeded_digest(seed: i32, message: Seq<char>) -> Seq<char> {
    md5_hex(encode_utf8(hex16(seed as u32) + message))
}

/// `seed` solves the challenge for `message` at `complexity`.
#[verifier::opaque]
pub open spec fn seed_solves(seed: i32, message: Seq<char>, complexity: int) -> bool {
    digest_accepted(seeded_digest(seed, message), complexity)
}

proof fn lemma_binary_prefix_le(bits: Seq<char>, k: int)
    requires
        0 <= k <= bits.len(),
    ensures
        binary_value(bits.subrange(0, k)) <= binary_value(bits),
    decreases bits.len(),
{
    if k < bits.len() {
        lemma_binary_prefix_le(bits.drop_last(), k);
        assert(bits.drop_last().subrange(0, k) =~= bits.subrange(0, k));
    } else {
        assert(bits.subrange(0, k) =~= bits);
    }
}

/// The value of a string of binary digits as an `isize`: `None` when the
/// string is empty or its value is beyond `isize::MAX`.
fn isize_from_binary(s: &str) -> (r: Option<isize>)
    requires
        is_binary(s@),
    ensures
        s@.len() == 0 ==> r is None,
        s@.len() > 0 ==> (r is Some <==> binary_value(s@) <= isize::MAX),
        r matches Some(v) ==> v == binary_value(s@),
{
    let n = s.unicode_len();
    if n == 0 {
        return None;
    }
    let mut v: isize = 0;
    let mut i: usize = 0;
    while i < n
        invariant
            n == s@.len(),
            i <= n,
            is_binary(s@),
            v == binary_value(s@.subrange(0, i as int)),
        decreases n - i,
    {
        let c = s.get_char(i);
        let d: isize = if c == '1' {
            1
        } else {
            0
        };
        assert(s@.subrange(0, i + 1).drop_last() =~= s@.subrange(0, i as int));
        assert(binary_value(s@.subrange(0, i + 1)) == 2 * v + d);
        let m = v.checked_mul(2);
        if m.is_none() {
            proof {
                lemma_binary_prefix_le(s@, i + 1);
            }
            return None;
        }
        let x = m.unwrap().checked_add(d);
        if x.is_none() {
            proof {
                lemma_binary_prefix_le(s@, i + 1);
            }
            return None;
        }
        v = x.unwrap();
        i = i + 1;
    }
    assert(s@.subrange(0, n as int) =~= s@);
    Some(v)
}

proof fn lemma_encode_utf8_concat(a: Seq<char>, b: Seq<char>)
    ensures
        encode_utf8(a + b) == encode_utf8(a) + encode_utf8(b),
    decreases a.len(),
{
    if a.len() == 0 {
        assert(a + b =~= b);
    } else {
        lemma_encode_utf8_concat(a.drop_first(), b);
        assert((a + b).drop_first() =~= a.drop_first() + b);
        assert(encode_utf8(a + b) =~= encode_utf8(a) + encode_utf8(b));
    }
}

proof fn lemma_hex16_ascii(x: u32)
    ensures
        encode_utf8(hex16(x)).len() == 16,
{
    let h = hex16(x);
    assert forall|i: int| 0 <= i < h.len() implies '\0' <= #[trigger] h[i] <= '\u{7f}' by {
        if i >= 8 {
            let n = ((x >> ((4 * (15 - i)) as u32)) & 15u32) as u8;
            assert(h[i] == hex_digit(n));
        }
    }
    vstd::utf8::is_ascii_chars_encode_utf8(h);
}

proof fn lemma_hex_to_bits_binary(hex: Seq<char>)
    ensures
        is_binary(hex_to_bits(hex)),
    decreases hex.len(),
{
    if hex.len() > 0 {
        lemma_hex_to_bits_binary(hex.drop_last());
        let a = hex_to_bits(hex.drop_last());
        let b = hex_bits(hex.last());
        assert forall|i: int| 0 <= i < (a + b).len() implies #[trigger] (a + b)[i] == '0' || (a
            + b)[i] == '1' by {
            if i < a.len() {
                assert((a + b)[i] == a[i]);
            } else {
                assert((a + b)[i] == b[i - a.len()]);
            }
        }
    }
}

/// A character `hex_digit` can give has four bits.
pub open spec fn is_hex_digit(c: char) -> bool {
    hex_bits(c).len() == 4
}

proof fn lemma_hex_to_bits_len(hex: Seq<char>)
    requires
        all_hex_digits(hex),
    ensures
        hex_to_bits(hex).len() == 4 * hex.len(),
    decreases hex.len(),
{
    if hex.len() > 0 {
        assert(is_hex_digit(hex[hex.len() - 1]));
        lemma_hex_to_bits_len(hex.drop_last());
    }
}

proof fn lemma_hex_digit_is_digit(n: u8)
    ensures
        is_hex_digit(hex_digit(n)),
{
}

/// Every character of `s` is a hexadecimal digit.
pub open spec fn all_hex_digits(s: Seq<char>) -> bool {
    forall|i: int| 0 <= i < s.len() ==> is_hex_digit(#[trigger] s[i])
}

proof fn lemma_all_hex_concat(a: Seq<char>, b: Seq<char>)
    requires
        all_hex_digits(a),
        all_hex_digits(b),
    ensures
        all_hex_digits(a + b),
{
    assert forall|i: int| 0 <= i < (a + b).len() implies is_hex_digit(#[trigger] (a + b)[i]) by {
        if i < a.len() {
            assert((a + b)[i] == a[i]);
        } else {
            assert((a + b)[i] == b[i - a.len()]);
        }
    }
}

proof fn lemma_hex_word_digits(w: u32)
    ensures
        all_hex_digits(hex_word_le(w)),
        hex_word_le(w).len() == 8,
{
    let bs = seq![w as u8, (w >> 8u32) as u8, (w >> 16u32) as u8, (w >> 24u32) as u8];
    assert forall|k: int| 0 <= k < 4 implies all_hex_digits(#[trigger] hex_byte(bs[k])) by {
        lemma_hex_digit_is_digit(bs[k] >> 4u8);
        lemma_hex_digit_is_digit(bs[k] & 15u8);
    }
    assert(all_hex_digits(hex_byte(bs[0])));
    assert(all_hex_digits(hex_byte(bs[1])));
    assert(all_hex_digits(hex_byte(bs[2])));
    assert(all_hex_digits(hex_byte(bs[3])));
    lemma_all_hex_concat(hex_byte(bs[0]), hex_byte(bs[1]));
    lemma_all_hex_concat(hex_byte(bs[0]) + hex_byte(bs[1]), hex_byte(bs[2]));
    lemma_all_hex_concat(hex_byte(bs[0]) + hex_byte(bs[1]) + hex_byte(bs[2]), hex_byte(bs[3]));
}

/// An MD5 digest is written with 32 hexadecimal digits.
pub proof fn lemma_md5_hex_digits(m: Seq<u8>)
    ensures
        md5_hex(m).len() == 32,
        all_hex_digits(md5_hex(m)),
{
    let d = md5_digest(m);
    lemma_hex_word_digits(d.0);
    lemma_hex_word_digits(d.1);
    lemma_hex_word_digits(d.2);
    lemma_hex_word_digits(d.3);
    lemma_all_hex_concat(hex_word_le(d.0), hex_word_le(d.1));
    lemma_all_hex_concat(hex_word_le(d.0) + hex_word_le(d.1), hex_word_le(d.2));
    lemma_all_hex_concat(hex_word_le(d.0) + hex_word_le(d.1) + hex_word_le(d.2), hex_word_le(d.3));
}

fn push_hex16(out: &mut String, x: u32)
    ensures
        final(out)@ == old(out)@ + hex16(x),
{
    let ghost start = out@;
    let mut k: usize = 0;
    while k < 16
        invariant
            k <= 16,
            out@ == start + hex16(x).subrange(0, k as int),
        decreases 16 - k,
    {
        if k < 8 {
            proof {
                reveal_strlit("0");
            }
            out.append("0");
        } else {
            let shift: u32 = (4 * (15 - k)) as u32;
            assert((x >> shift) & 15u32 < 16) by (bit_vector);
            let n = ((x >> shift) & 15u32) as u8;
            assert(shift == (4 * (15 - k as int)) as u32);
            assert(hex16(x)[k as int] == hex_digit(n));
            out.append(hex_digit_str(n));
        }
        assert(out@ =~= start + hex16(x).subrange(0, k + 1));
        k = k + 1;
    }
    assert(hex16(x).subrange(0, 16) =~= hex16(x));
}

/// The four binary digits of a hexadecimal digit (upper case), or "" for
/// any other character.
pub fn to_binary(c: char) -> (bits: &'static str)
    ensures
        bits@ == hex_bits(c),
{
    proof {
        reveal_strlit("0000");
        reveal_strlit("0001");
        reveal_strlit("0010");
        reveal_strlit("0011");
        reveal_strlit("0100");
        reveal_strlit("0101");
        reveal_strlit("0110");
        reveal_strlit("0111");
        reveal_strlit("1000");
        reveal_strlit("1001");
        reveal_strlit("1010");
        reveal_strlit("1011");
        reveal_strlit("1100");
        reveal_strlit("1101");
        reveal_strlit("1110");
        reveal_strlit("1111");
        reveal_strlit("");
    }
    match c {
        '0' => "0000",
        '1' => "0001",
        '2' => "0010",
        '3' => "0011",
        '4' => "0100",
        '5' => "0101",
        '6' => "0110",
        '7' => "0111",
        '8' => "1000",
        '9' => "1001",
        'A' => "1010",
        'B' => "1011",
        'C' => "1100",
        'D' => "1101",
        'E' => "1110",
        'F' => "1111",
        _ => "",
    }
}

/// The binary digits of every character of `hex`, in order.
pub fn convert_to_binary_from_hex(hex: &str) -> (bits: String)
    ensures
        bits@ == hex_to_bits(hex@),
{
    let n = hex.unicode_len();
    let mut out = String::new();
    let mut i: usize = 0;
    while i < n
        invariant
            n == hex@.len(),
            i <= n,
            out@ == hex_to_bits(hex@.subrange(0, i as int)),
        decreases n - i,
    {
        let c = hex.get_char(i);
        out.append(to_binary(c));
        assert(hex@.subrange(0, i + 1).drop_last() =~= hex@.subrange(0, i as int));
        i = i + 1;
    }
    assert(hex@.subrange(0, n as int) =~= hex@);
    out
}


proof fn lemma_binary_prefix(bits: Seq<char>, n: int)
    requires
        is_binary(bits),
        0 <= n <= bits.len(),
    ensures
        is_binary(bits.subrange(0, n)),
        vstd::utf8::is_ascii_chars(bits),
{
    assert forall|i: int| 0 <= i < bits.len() implies '\0' <= #[trigger] bits[i] <= '\u{7f}' by {
        assert(bits[i] == '0' || bits[i] == '1');
    }
    assert forall|i: int| 0 <= i < n implies #[trigger] bits.subrange(0, n)[i] == '0' || bits.subrange(0, n)[i] == '1' by {
        assert(bits.subrange(0, n)[i] == bits[i]);
    }
}

/// The challenge can be solved from seed 0: the complexity is at most the
/// digest's 128 bits, the seeded message is short enough for MD5's length
/// field, and some seed from 0 up solves it.
pub open spec fn hash_cash_solvable(input: Md5HashCashInput) -> bool {
    &&& 0 <= input.complexity <= 128
    &&& md5_len_ok(16 + encode_utf8(input.message@).len())
    &&& exists|s: i32| 0 <= s && seed_solves(s, input.message@, input.complexity as int)
}

/// `out` answers the challenge: its seed is the first from 0 upwards that
/// solves it, with the digest of the seeded message.
pub open spec fn hash_cash_answer(input: Md5HashCashInput, out: MD5HashCashOutput) -> bool {
    &&& 0 <= out.seed <= i32::MAX
    &&& seed_solves(out.seed as i32, input.message@, input.complexity as int)
    &&& forall|s: i32| 0 <= s < out.seed ==> !seed_solves(s, input.message@, input.complexity as int)
    &&& out.hashcode@ == seeded_digest(out.seed as i32, input.message@)
}

impl Md5HashCash {
    /// The name of the challenge.
    pub fn name() -> (name: String)
        ensures
            name@ == "Md5"@,
    {
        String::from_str("Md5")
    }

    /// A solver for the given challenge input.
    pub fn new(input: Md5HashCashInput) -> (solver: Self)
        ensures
            solver.input == input,
    {
        Md5HashCash { input }
    }

    /// Searches, from `seed` upwards, the first seed that solves the
    /// challenge for `message` at complexity `momo`, and returns it with the
    /// digest of the seeded message.
    pub fn found_solution(seed: i32, message: String, momo: i32) -> (res: (i32, String))
        requires
            0 <= momo <= 128,
            md5_len_ok(16 + encode_utf8(message@).len()),
            exists|s: i32| seed <= s && seed_solves(s, message@, momo as int),
        ensures
            seed <= res.0,
            seed_solves(res.0, message@, momo as int),
            forall|s: i32| seed <= s < res.0 ==> !seed_solves(s, message@, momo as int),
            res.1@ == seeded_digest(res.0, message@),
    {
        let mut current = seed;
        loop
            invariant
                seed <= current,
                0 <= momo <= 128,
                md5_len_ok(16 + encode_utf8(message@).len()),
                exists|s: i32| current <= s && seed_solves(s, message@, momo as int),
                forall|s: i32| seed <= s < current ==> !seed_solves(s, message@, momo as int),
            decreases i32::MAX - current,
        {
            let (found, val) = Self::try_seed(current, &message, momo);
            if found {
                return (current, val);
            }
            proof {
                let w = choose|s: i32| current <= s && seed_solves(s, message@, momo as int);
                assert(w != current);
                assert(current + 1 <= w && seed_solves(w, message@, momo as int));
            }
            current = current + 1;
        }
    }

    /// Whether `seed` solves the challenge, with the digest of the seeded message.
    fn try_seed(seed: i32, message: &String, momo: i32) -> (res: (bool, String))
        requires
            0 <= momo <= 128,
            md5_len_ok(16 + encode_utf8(message@).len()),
        ensures
            res.0 == seed_solves(seed, message@, momo as int),
            res.1@ == seeded_digest(seed, message@),
    {
        let mut complete_seed = String::new();
        push_hex16(&mut complete_seed, seed as u32);
        let seeded = complete_seed.concat(message.as_str());
        proof {
            lemma_encode_utf8_concat(hex16(seed as u32), message@);
            lemma_hex16_ascii(seed as u32);
        }
        let val = Self::md5(seeded.as_str());
        let binary_value = convert_to_binary_from_hex(val.as_str());
        proof {
            lemma_md5_hex_digits(encode_utf8(seeded@));
            lemma_hex_to_bits_len(val@);
            lemma_hex_to_bits_binary(val@);
            lemma_binary_prefix(binary_value@, momo as int);
        }
        let prefix_bits = binary_value.as_str().substring_ascii(0, momo as usize);
        let prefix = match isize_from_binary(prefix_bits) {
            Some(prefix) => prefix,
            None => 0,
        };
        proof {
            reveal(seed_solves);
        }
        (prefix == 0, val)
    }

    /// Solves the challenge: the first seed from 0 upwards whose seeded
    /// message has a digest accepted at the input's complexity.
    pub fn solve(&self) -> (out: MD5HashCashOutput)
        requires
            hash_cash_solvable(self.input),
        ensures
            hash_cash_answer(self.input, out),
    {
        let (seed, hashcode) = Self::found_solution(0, self.input.message.clone(), self.input.complexity);
        MD5HashCashOutput { seed: seed as u64, hashcode }
    }
}


/// The padded message holds the message first, has a whole number of
/// 64-byte blocks, and adds between 9 and 72 bytes.
#[verifier::spinoff_prover]
#[verifier::rlimit(40)]
pub proof fn lemma_pad_shape(m: Seq<u8>)
    ensures
        md5_pad(m).len() % 64 == 0,
        m.len() + 9 <= md5_pad(m).len() <= m.len() + 72,
        md5_pad(m).subrange(0, m.len() as int) == m,
        md5_pad(m)[m.len() as int] == 0x80,
{
    let p = md5_pad(m);
    assert(p.subrange(0, m.len() as int) =~= m);
}

/// The value of a string of binary digits is below 2 to the power of its length.
pub proof fn lemma_binary_value_bound(bits: Seq<char>)
    ensures
        binary_value(bits) < vstd::arithmetic::power2::pow2(bits.len()),
    decreases bits.len(),
{
    if bits.len() > 0 {
        lemma_binary_value_bound(bits.drop_last());
        vstd::arithmetic::power2::lemma_pow2_unfold(bits.len());
    } else {
        vstd::arithmetic::power2::lemma2_to64();
    }
}

/// The value of a string is 0 exactly when it has no digit '1'.
pub proof fn lemma_binary_value_zero(bits: Seq<char>)
    ensures
        binary_value(bits) == 0 <==> forall|i: int| 0 <= i < bits.len() ==> bits[i] != '1',
    decreases bits.len(),
{
    if bits.len() > 0 {
        lemma_binary_value_zero(bits.drop_last());
        if binary_value(bits) == 0 {
            assert forall|i: int| 0 <= i < bits.len() implies bits[i] != '1' by {
                if i < bits.len() - 1 {
                    assert(bits.drop_last()[i] == bits[i]);
                }
            }
        }
        if forall|i: int| 0 <= i < bits.len() ==> bits[i] != '1' {
            assert forall|i: int| 0 <= i < bits.drop_last().len() implies bits.drop_last()[i] != '1' by {
                assert(bits.drop_last()[i] == bits[i]);
            }
        }
    }
}

/// Up to 31 bits, a digest is accepted exactly when its first
/// `complexity` bits are all '0': the leading zeros of hash cash.
pub proof fn lemma_accepted_leading_zeros(hex: Seq<char>, complexity: int)
    requires
        0 <= complexity <= 31,
        complexity <= hex_to_bits(hex).len(),
    ensures
        digest_accepted(hex, complexity) <==> forall|i: int|
            0 <= i < complexity ==> hex_to_bits(hex)[i] == '0',
{
    let all = hex_to_bits(hex);
    let bits = all.subrange(0, complexity);
    lemma_hex_to_bits_binary(hex);
    lemma_binary_value_bound(bits);
    vstd::arithmetic::power2::lemma2_to64();
    assert(vstd::arithmetic::power2::pow2(bits.len()) <= 0x8000_0000) by {
        if bits.len() < 31 {
            vstd::arithmetic::power2::lemma_pow2_strictly_increases(bits.len(), 31);
        }
    }
    lemma_binary_value_zero(bits);
    assert forall|i: int| 0 <= i < complexity implies (all[i] == '0' <==> bits[i] != '1') by {
        assert(bits[i] == all[i]);
        assert(all[i] == '0' || all[i] == '1');
    }
}

/// The seed the search returns, up to 31 bits of complexity, gives a
/// digest whose first `complexity` bits are all '0'.
pub proof fn lemma_found_seed_leading_zeros(seed: i32, message: Seq<char>, complexity: int)
    requires
        0 <= complexity <= 31,
        seed_solves(seed, message, complexity),
    ensures
        forall|i: int| 0 <= i < complexity ==> hex_to_bits(seeded_digest(seed, message))[i] == '0',
{
    reveal(seed_solves);
    let hex = seeded_digest(seed, message);
    lemma_md5_hex_digits(encode_utf8(hex16(seed as u32) + message));
    lemma_hex_to_bits_len(hex);
    lemma_accepted_leading_zeros(hex, complexity);
}


/// The character is an upper-case hexadecimal digit.
pub open spec fn is_upper_hex(c: char) -> bool {
    ('0' <= c && c <= '9') || ('A' <= c && c <= 'F')
}

/// The value of an upper-case hexadecimal digit.
pub open spec fn upper_hex_value(c: char) -> int {
    if '0' <= c && c <= '9' {
        c as int - '0' as int
    } else {
        c as int - 'A' as int + 10
    }
}

/// The number the first `k` digits of `s` spell in base 16.
pub open spec fn hex_read(s: Seq<char>, k: int) -> int
    decreases k,
{
    if k <= 0 {
        0
    } else {
        hex_read(s, k - 1) * 16 + upper_hex_value(s[k - 1])
    }
}

proof fn lemma_hex_digit_upper(n: u8)
    requires
        n < 16,
    ensures
        is_upper_hex(hex_digit(n)),
        upper_hex_value(hex_digit(n)) == n,
{
}

/// The seed prefix of a hashed message is the seed written as exactly 16
/// upper-case hexadecimal digits, zero-padded on the left: every character
/// is '0'..'9' or 'A'..'F', and the digits read back give the seed.
#[verifier::spinoff_prover]
pub proof fn lemma_hex16_reads_back(x: u32)
    ensures
        hex16(x).len() == 16,
        forall|k: int| 0 <= k < 16 ==> #[trigger] is_upper_hex(hex16(x)[k]),
        hex_read(hex16(x), 16) == x,
{
    let h = hex16(x);
    let d8 = (x >> 28u32) & 15u32;
    let d9 = (x >> 24u32) & 15u32;
    let d10 = (x >> 20u32) & 15u32;
    let d11 = (x >> 16u32) & 15u32;
    let d12 = (x >> 12u32) & 15u32;
    let d13 = (x >> 8u32) & 15u32;
    let d14 = (x >> 4u32) & 15u32;
    let d15 = (x >> 0u32) & 15u32;
    assert(d8 < 16 && d9 < 16 && d10 < 16 && d11 < 16 && d12 < 16 && d13 < 16 && d14 < 16 && d15 < 16)
        by (bit_vector)
        requires
            d8 == (x >> 28u32) & 15u32,
            d9 == (x >> 24u32) & 15u32,
            d10 == (x >> 20u32) & 15u32,
            d11 == (x >> 16u32) & 15u32,
            d12 == (x >> 12u32) & 15u32,
            d13 == (x >> 8u32) & 15u32,
            d14 == (x >> 4u32) & 15u32,
            d15 == (x >> 0u32) & 15u32,
    ;
    assert(x == d8 * 0x1000_0000 + d9 * 0x100_0000 + d10 * 0x10_0000 + d11 * 0x1_0000 + d12 * 0x1000 + d13
        * 0x100 + d14 * 0x10 + d15) by (bit_vector)
        requires
            d8 == (x >> 28u32) & 15u32,
            d9 == (x >> 24u32) & 15u32,
            d10 == (x >> 20u32) & 15u32,
            d11 == (x >> 16u32) & 15u32,
            d12 == (x >> 12u32) & 15u32,
            d13 == (x >> 8u32) & 15u32,
            d14 == (x >> 4u32) & 15u32,
            d15 == (x >> 0u32) & 15u32,
    ;
    assert(h[8] == hex_digit(d8 as u8));
    assert(h[9] == hex_digit(d9 as u8));
    assert(h[10] == hex_digit(d10 as u8));
    assert(h[11] == hex_digit(d11 as u8));
    assert(h[12] == hex_digit(d12 as u8));
    assert(h[13] == hex_digit(d13 as u8));
    assert(h[14] == hex_digit(d14 as u8));
    assert(h[15] == hex_digit(d15 as u8));
    lemma_hex_digit_upper(d8 as u8);
    lemma_hex_digit_upper(d9 as u8);
    lemma_hex_digit_upper(d10 as u8);
    lemma_hex_digit_upper(d11 as u8);
    lemma_hex_digit_upper(d12 as u8);
    lemma_hex_digit_upper(d13 as u8);
    lemma_hex_digit_upper(d14 as u8);
    lemma_hex_digit_upper(d15 as u8);
    assert forall|k: int| 0 <= k < 16 implies #[trigger] is_upper_hex(h[k]) by {
        if k < 8 {
            assert(h[k] == '0');
        }
    }
    assert(hex_read(h, 8) == 0) by {
        reveal_with_fuel(hex_read, 9);
        assert(h[0] == '0' && h[1] == '0' && h[2] == '0' && h[3] == '0');
        assert(h[4] == '0' && h[5] == '0' && h[6] == '0' && h[7] == '0');
    }
    assert(hex_read(h, 9) == d8);
    assert(hex_read(h, 10) == d8 * 16 + d9);
    assert(hex_read(h, 11) == (d8 * 16 + d9) * 16 + d10);
    assert(hex_read(h, 12) == ((d8 * 16 + d9) * 16 + d10) * 16 + d11);
    assert(hex_read(h, 13) == (((d8 * 16 + d9) * 16 + d10) * 16 + d11) * 16 + d12);
    assert(hex_read(h, 14) == ((((d8 * 16 + d9) * 16 + d10) * 16 + d11) * 16 + d12) * 16 + d13);
    assert(hex_read(h, 15) == (((((d8 * 16 + d9) * 16 + d10) * 16 + d11) * 16 + d12) * 16 + d13) * 16 + d14);
    assert(hex_read(h, 16) == ((((((d8 * 16 + d9) * 16 + d10) * 16 + d11) * 16 + d12) * 16 + d13) * 16 + d14) * 16
        + d15);
}

} // verus!
