use vstd::prelude::*;

verus! {

/// The four bytes of `n`, most significant first.
pub open spec fn be_bytes(n: u32) -> Seq<u8> {
    seq![
        (n / 0x100_0000) as u8,
        (n / 0x1_0000 % 0x100) as u8,
        (n / 0x100 % 0x100) as u8,
        (n % 0x100) as u8,
    ]
}

/// The number that four bytes spell, most significant first.
pub open spec fn be_value(b: Seq<u8>) -> int {
    b[0] * 0x100_0000 + b[1] * 0x1_0000 + b[2] * 0x100 + b[3]
}

/// The number that four bytes spell, most significant first, read in two's
/// complement.
pub open spec fn signed_be(b: Seq<u8>) -> int {
    if be_value(b) >= 0x8000_0000 {
        be_value(b) - 0x1_0000_0000
    } else {
        be_value(b)
    }
}

/// A message as it goes on the wire: its length (taken modulo 2^32) in four
/// bytes, most significant first, then its bytes.
pub fn frame(payload: &Vec<u8>) -> (buf: Vec<u8>)
    ensures
        buf@ == be_bytes(payload.len() as u32) + payload@,
{
    #[verifier::truncate]
    let nb: u32 = payload.len() as u32;
    let mut buf: Vec<u8> = Vec::new();
    buf.push((nb / 0x100_0000) as u8);
    buf.push((nb / 0x1_0000 % 0x100) as u8);
    buf.push((nb / 0x100 % 0x100) as u8);
    buf.push((nb % 0x100) as u8);
    assert(buf@ =~= be_bytes(nb));
    let mut i: usize = 0;
    while i < payload.len()
        invariant
            i <= payload.len(),
            buf@ == be_bytes(nb) + payload@.subrange(0, i as int),
        decreases payload.len() - i,
    {
        buf.push(payload[i]);
        assert(be_bytes(nb) + payload@.subrange(0, i + 1) =~= (be_bytes(nb) + payload@.subrange(0, i as int)).push(
            payload@[i as int],
        ));
        i = i + 1;
    }
    assert(payload@.subrange(0, payload.len() as int) =~= payload@);
    buf
}

/// The length that the first four bytes of a frame announce, read as a
/// signed number.
pub fn frame_length(prefix: &[u8; 4]) -> (nb: i32)
    ensures
        nb == signed_be(prefix@),
{
    let v: u64 = prefix[0] as u64 * 0x100_0000 + prefix[1] as u64 * 0x1_0000 + prefix[2] as u64 * 0x100
        + prefix[3] as u64;
    if v >= 0x8000_0000 {
        (v as i64 - 0x1_0000_0000) as i32
    } else {
        v as i32
    }
}

/// The bytes of a number, read back, give the number.
pub proof fn lemma_be_bytes_value(n: u32)
    ensures
        be_bytes(n).len() == 4,
        be_value(be_bytes(n)) == n,
{
    let a = n / 0x100_0000;
    let b = n / 0x1_0000 % 0x100;
    let c = n / 0x100 % 0x100;
    let d = n % 0x100;
    assert(a * 0x100_0000 + b * 0x1_0000 + c * 0x100 + d == n) by (nonlinear_arith)
        requires
            a == n / 0x100_0000,
            b == n / 0x1_0000 % 0x100,
            c == n / 0x100 % 0x100,
            d == n % 0x100,
            n < 0x1_0000_0000,
    ;
    assert(a < 0x100 && b < 0x100 && c < 0x100 && d < 0x100);
}

/// The length a frame announces is the length of the message it carries,
/// for every message shorter than 2^31 bytes.
pub proof fn lemma_frame_length(payload: Seq<u8>)
    requires
        payload.len() < 0x8000_0000,
    ensures
        signed_be((be_bytes(payload.len() as u32) + payload).subrange(0, 4)) == payload.len(),
{
    let n = payload.len() as u32;
    lemma_be_bytes_value(n);
    assert((be_bytes(n) + payload).subrange(0, 4) =~= be_bytes(n));
}

} // verus!
