//! Byte-level encodings: big-endian integers (read and written through
//! `byteorder`), the length-prefixed frames in which messages travel over a
//! socket, and the decimal rendering of integers.

use vstd::prelude::*;

use byteorder::ByteOrder;

verus! {

/// The unsigned value of two bytes in big-endian order.
pub open spec fn be_u16(b0: u8, b1: u8) -> int {
    b0 as int * 0x100 + b1 as int
}

/// The unsigned value of four bytes in big-endian order.
pub open spec fn be_u32(b0: u8, b1: u8, b2: u8, b3: u8) -> int {
    b0 as int * 0x1000000 + b1 as int * 0x10000 + b2 as int * 0x100 + b3 as int
}

/// The signed (two's complement) value of four bytes in big-endian order.
pub open spec fn be_i32(b0: u8, b1: u8, b2: u8, b3: u8) -> int {
    let u = be_u32(b0, b1, b2, b3);
    if u >= 0x80000000 {
        u - 0x100000000
    } else {
        u
    }
}

/// Four bytes read in big-endian order: the first byte is the most
/// significant and the last the least significant; the signed value is
/// negative exactly when the first byte's top bit is set, and is then the
/// unsigned value less `2^32`.
pub proof fn lemma_big_endian_byte_order(b0: u8, b1: u8, b2: u8, b3: u8)
    ensures
        be_u32(b0, b1, b2, b3) / 0x1000000 == b0,
        (be_u32(b0, b1, b2, b3) / 0x10000) % 0x100 == b1,
        (be_u32(b0, b1, b2, b3) / 0x100) % 0x100 == b2,
        be_u32(b0, b1, b2, b3) % 0x100 == b3,
        be_i32(b0, b1, b2, b3) < 0 <==> b0 >= 0x80,
        be_i32(b0, b1, b2, b3) == be_u32(b0, b1, b2, b3) - if b0 >= 0x80 {
            0x1_0000_0000int
        } else {
            0int
        },
{
    let x0 = b0 as int;
    let x1 = b1 as int;
    let x2 = b2 as int;
    let x3 = b3 as int;
    assert((x0 * 0x1000000 + x1 * 0x10000 + x2 * 0x100 + x3) / 0x1000000 == x0) by (nonlinear_arith)
        requires
            0 <= x0 < 0x100,
            0 <= x1 < 0x100,
            0 <= x2 < 0x100,
            0 <= x3 < 0x100,
    ;
    assert(((x0 * 0x1000000 + x1 * 0x10000 + x2 * 0x100 + x3) / 0x10000) % 0x100 == x1) by (nonlinear_arith)
        requires
            0 <= x0 < 0x100,
            0 <= x1 < 0x100,
            0 <= x2 < 0x100,
            0 <= x3 < 0x100,
    ;
    assert(((x0 * 0x1000000 + x1 * 0x10000 + x2 * 0x100 + x3) / 0x100) % 0x100 == x2) by (nonlinear_arith)
        requires
            0 <= x0 < 0x100,
            0 <= x1 < 0x100,
            0 <= x2 < 0x100,
            0 <= x3 < 0x100,
    ;
    assert((x0 * 0x1000000 + x1 * 0x10000 + x2 * 0x100 + x3) % 0x100 == x3) by (nonlinear_arith)
        requires
            0 <= x0 < 0x100,
            0 <= x1 < 0x100,
            0 <= x2 < 0x100,
            0 <= x3 < 0x100,
    ;
}

/// The four bytes of `n` in big-endian order.
pub open spec fn be_bytes_u32(n: u32) -> Seq<u8> {
    seq![
        (n / 0x1000000) as u8,
        ((n / 0x10000) % 0x100) as u8,
        ((n / 0x100) % 0x100) as u8,
        (n % 0x100) as u8,
    ]
}

/// Reads a signed 32-bit integer from the first four bytes of `bytes`, in
/// big-endian order.
///
/// Calls `byteorder::BigEndian::read_i32`, which reads the first four bytes
/// of the slice as a big-endian two's complement integer (and panics on a
/// shorter slice, which `requires` rules out).
#[verifier::external_body]
pub(crate) fn read_i32_be(bytes: &[u8]) -> (r: i32)
    requires
        bytes@.len() >= 4,
    ensures
        r as int == be_i32(bytes@[0], bytes@[1], bytes@[2], bytes@[3]),
{
    byteorder::BigEndian::read_i32(bytes)
}

/// Reads an unsigned 16-bit integer from the first two bytes of `bytes`, in
/// big-endian (network) order.
///
/// Calls `byteorder::NetworkEndian::read_u16`, which reads the first two
/// bytes of the slice as a big-endian integer (and panics on a shorter slice,
/// which `requires` rules out).
#[verifier::external_body]
pub(crate) fn read_u16_be(bytes: &[u8]) -> (r: u16)
    requires
        bytes@.len() >= 2,
    ensures
        r as int == be_u16(bytes@[0], bytes@[1]),
{
    byteorder::NetworkEndian::read_u16(bytes)
}

/// Reads an unsigned 32-bit integer from the first four bytes of `bytes`, in
/// big-endian (network) order.
///
/// Calls `byteorder::NetworkEndian::read_u32`, which reads the first four
/// bytes of the slice as a big-endian integer (and panics on a shorter slice,
/// which `requires` rules out).
#[verifier::external_body]
pub(crate) fn read_u32_be(bytes: &[u8]) -> (r: u32)
    requires
        bytes@.len() >= 4,
    ensures
        r as int == be_u32(bytes@[0], bytes@[1], bytes@[2], bytes@[3]),
{
    byteorder::NetworkEndian::read_u32(bytes)
}

/// The four big-endian (network order) bytes of `n`.
///
/// Calls `byteorder::NetworkEndian::write_u32` on a four-byte buffer, which
/// stores the bytes of `n` from the most significant to the least.
#[verifier::external_body]
pub(crate) fn write_u32_be(n: u32) -> (r: Vec<u8>)
    ensures
        r@ == be_bytes_u32(n),
{
    let mut buf = vec![0u8; 4];
    byteorder::NetworkEndian::write_u32(&mut buf, n);
    buf
}

/// Whether two byte vectors hold the same bytes.
pub fn seq_u8_eq(a: &Vec<u8>, b: &Vec<u8>) -> (r: bool)
    ensures
        r == (a@ == b@),
{
    if a.len() != b.len() {
        return false;
    }
    let mut i: usize = 0;
    while i < a.len()
        invariant
            i <= a@.len(),
            a@.len() == b@.len(),
            forall|j: int| 0 <= j < i ==> a@[j] == b@[j],
        decreases a@.len() - i,
    {
        if a[i] != b[i] {
            return false;
        }
        i = i + 1;
    }
    assert(a@ =~= b@);
    true
}

/// The frame in which `data` travels over a socket: the length of the data as
/// four big-endian bytes, followed by the data.
pub open spec fn frame(data: Seq<u8>) -> Seq<u8> {
    be_bytes_u32(data.len() as u32) + data
}

/// Encodes `data` as a frame: its length in four big-endian bytes, then the
/// data itself.
pub fn encode_frame(data: &[u8]) -> (r: Vec<u8>)
    requires
        data@.len() <= u32::MAX,
    ensures
        r@ == frame(data@),
{
    let mut out = write_u32_be(data.len() as u32);
    let mut i: usize = 0;
    assert(data@.take(0) =~= Seq::<u8>::empty());
    assert(out@ =~= be_bytes_u32(data@.len() as u32) + data@.take(0));
    while i < data.len()
        invariant
            i <= data@.len(),
            out@ == be_bytes_u32(data@.len() as u32) + data@.take(i as int),
        decreases data@.len() - i,
    {
        out.push(data[i]);
        assert(data@.take(i + 1) =~= data@.take(i as int).push(data@[i as int]));
        i = i + 1;
    }
    assert(data@.take(data@.len() as int) =~= data@);
    out
}

/// Reads the length of the data that follows a frame header.
pub fn decode_frame_length(header: &[u8]) -> (r: u32)
    requires
        header@.len() >= 4,
    ensures
        r as int == be_u32(header@[0], header@[1], header@[2], header@[3]),
{
    read_u32_be(header)
}

/// The length written into a frame header is the length read back from it.
pub proof fn lemma_frame_length_round_trip(n: u32)
    ensures
        be_u32(be_bytes_u32(n)[0], be_bytes_u32(n)[1], be_bytes_u32(n)[2], be_bytes_u32(n)[3])
            == n as int,
{
    let b = be_bytes_u32(n);
    assert(b[0] == (n / 0x1000000) as u8);
    assert(b[1] == ((n / 0x10000) % 0x100) as u8);
    assert(b[2] == ((n / 0x100) % 0x100) as u8);
    assert(b[3] == (n % 0x100) as u8);
    assert(n / 0x1000000 < 0x100) by (nonlinear_arith);
    assert((n / 0x1000000) * 0x1000000 + ((n / 0x10000) % 0x100) * 0x10000 + ((n / 0x100)
        % 0x100) * 0x100 + n % 0x100 == n) by (nonlinear_arith);
}

/// A frame of `data` starts with the length of `data` and continues with
/// `data` itself.
pub proof fn lemma_frame_decodes(data: Seq<u8>)
    requires
        data.len() <= u32::MAX,
    ensures
        frame(data).len() == data.len() + 4,
        be_u32(frame(data)[0], frame(data)[1], frame(data)[2], frame(data)[3]) == data.len(),
        frame(data).skip(4) == data,
{
    lemma_frame_length_round_trip(data.len() as u32);
    assert(frame(data).skip(4) =~= data);
}

/// The decimal digits of `n`, most significant first.
pub open spec fn decimal(n: nat) -> Seq<char>
    decreases n,
{
    if n < 10 {
        seq![digit_char(n)]
    } else {
        decimal(n / 10).push(digit_char(n % 10))
    }
}

/// The character of a decimal digit.
pub open spec fn digit_char(d: nat) -> char {
    if d == 0 {
        '0'
    } else if d == 1 {
        '1'
    } else if d == 2 {
        '2'
    } else if d == 3 {
        '3'
    } else if d == 4 {
        '4'
    } else if d == 5 {
        '5'
    } else if d == 6 {
        '6'
    } else if d == 7 {
        '7'
    } else if d == 8 {
        '8'
    } else {
        '9'
    }
}

/// The decimal rendering of a signed integer: a minus sign before the digits
/// of its magnitude when it is negative.
pub open spec fn signed_decimal(n: int) -> Seq<char> {
    if n < 0 {
        seq!['-'] + decimal((-n) as nat)
    } else {
        decimal(n as nat)
    }
}

/// The one-character string of a decimal digit.
fn digit_str(d: u64) -> (r: &'static str)
    requires
        d < 10,
    ensures
        r@ == seq![digit_char(d as nat)],
{
    proof {
        reveal_strlit("0");
        reveal_strlit("1");
        reveal_strlit("2");
        reveal_strlit("3");
        reveal_strlit("4");
        reveal_strlit("5");
        reveal_strlit("6");
        reveal_strlit("7");
        reveal_strlit("8");
        reveal_strlit("9");
    }
    if d == 0 {
        "0"
    } else if d == 1 {
        "1"
    } else if d == 2 {
        "2"
    } else if d == 3 {
        "3"
    } else if d == 4 {
        "4"
    } else if d == 5 {
        "5"
    } else if d == 6 {
        "6"
    } else if d == 7 {
        "7"
    } else if d == 8 {
        "8"
    } else {
        "9"
    }
}

/// Appends the decimal digits of `n` to `s`.
pub fn append_decimal(s: &mut String, n: u64)
    ensures
        final(s)@ == old(s)@ + decimal(n as nat),
    decreases n,
{
    if n < 10 {
        s.append(digit_str(n));
    } else {
        append_decimal(s, n / 10);
        s.append(digit_str(n % 10));
        assert(decimal(n as nat) == decimal((n / 10) as nat).push(digit_char((n % 10) as nat)));
        assert(old(s)@ + decimal(n as nat) =~= old(s)@ + decimal((n / 10) as nat) + seq![
            digit_char((n % 10) as nat),
        ]);
    }
}

/// Appends the decimal rendering of a signed integer to `s`.
pub fn append_signed_decimal(s: &mut String, n: i64)
    ensures
        final(s)@ == old(s)@ + signed_decimal(n as int),
{
    proof {
        reveal_strlit("-");
    }
    if n < 0 {
        s.append("-");
        let magnitude: u64 = if n == i64::MIN {
            0x8000000000000000u64
        } else {
            (-n) as u64
        };
        append_decimal(s, magnitude);
        assert(old(s)@ + signed_decimal(n as int) =~= old(s)@ + seq!['-'] + decimal(
            magnitude as nat,
        ));
    } else {
        append_decimal(s, n as u64);
    }
}

} // verus!
