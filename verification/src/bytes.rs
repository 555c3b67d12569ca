//! Little-endian byte encodings used by the file format, with exact
//! specifications of the bytes written and the values read back.

use vstd::prelude::*;
use crate::error::AsepriteError;

verus! {

// ---------------------------------------------------------------------------
// Specifications of the encodings
// ---------------------------------------------------------------------------

pub open spec fn le_u16(v: u16) -> Seq<u8> {
    seq![(v % 256) as u8, (v / 256) as u8]
}

pub open spec fn le_u32(v: u32) -> Seq<u8> {
    seq![(v % 256) as u8, ((v / 256) % 256) as u8, ((v / 65536) % 256) as u8, (v / 16777216) as u8]
}

pub open spec fn le_u64(v: u64) -> Seq<u8> {
    le_u32((v % 4294967296) as u32) + le_u32((v / 4294967296) as u32)
}

/// Two's-complement reinterpretation of a signed 16-bit value.
pub open spec fn u16_of_i16(v: i16) -> u16 {
    if v < 0 { (v + 65536) as u16 } else { v as u16 }
}

pub open spec fn i16_of_u16(v: u16) -> i16 {
    if v >= 32768 { (v - 65536) as i16 } else { v as i16 }
}

pub open spec fn u32_of_i32(v: i32) -> u32 {
    if v < 0 { (v + 4294967296) as u32 } else { v as u32 }
}

pub open spec fn i32_of_u32(v: u32) -> i32 {
    if v >= 2147483648 { (v - 4294967296) as i32 } else { v as i32 }
}

pub open spec fn u64_of_i64(v: i64) -> u64 {
    if v < 0 { (v + 18446744073709551616) as u64 } else { v as u64 }
}

pub open spec fn i64_of_u64(v: u64) -> i64 {
    if v >= 9223372036854775808 { (v - 18446744073709551616) as i64 } else { v as i64 }
}

pub open spec fn le_i16(v: i16) -> Seq<u8> {
    le_u16(u16_of_i16(v))
}

pub open spec fn le_i32(v: i32) -> Seq<u8> {
    le_u32(u32_of_i32(v))
}

pub open spec fn le_i64(v: i64) -> Seq<u8> {
    le_u64(u64_of_i64(v))
}

/// `n` zero bytes.
pub open spec fn zeros(n: nat) -> Seq<u8> {
    Seq::new(n, |i: int| 0u8)
}

/// Little-endian value of the two bytes at `i`.
pub open spec fn u16_at(s: Seq<u8>, i: int) -> u16 {
    (s[i] + 256 * s[i + 1]) as u16
}

/// Little-endian value of the four bytes at `i`.
pub open spec fn u32_at(s: Seq<u8>, i: int) -> u32 {
    (s[i] + 256 * s[i + 1] + 65536 * s[i + 2] + 16777216 * s[i + 3]) as u32
}

/// Little-endian value of the eight bytes at `i`.
pub open spec fn u64_at(s: Seq<u8>, i: int) -> u64 {
    (u32_at(s, i) + 4294967296 * u32_at(s, i + 4)) as u64
}

pub open spec fn i16_at(s: Seq<u8>, i: int) -> i16 {
    i16_of_u16(u16_at(s, i))
}

pub open spec fn i32_at(s: Seq<u8>, i: int) -> i32 {
    i32_of_u32(u32_at(s, i))
}

pub open spec fn i64_at(s: Seq<u8>, i: int) -> i64 {
    i64_of_u64(u64_at(s, i))
}

// ---------------------------------------------------------------------------
// Laws: a value read back from its encoding is the value written
// ---------------------------------------------------------------------------

pub proof fn lemma_u16_roundtrip(v: u16, s: Seq<u8>, i: int)
    requires
        0 <= i,
        i + 2 <= s.len(),
        s.subrange(i, i + 2) == le_u16(v),
    ensures
        u16_at(s, i) == v,
{
    assert(s[i] == s.subrange(i, i + 2)[0]);
    assert(s[i + 1] == s.subrange(i, i + 2)[1]);
}

pub proof fn lemma_u32_roundtrip(v: u32, s: Seq<u8>, i: int)
    requires
        0 <= i,
        i + 4 <= s.len(),
        s.subrange(i, i + 4) == le_u32(v),
    ensures
        u32_at(s, i) == v,
{
    assert(s[i] == s.subrange(i, i + 4)[0]);
    assert(s[i + 1] == s.subrange(i, i + 4)[1]);
    assert(s[i + 2] == s.subrange(i, i + 4)[2]);
    assert(s[i + 3] == s.subrange(i, i + 4)[3]);
    assert((v % 256) + 256 * ((v / 256) % 256) + 65536 * ((v / 65536) % 256) + 16777216 * (v / 16777216) == v)
        by (bit_vector);
}

/// Reading inside the left part of a concatenation.
pub proof fn lemma_at_prefix(a: Seq<u8>, c: Seq<u8>, i: int, n: int)
    requires
        0 <= i,
        i + n <= a.len(),
        0 <= n,
    ensures
        n >= 1 ==> (a + c)[i] == a[i],
        n >= 2 ==> u16_at(a + c, i) == u16_at(a, i),
        n >= 4 ==> u32_at(a + c, i) == u32_at(a, i),
        n >= 8 ==> u64_at(a + c, i) == u64_at(a, i),
        (a + c).subrange(i, i + n) == a.subrange(i, i + n),
{
    assert((a + c).subrange(i, i + n) =~= a.subrange(i, i + n));
}

/// Reading inside the right part of a concatenation.
pub proof fn lemma_at_suffix(a: Seq<u8>, c: Seq<u8>, i: int, n: int)
    requires
        0 <= i,
        i + n <= c.len(),
        0 <= n,
    ensures
        n >= 1 ==> (a + c)[a.len() + i] == c[i],
        n >= 2 ==> u16_at(a + c, a.len() + i) == u16_at(c, i),
        n >= 4 ==> u32_at(a + c, a.len() + i) == u32_at(c, i),
        n >= 8 ==> u64_at(a + c, a.len() + i) == u64_at(c, i),
        (a + c).subrange(a.len() + i, a.len() + i + n) == c.subrange(i, i + n),
{
    assert((a + c).subrange(a.len() + i, a.len() + i + n) =~= c.subrange(i, i + n));
}

pub proof fn lemma_le_u16(v: u16)
    ensures
        le_u16(v).len() == 2,
        u16_at(le_u16(v), 0) == v,
{
}

pub proof fn lemma_le_u32(v: u32)
    ensures
        le_u32(v).len() == 4,
        u32_at(le_u32(v), 0) == v,
{
    assert((v % 256) + 256 * ((v / 256) % 256) + 65536 * ((v / 65536) % 256) + 16777216 * (v / 16777216) == v)
        by (bit_vector);
}

pub proof fn lemma_le_i16(v: i16)
    ensures
        le_i16(v).len() == 2,
        i16_at(le_i16(v), 0) == v,
{
    lemma_le_u16(u16_of_i16(v));
}

pub proof fn lemma_le_i32(v: i32)
    ensures
        le_i32(v).len() == 4,
        i32_at(le_i32(v), 0) == v,
{
    lemma_le_u32(u32_of_i32(v));
}

pub proof fn lemma_le_u64(v: u64)
    ensures
        le_u64(v).len() == 8,
        u64_at(le_u64(v), 0) == v,
{
    let lo = (v % 4294967296) as u32;
    let hi = (v / 4294967296) as u32;
    lemma_le_u32(lo);
    lemma_le_u32(hi);
    lemma_at_prefix(le_u32(lo), le_u32(hi), 0, 4);
    lemma_at_suffix(le_u32(lo), le_u32(hi), 0, 4);
}

pub proof fn lemma_le_i64(v: i64)
    ensures
        le_i64(v).len() == 8,
        i64_at(le_i64(v), 0) == v,
{
    lemma_le_u64(u64_of_i64(v));
}

/// A 16-bit word read back where it was written.
pub proof fn lemma_read_u16_in(a: Seq<u8>, v: u16, c: Seq<u8>)
    ensures
        u16_at(a + le_u16(v) + c, a.len() as int) == v,
        (a + le_u16(v) + c).len() == a.len() + 2 + c.len(),
{
    lemma_le_u16(v);
    lemma_at_suffix(a, le_u16(v) + c, 0, 2);
    lemma_at_prefix(le_u16(v), c, 0, 2);
    assert(a + le_u16(v) + c =~= a + (le_u16(v) + c));
}

pub proof fn lemma_read_i16_in(a: Seq<u8>, v: i16, c: Seq<u8>)
    ensures
        i16_at(a + le_i16(v) + c, a.len() as int) == v,
        (a + le_i16(v) + c).len() == a.len() + 2 + c.len(),
{
    lemma_le_i16(v);
    lemma_read_u16_in(a, u16_of_i16(v), c);
}

/// A 32-bit word read back where it was written.
pub proof fn lemma_read_u32_in(a: Seq<u8>, v: u32, c: Seq<u8>)
    ensures
        u32_at(a + le_u32(v) + c, a.len() as int) == v,
        (a + le_u32(v) + c).len() == a.len() + 4 + c.len(),
{
    lemma_le_u32(v);
    lemma_at_suffix(a, le_u32(v) + c, 0, 4);
    lemma_at_prefix(le_u32(v), c, 0, 4);
    assert(a + le_u32(v) + c =~= a + (le_u32(v) + c));
}

pub proof fn lemma_read_i32_in(a: Seq<u8>, v: i32, c: Seq<u8>)
    ensures
        i32_at(a + le_i32(v) + c, a.len() as int) == v,
        (a + le_i32(v) + c).len() == a.len() + 4 + c.len(),
{
    lemma_le_i32(v);
    lemma_read_u32_in(a, u32_of_i32(v), c);
}

pub proof fn lemma_read_u64_in(a: Seq<u8>, v: u64, c: Seq<u8>)
    ensures
        u64_at(a + le_u64(v) + c, a.len() as int) == v,
        (a + le_u64(v) + c).len() == a.len() + 8 + c.len(),
{
    lemma_le_u64(v);
    lemma_at_suffix(a, le_u64(v) + c, 0, 8);
    lemma_at_prefix(le_u64(v), c, 0, 8);
    assert(a + le_u64(v) + c =~= a + (le_u64(v) + c));
}

pub proof fn lemma_read_i64_in(a: Seq<u8>, v: i64, c: Seq<u8>)
    ensures
        i64_at(a + le_i64(v) + c, a.len() as int) == v,
        (a + le_i64(v) + c).len() == a.len() + 8 + c.len(),
{
    lemma_le_i64(v);
    lemma_read_u64_in(a, u64_of_i64(v), c);
}

/// A byte read back where it was written.
pub proof fn lemma_read_u8_in(a: Seq<u8>, v: u8, c: Seq<u8>)
    ensures
        (a + seq![v] + c)[a.len() as int] == v,
        (a + seq![v] + c).len() == a.len() + 1 + c.len(),
{
}

/// Bytes read back where they were written.
pub proof fn lemma_read_bytes_in(a: Seq<u8>, v: Seq<u8>, c: Seq<u8>)
    ensures
        (a + v + c).subrange(a.len() as int, (a.len() + v.len()) as int) == v,
        (a + v + c).len() == a.len() + v.len() + c.len(),
{
    assert((a + v + c).subrange(a.len() as int, (a.len() + v.len()) as int) =~= v);
}

// ---------------------------------------------------------------------------
// Writers
// ---------------------------------------------------------------------------

pub fn write_byte(buf: &mut Vec<u8>, v: u8)
    ensures
        final(buf)@ == old(buf)@.push(v),
{
    buf.push(v);
}

pub fn write_word(buf: &mut Vec<u8>, v: u16)
    ensures
        final(buf)@ == old(buf)@ + le_u16(v),
{
    buf.push((v % 256) as u8);
    buf.push((v / 256) as u8);
    assert(buf@ =~= old(buf)@ + le_u16(v));
}

pub fn write_dword(buf: &mut Vec<u8>, v: u32)
    ensures
        final(buf)@ == old(buf)@ + le_u32(v),
{
    buf.push((v % 256) as u8);
    buf.push(((v / 256) % 256) as u8);
    buf.push(((v / 65536) % 256) as u8);
    buf.push((v / 16777216) as u8);
    assert(buf@ =~= old(buf)@ + le_u32(v));
}

pub fn write_qword(buf: &mut Vec<u8>, v: u64)
    ensures
        final(buf)@ == old(buf)@ + le_u64(v),
{
    let lo = (v % 4294967296) as u32;
    let hi = (v / 4294967296) as u32;
    write_dword(buf, lo);
    write_dword(buf, hi);
    assert(buf@ =~= old(buf)@ + le_u64(v));
}

pub fn write_short(buf: &mut Vec<u8>, v: i16)
    ensures
        final(buf)@ == old(buf)@ + le_i16(v),
{
    let u: u16 = if v < 0 { (v as i32 + 65536) as u16 } else { v as u16 };
    write_word(buf, u);
}

pub fn write_long(buf: &mut Vec<u8>, v: i32)
    ensures
        final(buf)@ == old(buf)@ + le_i32(v),
{
    let u: u32 = if v < 0 { (v as i64 + 4294967296) as u32 } else { v as u32 };
    write_dword(buf, u);
}

pub fn write_long64(buf: &mut Vec<u8>, v: i64)
    ensures
        final(buf)@ == old(buf)@ + le_i64(v),
{
    let u: u64 = if v < 0 { (v as i128 + 18446744073709551616) as u64 } else { v as u64 };
    write_qword(buf, u);
}

pub fn write_zeros(buf: &mut Vec<u8>, n: usize)
    ensures
        final(buf)@ == old(buf)@ + zeros(n as nat),
{
    let mut i: usize = 0;
    while i < n
        invariant
            i <= n,
            buf@ == old(buf)@ + zeros(i as nat),
        decreases n - i,
    {
        buf.push(0u8);
        i = i + 1;
        assert(buf@ =~= old(buf)@ + zeros(i as nat));
    }
}

pub fn push_bytes(buf: &mut Vec<u8>, data: &[u8])
    ensures
        final(buf)@ == old(buf)@ + data@,
{
    let mut i: usize = 0;
    while i < data.len()
        invariant
            i <= data@.len(),
            buf@ == old(buf)@ + data@.subrange(0, i as int),
        decreases data@.len() - i,
    {
        buf.push(data[i]);
        i = i + 1;
        assert(buf@ =~= old(buf)@ + data@.subrange(0, i as int));
    }
    assert(data@.subrange(0, data@.len() as int) =~= data@);
}

// ---------------------------------------------------------------------------
// Readers over a byte slice and a cursor
// ---------------------------------------------------------------------------

#[verifier::external_body]
fn unexpected_eof() -> (e: std::io::Error) {
    std::io::Error::from(std::io::ErrorKind::UnexpectedEof)
}

/// The error of a read past the end of the input.
pub fn eof_error() -> (e: AsepriteError)
    ensures
        e is Io,
{
    AsepriteError::Io(unexpected_eof())
}

/// Whether `n` more bytes are available at `pos`.
pub open spec fn avail(d: Seq<u8>, pos: int, n: int) -> bool {
    0 <= pos && pos + n <= d.len()
}

fn fits(d: &[u8], pos: usize, n: usize) -> (b: bool)
    ensures
        b == avail(d@, pos as int, n as int),
{
    pos <= d.len() && d.len() - pos >= n
}

pub fn read_byte(d: &[u8], pos: &mut usize) -> (r: Result<u8, AsepriteError>)
    ensures
        match r {
            Ok(v) => avail(d@, *old(pos) as int, 1) && v == d@[*old(pos) as int] && *final(pos)
                == *old(pos) + 1,
            Err(e) => !avail(d@, *old(pos) as int, 1) && e is Io,
        },
{
    if !fits(d, *pos, 1) {
        return Err(eof_error());
    }
    let v = d[*pos];
    *pos = *pos + 1;
    Ok(v)
}

pub fn read_word(d: &[u8], pos: &mut usize) -> (r: Result<u16, AsepriteError>)
    ensures
        match r {
            Ok(v) => avail(d@, *old(pos) as int, 2) && v == u16_at(d@, *old(pos) as int)
                && *final(pos) == *old(pos) + 2,
            Err(e) => !avail(d@, *old(pos) as int, 2) && e is Io,
        },
{
    if !fits(d, *pos, 2) {
        return Err(eof_error());
    }
    let p = *pos;
    let v = d[p] as u16 + 256 * (d[p + 1] as u16);
    *pos = p + 2;
    Ok(v)
}

pub fn read_dword(d: &[u8], pos: &mut usize) -> (r: Result<u32, AsepriteError>)
    ensures
        match r {
            Ok(v) => avail(d@, *old(pos) as int, 4) && v == u32_at(d@, *old(pos) as int)
                && *final(pos) == *old(pos) + 4,
            Err(e) => !avail(d@, *old(pos) as int, 4) && e is Io,
        },
{
    if !fits(d, *pos, 4) {
        return Err(eof_error());
    }
    let p = *pos;
    let v = d[p] as u32 + 256 * (d[p + 1] as u32) + 65536 * (d[p + 2] as u32) + 16777216 * (
    d[p + 3] as u32);
    *pos = p + 4;
    Ok(v)
}

pub fn read_qword(d: &[u8], pos: &mut usize) -> (r: Result<u64, AsepriteError>)
    ensures
        match r {
            Ok(v) => avail(d@, *old(pos) as int, 8) && v == u64_at(d@, *old(pos) as int)
                && *final(pos) == *old(pos) + 8,
            Err(e) => !avail(d@, *old(pos) as int, 8) && e is Io,
        },
{
    if !fits(d, *pos, 8) {
        return Err(eof_error());
    }
    let lo = read_dword(d, pos)?;
    let hi = read_dword(d, pos)?;
    Ok(lo as u64 + 4294967296 * (hi as u64))
}

pub fn read_short(d: &[u8], pos: &mut usize) -> (r: Result<i16, AsepriteError>)
    ensures
        match r {
            Ok(v) => avail(d@, *old(pos) as int, 2) && v == i16_at(d@, *old(pos) as int)
                && *final(pos) == *old(pos) + 2,
            Err(e) => !avail(d@, *old(pos) as int, 2) && e is Io,
        },
{
    let u = read_word(d, pos)?;
    if u >= 32768 {
        Ok((u as i32 - 65536) as i16)
    } else {
        Ok(u as i16)
    }
}

pub fn read_long(d: &[u8], pos: &mut usize) -> (r: Result<i32, AsepriteError>)
    ensures
        match r {
            Ok(v) => avail(d@, *old(pos) as int, 4) && v == i32_at(d@, *old(pos) as int)
                && *final(pos) == *old(pos) + 4,
            Err(e) => !avail(d@, *old(pos) as int, 4) && e is Io,
        },
{
    let u = read_dword(d, pos)?;
    if u >= 2147483648 {
        Ok((u as i64 - 4294967296) as i32)
    } else {
        Ok(u as i32)
    }
}

pub fn read_long64(d: &[u8], pos: &mut usize) -> (r: Result<i64, AsepriteError>)
    ensures
        match r {
            Ok(v) => avail(d@, *old(pos) as int, 8) && v == i64_at(d@, *old(pos) as int)
                && *final(pos) == *old(pos) + 8,
            Err(e) => !avail(d@, *old(pos) as int, 8) && e is Io,
        },
{
    let u = read_qword(d, pos)?;
    if u >= 9223372036854775808 {
        Ok((u as i128 - 18446744073709551616) as i64)
    } else {
        Ok(u as i64)
    }
}

/// Copies `n` bytes at the cursor.
pub fn read_bytes(d: &[u8], pos: &mut usize, n: usize) -> (r: Result<Vec<u8>, AsepriteError>)
    ensures
        match r {
            Ok(v) => avail(d@, *old(pos) as int, n as int) && v@ == d@.subrange(
                *old(pos) as int,
                *old(pos) + n,
            ) && *final(pos) == *old(pos) + n,
            Err(e) => !avail(d@, *old(pos) as int, n as int) && e is Io,
        },
{
    if !fits(d, *pos, n) {
        return Err(eof_error());
    }
    let p = *pos;
    let len = d.len();
    assert(p + n <= len);
    let mut out: Vec<u8> = Vec::new();
    let mut i: usize = 0;
    while i < n
        invariant
            i <= n,
            p + n <= len,
            len == d@.len(),
            out@ == d@.subrange(p as int, p + i),
        decreases n - i,
    {
        out.push(d[p + i]);
        i = i + 1;
        assert(out@ =~= d@.subrange(p as int, p + i));
    }
    *pos = p + n;
    Ok(out)
}

/// Advances the cursor by `n` bytes.
pub fn skip(d: &[u8], pos: &mut usize, n: usize) -> (r: Result<(), AsepriteError>)
    ensures
        match r {
            Ok(_) => avail(d@, *old(pos) as int, n as int) && *final(pos) == *old(pos) + n,
            Err(e) => !avail(d@, *old(pos) as int, n as int) && e is Io,
        },
{
    if !fits(d, *pos, n) {
        return Err(eof_error());
    }
    let len = d.len();
    assert(*pos + n <= len);
    *pos = *pos + n;
    Ok(())
}

/// A copy of `data[from..to]`.
pub fn copy_range(data: &[u8], from: usize, to: usize) -> (v: Vec<u8>)
    requires
        from <= to <= data@.len(),
    ensures
        v@ == data@.subrange(from as int, to as int),
{
    let mut v: Vec<u8> = Vec::new();
    let mut i = from;
    while i < to
        invariant
            from <= i <= to,
            to <= data@.len(),
            v@ == data@.subrange(from as int, i as int),
        decreases to - i,
    {
        v.push(data[i]);
        i = i + 1;
        assert(v@ =~= data@.subrange(from as int, i as int));
    }
    v
}


/// `n` reduced to 32 bits, as a size field stores it.
pub open spec fn trunc32(n: int) -> u32 {
    (n % 0x1_0000_0000) as u32
}

/// `n + k` reduced to 32 bits.
pub fn trunc32_add(n: usize, k: u32) -> (r: u32)
    ensures
        r == trunc32(n + k),
{
    let m: u64 = n as u64 % 0x1_0000_0000u64;
    let s: u64 = (m + k as u64) % 0x1_0000_0000u64;
    proof {
        vstd::arithmetic::div_mod::lemma_add_mod_noop(n as int, k as int, 0x1_0000_0000int);
        vstd::arithmetic::div_mod::lemma_small_mod(k as nat, 0x1_0000_0000nat);
    }
    s as u32
}

} // verus!
