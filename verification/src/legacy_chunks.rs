//! The legacy chunks: the old palettes (0x0004, and 0x0011 with 6-bit
//! components) and the mask (0x2016).

use vstd::prelude::*;
use crate::bytes::{avail, copy_range, i16_at, read_word, read_byte, u16_at};
use crate::error::AsepriteError;
use crate::model::{ColorModel, LegacyMaskModel};
use crate::text::{decode_text, string_from_utf8_lossy};
use crate::types::{Color, LegacyMask};

verus! {

/// A 6-bit VGA component scaled to 8 bits: `(v << 2) | (v >> 4)`.
pub open spec fn scale6(v: u8) -> u8 {
    (v << 2u8) | (v >> 4u8)
}

/// The number of colors in an old palette packet (0 stands for 256).
pub open spec fn packet_count(raw: u8) -> int {
    if raw == 0 { 256 } else { raw as int }
}

/// The opaque color of the three components at `p`.
pub open spec fn old_color(b: Seq<u8>, p: int, six_bit: bool) -> ColorModel {
    if six_bit {
        ColorModel { r: scale6(b[p]), g: scale6(b[p + 1]), b: scale6(b[p + 2]), a: 255, name: None }
    } else {
        ColorModel { r: b[p], g: b[p + 1], b: b[p + 2], a: 255, name: None }
    }
}

/// One packet read at `pos` with the next palette index `index`: the
/// (index, color) entries it sets, the position after it, the next index.
pub open spec fn dec_old_packet(b: Seq<u8>, pos: int, index: int, six_bit: bool) -> Option<
    (Seq<(int, ColorModel)>, int, int),
> {
    if !avail(b, pos, 2) {
        None
    } else {
        let start = index + b[pos];
        let n = packet_count(b[pos + 1]);
        if !avail(b, pos + 2, 3 * n) {
            None
        } else {
            Some(
                (
                    Seq::new(n as nat, |i: int| (start + i, old_color(b, pos + 2 + 3 * i, six_bit))),
                    pos + 2 + 3 * n,
                    start + n,
                ),
            )
        }
    }
}

/// The first `k` packets, read in turn after the packet count.
pub open spec fn dec_old_packets(b: Seq<u8>, k: nat, six_bit: bool) -> Option<(Seq<(int, ColorModel)>, int, int)>
    decreases k,
{
    if k == 0 {
        Some((Seq::empty(), 2, 0))
    } else {
        match dec_old_packets(b, (k - 1) as nat, six_bit) {
            None => None,
            Some((es, p, idx)) => match dec_old_packet(b, p, idx, six_bit) {
                None => None,
                Some((es2, p2, idx2)) => Some((es + es2, p2, idx2)),
            },
        }
    }
}

/// The palette entries an old palette chunk sets, in the order it sets
/// them; `None` where the chunk is cut short.
pub open spec fn dec_old_palette(b: Seq<u8>, six_bit: bool) -> Option<Seq<(int, ColorModel)>> {
    if !avail(b, 0, 2) {
        None
    } else {
        match dec_old_packets(b, u16_at(b, 0) as nat, six_bit) {
            Some((es, _, _)) => Some(es),
            None => None,
        }
    }
}

pub open spec fn entry_views(v: Seq<(usize, Color)>) -> Seq<(int, ColorModel)> {
    v.map_values(|e: (usize, Color)| (e.0 as int, e.1@))
}

proof fn lemma_packets_bound(b: Seq<u8>, k: nat, six_bit: bool)
    ensures
        dec_old_packets(b, k, six_bit) matches Some((_, p, idx)) ==> 0 <= idx <= 511 * k && 2 <= p,
    decreases k,
{
    if k > 0 {
        lemma_packets_bound(b, (k - 1) as nat, six_bit);
    }
}

fn scale6_exec(v: u8) -> (r: u8)
    ensures
        r == scale6(v),
{
    (v << 2u8) | (v >> 4u8)
}

fn parse_old_palette(data: &[u8], six_bit: bool) -> (r: Result<Vec<(usize, Color)>, AsepriteError>)
    ensures
        match r {
            Ok(v) => dec_old_palette(data@, six_bit) == Some(entry_views(v@)),
            Err(e) => dec_old_palette(data@, six_bit) is None && e is Io,
        },
{
    let mut pos: usize = 0;
    let num_packets = read_word(data, &mut pos)?;
    let mut out: Vec<(usize, Color)> = Vec::new();
    let mut index: usize = 0;
    let mut k: u16 = 0;
    while k < num_packets
        invariant
            k <= num_packets,
            num_packets == u16_at(data@, 0),
            avail(data@, 0, 2),
            dec_old_packets(data@, k as nat, six_bit) == Some((entry_views(out@), pos as int, index as int)),
        decreases num_packets - k,
    {
        proof {
            lemma_packets_bound(data@, k as nat, six_bit);
        }
        let ghost p0 = pos as int;
        let ghost i0 = index as int;
        let ghost before = entry_views(out@);
        let skip_count = match read_byte(data, &mut pos) {
            Ok(v) => v,
            Err(e) => {
                proof {
                    lemma_packets_fail(data@, k as nat, num_packets as nat, six_bit);
                }
                return Err(e);
            },
        };
        let raw_count = match read_byte(data, &mut pos) {
            Ok(v) => v,
            Err(e) => {
                proof {
                    lemma_packets_fail(data@, k as nat, num_packets as nat, six_bit);
                }
                return Err(e);
            },
        };
        index = index + skip_count as usize;
        let count: usize = if raw_count == 0 { 256 } else { raw_count as usize };
        let ghost start = index as int;
        let mut j: usize = 0;
        while j < count
            invariant
                j <= count,
                count == packet_count(data@[p0 + 1]),
                start == i0 + data@[p0],
                0 <= i0 <= 511 * 65535,
                index == start + j,
                pos == p0 + 2 + 3 * j,
                avail(data@, p0, 2),
                pos <= data@.len(),
                k < num_packets,
                num_packets == u16_at(data@, 0),
                avail(data@, 0, 2),
                dec_old_packets(data@, k as nat, six_bit) == Some((before, p0, i0)),
                entry_views(out@) == before + Seq::new(
                    j as nat,
                    |i: int| (start + i, old_color(data@, p0 + 2 + 3 * i, six_bit)),
                ),
            decreases count - j,
        {
            let ghost pj = pos as int;
            let c0 = read_byte(data, &mut pos);
            let c1 = read_byte(data, &mut pos);
            let c2 = read_byte(data, &mut pos);
            if c0.is_err() || c1.is_err() || c2.is_err() {
                proof {
                    assert(!avail(data@, p0 + 2, 3 * count));
                    assert(dec_old_packet(data@, p0, i0, six_bit) is None);
                    lemma_packets_fail(data@, k as nat, num_packets as nat, six_bit);
                }
                return Err(crate::bytes::eof_error());
            }
            let (red, green, blue) = match (c0, c1, c2) {
                (Ok(a), Ok(b), Ok(c)) => if six_bit {
                    (scale6_exec(a), scale6_exec(b), scale6_exec(c))
                } else {
                    (a, b, c)
                },
                _ => (0, 0, 0),
            };
            let ghost prev = out@;
            out.push((index, Color { r: red, g: green, b: blue, a: 255, name: None }));
            proof {
                assert(pj == p0 + 2 + 3 * j);
                let cm = old_color(data@, p0 + 2 + 3 * j, six_bit);
                assert(red == cm.r && green == cm.g && blue == cm.b);
                assert(entry_views(out@) =~= entry_views(prev).push((start + j, cm)));
                assert(Seq::new(
                    (j + 1) as nat,
                    |i: int| (start + i, old_color(data@, p0 + 2 + 3 * i, six_bit)),
                ) =~= Seq::new(
                    j as nat,
                    |i: int| (start + i, old_color(data@, p0 + 2 + 3 * i, six_bit)),
                ).push((start + j, cm)));
                assert(entry_views(out@) =~= before + Seq::new(
                    (j + 1) as nat,
                    |i: int| (start + i, old_color(data@, p0 + 2 + 3 * i, six_bit)),
                ));
            }
            index = index + 1;
            j = j + 1;
        }
        proof {
            assert(avail(data@, p0 + 2, 3 * count));
            assert(before + Seq::new(
                count as nat,
                |i: int| (start + i, old_color(data@, p0 + 2 + 3 * i, six_bit)),
            ) == entry_views(out@));
        }
        k = k + 1;
    }
    Ok(out)
}

proof fn lemma_packets_fail(b: Seq<u8>, i: nat, k: nat, six_bit: bool)
    requires
        i < k,
        dec_old_packets(b, i, six_bit) matches Some((_, p, idx)) ==> dec_old_packet(b, p, idx, six_bit) is None,
    ensures
        dec_old_packets(b, k, six_bit) is None,
    decreases k,
{
    if k > i + 1 {
        lemma_packets_fail(b, i, (k - 1) as nat, six_bit);
    }
}

/// The palette entries of an old 8-bit palette chunk (0x0004).
pub fn parse_old_palette_0004(data: &[u8]) -> (r: Result<Vec<(usize, Color)>, AsepriteError>)
    ensures
        match r {
            Ok(v) => dec_old_palette(data@, false) == Some(entry_views(v@)),
            Err(e) => dec_old_palette(data@, false) is None && e is Io,
        },
{
    parse_old_palette(data, false)
}

/// The palette entries of an old 6-bit palette chunk (0x0011), scaled to
/// 8 bits.
pub fn parse_old_palette_0011(data: &[u8]) -> (r: Result<Vec<(usize, Color)>, AsepriteError>)
    ensures
        match r {
            Ok(v) => dec_old_palette(data@, true) == Some(entry_views(v@)),
            Err(e) => dec_old_palette(data@, true) is None && e is Io,
        },
{
    parse_old_palette(data, true)
}

/// The mask a legacy mask chunk describes; `None` where the chunk is too
/// short for its fixed fields or its name.
pub open spec fn dec_mask(b: Seq<u8>) -> Option<LegacyMaskModel> {
    if b.len() < 18 || 18 + u16_at(b, 16) > b.len() {
        None
    } else {
        let nl = u16_at(b, 16) as int;
        Some(
            LegacyMaskModel {
                x: i16_at(b, 0),
                y: i16_at(b, 2),
                width: u16_at(b, 4),
                height: u16_at(b, 6),
                name: decode_text(b.subrange(18, 18 + nl)),
                bitmap: b.subrange(18 + nl, b.len() as int),
            },
        )
    }
}

/// The mask of a legacy mask chunk (0x2016), if the chunk holds one.
pub fn parse_mask_chunk(data: &[u8]) -> (r: Option<LegacyMask>)
    ensures
        match r {
            Some(m) => dec_mask(data@) == Some(m@),
            None => dec_mask(data@) is None,
        },
{
    if data.len() < 18 {
        return None;
    }
    let mut pos: usize = 0;
    let x = match crate::bytes::read_short(data, &mut pos) {
        Ok(v) => v,
        Err(_) => 0,
    };
    let y = match crate::bytes::read_short(data, &mut pos) {
        Ok(v) => v,
        Err(_) => 0,
    };
    let width = match read_word(data, &mut pos) {
        Ok(v) => v,
        Err(_) => 0,
    };
    let height = match read_word(data, &mut pos) {
        Ok(v) => v,
        Err(_) => 0,
    };
    let mut npos: usize = 16;
    let name_len = match read_word(data, &mut npos) {
        Ok(v) => v as usize,
        Err(_) => 0,
    };
    if name_len > data.len() - 18 {
        return None;
    }
    let name_bytes = copy_range(data, 18, 18 + name_len);
    let name = string_from_utf8_lossy(name_bytes.as_slice());
    let bitmap = copy_range(data, 18 + name_len, data.len());
    Some(LegacyMask { x, y, width, height, name, bitmap })
}

} // verus!
