//! The cel chunk (0x2005).

use vstd::prelude::*;
use crate::bytes::{
    avail, i16_at, le_i16, le_u16, le_u32, push_bytes, write_short, write_word, write_dword, write_byte,
    write_zeros, read_bytes, read_short, read_word, read_dword, read_byte, skip, u16_at, u32_at, zeros,
};
use crate::codec::{enc_list, lemma_enc_list_push};
use crate::error::{AsepriteError, ErrorModel};
use crate::model::{opt_bytes_view, CelKindModel, CelModel, PixelsModel};
use crate::types::{Cel, CelKind, ColorMode, Pixels};
use crate::zlib::{deflate, inflate, zlib_deflate, zlib_inflate};

verus! {

pub open spec fn cel_type_code(k: CelKindModel) -> u16 {
    match k {
        CelKindModel::Raw { .. } => 0,
        CelKindModel::Linked { .. } => 1,
        CelKindModel::Compressed { .. } => 2,
        CelKindModel::Tilemap { .. } => 3,
    }
}

pub open spec fn cel_pos(k: CelKindModel) -> (i16, i16) {
    match k {
        CelKindModel::Raw { x, y, .. } => (x, y),
        CelKindModel::Compressed { x, y, .. } => (x, y),
        CelKindModel::Linked { x, y, .. } => (x, y),
        CelKindModel::Tilemap { x, y, .. } => (x, y),
    }
}

/// The bytes of tile ids, four little-endian bytes each.
pub open spec fn tile_bytes(tiles: Seq<u32>) -> Seq<u8> {
    enc_list(tiles, |t: u32| le_u32(t))
}

/// The stored stream: the kept original bytes, or the library's zlib stream.
pub open spec fn stored_stream(original: Option<Seq<u8>>, raw: Seq<u8>) -> Seq<u8> {
    match original {
        Some(o) => o,
        None => zlib_deflate(raw),
    }
}

pub open spec fn cel_head(c: CelModel, layer_index: usize) -> Seq<u8> {
    le_u16(layer_index as u16) + le_i16(cel_pos(c.kind).0) + le_i16(cel_pos(c.kind).1) + seq![c.opacity]
        + le_u16(cel_type_code(c.kind)) + le_i16(c.z_index) + zeros(5)
}

pub open spec fn cel_tail(k: CelKindModel) -> Seq<u8> {
    match k {
        CelKindModel::Raw { pixels, .. } => le_u16(pixels.width) + le_u16(pixels.height) + pixels.data,
        CelKindModel::Compressed { pixels, original_compressed, .. } => le_u16(pixels.width) + le_u16(
            pixels.height,
        ) + stored_stream(original_compressed, pixels.data),
        CelKindModel::Linked { source_frame, .. } => le_u16(source_frame as u16),
        CelKindModel::Tilemap {
            width,
            height,
            bits_per_tile,
            tile_id_bitmask,
            x_flip_bitmask,
            y_flip_bitmask,
            d_flip_bitmask,
            tiles,
            original_compressed,
            ..
        } => le_u16(width) + le_u16(height) + le_u16(bits_per_tile) + le_u32(tile_id_bitmask) + le_u32(
            x_flip_bitmask,
        ) + le_u32(y_flip_bitmask) + le_u32(d_flip_bitmask) + zeros(10) + stored_stream(
            original_compressed,
            tile_bytes(tiles),
        ),
    }
}

/// The body of a cel chunk for cel `c` on layer `layer_index`.
pub open spec fn enc_cel(c: CelModel, layer_index: usize) -> Seq<u8> {
    cel_head(c, layer_index) + cel_tail(c.kind)
}

/// The first `n` tile ids of decompressed tile data (as many as it holds).
pub open spec fn tiles_of(d: Seq<u8>, n: int) -> Seq<u32> {
    let k: int = if n < (d.len() / 4) as int { n } else { (d.len() / 4) as int };
    Seq::new(if k < 0 { 0 } else { k as nat }, |i: int| u32_at(d, 4 * i))
}

/// The cel that a cel chunk body describes, with its layer index; `None`
/// for a cel type the format does not define.
pub open spec fn dec_cel(b: Seq<u8>, mode: ColorMode) -> Result<Option<(usize, CelModel)>, ErrorModel> {
    if !avail(b, 0, 16) {
        Err(ErrorModel::Io)
    } else {
        let li = u16_at(b, 0) as usize;
        let x = i16_at(b, 2);
        let y = i16_at(b, 4);
        let opacity = b[6];
        let t = u16_at(b, 7);
        let z = i16_at(b, 9);
        let mk = |k: CelKindModel| Ok(Some((li, CelModel { kind: k, opacity, z_index: z, user_data: None, extra: None })));
        if t == 0 {
            if !avail(b, 16, 4) {
                Err(ErrorModel::Io)
            } else {
                let w = u16_at(b, 16);
                let h = u16_at(b, 18);
                let n = w * h * mode.spec_bytes_per_pixel();
                if !avail(b, 20, n) {
                    Err(ErrorModel::Io)
                } else {
                    mk(CelKindModel::Raw { pixels: PixelsModel { data: b.subrange(20, 20 + n), width: w, height: h }, x, y })
                }
            }
        } else if t == 1 {
            if !avail(b, 16, 2) {
                Err(ErrorModel::Io)
            } else {
                mk(CelKindModel::Linked { source_frame: u16_at(b, 16) as usize, x, y })
            }
        } else if t == 2 {
            if !avail(b, 16, 4) {
                Err(ErrorModel::Io)
            } else {
                let stream = b.subrange(20, b.len() as int);
                match zlib_inflate(stream) {
                    None => Err(ErrorModel::Io),
                    Some(d) => mk(
                        CelKindModel::Compressed {
                            pixels: PixelsModel { data: d, width: u16_at(b, 16), height: u16_at(b, 18) },
                            x,
                            y,
                            original_compressed: Some(stream),
                        },
                    ),
                }
            }
        } else if t == 3 {
            if !avail(b, 16, 32) {
                Err(ErrorModel::Io)
            } else {
                let w = u16_at(b, 16);
                let h = u16_at(b, 18);
                let stream = b.subrange(48, b.len() as int);
                match zlib_inflate(stream) {
                    None => Err(ErrorModel::Io),
                    Some(d) => mk(
                        CelKindModel::Tilemap {
                            width: w,
                            height: h,
                            bits_per_tile: u16_at(b, 20),
                            tile_id_bitmask: u32_at(b, 22),
                            x_flip_bitmask: u32_at(b, 26),
                            y_flip_bitmask: u32_at(b, 30),
                            d_flip_bitmask: u32_at(b, 34),
                            tiles: tiles_of(d, w * h),
                            x,
                            y,
                            original_compressed: Some(stream),
                        },
                    ),
                }
            }
        } else {
            Ok(None)
        }
    }
}

fn push_tile_bytes(buf: &mut Vec<u8>, tiles: &Vec<u32>)
    ensures
        final(buf)@ == old(buf)@ + tile_bytes(tiles@),
{
    let ghost head = buf@;
    let mut i: usize = 0;
    while i < tiles.len()
        invariant
            i <= tiles@.len(),
            buf@ == head + tile_bytes(tiles@.take(i as int)),
        decreases tiles@.len() - i,
    {
        write_dword(buf, tiles[i]);
        proof {
            assert(tiles@.take(i + 1) =~= tiles@.take(i as int).push(tiles@[i as int]));
            lemma_enc_list_push(tiles@.take(i as int), tiles@[i as int], |t: u32| le_u32(t));
        }
        i = i + 1;
        assert(buf@ =~= head + tile_bytes(tiles@.take(i as int)));
    }
    assert(tiles@.take(tiles@.len() as int) =~= tiles@);
}

/// Appends the stored stream: the kept original bytes, or `raw` compressed.
fn push_stream(buf: &mut Vec<u8>, original: &Option<Vec<u8>>, raw: &[u8]) -> (r: Result<(), AsepriteError>)
    ensures
        r is Ok,
        final(buf)@ == old(buf)@ + stored_stream(opt_bytes_view(*original), raw@),
        original is None ==> zlib_inflate(stored_stream(None, raw@)) == Some(raw@),
{
    match original {
        Some(o) => {
            push_bytes(buf, o.as_slice());
            Ok(())
        },
        None => match deflate(raw) {
            Ok(c) => {
                push_bytes(buf, c.as_slice());
                Ok(())
            },
            Err(e) => Err(AsepriteError::Io(e)),
        },
    }
}

/// Whether the stream a cel is stored with decompresses to its data.
pub open spec fn cel_stream_reads_back(k: CelKindModel) -> bool {
    match k {
        CelKindModel::Compressed { pixels, original_compressed, .. } => zlib_inflate(
            stored_stream(original_compressed, pixels.data),
        ) == Some(pixels.data),
        CelKindModel::Tilemap { tiles, original_compressed, .. } => zlib_inflate(
            stored_stream(original_compressed, tile_bytes(tiles)),
        ) == Some(tile_bytes(tiles)),
        _ => true,
    }
}

/// Whether writing the cel compresses its data.
pub open spec fn cel_needs_deflate(k: CelKindModel) -> bool {
    match k {
        CelKindModel::Compressed { original_compressed, .. } => original_compressed is None,
        CelKindModel::Tilemap { original_compressed, .. } => original_compressed is None,
        _ => false,
    }
}

pub fn encode_cel_chunk(cel: &Cel, layer_index: usize) -> (r: Result<Vec<u8>, AsepriteError>)
    ensures
        match r {
            Ok(buf) => buf@ == enc_cel(cel@, layer_index),
            Err(_) => false,
        },
        cel_needs_deflate(cel@.kind) ==> cel_stream_reads_back(cel@.kind),
{
    let mut buf: Vec<u8> = Vec::new();
    write_word(&mut buf, layer_index as u16);
    let (x, y) = match &cel.kind {
        CelKind::Raw { x, y, .. } => (*x, *y),
        CelKind::Compressed { x, y, .. } => (*x, *y),
        CelKind::Linked { x, y, .. } => (*x, *y),
        CelKind::Tilemap { x, y, .. } => (*x, *y),
    };
    write_short(&mut buf, x);
    write_short(&mut buf, y);
    write_byte(&mut buf, cel.opacity);
    let cel_type: u16 = match &cel.kind {
        CelKind::Raw { .. } => 0,
        CelKind::Compressed { .. } => 2,
        CelKind::Linked { .. } => 1,
        CelKind::Tilemap { .. } => 3,
    };
    write_word(&mut buf, cel_type);
    write_short(&mut buf, cel.z_index);
    write_zeros(&mut buf, 5);
    assert(buf@ =~= cel_head(cel@, layer_index));
    let ghost head = buf@;
    match &cel.kind {
        CelKind::Raw { pixels, .. } => {
            write_word(&mut buf, pixels.width);
            write_word(&mut buf, pixels.height);
            push_bytes(&mut buf, pixels.data.as_slice());
        },
        CelKind::Compressed { pixels, original_compressed, .. } => {
            write_word(&mut buf, pixels.width);
            write_word(&mut buf, pixels.height);
            push_stream(&mut buf, original_compressed, pixels.data.as_slice())?;
        },
        CelKind::Linked { source_frame, .. } => {
            write_word(&mut buf, *source_frame as u16);
        },
        CelKind::Tilemap {
            width,
            height,
            bits_per_tile,
            tile_id_bitmask,
            x_flip_bitmask,
            y_flip_bitmask,
            d_flip_bitmask,
            tiles,
            original_compressed,
            ..
        } => {
            write_word(&mut buf, *width);
            write_word(&mut buf, *height);
            write_word(&mut buf, *bits_per_tile);
            write_dword(&mut buf, *tile_id_bitmask);
            write_dword(&mut buf, *x_flip_bitmask);
            write_dword(&mut buf, *y_flip_bitmask);
            write_dword(&mut buf, *d_flip_bitmask);
            write_zeros(&mut buf, 10);
            let mut raw: Vec<u8> = Vec::new();
            if original_compressed.is_none() {
                push_tile_bytes(&mut raw, tiles);
            }
            push_stream(&mut buf, original_compressed, raw.as_slice())?;
        },
    }
    assert(buf@ =~= head + cel_tail(cel@.kind));
    Ok(buf)
}

fn tiles_from_bytes(d: &Vec<u8>, num_tiles: usize) -> (tiles: Vec<u32>)
    ensures
        tiles@ == tiles_of(d@, num_tiles as int),
{
    let avail_tiles = d.len() / 4;
    let k = if num_tiles < avail_tiles { num_tiles } else { avail_tiles };
    let mut tiles: Vec<u32> = Vec::new();
    let dl = d.len();
    let mut i: usize = 0;
    while i < k
        invariant
            i <= k,
            dl == d@.len(),
            k <= d@.len() / 4,
            k == (if num_tiles < (d@.len() / 4) as int { num_tiles as int } else { (d@.len() / 4) as int }),
            tiles@ == Seq::new(i as nat, |j: int| u32_at(d@, 4 * j)),
        decreases k - i,
    {
        assert(4 * i + 4 <= d@.len());
        let mut p = 4 * i;
        let v = match read_dword(d.as_slice(), &mut p) {
            Ok(v) => v,
            Err(_) => 0,
        };
        tiles.push(v);
        i = i + 1;
        assert(tiles@ =~= Seq::new(i as nat, |j: int| u32_at(d@, 4 * j)));
    }
    tiles
}

pub fn read_cel_chunk(b: &[u8], mode: ColorMode) -> (r: Result<Option<(usize, Cel)>, AsepriteError>)
    ensures
        match r {
            Ok(Some((li, c))) => dec_cel(b@, mode) == Ok::<_, ErrorModel>(Some((li, c@))),
            Ok(None) => dec_cel(b@, mode) == Ok::<Option<(usize, CelModel)>, ErrorModel>(None),
            Err(e) => dec_cel(b@, mode) == Err::<Option<(usize, CelModel)>, _>(e@),
        },
{
    let mut pos: usize = 0;
    let layer_index = read_word(b, &mut pos)? as usize;
    let x = read_short(b, &mut pos)?;
    let y = read_short(b, &mut pos)?;
    let opacity = read_byte(b, &mut pos)?;
    let cel_type = read_word(b, &mut pos)?;
    let z_index = read_short(b, &mut pos)?;
    skip(b, &mut pos, 5)?;
    let kind = if cel_type == 0 {
        let w = read_word(b, &mut pos)?;
        let h = read_word(b, &mut pos)?;
        let bpp = mode.bytes_per_pixel();
        assert(w * h * bpp <= 65535 * 65535 * 4) by (nonlinear_arith)
            requires
                w <= 65535,
                h <= 65535,
                bpp <= 4,
        ;
        assert(w * h <= 65535 * 65535) by (nonlinear_arith)
            requires
                w <= 65535,
                h <= 65535,
        ;
        let wh: u64 = w as u64 * h as u64;
        assert(wh * bpp <= 65535 * 65535 * 4) by (nonlinear_arith)
            requires
                wh <= 65535 * 65535,
                bpp <= 4,
        ;
        let n: u64 = wh * bpp as u64;
        let blen = b.len();
        if n > blen as u64 {
            return Err(crate::bytes::eof_error());
        }
        let data = read_bytes(b, &mut pos, n as usize)?;
        CelKind::Raw { pixels: Pixels { data, width: w, height: h }, x, y }
    } else if cel_type == 1 {
        let source_frame = read_word(b, &mut pos)? as usize;
        CelKind::Linked { source_frame, x, y }
    } else if cel_type == 2 {
        let w = read_word(b, &mut pos)?;
        let h = read_word(b, &mut pos)?;
        let compressed = read_bytes(b, &mut pos, b.len() - 20)?;
        let decompressed = match inflate(compressed.as_slice()) {
            Ok(d) => d,
            Err(e) => {
                return Err(AsepriteError::Io(e));
            },
        };
        CelKind::Compressed {
            pixels: Pixels { data: decompressed, width: w, height: h },
            x,
            y,
            original_compressed: Some(compressed),
        }
    } else if cel_type == 3 {
        let w = read_word(b, &mut pos)?;
        let h = read_word(b, &mut pos)?;
        let bits_per_tile = read_word(b, &mut pos)?;
        let tile_id_bitmask = read_dword(b, &mut pos)?;
        let x_flip_bitmask = read_dword(b, &mut pos)?;
        let y_flip_bitmask = read_dword(b, &mut pos)?;
        let d_flip_bitmask = read_dword(b, &mut pos)?;
        skip(b, &mut pos, 10)?;
        let compressed = read_bytes(b, &mut pos, b.len() - 48)?;
        let decompressed = match inflate(compressed.as_slice()) {
            Ok(d) => d,
            Err(e) => {
                return Err(AsepriteError::Io(e));
            },
        };
        assert(w * h <= 65535 * 65535) by (nonlinear_arith)
            requires
                w <= 65535,
                h <= 65535,
        ;
        let num_tiles = w as usize * h as usize;
        let tiles = tiles_from_bytes(&decompressed, num_tiles);
        CelKind::Tilemap {
            width: w,
            height: h,
            bits_per_tile,
            tile_id_bitmask,
            x_flip_bitmask,
            y_flip_bitmask,
            d_flip_bitmask,
            tiles,
            x,
            y,
            original_compressed: Some(compressed),
        }
    } else {
        return Ok(None);
    };
    Ok(Some((layer_index, Cel { kind, opacity, z_index, user_data: None, extra: None })))
}


/// Whether a cel chunk written for `c` reads back: the layer index and a
/// linked cel's frame fit 16 bits, raw pixels fill their rectangle, tiles
/// fill their grid, and stored streams decompress to the data.
pub open spec fn cel_codable(c: CelModel, layer_index: usize, mode: ColorMode) -> bool {
    &&& layer_index < 65536
    &&& match c.kind {
        CelKindModel::Raw { pixels, .. } => pixels.data.len() == pixels.width * pixels.height
            * mode.spec_bytes_per_pixel(),
        CelKindModel::Linked { source_frame, .. } => source_frame < 65536,
        CelKindModel::Compressed { pixels, original_compressed, .. } => zlib_inflate(
            stored_stream(original_compressed, pixels.data),
        ) == Some(pixels.data),
        CelKindModel::Tilemap { width, height, tiles, original_compressed, .. } => tiles.len() == width
            * height && zlib_inflate(stored_stream(original_compressed, tile_bytes(tiles))) == Some(
            tile_bytes(tiles),
        ),
    }
}

/// The cel a cel chunk reads back as: without user data or extra bounds,
/// and with the stream it was stored with kept.
pub open spec fn cel_read_back(c: CelModel) -> CelModel {
    CelModel {
        kind: match c.kind {
            CelKindModel::Compressed { pixels, x, y, original_compressed } => CelKindModel::Compressed {
                pixels,
                x,
                y,
                original_compressed: Some(stored_stream(original_compressed, pixels.data)),
            },
            CelKindModel::Tilemap {
                width,
                height,
                bits_per_tile,
                tile_id_bitmask,
                x_flip_bitmask,
                y_flip_bitmask,
                d_flip_bitmask,
                tiles,
                x,
                y,
                original_compressed,
            } => CelKindModel::Tilemap {
                width,
                height,
                bits_per_tile,
                tile_id_bitmask,
                x_flip_bitmask,
                y_flip_bitmask,
                d_flip_bitmask,
                tiles,
                x,
                y,
                original_compressed: Some(stored_stream(original_compressed, tile_bytes(tiles))),
            },
            k => k,
        },
        user_data: None,
        extra: None,
        ..c
    }
}

/// The bytes of tile ids hold each id at four times its index.
pub proof fn lemma_tile_bytes(tiles: Seq<u32>)
    ensures
        tile_bytes(tiles).len() == 4 * tiles.len(),
        forall|i: int| 0 <= i < tiles.len() ==> #[trigger] u32_at(tile_bytes(tiles), 4 * i) == tiles[i],
    decreases tiles.len(),
{
    if tiles.len() > 0 {
        let t = tiles.drop_last();
        lemma_tile_bytes(t);
        let x = tiles.last();
        assert(tiles == t.push(x));
        lemma_enc_list_push(t, x, |v: u32| le_u32(v));
        crate::bytes::lemma_le_u32(x);
        assert forall|i: int| 0 <= i < tiles.len() implies #[trigger] u32_at(tile_bytes(tiles), 4 * i) == tiles[i] by {
            if i < t.len() {
                crate::bytes::lemma_at_prefix(tile_bytes(t), le_u32(x), 4 * i, 4);
                assert(tiles[i] == t[i]);
            } else {
                crate::bytes::lemma_at_suffix(tile_bytes(t), le_u32(x), 0, 4);
            }
        }
    }
}

proof fn lemma_cel_head(c: CelModel, li: usize, tail: Seq<u8>)
    requires
        li < 65536,
    ensures
        ({
            let b = cel_head(c, li) + tail;
            &&& cel_head(c, li).len() == 16
            &&& u16_at(b, 0) == li
            &&& i16_at(b, 2) == cel_pos(c.kind).0
            &&& i16_at(b, 4) == cel_pos(c.kind).1
            &&& b[6] == c.opacity
            &&& u16_at(b, 7) == cel_type_code(c.kind)
            &&& i16_at(b, 9) == c.z_index
            &&& b.subrange(16, b.len() as int) == tail
        }),
{
    let a0 = le_u16(li as u16);
    let a1 = le_i16(cel_pos(c.kind).0);
    let a2 = le_i16(cel_pos(c.kind).1);
    let a3 = seq![c.opacity];
    let a4 = le_u16(cel_type_code(c.kind));
    let a5 = le_i16(c.z_index);
    let a6 = zeros(5);
    let b = cel_head(c, li) + tail;
    crate::bytes::lemma_read_u16_in(Seq::empty(), li as u16, a1 + a2 + a3 + a4 + a5 + a6 + tail);
    assert(b =~= Seq::empty() + a0 + (a1 + a2 + a3 + a4 + a5 + a6 + tail));
    crate::bytes::lemma_read_i16_in(a0, cel_pos(c.kind).0, a2 + a3 + a4 + a5 + a6 + tail);
    assert(b =~= a0 + a1 + (a2 + a3 + a4 + a5 + a6 + tail));
    crate::bytes::lemma_read_i16_in(a0 + a1, cel_pos(c.kind).1, a3 + a4 + a5 + a6 + tail);
    assert(b =~= (a0 + a1) + a2 + (a3 + a4 + a5 + a6 + tail));
    crate::bytes::lemma_read_u8_in(a0 + a1 + a2, c.opacity, a4 + a5 + a6 + tail);
    assert(b =~= (a0 + a1 + a2) + a3 + (a4 + a5 + a6 + tail));
    crate::bytes::lemma_read_u16_in(a0 + a1 + a2 + a3, cel_type_code(c.kind), a5 + a6 + tail);
    assert(b =~= (a0 + a1 + a2 + a3) + a4 + (a5 + a6 + tail));
    crate::bytes::lemma_read_i16_in(a0 + a1 + a2 + a3 + a4, c.z_index, a6 + tail);
    assert(b =~= (a0 + a1 + a2 + a3 + a4) + a5 + (a6 + tail));
    assert(b.subrange(16, b.len() as int) =~= tail);
}

/// A cel chunk read back gives the cel written (see `cel_read_back`) and
/// its layer index.
pub proof fn lemma_cel_roundtrip(c: CelModel, li: usize, mode: ColorMode)
    requires
        cel_codable(c, li, mode),
    ensures
        dec_cel(enc_cel(c, li), mode) == Ok::<Option<(usize, CelModel)>, ErrorModel>(Some((li, cel_read_back(c)))),
{
    match c.kind {
        CelKindModel::Raw { .. } => lemma_cel_roundtrip_raw(c, li, mode),
        CelKindModel::Linked { .. } => lemma_cel_roundtrip_linked(c, li, mode),
        CelKindModel::Compressed { .. } => lemma_cel_roundtrip_compressed(c, li, mode),
        CelKindModel::Tilemap { .. } => lemma_cel_roundtrip_tilemap(c, li, mode),
    }
}

#[verifier::spinoff_prover]
proof fn lemma_cel_roundtrip_raw(c: CelModel, li: usize, mode: ColorMode)
    requires
        cel_codable(c, li, mode),
        c.kind is Raw,
    ensures
        dec_cel(enc_cel(c, li), mode) == Ok::<Option<(usize, CelModel)>, ErrorModel>(Some((li, cel_read_back(c)))),
{
    let h = cel_head(c, li);
    let tail = cel_tail(c.kind);
    let b = enc_cel(c, li);
    lemma_cel_head(c, li, tail);
    if let CelKindModel::Raw { pixels, x, y } = c.kind {
        crate::bytes::lemma_read_u16_in(Seq::empty(), pixels.width, le_u16(pixels.height) + pixels.data);
        assert(tail =~= Seq::empty() + le_u16(pixels.width) + (le_u16(pixels.height) + pixels.data));
        crate::bytes::lemma_read_u16_in(le_u16(pixels.width), pixels.height, pixels.data);
        crate::bytes::lemma_at_suffix(h, tail, 0, 2);
        crate::bytes::lemma_at_suffix(h, tail, 2, 2);
        crate::bytes::lemma_at_suffix(h, tail, 4, pixels.data.len() as int);
        assert(b.subrange(20, b.len() as int) =~= pixels.data);
    }
}

#[verifier::spinoff_prover]
proof fn lemma_cel_roundtrip_linked(c: CelModel, li: usize, mode: ColorMode)
    requires
        cel_codable(c, li, mode),
        c.kind is Linked,
    ensures
        dec_cel(enc_cel(c, li), mode) == Ok::<Option<(usize, CelModel)>, ErrorModel>(Some((li, cel_read_back(c)))),
{
    let h = cel_head(c, li);
    let tail = cel_tail(c.kind);
    lemma_cel_head(c, li, tail);
    if let CelKindModel::Linked { source_frame, x, y } = c.kind {
        crate::bytes::lemma_le_u16(source_frame as u16);
        crate::bytes::lemma_at_suffix(h, tail, 0, 2);
    }
}

#[verifier::spinoff_prover]
proof fn lemma_cel_roundtrip_compressed(c: CelModel, li: usize, mode: ColorMode)
    requires
        cel_codable(c, li, mode),
        c.kind is Compressed,
    ensures
        dec_cel(enc_cel(c, li), mode) == Ok::<Option<(usize, CelModel)>, ErrorModel>(Some((li, cel_read_back(c)))),
{
    let h = cel_head(c, li);
    let tail = cel_tail(c.kind);
    let b = enc_cel(c, li);
    lemma_cel_head(c, li, tail);
    if let CelKindModel::Compressed { pixels, x, y, original_compressed } = c.kind {
        let st = stored_stream(original_compressed, pixels.data);
        crate::bytes::lemma_read_u16_in(Seq::empty(), pixels.width, le_u16(pixels.height) + st);
        assert(tail =~= Seq::empty() + le_u16(pixels.width) + (le_u16(pixels.height) + st));
        crate::bytes::lemma_read_u16_in(le_u16(pixels.width), pixels.height, st);
        crate::bytes::lemma_at_suffix(h, tail, 0, 2);
        crate::bytes::lemma_at_suffix(h, tail, 2, 2);
        assert(b.subrange(20, b.len() as int) =~= st);
    }
}

proof fn lemma_tilemap_tail(k: CelKindModel)
    requires
        k is Tilemap,
    ensures
        ({
            let t = cel_tail(k);
            let st = stored_stream(k->Tilemap_original_compressed, tile_bytes(k->Tilemap_tiles));
            &&& t.len() == 32 + st.len()
            &&& u16_at(t, 0) == k->Tilemap_width
            &&& u16_at(t, 2) == k->Tilemap_height
            &&& u16_at(t, 4) == k->bits_per_tile
            &&& u32_at(t, 6) == k->tile_id_bitmask
            &&& u32_at(t, 10) == k->x_flip_bitmask
            &&& u32_at(t, 14) == k->y_flip_bitmask
            &&& u32_at(t, 18) == k->d_flip_bitmask
            &&& t.subrange(32, t.len() as int) == st
        }),
{
    let tail = cel_tail(k);
    if let CelKindModel::Tilemap {
        width,
        height,
        bits_per_tile,
        tile_id_bitmask,
        x_flip_bitmask,
        y_flip_bitmask,
        d_flip_bitmask,
        tiles,
        x,
        y,
        original_compressed,
    } = k {
        let st = stored_stream(original_compressed, tile_bytes(tiles));
        let t0 = le_u16(width);
        let t1 = le_u16(height);
        let t2 = le_u16(bits_per_tile);
        let t3 = le_u32(tile_id_bitmask);
        let t4 = le_u32(x_flip_bitmask);
        let t5 = le_u32(y_flip_bitmask);
        let t6 = le_u32(d_flip_bitmask);
        let t7 = zeros(10);
        crate::bytes::lemma_read_u16_in(Seq::empty(), width, t1 + t2 + t3 + t4 + t5 + t6 + t7 + st);
        assert(tail =~= Seq::empty() + t0 + (t1 + t2 + t3 + t4 + t5 + t6 + t7 + st));
        crate::bytes::lemma_read_u16_in(t0, height, t2 + t3 + t4 + t5 + t6 + t7 + st);
        assert(tail =~= t0 + t1 + (t2 + t3 + t4 + t5 + t6 + t7 + st));
        crate::bytes::lemma_read_u16_in(t0 + t1, bits_per_tile, t3 + t4 + t5 + t6 + t7 + st);
        assert(tail =~= (t0 + t1) + t2 + (t3 + t4 + t5 + t6 + t7 + st));
        crate::bytes::lemma_read_u32_in(t0 + t1 + t2, tile_id_bitmask, t4 + t5 + t6 + t7 + st);
        assert(tail =~= (t0 + t1 + t2) + t3 + (t4 + t5 + t6 + t7 + st));
        crate::bytes::lemma_read_u32_in(t0 + t1 + t2 + t3, x_flip_bitmask, t5 + t6 + t7 + st);
        assert(tail =~= (t0 + t1 + t2 + t3) + t4 + (t5 + t6 + t7 + st));
        crate::bytes::lemma_read_u32_in(t0 + t1 + t2 + t3 + t4, y_flip_bitmask, t6 + t7 + st);
        assert(tail =~= (t0 + t1 + t2 + t3 + t4) + t5 + (t6 + t7 + st));
        crate::bytes::lemma_read_u32_in(t0 + t1 + t2 + t3 + t4 + t5, d_flip_bitmask, t7 + st);
        assert(tail =~= (t0 + t1 + t2 + t3 + t4 + t5) + t6 + (t7 + st));
        assert(tail.subrange(32, tail.len() as int) =~= st);
    }
}

#[verifier::spinoff_prover]
#[verifier::rlimit(40)]
proof fn lemma_cel_roundtrip_tilemap(c: CelModel, li: usize, mode: ColorMode)
    requires
        cel_codable(c, li, mode),
        c.kind is Tilemap,
    ensures
        dec_cel(enc_cel(c, li), mode) == Ok::<Option<(usize, CelModel)>, ErrorModel>(Some((li, cel_read_back(c)))),
{
    let h = cel_head(c, li);
    let tail = cel_tail(c.kind);
    let b = enc_cel(c, li);
    lemma_cel_head(c, li, tail);
    lemma_tilemap_tail(c.kind);
    let k = c.kind;
    let st = stored_stream(k->Tilemap_original_compressed, tile_bytes(k->Tilemap_tiles));
    crate::bytes::lemma_at_suffix(h, tail, 0, 2);
    crate::bytes::lemma_at_suffix(h, tail, 2, 2);
    crate::bytes::lemma_at_suffix(h, tail, 4, 2);
    crate::bytes::lemma_at_suffix(h, tail, 6, 4);
    crate::bytes::lemma_at_suffix(h, tail, 10, 4);
    crate::bytes::lemma_at_suffix(h, tail, 14, 4);
    crate::bytes::lemma_at_suffix(h, tail, 18, 4);
    crate::bytes::lemma_at_suffix(h, tail, 32, st.len() as int);
    assert(b.subrange(48, b.len() as int) =~= st);
    lemma_tile_bytes(k->Tilemap_tiles);
    assert(tiles_of(tile_bytes(k->Tilemap_tiles), k->Tilemap_width * k->Tilemap_height) =~= k->Tilemap_tiles);
}


/// Where a cel chunk keeps its head: the layer index at byte 0, the
/// position at bytes 2 and 4, the opacity at byte 6, the cel type (raw 0,
/// linked 1, compressed 2, tilemap 3) at byte 7 and the z-index at byte 9.
/// Reading takes each from the same place, and gives a cel of the type
/// its type word names.
pub proof fn lemma_cel_chunk_head(c: CelModel, li: usize, b: Seq<u8>, mode: ColorMode)
    ensures
        ({
            let h = enc_cel(c, li);
            &&& h.len() >= 16
            &&& u16_at(h, 0) == li as u16
            &&& h[6] == c.opacity
            &&& u16_at(h, 7) == match c.kind {
                CelKindModel::Raw { .. } => 0u16,
                CelKindModel::Linked { .. } => 1u16,
                CelKindModel::Compressed { .. } => 2u16,
                CelKindModel::Tilemap { .. } => 3u16,
            }
        }),
        dec_cel(b, mode) matches Ok(Some((l2, x))) ==> {
            &&& l2 == u16_at(b, 0) as usize
            &&& x.opacity == b[6]
            &&& x.z_index == i16_at(b, 9)
            &&& (x.kind is Raw) == (u16_at(b, 7) == 0)
            &&& (x.kind is Linked) == (u16_at(b, 7) == 1)
            &&& (x.kind is Compressed) == (u16_at(b, 7) == 2)
            &&& (x.kind is Tilemap) == (u16_at(b, 7) == 3)
        },
{
    let h = enc_cel(c, li);
    let lw = le_u16(li as u16);
    let tw = le_u16(cel_type_code(c.kind));
    crate::bytes::lemma_le_u16(li as u16);
    crate::bytes::lemma_le_u16(cel_type_code(c.kind));
    assert(h[0] == lw[0] && h[1] == lw[1]);
    assert(h[7] == tw[0] && h[8] == tw[1]);
    assert(u16_at(h, 0) == u16_at(lw, 0));
    assert(u16_at(h, 7) == u16_at(tw, 0));
}

} // verus!
