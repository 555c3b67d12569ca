//! The tileset chunk (0x2023).

use vstd::prelude::*;
use crate::bytes::{
    avail, i16_at, le_i16, le_u16, le_u32, push_bytes, write_short, write_word, write_dword, write_zeros,
    read_bytes, read_short, read_word, read_dword, skip, u16_at, u32_at, zeros,
};
use crate::cel_chunk::stored_stream;
use crate::error::{AsepriteError, ErrorModel};
use crate::model::{opt_bytes_view, TilesetDataModel, TilesetModel, UserDataModel};
use crate::text::{enc_str, write_string, read_string, str_at, str_avail};
use crate::types::{Tileset, TilesetData, TilesetFlags, UserData};
use crate::zlib::{deflate, inflate, zlib_inflate};

verus! {

/// The fixed fields and the name of a tileset chunk body.
pub open spec fn tileset_head(t: TilesetModel) -> Seq<u8> {
    le_u32(t.id) + le_u32(t.flags.0) + le_u32(t.tile_count) + le_u16(t.tile_width) + le_u16(
        t.tile_height,
    ) + le_i16(t.base_index) + zeros(14) + enc_str(t.name)
}

/// The external-file reference, written when the flags ask for one and the
/// data holds one.
pub open spec fn tileset_ext_part(t: TilesetModel) -> Seq<u8> {
    match t.data {
        TilesetDataModel::External { external_file_id, tileset_id_in_external } => if t.flags.spec_has_external_link() {
            le_u32(external_file_id) + le_u32(tileset_id_in_external)
        } else {
            Seq::empty()
        },
        _ => Seq::empty(),
    }
}

/// The embedded tile stream with its length, written when the flags ask for
/// one and the data holds one.
pub open spec fn tileset_emb_part(t: TilesetModel) -> Seq<u8> {
    match t.data {
        TilesetDataModel::Embedded { pixels, original_compressed } => if t.flags.spec_has_embedded_tiles() {
            le_u32(stored_stream(original_compressed, pixels).len() as u32) + stored_stream(
                original_compressed,
                pixels,
            )
        } else {
            Seq::empty()
        },
        _ => Seq::empty(),
    }
}

/// The body of a tileset chunk.
pub open spec fn enc_tileset(t: TilesetModel) -> Seq<u8> {
    tileset_head(t) + tileset_ext_part(t) + tileset_emb_part(t)
}

/// Whether the stream embedded tiles are stored with decompresses to them.
pub open spec fn tileset_stream_reads_back(t: TilesetModel) -> bool {
    match t.data {
        TilesetDataModel::Embedded { pixels, original_compressed } => zlib_inflate(
            stored_stream(original_compressed, pixels),
        ) == Some(pixels),
        _ => true,
    }
}

/// Whether writing the tileset compresses its tiles.
pub open spec fn tileset_needs_deflate(t: TilesetModel) -> bool {
    t.flags.spec_has_embedded_tiles() && (t.data matches TilesetDataModel::Embedded {
        original_compressed,
        ..
    } && original_compressed is None)
}

/// `n` tiles without user data.
pub open spec fn no_tile_user_data(n: nat) -> Seq<Option<UserDataModel>> {
    Seq::new(n, |i: int| None::<UserDataModel>)
}

/// The embedded part read at `p`: the data, or the error.
pub open spec fn dec_tileset_emb(b: Seq<u8>, p: int, prior: TilesetDataModel) -> Result<TilesetDataModel, ErrorModel> {
    if !avail(b, p, 4) || !avail(b, p + 4, u32_at(b, p) as int) {
        Err(ErrorModel::Io)
    } else {
        let stream = b.subrange(p + 4, p + 4 + u32_at(b, p));
        match zlib_inflate(stream) {
            None => Err(ErrorModel::Io),
            Some(d) => Ok(TilesetDataModel::Embedded { pixels: d, original_compressed: Some(stream) }),
        }
    }
}

/// The tileset that a tileset chunk body describes.
pub open spec fn dec_tileset(b: Seq<u8>) -> Result<TilesetModel, ErrorModel> {
    if !avail(b, 0, 32) || !str_avail(b, 32) {
        Err(ErrorModel::Io)
    } else {
        let flags = TilesetFlags(u32_at(b, 4));
        let p = 34 + u16_at(b, 32);
        let ext_ok = !flags.spec_has_external_link() || avail(b, p, 8);
        let d1 = if flags.spec_has_external_link() {
            TilesetDataModel::External { external_file_id: u32_at(b, p), tileset_id_in_external: u32_at(b, p + 4) }
        } else {
            TilesetDataModel::Empty
        };
        let p2 = if flags.spec_has_external_link() { p + 8 } else { p };
        let d2 = if flags.spec_has_embedded_tiles() { dec_tileset_emb(b, p2, d1) } else { Ok(d1) };
        if !ext_ok {
            Err(ErrorModel::Io)
        } else {
            match d2 {
                Err(e) => Err(e),
                Ok(data) => Ok(
                    TilesetModel {
                        id: u32_at(b, 0),
                        flags,
                        name: str_at(b, 32),
                        tile_count: u32_at(b, 8),
                        tile_width: u16_at(b, 12),
                        tile_height: u16_at(b, 14),
                        base_index: i16_at(b, 16),
                        data,
                        user_data: None,
                        tile_user_data: no_tile_user_data(u32_at(b, 8) as nat),
                    },
                ),
            }
        }
    }
}

pub fn encode_tileset_chunk(tileset: &Tileset) -> (r: Result<Vec<u8>, AsepriteError>)
    ensures
        match r {
            Ok(buf) => buf@ == enc_tileset(tileset@),
            Err(_) => false,
        },
        tileset_needs_deflate(tileset@) ==> tileset_stream_reads_back(tileset@),
{
    let mut buf: Vec<u8> = Vec::new();
    write_dword(&mut buf, tileset.id);
    write_dword(&mut buf, tileset.flags.0);
    write_dword(&mut buf, tileset.tile_count);
    write_word(&mut buf, tileset.tile_width);
    write_word(&mut buf, tileset.tile_height);
    write_short(&mut buf, tileset.base_index);
    write_zeros(&mut buf, 14);
    write_string(&mut buf, tileset.name.as_str());
    assert(buf@ =~= tileset_head(tileset@));
    let ghost head = buf@;
    if tileset.flags.has_external_link() {
        if let TilesetData::External { external_file_id, tileset_id_in_external } = &tileset.data {
            write_dword(&mut buf, *external_file_id);
            write_dword(&mut buf, *tileset_id_in_external);
        }
    }
    assert(buf@ =~= head + tileset_ext_part(tileset@));
    let ghost head2 = buf@;
    if tileset.flags.has_embedded_tiles() {
        if let TilesetData::Embedded { pixels, original_compressed } = &tileset.data {
            match original_compressed {
                Some(raw) => {
                    write_dword(&mut buf, raw.len() as u32);
                    push_bytes(&mut buf, raw.as_slice());
                },
                None => {
                    let compressed = match deflate(pixels.as_slice()) {
                        Ok(c) => c,
                        Err(e) => {
                            return Err(AsepriteError::Io(e));
                        },
                    };
                    write_dword(&mut buf, compressed.len() as u32);
                    push_bytes(&mut buf, compressed.as_slice());
                },
            }
        }
    }
    assert(buf@ =~= head2 + tileset_emb_part(tileset@));
    Ok(buf)
}

fn no_tile_user_data_vec(n: u32) -> (v: Vec<Option<UserData>>)
    ensures
        v@.map_values(|u: Option<UserData>| crate::model::opt_ud_view(u)) == no_tile_user_data(n as nat),
{
    let mut v: Vec<Option<UserData>> = Vec::new();
    let mut i: u32 = 0;
    while i < n
        invariant
            i <= n,
            v@.len() == i,
            forall|j: int| 0 <= j < i ==> v@[j] is None,
        decreases n - i,
    {
        v.push(None);
        i = i + 1;
    }
    assert(v@.map_values(|u: Option<UserData>| crate::model::opt_ud_view(u)) =~= no_tile_user_data(n as nat));
    v
}

pub fn read_tileset_chunk(b: &[u8]) -> (r: Result<Tileset, AsepriteError>)
    ensures
        match r {
            Ok(t) => dec_tileset(b@) == Ok::<TilesetModel, ErrorModel>(t@),
            Err(e) => dec_tileset(b@) == Err::<TilesetModel, ErrorModel>(e@),
        },
{
    let mut pos: usize = 0;
    let id = read_dword(b, &mut pos)?;
    let flags_raw = read_dword(b, &mut pos)?;
    let flags = TilesetFlags(flags_raw);
    let tile_count = read_dword(b, &mut pos)?;
    let tile_width = read_word(b, &mut pos)?;
    let tile_height = read_word(b, &mut pos)?;
    let base_index = read_short(b, &mut pos)?;
    skip(b, &mut pos, 14)?;
    let name = read_string(b, &mut pos)?;
    let mut data = TilesetData::Empty;
    if flags.has_external_link() {
        let external_file_id = read_dword(b, &mut pos)?;
        let tileset_id_in_external = read_dword(b, &mut pos)?;
        data = TilesetData::External { external_file_id, tileset_id_in_external };
    }
    if flags.has_embedded_tiles() {
        let compressed_len = read_dword(b, &mut pos)?;
        let compressed = read_bytes(b, &mut pos, compressed_len as usize)?;
        let decompressed = match inflate(compressed.as_slice()) {
            Ok(d) => d,
            Err(e) => {
                return Err(AsepriteError::Io(e));
            },
        };
        data = TilesetData::Embedded { pixels: decompressed, original_compressed: Some(compressed) };
    }
    let tile_user_data = no_tile_user_data_vec(tile_count);
    Ok(
        Tileset {
            id,
            flags,
            name,
            tile_count,
            tile_width,
            tile_height,
            base_index,
            data,
            user_data: None,
            tile_user_data,
        },
    )
}


/// Whether a tileset chunk written for `t` reads back: its name fits, and
/// its flags announce exactly the data it holds, an embedded stream
/// fitting 32 bits and decompressing to the tiles.
pub open spec fn tileset_codable(t: TilesetModel) -> bool {
    &&& crate::text::str_fits(t.name)
    &&& match t.data {
        TilesetDataModel::External { .. } => t.flags.spec_has_external_link() && !t.flags.spec_has_embedded_tiles(),
        TilesetDataModel::Embedded { pixels, original_compressed } => !t.flags.spec_has_external_link()
            && t.flags.spec_has_embedded_tiles() && stored_stream(original_compressed, pixels).len() <= u32::MAX
            && zlib_inflate(stored_stream(original_compressed, pixels)) == Some(pixels),
        TilesetDataModel::Empty => !t.flags.spec_has_external_link() && !t.flags.spec_has_embedded_tiles(),
    }
}

/// The tileset a tileset chunk reads back as: without user data, with one
/// empty slot per tile, and with the stream it was stored with kept.
pub open spec fn tileset_read_back(t: TilesetModel) -> TilesetModel {
    TilesetModel {
        data: match t.data {
            TilesetDataModel::Embedded { pixels, original_compressed } => TilesetDataModel::Embedded {
                pixels,
                original_compressed: Some(stored_stream(original_compressed, pixels)),
            },
            d => d,
        },
        user_data: None,
        tile_user_data: no_tile_user_data(t.tile_count as nat),
        ..t
    }
}

proof fn lemma_tileset_head(t: TilesetModel, rest: Seq<u8>)
    requires
        crate::text::str_fits(t.name),
    ensures
        ({
            let b = tileset_head(t) + rest;
            &&& avail(b, 0, 32) && str_avail(b, 32)
            &&& u32_at(b, 0) == t.id
            &&& u32_at(b, 4) == t.flags.0
            &&& u32_at(b, 8) == t.tile_count
            &&& u16_at(b, 12) == t.tile_width
            &&& u16_at(b, 14) == t.tile_height
            &&& i16_at(b, 16) == t.base_index
            &&& str_at(b, 32) == t.name
            &&& 34 + u16_at(b, 32) == tileset_head(t).len()
            &&& b.subrange(tileset_head(t).len() as int, b.len() as int) == rest
        }),
{
    let a0 = le_u32(t.id);
    let a1 = le_u32(t.flags.0);
    let a2 = le_u32(t.tile_count);
    let a3 = le_u16(t.tile_width);
    let a4 = le_u16(t.tile_height);
    let a5 = le_i16(t.base_index);
    let a6 = zeros(14);
    let a7 = enc_str(t.name);
    let b = tileset_head(t) + rest;
    crate::bytes::lemma_read_u32_in(Seq::empty(), t.id, a1 + a2 + a3 + a4 + a5 + a6 + a7 + rest);
    assert(b =~= Seq::empty() + a0 + (a1 + a2 + a3 + a4 + a5 + a6 + a7 + rest));
    crate::bytes::lemma_read_u32_in(a0, t.flags.0, a2 + a3 + a4 + a5 + a6 + a7 + rest);
    assert(b =~= a0 + a1 + (a2 + a3 + a4 + a5 + a6 + a7 + rest));
    crate::bytes::lemma_read_u32_in(a0 + a1, t.tile_count, a3 + a4 + a5 + a6 + a7 + rest);
    assert(b =~= (a0 + a1) + a2 + (a3 + a4 + a5 + a6 + a7 + rest));
    crate::bytes::lemma_read_u16_in(a0 + a1 + a2, t.tile_width, a4 + a5 + a6 + a7 + rest);
    assert(b =~= (a0 + a1 + a2) + a3 + (a4 + a5 + a6 + a7 + rest));
    crate::bytes::lemma_read_u16_in(a0 + a1 + a2 + a3, t.tile_height, a5 + a6 + a7 + rest);
    assert(b =~= (a0 + a1 + a2 + a3) + a4 + (a5 + a6 + a7 + rest));
    crate::bytes::lemma_read_i16_in(a0 + a1 + a2 + a3 + a4, t.base_index, a6 + a7 + rest);
    assert(b =~= (a0 + a1 + a2 + a3 + a4) + a5 + (a6 + a7 + rest));
    crate::text::lemma_read_str_in(a0 + a1 + a2 + a3 + a4 + a5 + a6, t.name, rest);
    assert(b =~= (a0 + a1 + a2 + a3 + a4 + a5 + a6) + a7 + rest);
    assert(b.subrange(tileset_head(t).len() as int, b.len() as int) =~= rest);
}

/// A tileset chunk read back gives the tileset written (see
/// `tileset_read_back`).
#[verifier::spinoff_prover]
#[verifier::rlimit(40)]
pub proof fn lemma_tileset_roundtrip(t: TilesetModel)
    requires
        tileset_codable(t),
    ensures
        dec_tileset(enc_tileset(t)) == Ok::<TilesetModel, ErrorModel>(tileset_read_back(t)),
{
    let h = tileset_head(t);
    let rest = tileset_ext_part(t) + tileset_emb_part(t);
    let b = enc_tileset(t);
    lemma_tileset_head(t, rest);
    assert(b =~= h + rest);
    let p = h.len() as int;
    match t.data {
        TilesetDataModel::External { external_file_id, tileset_id_in_external } => {
            let e = le_u32(external_file_id) + le_u32(tileset_id_in_external);
            assert(rest =~= e);
            crate::bytes::lemma_read_u32_in(Seq::empty(), external_file_id, le_u32(tileset_id_in_external));
            crate::bytes::lemma_read_u32_in(le_u32(external_file_id), tileset_id_in_external, Seq::empty());
            assert(e =~= Seq::empty() + le_u32(external_file_id) + le_u32(tileset_id_in_external));
            assert(e =~= le_u32(external_file_id) + le_u32(tileset_id_in_external) + Seq::<u8>::empty());
            crate::bytes::lemma_at_suffix(h, rest, 0, 4);
            crate::bytes::lemma_at_suffix(h, rest, 4, 4);
        },
        TilesetDataModel::Embedded { pixels, original_compressed } => {
            let st = stored_stream(original_compressed, pixels);
            assert(rest =~= le_u32(st.len() as u32) + st);
            crate::bytes::lemma_read_u32_in(Seq::empty(), st.len() as u32, st);
            assert(rest =~= Seq::empty() + le_u32(st.len() as u32) + st);
            crate::bytes::lemma_at_suffix(h, rest, 0, 4);
            crate::bytes::lemma_at_suffix(h, rest, 4, st.len() as int);
            assert(rest.subrange(4, 4 + st.len() as int) =~= st);
        },
        TilesetDataModel::Empty => {},
    }
    assert(dec_tileset(b) == Ok::<TilesetModel, ErrorModel>(tileset_read_back(t)));
}

} // verus!
