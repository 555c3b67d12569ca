//! What reading gives back of what writing produced: the chunk framing
//! of a frame, the frames after the header, and the file as a whole.

use vstd::prelude::*;
use super::{depth, empty_file, filler_color, parents_ok, FileModel};
use crate::cel_chunk::{cel_codable, cel_read_back, dec_cel, enc_cel, lemma_cel_roundtrip};
use crate::cels::{
    cel_insert, cel_lookup, cel_modify, cels_sorted, lemma_insert_props, lemma_lookup_take_next, lemma_modify_lookup,
    lemma_modify_props,
};
use crate::codec::lemma_enc_list_congr;
use crate::layer_chunk::{enc_layer, lemma_layer_roundtrip};
use crate::list_chunks::{
    enc_palette, enc_slice, enc_tags, lemma_palette_roundtrip, lemma_slice_roundtrip, lemma_tags_roundtrip,
    tag_enc_fn, dec_slice, PaletteRecord,
};
use crate::misc_chunks::{
    enc_cel_extra, enc_color_profile, enc_ext_files, lemma_cel_extra_roundtrip, lemma_color_profile_roundtrip,
    lemma_ext_files_roundtrip,
};
use crate::tileset_chunk::{
    enc_tileset, lemma_tileset_roundtrip, no_tile_user_data, tileset_codable, tileset_read_back,
};
use crate::model::{
    CelKindModel, CelModel, ColorModel, ColorProfileModel, ExternalFileModel, LayerModel, SliceModel, TagModel, TilesetModel,
    UserDataModel, empty_ud,
};
use crate::props::enc_pmaps;
use crate::text::str_fits;
use crate::user_data_chunk::{enc_ud, lemma_ud_roundtrip, ud_codable, ud_read_back};
use super::reader::{
    apply_chunk, apply_palette_record, apply_user_data, chunk_step, palette_apply, palette_grow, dec_frame_head, dec_header, find_parent_below, ordered,
    parse_file, ratio_part, read_chunks, read_frames, LastEntity, ReadState,
};
use super::writer::{
    concat, enc_file, enc_frame, enc_header, ext_part, flat_idx, frame_chunks, frames_bytes, layer_group,
    any_tag_ud, lemma_depth_below, non_empty_ud, opt_ud_chunks, palette_part, profile_part, slice_group, tags_part,
    tile_ud, tileset_group, has_tile_ud, ud_chunk, ud_or_empty, wrap, cel_group, cel_item,
    first_frame_chunks, has_order, cel_part, unknown_part,
};
use crate::bytes::{
    le_i16, le_u16, le_u32, lemma_at_prefix, lemma_at_suffix, trunc32, u16_at, u32_at, zeros,
};
use crate::error::ErrorModel;
use crate::types::{CelExtra, ChunkOrderEntry, ColorMode, Frame, LayerKind};

verus! {

/// A chunk as the writer frames it: at least its 6-byte head, and its
/// size word giving its length.
pub open spec fn framed(c: Seq<u8>) -> bool {
    6 <= c.len() <= u32::MAX && u32_at(c, 0) == c.len()
}

/// The type word of a framed chunk.
pub open spec fn chunk_type_of(c: Seq<u8>) -> u16 {
    u16_at(c, 4)
}

/// The body of a framed chunk.
pub open spec fn chunk_body(c: Seq<u8>) -> Seq<u8> {
    c.subrange(6, c.len() as int)
}

/// The parse state after the chunks `cs` of frame `fi`, applied in turn.
pub open spec fn apply_chunks(s: ReadState, fi: usize, cs: Seq<Seq<u8>>) -> Result<ReadState, ErrorModel>
    decreases cs.len(),
{
    if cs.len() == 0 {
        Ok(s)
    } else {
        match apply_chunks(s, fi, cs.drop_last()) {
            Err(e) => Err(e),
            Ok(s2) => apply_chunk(s2, fi, chunk_type_of(cs.last()), chunk_body(cs.last())),
        }
    }
}

/// A chunk written with a body that fits the size word is framed, with
/// the type and body written.
#[verifier::spinoff_prover]
pub proof fn lemma_wrap(t: u16, d: Seq<u8>)
    requires
        d.len() + 6 <= u32::MAX,
    ensures
        framed(wrap(t, d)),
        chunk_type_of(wrap(t, d)) == t,
        chunk_body(wrap(t, d)) == d,
        wrap(t, d).len() == d.len() + 6,
{
    let n = (d.len() + 6) as u32;
    assert(trunc32(d.len() + 6int) == n);
    crate::bytes::lemma_read_u32_in(Seq::empty(), n, le_u16(t) + d);
    assert(wrap(t, d) =~= Seq::<u8>::empty() + le_u32(n) + (le_u16(t) + d));
    crate::bytes::lemma_read_u16_in(le_u32(n), t, d);
    assert(wrap(t, d) =~= le_u32(n) + le_u16(t) + d);
    assert(chunk_body(wrap(t, d)) =~= d);
}

/// One framed chunk read where it stands is that chunk applied.
#[verifier::spinoff_prover]
proof fn lemma_chunk_step_framed(a: Seq<u8>, c: Seq<u8>, z: Seq<u8>, s: ReadState, fi: usize)
    requires
        framed(c),
    ensures
        chunk_step(a + c + z, a.len() as int, s, fi) == match apply_chunk(s, fi, chunk_type_of(c), chunk_body(c)) {
            Err(e) => Err(e),
            Ok(s2) => Ok((s2, (a.len() + c.len()) as int)),
        },
{
    let b = a + c + z;
    let p = a.len() as int;
    assert(b =~= a + (c + z));
    lemma_at_prefix(c, z, 0, 6);
    lemma_at_suffix(a, c + z, 0, 6);
    lemma_at_prefix(c, z, 4, 2);
    lemma_at_suffix(a, c + z, 4, 2);
    lemma_at_prefix(c, z, 6, c.len() - 6);
    lemma_at_suffix(a, c + z, 6, c.len() - 6);
    assert(u32_at(b, p) == u32_at(c, 0));
    assert(u16_at(b, p + 4) == u16_at(c, 4));
    assert(b.subrange(p + 6, p + u32_at(b, p)) == chunk_body(c));
}

/// Framed chunks written one after the other read back as those chunks
/// applied in turn, ending right after the last of them.
#[verifier::spinoff_prover]
pub proof fn lemma_read_chunks_framed(a: Seq<u8>, cs: Seq<Seq<u8>>, z: Seq<u8>, s: ReadState, fi: usize)
    requires
        forall|i: int| 0 <= i < cs.len() ==> framed(#[trigger] cs[i]),
    ensures
        read_chunks(a + concat(cs) + z, a.len() as int, s, fi, cs.len()) == match apply_chunks(s, fi, cs) {
            Err(e) => Err(e),
            Ok(s2) => Ok((s2, (a.len() + concat(cs).len()) as int)),
        },
    decreases cs.len(),
{
    if cs.len() > 0 {
        let init = cs.drop_last();
        let c = cs.last();
        assert forall|i: int| 0 <= i < init.len() implies framed(#[trigger] init[i]) by {
            assert(init[i] == cs[i]);
        }
        assert(framed(cs[cs.len() - 1]));
        assert(a + concat(cs) + z =~= a + concat(init) + (c + z));
        lemma_read_chunks_framed(a, init, c + z, s, fi);
        match apply_chunks(s, fi, init) {
            Err(e) => {},
            Ok(s2) => {
                assert(a + concat(cs) + z =~= (a + concat(init)) + c + z);
                lemma_chunk_step_framed(a + concat(init), c, z, s2, fi);
            },
        }
    }
}

/// Whether every frame's chunks are framed, and few enough to count in 32
/// bits.
pub open spec fn frames_framed(m: FileModel) -> bool {
    forall|fi: int|
        0 <= fi < m.frames.len() ==> {
            &&& #[trigger] frame_chunks(m, fi as usize).len() <= u32::MAX
            &&& forall|i: int|
                0 <= i < frame_chunks(m, fi as usize).len() ==> framed(#[trigger] frame_chunks(m, fi as usize)[i])
        }
}

/// The parse state after the first `k` frames of `m`, each frame added and
/// its chunks applied in turn.
pub open spec fn apply_frames(m: FileModel, s0: ReadState, k: nat) -> Result<ReadState, ErrorModel>
    decreases k,
{
    if k == 0 {
        Ok(s0)
    } else {
        match apply_frames(m, s0, (k - 1) as nat) {
            Err(e) => Err(e),
            Ok(s) => apply_chunks(
                ReadState { file: FileModel { frames: s.file.frames.push(m.frames[k - 1]), ..s.file }, last: s.last },
                (k - 1) as usize,
                frame_chunks(m, (k - 1) as usize),
            ),
        }
    }
}

/// The 16-byte head of a frame written with `n` chunks reads back as its
/// duration and `n`.
#[verifier::spinoff_prover]
#[verifier::rlimit(40)]
proof fn lemma_frame_head(a: Seq<u8>, dur: u16, cs: Seq<Seq<u8>>, z: Seq<u8>)
    requires
        cs.len() <= u32::MAX,
    ensures
        dec_frame_head(a + enc_frame(dur, cs) + z, a.len() as int) == Ok::<(u16, nat), ErrorModel>((dur, cs.len())),
        enc_frame(dur, cs).len() == 16 + concat(cs).len(),
{
    let d = concat(cs);
    let n = cs.len();
    let w0 = le_u32(trunc32(16int + d.len()));
    let w1 = le_u16(0xF1FA);
    let w2 = le_u16(if n > 0xFFFE { 0xFFFF } else { n as u16 });
    let w3 = le_u16(dur);
    let w4 = zeros(2);
    let w5 = le_u32(trunc32(n as int));
    let b = a + enc_frame(dur, cs) + z;
    assert(trunc32(n as int) == n);
    crate::bytes::lemma_read_u16_in(a + w0, 0xF1FA, w2 + w3 + w4 + w5 + d + z);
    assert(b =~= (a + w0) + w1 + (w2 + w3 + w4 + w5 + d + z));
    crate::bytes::lemma_read_u16_in(a + w0 + w1, if n > 0xFFFE { 0xFFFF } else { n as u16 }, w3 + w4 + w5 + d + z);
    assert(b =~= (a + w0 + w1) + w2 + (w3 + w4 + w5 + d + z));
    crate::bytes::lemma_read_u16_in(a + w0 + w1 + w2, dur, w4 + w5 + d + z);
    assert(b =~= (a + w0 + w1 + w2) + w3 + (w4 + w5 + d + z));
    crate::bytes::lemma_read_u32_in(a + w0 + w1 + w2 + w3 + w4, trunc32(n as int), d + z);
    assert(b =~= (a + w0 + w1 + w2 + w3 + w4) + w5 + (d + z));
}

/// The frames written one after the other read back as each frame added
/// and its chunks applied in turn, ending right after the last of them.
#[verifier::spinoff_prover]
#[verifier::rlimit(40)]
pub proof fn lemma_read_frames(m: FileModel, h: Seq<u8>, z: Seq<u8>, s0: ReadState, k: nat)
    requires
        h.len() == 128,
        k <= m.frames.len(),
        frames_framed(m),
    ensures
        read_frames(h + frames_bytes(m, k) + z, s0, k) == match apply_frames(m, s0, k) {
            Err(e) => Err(e),
            Ok(s) => Ok((s, 128 + frames_bytes(m, k).len() as int)),
        },
    decreases k,
{
    if k > 0 {
        let fi = (k - 1) as usize;
        let cs = frame_chunks(m, fi);
        let dur = m.frames[k - 1].duration_ms;
        let fr = enc_frame(dur, cs);
        let prev = frames_bytes(m, (k - 1) as nat);
        let b = h + frames_bytes(m, k) + z;
        assert(b =~= h + prev + (fr + z));
        lemma_read_frames(m, h, fr + z, s0, (k - 1) as nat);
        match apply_frames(m, s0, (k - 1) as nat) {
            Err(e) => {},
            Ok(s) => {
                assert(cs.len() <= u32::MAX && forall|i: int| 0 <= i < cs.len() ==> framed(#[trigger] cs[i])) by {
                    assert(0 <= fi < m.frames.len());
                }
                lemma_frame_head(h + prev, dur, cs, z);
                assert(b =~= (h + prev) + fr + z);
                let head = fr.subrange(0, 16);
                assert(fr =~= head + concat(cs));
                assert(b =~= (h + prev + head) + concat(cs) + z);
                let s1 = ReadState {
                    file: FileModel { frames: s.file.frames.push(Frame { duration_ms: dur }), ..s.file },
                    last: s.last,
                };
                assert(Frame { duration_ms: dur } == m.frames[k - 1]);
                lemma_read_chunks_framed(h + prev + head, cs, z, s1, fi);
            },
        }
    }
}

/// The file that the header written for `m` describes, before any frame.
pub open spec fn header_of(m: FileModel) -> FileModel {
    FileModel {
        flags: m.flags,
        deprecated_speed: m.deprecated_speed,
        transparent_index: m.transparent_index,
        num_colors: m.num_colors,
        pixel_ratio: (ratio_part(m.pixel_ratio.0), ratio_part(m.pixel_ratio.1)),
        grid: m.grid,
        ..empty_file(m.width, m.height, m.color_mode)
    }
}

/// The header written for `m` reads back as `header_of(m)`, with the
/// frame count written.
#[verifier::spinoff_prover]
#[verifier::rlimit(60)]
proof fn lemma_header(m: FileModel, total: u32, z: Seq<u8>)
    ensures
        dec_header(enc_header(m, total) + z) == Ok::<FileModel, ErrorModel>(header_of(m)),
        u16_at(enc_header(m, total) + z, 6) == m.frames.len() as u16,
        enc_header(m, total).len() == 128,
{
    let w0 = le_u32(total);
    let w1 = le_u16(0xA5E0);
    let w2 = le_u16(m.frames.len() as u16);
    let w3 = le_u16(m.width);
    let w4 = le_u16(m.height);
    let w5 = le_u16(m.color_mode.spec_to_depth());
    let w6 = le_u32(m.flags);
    let w7 = le_u16(m.deprecated_speed);
    let w8 = le_u32(0);
    let w9 = le_u32(0);
    let w10 = seq![m.transparent_index];
    let w11 = zeros(3);
    let w12 = le_u16(m.num_colors);
    let w13 = seq![m.pixel_ratio.0, m.pixel_ratio.1];
    let w14 = le_i16(m.grid.x);
    let w15 = le_i16(m.grid.y);
    let w16 = le_u16(m.grid.width);
    let w17 = le_u16(m.grid.height);
    let w18 = zeros(84);
    let hz = enc_header(m, total) + z;
    assert(hz[4] == w1[0] && hz[5] == w1[1]);
    crate::bytes::lemma_le_u16(0xA5E0);
    assert(u16_at(hz, 4) == 0xA5E0);
    assert(hz[6] == w2[0] && hz[7] == w2[1]);
    crate::bytes::lemma_le_u16(m.frames.len() as u16);
    assert(u16_at(hz, 6) == m.frames.len() as u16);
    assert(hz[8] == w3[0] && hz[9] == w3[1]);
    crate::bytes::lemma_le_u16(m.width);
    assert(u16_at(hz, 8) == m.width);
    assert(hz[10] == w4[0] && hz[11] == w4[1]);
    crate::bytes::lemma_le_u16(m.height);
    assert(u16_at(hz, 10) == m.height);
    assert(hz[12] == w5[0] && hz[13] == w5[1]);
    crate::bytes::lemma_le_u16(m.color_mode.spec_to_depth());
    assert(u16_at(hz, 12) == m.color_mode.spec_to_depth());
    assert(hz[14] == w6[0] && hz[15] == w6[1] && hz[16] == w6[2] && hz[17] == w6[3]);
    crate::bytes::lemma_le_u32(m.flags);
    assert(u32_at(hz, 14) == m.flags);
    assert(hz[18] == w7[0] && hz[19] == w7[1]);
    crate::bytes::lemma_le_u16(m.deprecated_speed);
    assert(u16_at(hz, 18) == m.deprecated_speed);
    assert(hz[32] == w12[0] && hz[33] == w12[1]);
    crate::bytes::lemma_le_u16(m.num_colors);
    assert(u16_at(hz, 32) == m.num_colors);
    assert(hz[36] == w14[0] && hz[37] == w14[1]);
    crate::bytes::lemma_le_i16(m.grid.x);
    assert(crate::bytes::i16_at(hz, 36) == m.grid.x);
    assert(hz[38] == w15[0] && hz[39] == w15[1]);
    crate::bytes::lemma_le_i16(m.grid.y);
    assert(crate::bytes::i16_at(hz, 38) == m.grid.y);
    assert(hz[40] == w16[0] && hz[41] == w16[1]);
    crate::bytes::lemma_le_u16(m.grid.width);
    assert(u16_at(hz, 40) == m.grid.width);
    assert(hz[42] == w17[0] && hz[43] == w17[1]);
    crate::bytes::lemma_le_u16(m.grid.height);
    assert(u16_at(hz, 42) == m.grid.height);
    assert(hz[28] == m.transparent_index);
    assert(hz[34] == m.pixel_ratio.0);
    assert(hz[35] == m.pixel_ratio.1);
    assert(ColorMode::spec_from_depth(m.color_mode.spec_to_depth()) == Some(m.color_mode));
}

/// The bytes written for `m` parse as the header's file with every frame
/// added and its chunks applied in turn.
#[verifier::spinoff_prover]
pub proof fn lemma_parse_written(m: FileModel)
    requires
        m.frames.len() <= 65535,
        frames_framed(m),
    ensures
        parse_file(enc_file(m)) == match apply_frames(
            m,
            ReadState { file: header_of(m), last: LastEntity::Nothing },
            m.frames.len(),
        ) {
            Err(e) => Err(e),
            Ok(s) => Ok::<FileModel, ErrorModel>(s.file),
        },
{
    let body = frames_bytes(m, m.frames.len());
    let total = trunc32(128int + body.len());
    let h = enc_header(m, total);
    lemma_header(m, total, body);
    assert(enc_file(m) =~= h + body + Seq::<u8>::empty());
    assert(h + body =~= h + body + Seq::<u8>::empty());
    lemma_read_frames(m, h, Seq::empty(), ReadState { file: header_of(m), last: LastEntity::Nothing }, m.frames.len());
}

// --- Chunks applied in turn ---

/// Applying two runs of chunks is applying the first, then the second.
#[verifier::spinoff_prover]
pub proof fn lemma_apply_chunks_append(s: ReadState, fi: usize, a: Seq<Seq<u8>>, b: Seq<Seq<u8>>)
    ensures
        apply_chunks(s, fi, a + b) == match apply_chunks(s, fi, a) {
            Err(e) => Err(e),
            Ok(s2) => apply_chunks(s2, fi, b),
        },
    decreases b.len(),
{
    if b.len() == 0 {
        assert(a + b =~= a);
    } else {
        assert((a + b).drop_last() =~= a + b.drop_last());
        assert((a + b).last() == b.last());
        lemma_apply_chunks_append(s, fi, a, b.drop_last());
    }
}

/// Applying one chunk.
#[verifier::spinoff_prover]
pub proof fn lemma_apply_one(s: ReadState, fi: usize, c: Seq<u8>)
    ensures
        apply_chunks(s, fi, seq![c]) == apply_chunk(s, fi, chunk_type_of(c), chunk_body(c)),
{
    assert(seq![c].drop_last() =~= Seq::<Seq<u8>>::empty());
    assert(seq![c].last() == c);
    assert(apply_chunks(s, fi, Seq::<Seq<u8>>::empty()) == Ok::<ReadState, ErrorModel>(s));
}

/// All chunks fit the 32-bit size word.
pub open spec fn all_fit(cs: Seq<Seq<u8>>) -> bool {
    forall|i: int| 0 <= i < cs.len() ==> (#[trigger] cs[i]).len() <= u32::MAX
}

/// All chunks are framed.
pub open spec fn all_framed(cs: Seq<Seq<u8>>) -> bool {
    forall|i: int| 0 <= i < cs.len() ==> framed(#[trigger] cs[i])
}

#[verifier::spinoff_prover]
pub proof fn lemma_all_fit_append(a: Seq<Seq<u8>>, b: Seq<Seq<u8>>)
    ensures
        all_fit(a + b) == (all_fit(a) && all_fit(b)),
        all_framed(a + b) == (all_framed(a) && all_framed(b)),
{
    assert(all_fit(a + b) ==> all_fit(a) && all_fit(b)) by {
        if all_fit(a + b) {
            assert forall|i: int| 0 <= i < a.len() implies (#[trigger] a[i]).len() <= u32::MAX by {
                assert((a + b)[i] == a[i]);
            }
            assert forall|i: int| 0 <= i < b.len() implies (#[trigger] b[i]).len() <= u32::MAX by {
                assert((a + b)[a.len() + i] == b[i]);
            }
        }
    }
    assert(all_framed(a + b) ==> all_framed(a) && all_framed(b)) by {
        if all_framed(a + b) {
            assert forall|i: int| 0 <= i < a.len() implies framed(#[trigger] a[i]) by {
                assert((a + b)[i] == a[i]);
            }
            assert forall|i: int| 0 <= i < b.len() implies framed(#[trigger] b[i]) by {
                assert((a + b)[a.len() + i] == b[i]);
            }
        }
    }
}

// --- One chunk of each kind ---

/// A user data chunk attaches its user data, read back, to what the last
/// chunk described.
#[verifier::spinoff_prover]
#[verifier::rlimit(40)]
pub proof fn lemma_step_ud(s: ReadState, fi: usize, u: UserDataModel)
    requires
        ud_codable(u),
        ud_chunk(u).len() <= u32::MAX,
    ensures
        framed(ud_chunk(u)),
        apply_chunks(s, fi, seq![ud_chunk(u)]) == Ok::<ReadState, ErrorModel>(
            ReadState {
                file: ordered(apply_user_data(s, ud_read_back(u)).file, fi, 0x2020, None),
                last: apply_user_data(s, ud_read_back(u)).last,
            },
        ),
{
    lemma_wrap(0x2020, enc_ud(u));
    lemma_apply_one(s, fi, ud_chunk(u));
    lemma_ud_roundtrip(u);
    let s2 = apply_user_data(s, ud_read_back(u));
    assert(apply_chunk(s, fi, 0x2020, enc_ud(u)) == Ok::<ReadState, ErrorModel>(
        ReadState { file: ordered(s2.file, fi, 0x2020, None), last: s2.last },
    )) by {
        reveal(apply_chunk);
    }
}

/// A layer chunk adds the layer, its parent found from the depth written.
#[verifier::spinoff_prover]
#[verifier::rlimit(40)]
pub proof fn lemma_step_layer(s: ReadState, fi: usize, l: LayerModel, cl: u16)
    requires
        str_fits(l.name),
        wrap(0x2004, enc_layer(l, cl)).len() <= u32::MAX,
    ensures
        framed(wrap(0x2004, enc_layer(l, cl))),
        apply_chunks(s, fi, seq![wrap(0x2004, enc_layer(l, cl))]) == Ok::<ReadState, ErrorModel>(
            ReadState {
                file: ordered(
                    FileModel {
                        layers: s.file.layers.push(
                            LayerModel {
                                parent: if cl == 0 {
                                    None
                                } else {
                                    find_parent_below(s.file.layers, s.file.layers.len(), cl - 1)
                                },
                                user_data: None,
                                ..l
                            },
                        ),
                        ..s.file
                    },
                    fi,
                    0x2004,
                    None,
                ),
                last: LastEntity::Layer(s.file.layers.len() as usize),
            },
        ),
{
    lemma_wrap(0x2004, enc_layer(l, cl));
    lemma_apply_one(s, fi, wrap(0x2004, enc_layer(l, cl)));
    lemma_layer_roundtrip(l, cl);
    reveal(apply_chunk);
}

/// An external files chunk adds the files.
#[verifier::spinoff_prover]
#[verifier::rlimit(80)]
pub proof fn lemma_step_ext(s: ReadState, fi: usize, es: Seq<ExternalFileModel>)
    requires
        es.len() <= u32::MAX,
        forall|i: int| 0 <= i < es.len() ==> str_fits(#[trigger] es[i].name),
        wrap(0x2008, enc_ext_files(es)).len() <= u32::MAX,
    ensures
        framed(wrap(0x2008, enc_ext_files(es))),
        apply_chunks(s, fi, seq![wrap(0x2008, enc_ext_files(es))]) == Ok::<ReadState, ErrorModel>(
            ReadState {
                file: ordered(FileModel { external_files: s.file.external_files + es, ..s.file }, fi, 0x2008, None),
                last: s.last,
            },
        ),
{
    lemma_wrap(0x2008, enc_ext_files(es));
    lemma_apply_one(s, fi, wrap(0x2008, enc_ext_files(es)));
    lemma_ext_files_roundtrip(es);
    assert(apply_chunk(s, fi, 0x2008, enc_ext_files(es)) == Ok::<ReadState, ErrorModel>(
        ReadState {
            file: ordered(FileModel { external_files: s.file.external_files + es, ..s.file }, fi, 0x2008, None),
            last: s.last,
        },
    )) by {
        reveal(apply_chunk);
    }
}

/// A color profile chunk sets the profile.
#[verifier::spinoff_prover]
#[verifier::rlimit(80)]
pub proof fn lemma_step_profile(s: ReadState, fi: usize, p: ColorProfileModel)
    requires
        p matches ColorProfileModel::Icc { data, .. } ==> data.len() <= u32::MAX,
        wrap(0x2007, enc_color_profile(p)).len() <= u32::MAX,
    ensures
        framed(wrap(0x2007, enc_color_profile(p))),
        apply_chunks(s, fi, seq![wrap(0x2007, enc_color_profile(p))]) == Ok::<ReadState, ErrorModel>(
            ReadState {
                file: ordered(FileModel { color_profile: Some(p), ..s.file }, fi, 0x2007, None),
                last: s.last,
            },
        ),
{
    lemma_wrap(0x2007, enc_color_profile(p));
    lemma_apply_one(s, fi, wrap(0x2007, enc_color_profile(p)));
    lemma_color_profile_roundtrip(p);
    assert(apply_chunk(s, fi, 0x2007, enc_color_profile(p)) == Ok::<ReadState, ErrorModel>(
        ReadState { file: ordered(FileModel { color_profile: Some(p), ..s.file }, fi, 0x2007, None), last: s.last },
    )) by {
        reveal(apply_chunk);
    }
}

/// A palette chunk applies its record.
#[verifier::spinoff_prover]
#[verifier::rlimit(80)]
pub proof fn lemma_step_palette(s: ReadState, fi: usize, pal: Seq<ColorModel>)
    requires
        0 < pal.len() <= u32::MAX,
        forall|i: int| 0 <= i < pal.len() ==> (#[trigger] pal[i].name matches Some(n) ==> str_fits(n)),
        wrap(0x2019, enc_palette(pal)).len() <= u32::MAX,
    ensures
        framed(wrap(0x2019, enc_palette(pal))),
        apply_chunks(s, fi, seq![wrap(0x2019, enc_palette(pal))]) == Ok::<ReadState, ErrorModel>(
            ReadState {
                file: ordered(
                    FileModel {
                        palette: apply_palette_record(
                            s.file.palette,
                            PaletteRecord { new_size: pal.len() as u32, first: 0, last: (pal.len() - 1) as u32, colors: pal },
                        ),
                        ..s.file
                    },
                    fi,
                    0x2019,
                    None,
                ),
                last: if fi == 0 { LastEntity::Palette } else { s.last },
            },
        ),
{
    lemma_wrap(0x2019, enc_palette(pal));
    lemma_apply_one(s, fi, wrap(0x2019, enc_palette(pal)));
    lemma_palette_roundtrip(pal);
    let r = PaletteRecord { new_size: pal.len() as u32, first: 0, last: (pal.len() - 1) as u32, colors: pal };
    assert(apply_chunk(s, fi, 0x2019, enc_palette(pal)) == Ok::<ReadState, ErrorModel>(
        ReadState {
            file: ordered(FileModel { palette: apply_palette_record(s.file.palette, r), ..s.file }, fi, 0x2019, None),
            last: if fi == 0 { LastEntity::Palette } else { s.last },
        },
    )) by {
        reveal(apply_chunk);
    }
}

/// A frame number as a tags chunk stores it: its low 16 bits.
pub open spec fn frame_as_read(f: usize) -> usize {
    (f as u16) as usize
}

/// A tag as its tags chunk gives it back: its frame numbers as stored,
/// without its user data.
pub open spec fn bare_tag(t: TagModel) -> TagModel {
    TagModel {
        user_data: None,
        from_frame: frame_as_read(t.from_frame),
        to_frame: frame_as_read(t.to_frame),
        ..t
    }
}

/// Tags as their tags chunk gives them back.
pub open spec fn bare_tags(ts: Seq<TagModel>) -> Seq<TagModel> {
    ts.map_values(|t: TagModel| bare_tag(t))
}

/// A tag and the tag that its chunk gives back are stored alike.
pub proof fn lemma_enc_bare_tag(t: TagModel)
    ensures
        tag_enc_fn()(t) == tag_enc_fn()(bare_tag(t)),
{
    let a = t.from_frame;
    let b = t.to_frame;
    assert((((a as u16) as usize) as u16) == a as u16) by (bit_vector);
    assert((((b as u16) as usize) as u16) == b as u16) by (bit_vector);
}

/// A tags chunk adds the tags as it stores them, and starts the
/// sequence of tag user data.
#[verifier::spinoff_prover]
#[verifier::rlimit(80)]
pub proof fn lemma_step_tags(s: ReadState, fi: usize, ts: Seq<TagModel>)
    requires
        ts.len() <= u16::MAX,
        forall|i: int| 0 <= i < ts.len() ==> str_fits(#[trigger] ts[i].name),
        wrap(0x2018, enc_tags(ts)).len() <= u32::MAX,
    ensures
        framed(wrap(0x2018, enc_tags(ts))),
        apply_chunks(s, fi, seq![wrap(0x2018, enc_tags(ts))]) == Ok::<ReadState, ErrorModel>(
            ReadState {
                file: ordered(FileModel { tags: s.file.tags + bare_tags(ts), ..s.file }, fi, 0x2018, None),
                last: LastEntity::TagSequence(0),
            },
        ),
{
    let bt = bare_tags(ts);
    assert forall|i: int| 0 <= i < ts.len() implies tag_enc_fn()(#[trigger] ts[i]) == tag_enc_fn()(bt[i]) by {
        assert(bt[i] == bare_tag(ts[i]));
        lemma_enc_bare_tag(ts[i]);
    }
    lemma_enc_list_congr(ts, bt, tag_enc_fn());
    assert(enc_tags(ts) == enc_tags(bt));
    lemma_tags_roundtrip(bt);
    lemma_wrap(0x2018, enc_tags(ts));
    lemma_apply_one(s, fi, wrap(0x2018, enc_tags(ts)));
    assert(apply_chunk(s, fi, 0x2018, enc_tags(bt)) == Ok::<ReadState, ErrorModel>(
        ReadState {
            file: ordered(FileModel { tags: s.file.tags + bt, ..s.file }, fi, 0x2018, None),
            last: LastEntity::TagSequence(0),
        },
    )) by {
        reveal(apply_chunk);
    }
}

/// Whether a slice's keys carry nine-patch and pivot data exactly where
/// its flags say.
pub open spec fn slice_keys_ok(sl: SliceModel) -> bool {
    forall|i: int|
        0 <= i < sl.keys.len() ==> (#[trigger] sl.keys[i].nine_patch is Some) == sl.has_nine_patch
            && (sl.keys[i].pivot is Some) == sl.has_pivot
}

/// A slice chunk adds the slice, without its user data.
#[verifier::spinoff_prover]
#[verifier::rlimit(80)]
pub proof fn lemma_step_slice(s: ReadState, fi: usize, sl: SliceModel)
    requires
        sl.keys.len() <= u32::MAX,
        str_fits(sl.name),
        slice_keys_ok(sl),
        wrap(0x2022, enc_slice(sl)).len() <= u32::MAX,
    ensures
        framed(wrap(0x2022, enc_slice(sl))),
        apply_chunks(s, fi, seq![wrap(0x2022, enc_slice(sl))]) == Ok::<ReadState, ErrorModel>(
            ReadState {
                file: ordered(
                    FileModel { slices: s.file.slices.push(SliceModel { user_data: None, ..sl }), ..s.file },
                    fi,
                    0x2022,
                    None,
                ),
                last: LastEntity::Slice(s.file.slices.len() as usize),
            },
        ),
{
    let bs = SliceModel { user_data: None, ..sl };
    assert(dec_slice(enc_slice(sl)) == Some(bs)) by {
        assert(enc_slice(sl) == enc_slice(bs));
        lemma_slice_roundtrip(bs);
    }
    lemma_wrap(0x2022, enc_slice(sl));
    lemma_apply_one(s, fi, wrap(0x2022, enc_slice(sl)));
    assert(apply_chunk(s, fi, 0x2022, enc_slice(bs)) == Ok::<ReadState, ErrorModel>(
        ReadState {
            file: ordered(FileModel { slices: s.file.slices.push(bs), ..s.file }, fi, 0x2022, None),
            last: LastEntity::Slice(s.file.slices.len() as usize),
        },
    )) by {
        reveal(apply_chunk);
    }
}

/// A tileset chunk adds the tileset as it reads back.
#[verifier::spinoff_prover]
#[verifier::rlimit(80)]
pub proof fn lemma_step_tileset(s: ReadState, fi: usize, t: TilesetModel)
    requires
        tileset_codable(t),
        wrap(0x2023, enc_tileset(t)).len() <= u32::MAX,
    ensures
        framed(wrap(0x2023, enc_tileset(t))),
        apply_chunks(s, fi, seq![wrap(0x2023, enc_tileset(t))]) == Ok::<ReadState, ErrorModel>(
            ReadState {
                file: ordered(
                    FileModel { tilesets: s.file.tilesets.push(tileset_read_back(t)), ..s.file },
                    fi,
                    0x2023,
                    None,
                ),
                last: LastEntity::Tileset(s.file.tilesets.len() as usize),
            },
        ),
{
    lemma_tileset_roundtrip(t);
    lemma_wrap(0x2023, enc_tileset(t));
    lemma_apply_one(s, fi, wrap(0x2023, enc_tileset(t)));
    assert(apply_chunk(s, fi, 0x2023, enc_tileset(t)) == Ok::<ReadState, ErrorModel>(
        ReadState {
            file: ordered(FileModel { tilesets: s.file.tilesets.push(tileset_read_back(t)), ..s.file }, fi, 0x2023, None),
            last: LastEntity::Tileset(s.file.tilesets.len() as usize),
        },
    )) by {
        reveal(apply_chunk);
    }
}

/// A cel chunk stores the cel, as it reads back, under its layer and the
/// frame.
#[verifier::spinoff_prover]
#[verifier::rlimit(80)]
pub proof fn lemma_step_cel(s: ReadState, fi: usize, c: CelModel, li: usize)
    requires
        cel_codable(c, li, s.file.color_mode),
        wrap(0x2005, enc_cel(c, li)).len() <= u32::MAX,
    ensures
        framed(wrap(0x2005, enc_cel(c, li))),
        apply_chunks(s, fi, seq![wrap(0x2005, enc_cel(c, li))]) == Ok::<ReadState, ErrorModel>(
            ReadState {
                file: ordered(
                    FileModel { cels: cel_insert(s.file.cels, (li, fi), cel_read_back(c)), ..s.file },
                    fi,
                    0x2005,
                    Some(li),
                ),
                last: LastEntity::Cel(li, fi),
            },
        ),
{
    lemma_cel_roundtrip(c, li, s.file.color_mode);
    lemma_wrap(0x2005, enc_cel(c, li));
    lemma_apply_one(s, fi, wrap(0x2005, enc_cel(c, li)));
    assert(apply_chunk(s, fi, 0x2005, enc_cel(c, li)) == Ok::<ReadState, ErrorModel>(
        ReadState {
            file: ordered(
                FileModel { cels: cel_insert(s.file.cels, (li, fi), cel_read_back(c)), ..s.file },
                fi,
                0x2005,
                Some(li),
            ),
            last: LastEntity::Cel(li, fi),
        },
    )) by {
        reveal(apply_chunk);
    }
}

/// A cel extra chunk sets the extra bounds of the last cel.
#[verifier::spinoff_prover]
#[verifier::rlimit(80)]
pub proof fn lemma_step_cel_extra(s: ReadState, fi: usize, x: CelExtra, li: usize, f: usize)
    requires
        s.last == LastEntity::Cel(li, f),
    ensures
        framed(wrap(0x2006, enc_cel_extra(x))),
        apply_chunks(s, fi, seq![wrap(0x2006, enc_cel_extra(x))]) == Ok::<ReadState, ErrorModel>(
            ReadState {
                file: ordered(
                    FileModel {
                        cels: cel_modify(s.file.cels, (li, f), |c: CelModel| CelModel { extra: Some(x), ..c }),
                        ..s.file
                    },
                    fi,
                    0x2006,
                    None,
                ),
                last: s.last,
            },
        ),
{
    lemma_cel_extra_roundtrip(x);
    crate::bytes::lemma_le_u32(1);
    crate::bytes::lemma_le_u32(x.precise_x);
    crate::bytes::lemma_le_u32(x.precise_y);
    crate::bytes::lemma_le_u32(x.width);
    crate::bytes::lemma_le_u32(x.height);
    assert(enc_cel_extra(x).len() == 36);
    lemma_wrap(0x2006, enc_cel_extra(x));
    lemma_apply_one(s, fi, wrap(0x2006, enc_cel_extra(x)));
    assert(apply_chunk(s, fi, 0x2006, enc_cel_extra(x)) == Ok::<ReadState, ErrorModel>(
        ReadState {
            file: ordered(
                FileModel {
                    cels: cel_modify(s.file.cels, (li, f), |c: CelModel| CelModel { extra: Some(x), ..c }),
                    ..s.file
                },
                fi,
                0x2006,
                None,
            ),
            last: s.last,
        },
    )) by {
        reveal(apply_chunk);
    }
}

// --- What a file reads back as ---

/// User data as a user data chunk gives it back.
pub open spec fn rb_ud(u: Option<UserDataModel>) -> Option<UserDataModel> {
    match u {
        Some(x) => Some(ud_read_back(x)),
        None => None,
    }
}

pub open spec fn ud_ok(u: Option<UserDataModel>) -> bool {
    u matches Some(x) ==> ud_codable(x)
}

/// The parent that reading gives layer `i`: the last group before it one
/// level above the depth written for it.
pub open spec fn read_parent(ls: Seq<LayerModel>, i: int) -> Option<usize> {
    if depth(ls, i) == 0 {
        None
    } else {
        find_parent_below(ls, i as nat, depth(ls, i) - 1)
    }
}

/// Layer `i` as reading gives it back: its parent found from its depth,
/// its user data as a user data chunk gives it back.
pub open spec fn rb_layer_at(ls: Seq<LayerModel>, i: int) -> LayerModel {
    LayerModel { parent: read_parent(ls, i), user_data: rb_ud(ls[i].user_data), ..ls[i] }
}

pub open spec fn rb_layers(ls: Seq<LayerModel>) -> Seq<LayerModel> {
    Seq::new(ls.len(), |i: int| rb_layer_at(ls, i))
}

/// Each layer's parent is a group.
pub open spec fn parents_are_groups(ls: Seq<LayerModel>) -> bool {
    forall|i: int|
        0 <= i < ls.len() ==> (#[trigger] ls[i].parent matches Some(p) ==> ls[p as int].kind == LayerKind::Group)
}

/// The last group below `n` at a depth depends only on the layers' kinds
/// and depths.
#[verifier::spinoff_prover]
proof fn lemma_find_parent_same(a: Seq<LayerModel>, b: Seq<LayerModel>, n: nat, t: int)
    requires
        n <= a.len(),
        n <= b.len(),
        forall|j: int| 0 <= j < n ==> #[trigger] depth(a, j) == depth(b, j) && a[j].kind == b[j].kind,
    ensures
        find_parent_below(a, n, t) == find_parent_below(b, n, t),
    decreases n,
{
    if n > 0 {
        assert(depth(a, n - 1) == depth(b, n - 1));
        lemma_find_parent_same(a, b, (n - 1) as nat, t);
    }
}

/// Where a group at depth `t` lies below `n`, the search finds one.
#[verifier::spinoff_prover]
proof fn lemma_find_parent_exists(ls: Seq<LayerModel>, n: nat, t: int, p: int)
    requires
        0 <= p < n,
        depth(ls, p) == t,
        ls[p].kind == LayerKind::Group,
    ensures
        find_parent_below(ls, n, t) is Some,
    decreases n,
{
    if p < n - 1 && !(depth(ls, n - 1) == t && ls[n - 1].kind == LayerKind::Group) {
        lemma_find_parent_exists(ls, (n - 1) as nat, t, p);
    }
}

/// Where every parent is a group, each layer read back keeps its depth.
#[verifier::spinoff_prover]
pub proof fn lemma_rb_depth(ls: Seq<LayerModel>, j: int)
    requires
        ls.len() <= 65535,
        parents_ok(ls),
        parents_are_groups(ls),
        0 <= j < ls.len(),
    ensures
        depth(rb_layers(ls), j) == depth(ls, j),
    decreases j,
{
    let r = rb_layers(ls);
    assert(r[j] == rb_layer_at(ls, j));
    let d = depth(ls, j);
    if d > 0 {
        let p = ls[j].parent.get_Some_0();
        assert(ls[j].parent == Some(p));
        assert(p < j);
        lemma_find_parent_exists(ls, j as nat, d - 1, p as int);
        crate::file::reader::lemma_find_parent(ls, j as nat, d - 1);
        let q = find_parent_below(ls, j as nat, d - 1).get_Some_0();
        lemma_rb_depth(ls, q as int);
    }
}

/// Depths below `k` depend only on the first `k` layers.
#[verifier::spinoff_prover]
pub proof fn lemma_depth_prefix(ls: Seq<LayerModel>, k: int, i: int)
    requires
        0 <= i < k <= ls.len(),
    ensures
        depth(ls.take(k), i) == depth(ls, i),
    decreases i,
{
    assert(ls.take(k)[i] == ls[i]);
    if let Some(p) = ls[i].parent {
        if p < i {
            lemma_depth_prefix(ls, k, p as int);
        }
    }
}

/// The user data chunk that follows an entity where it has user data:
/// none where it has none, else the user data, read back, attached to what
/// the last chunk described.
#[verifier::spinoff_prover]
proof fn lemma_opt_ud_keep(s: ReadState, fi: usize, u: Option<UserDataModel>)
    requires
        ud_ok(u),
        all_fit(opt_ud_chunks(u)),
    ensures
        all_framed(opt_ud_chunks(u)),
        u is None ==> apply_chunks(s, fi, opt_ud_chunks(u)) == Ok::<ReadState, ErrorModel>(s),
        u matches Some(x) ==> apply_chunks(s, fi, opt_ud_chunks(u)) == Ok::<ReadState, ErrorModel>(
            ReadState {
                file: ordered(apply_user_data(s, ud_read_back(x)).file, fi, 0x2020, None),
                last: apply_user_data(s, ud_read_back(x)).last,
            },
        ),
{
    match u {
        Some(x) => {
            assert(opt_ud_chunks(u)[0] == ud_chunk(x));
            lemma_step_ud(s, fi, x);
        },
        None => {
            assert(apply_chunks(s, fi, Seq::<Seq<u8>>::empty()) == Ok::<ReadState, ErrorModel>(s));
        },
    }
}

/// One layer and its user data read back, after the layers before it.
#[verifier::spinoff_prover]
#[verifier::rlimit(40)]
proof fn lemma_layer_group(m: FileModel, s: ReadState, fi: usize, k: int)
    requires
        0 <= k < m.layers.len() <= 65535,
        parents_ok(m.layers),
        parents_are_groups(m.layers),
        str_fits(m.layers[k].name),
        ud_ok(m.layers[k].user_data),
        all_fit(layer_group(m, k)),
        s.file.layers == rb_layers(m.layers).take(k),
    ensures
        all_framed(layer_group(m, k)),
        apply_chunks(s, fi, layer_group(m, k)) matches Ok(s2) && s2.file == (FileModel {
            layers: rb_layers(m.layers).take(k + 1),
            chunk_order: s2.file.chunk_order,
            ..s.file
        }) && s2.last == LastEntity::Layer(k as usize),
{
    let g = layer_group(m, k);
    let l = m.layers[k];
    let d = depth(m.layers, k);
    lemma_depth_below(m.layers, k);
    let cl = d as u16;
    let lc = wrap(0x2004, enc_layer(l, cl));
    let ud = opt_ud_chunks(l.user_data);
    assert(g == seq![lc] + ud);
    lemma_all_fit_append(seq![lc], ud);
    assert(lc.len() <= u32::MAX) by {
        assert(seq![lc][0] == lc);
    }
    lemma_step_layer(s, fi, l, cl);
    lemma_apply_chunks_append(s, fi, seq![lc], ud);
    let s2 = apply_chunks(s, fi, seq![lc]).get_Ok_0();
    let rbl = rb_layers(m.layers);
    let have = rbl.take(k);
    assert forall|i: int| 0 <= i < k implies #[trigger] depth(have, i) == depth(m.layers, i) && have[i].kind
        == m.layers[i].kind by {
        assert(have[i] == rb_layer_at(m.layers, i));
        lemma_depth_prefix(rbl, k, i);
        lemma_rb_depth(m.layers, i);
    }
    lemma_find_parent_same(have, m.layers, k as nat, d - 1);
    let pl = LayerModel { parent: read_parent(m.layers, k), user_data: None, ..l };
    assert(s2.file.layers == have.push(pl));
    assert(s2.last == LastEntity::Layer(k as usize));
    lemma_opt_ud_keep(s2, fi, l.user_data);
    assert(all_framed(seq![lc])) by {
        assert(seq![lc][0] == lc);
    }
    assert(rbl[k] == rb_layer_at(m.layers, k));
    match l.user_data {
        Some(u) => {
            assert(have.push(pl).update(k, LayerModel { user_data: Some(ud_read_back(u)), ..pl }) =~= rbl.take(k + 1));
        },
        None => {
            assert(have.push(pl) =~= rbl.take(k + 1));
        },
    }
}

/// The layers, each with its user data, read back in turn.
#[verifier::spinoff_prover]
pub proof fn lemma_layers_part(m: FileModel, s: ReadState, fi: usize, j: nat)
    requires
        j <= m.layers.len() <= 65535,
        parents_ok(m.layers),
        parents_are_groups(m.layers),
        forall|i: int| 0 <= i < m.layers.len() ==> str_fits(#[trigger] m.layers[i].name) && ud_ok(m.layers[i].user_data),
        all_fit(flat_idx(j, |i: int| layer_group(m, i))),
        s.file.layers == Seq::<LayerModel>::empty(),
    ensures
        all_framed(flat_idx(j, |i: int| layer_group(m, i))),
        apply_chunks(s, fi, flat_idx(j, |i: int| layer_group(m, i))) matches Ok(s2) && s2.file == (FileModel {
            layers: rb_layers(m.layers).take(j as int),
            chunk_order: s2.file.chunk_order,
            ..s.file
        }) && (if j == 0 { s2.last == s.last } else { s2.last == LastEntity::Layer((j - 1) as usize) }),
    decreases j,
{
    let f = |i: int| layer_group(m, i);
    if j == 0 {
        assert(rb_layers(m.layers).take(0) =~= Seq::<LayerModel>::empty());
        assert(apply_chunks(s, fi, Seq::<Seq<u8>>::empty()) == Ok::<ReadState, ErrorModel>(s));
    } else {
        let k = (j - 1) as nat;
        let prev = flat_idx(k, f);
        assert(flat_idx(j, f) == prev + f(k as int));
        lemma_all_fit_append(prev, f(k as int));
        lemma_layers_part(m, s, fi, k);
        lemma_apply_chunks_append(s, fi, prev, f(k as int));
        let s1 = apply_chunks(s, fi, prev).get_Ok_0();
        assert(str_fits(m.layers[k as int].name) && ud_ok(m.layers[k as int].user_data));
        lemma_layer_group(m, s1, fi, k as int);
    }
}

/// Setting the colors `cs` from index 0 into a palette replaces its first
/// entries, growing it where `cs` is longer.
#[verifier::spinoff_prover]
proof fn lemma_palette_apply_prefix(p: Seq<ColorModel>, cs: Seq<ColorModel>)
    ensures
        palette_apply(p, 0, cs) == if cs.len() >= p.len() {
            cs
        } else {
            cs + p.subrange(cs.len() as int, p.len() as int)
        },
    decreases cs.len(),
{
    if cs.len() == 0 {
        assert(cs + p.subrange(0, p.len() as int) =~= p);
        if p.len() == 0 {
            assert(p =~= cs);
        }
    } else {
        let k = cs.len() - 1;
        lemma_palette_apply_prefix(p, cs.drop_last());
        let a = palette_apply(p, 0, cs.drop_last());
        if cs.drop_last().len() >= p.len() {
            assert(a == cs.drop_last());
            assert(a.len() == k);
            assert(Seq::new((k - a.len()) as nat, |j: int| filler_color()) =~= Seq::<ColorModel>::empty());
            assert((a + Seq::new((k - a.len()) as nat, |j: int| filler_color())).push(cs.last()) =~= cs);
        } else {
            assert(a.update(k, cs.last()) =~= (if cs.len() >= p.len() {
                cs
            } else {
                cs + p.subrange(cs.len() as int, p.len() as int)
            }));
        }
    }
}

/// A palette chunk read into an empty palette gives the palette written.
#[verifier::spinoff_prover]
proof fn lemma_palette_from_empty(pal: Seq<ColorModel>)
    requires
        0 < pal.len() <= u32::MAX,
    ensures
        apply_palette_record(
            Seq::empty(),
            PaletteRecord { new_size: pal.len() as u32, first: 0, last: (pal.len() - 1) as u32, colors: pal },
        ) == pal,
{
    let g = palette_grow(Seq::empty(), pal.len() as int);
    assert(g.len() == pal.len() || g.len() == 0);
    lemma_palette_apply_prefix(g, pal);
}

/// The palette that reading gives back: the palette written, or the one
/// filler color written to carry sprite user data.
pub open spec fn rb_palette(m: FileModel) -> Seq<ColorModel> {
    if m.palette.len() > 0 {
        m.palette
    } else if non_empty_ud(m.sprite_user_data) {
        seq![filler_color()]
    } else {
        Seq::empty()
    }
}

/// The sprite user data that reading gives back: written after the
/// palette where there is a palette chunk.
pub open spec fn rb_sprite_ud(m: FileModel) -> Option<UserDataModel> {
    if m.palette.len() > 0 || non_empty_ud(m.sprite_user_data) {
        rb_ud(m.sprite_user_data)
    } else {
        None
    }
}

pub open spec fn palette_names_fit(p: Seq<ColorModel>) -> bool {
    forall|i: int| 0 <= i < p.len() ==> (#[trigger] p[i].name matches Some(n) ==> str_fits(n))
}

/// The external files part of the first frame.
#[verifier::spinoff_prover]
pub proof fn lemma_ext_part(m: FileModel, s: ReadState, fi: usize)
    requires
        m.external_files.len() <= u32::MAX,
        forall|i: int| 0 <= i < m.external_files.len() ==> str_fits(#[trigger] m.external_files[i].name),
        all_fit(ext_part(m)),
        s.file.external_files == Seq::<ExternalFileModel>::empty(),
    ensures
        all_framed(ext_part(m)),
        apply_chunks(s, fi, ext_part(m)) matches Ok(s2) && s2.file == (FileModel {
            external_files: m.external_files,
            chunk_order: s2.file.chunk_order,
            ..s.file
        }),
{
    if m.external_files.len() > 0 {
        assert(ext_part(m)[0] == wrap(0x2008, enc_ext_files(m.external_files)));
        lemma_step_ext(s, fi, m.external_files);
        assert(Seq::<ExternalFileModel>::empty() + m.external_files =~= m.external_files);
    } else {
        assert(apply_chunks(s, fi, Seq::<Seq<u8>>::empty()) == Ok::<ReadState, ErrorModel>(s));
        assert(m.external_files =~= Seq::<ExternalFileModel>::empty());
    }
}

/// The color profile part of the first frame.
#[verifier::spinoff_prover]
pub proof fn lemma_profile_part(m: FileModel, s: ReadState, fi: usize)
    requires
        m.color_profile matches Some(ColorProfileModel::Icc { data, .. }) ==> data.len() <= u32::MAX,
        all_fit(profile_part(m)),
        s.file.color_profile is None,
    ensures
        all_framed(profile_part(m)),
        apply_chunks(s, fi, profile_part(m)) matches Ok(s2) && s2.file == (FileModel {
            color_profile: m.color_profile,
            chunk_order: s2.file.chunk_order,
            ..s.file
        }),
{
    match m.color_profile {
        Some(p) => {
            assert(profile_part(m)[0] == wrap(0x2007, enc_color_profile(p)));
            lemma_step_profile(s, fi, p);
        },
        None => {
            assert(apply_chunks(s, fi, Seq::<Seq<u8>>::empty()) == Ok::<ReadState, ErrorModel>(s));
        },
    }
}

/// The palette part of the first frame: the palette, or a one-color
/// palette where there is only sprite user data, then that user data.
#[verifier::spinoff_prover]
#[verifier::rlimit(40)]
pub proof fn lemma_palette_part(m: FileModel, s: ReadState)
    requires
        m.palette.len() <= u32::MAX,
        palette_names_fit(m.palette),
        ud_ok(m.sprite_user_data),
        all_fit(palette_part(m)),
        s.file.palette == Seq::<ColorModel>::empty(),
        s.file.sprite_user_data is None,
    ensures
        all_framed(palette_part(m)),
        apply_chunks(s, 0, palette_part(m)) matches Ok(s2) && s2.file == (FileModel {
            palette: rb_palette(m),
            sprite_user_data: rb_sprite_ud(m),
            chunk_order: s2.file.chunk_order,
            ..s.file
        }),
{
    if m.palette.len() > 0 || non_empty_ud(m.sprite_user_data) {
        let pal = if m.palette.len() > 0 { m.palette } else { seq![filler_color()] };
        let pc = wrap(0x2019, enc_palette(pal));
        let ud = opt_ud_chunks(m.sprite_user_data);
        assert(palette_part(m) == seq![pc] + ud);
        lemma_all_fit_append(seq![pc], ud);
        assert(pc.len() <= u32::MAX) by {
            assert(seq![pc][0] == pc);
        }
        assert(palette_names_fit(pal));
        lemma_step_palette(s, 0, pal);
        lemma_palette_from_empty(pal);
        lemma_apply_chunks_append(s, 0, seq![pc], ud);
        let s1 = apply_chunks(s, 0, seq![pc]).get_Ok_0();
        assert(s1.last == LastEntity::Palette);
        lemma_opt_ud_keep(s1, 0, m.sprite_user_data);
        assert(all_framed(seq![pc])) by {
            assert(seq![pc][0] == pc);
        }
    } else {
        assert(palette_part(m) == Seq::<Seq<u8>>::empty());
        assert(apply_chunks(s, 0, Seq::<Seq<u8>>::empty()) == Ok::<ReadState, ErrorModel>(s));
        assert(m.palette =~= Seq::<ColorModel>::empty());
    }
}

/// Empty user data reads back.
#[verifier::spinoff_prover]
proof fn lemma_empty_ud_ok()
    ensures
        ud_codable(empty_ud()),
{
    assert(enc_pmaps(Seq::<crate::model::PropertiesMapModel>::empty()) == Seq::<u8>::empty());
}

/// The user data that a tag reads back with: where any tag carries user
/// data, every tag gets a user data chunk.
pub open spec fn rb_tag(m: FileModel, t: TagModel) -> TagModel {
    TagModel {
        user_data: if any_tag_ud(m) { Some(ud_read_back(ud_or_empty(t.user_data))) } else { None },
        ..bare_tag(t)
    }
}

pub open spec fn rb_tags(m: FileModel) -> Seq<TagModel> {
    m.tags.map_values(|t: TagModel| rb_tag(m, t))
}

/// Tags read back up to `k`, the rest still bare.
pub open spec fn tags_mix(m: FileModel, k: int) -> Seq<TagModel> {
    rb_tags(m).take(k) + bare_tags(m.tags).skip(k)
}

#[verifier::spinoff_prover]
proof fn lemma_tags_mix_step(m: FileModel, k: int)
    requires
        0 <= k < m.tags.len(),
        any_tag_ud(m),
    ensures
        tags_mix(m, k).len() == m.tags.len(),
        tags_mix(m, k).update(
            k,
            TagModel { user_data: Some(ud_read_back(ud_or_empty(m.tags[k].user_data))), ..tags_mix(m, k)[k] },
        ) == tags_mix(m, k + 1),
{
    let cur = tags_mix(m, k);
    assert(cur[k] == bare_tag(m.tags[k]));
    assert(cur.update(k, TagModel { user_data: Some(ud_read_back(ud_or_empty(m.tags[k].user_data))), ..cur[k] })
        =~= tags_mix(m, k + 1));
}

/// The tag user data chunks, each attached to the next tag in turn.
#[verifier::spinoff_prover]
#[verifier::rlimit(40)]
proof fn lemma_tag_uds(m: FileModel, s: ReadState, fi: usize, j: nat)
    requires
        j <= m.tags.len() <= u16::MAX,
        any_tag_ud(m),
        forall|i: int| 0 <= i < m.tags.len() ==> ud_ok(#[trigger] m.tags[i].user_data),
        all_fit(flat_idx(j, |i: int| seq![ud_chunk(ud_or_empty(m.tags[i].user_data))])),
        s.file.tags == bare_tags(m.tags),
        s.last == LastEntity::TagSequence(0),
    ensures
        all_framed(flat_idx(j, |i: int| seq![ud_chunk(ud_or_empty(m.tags[i].user_data))])),
        apply_chunks(s, fi, flat_idx(j, |i: int| seq![ud_chunk(ud_or_empty(m.tags[i].user_data))])) matches Ok(s2)
            && s2.file == (FileModel { tags: tags_mix(m, j as int), chunk_order: s2.file.chunk_order, ..s.file })
            && s2.last == LastEntity::TagSequence(j as usize),
    decreases j,
{
    let f = |i: int| seq![ud_chunk(ud_or_empty(m.tags[i].user_data))];
    if j == 0 {
        assert(apply_chunks(s, fi, Seq::<Seq<u8>>::empty()) == Ok::<ReadState, ErrorModel>(s));
        assert(tags_mix(m, 0) =~= bare_tags(m.tags));
    } else {
        let k = (j - 1) as nat;
        let prev = flat_idx(k, f);
        let g = f(k as int);
        assert(flat_idx(j, f) == prev + g);
        lemma_all_fit_append(prev, g);
        lemma_tag_uds(m, s, fi, k);
        lemma_apply_chunks_append(s, fi, prev, g);
        let s1 = apply_chunks(s, fi, prev).get_Ok_0();
        let u = ud_or_empty(m.tags[k as int].user_data);
        lemma_empty_ud_ok();
        assert(ud_ok(m.tags[k as int].user_data));
        assert(g[0] == ud_chunk(u));
        lemma_step_ud(s1, fi, u);
        lemma_tags_mix_step(m, k as int);
        assert(s1.last == LastEntity::TagSequence(k as usize));
        assert(s1.file.tags == tags_mix(m, k as int));
        let s2 = apply_user_data(s1, ud_read_back(u));
        assert(s2.last == LastEntity::TagSequence(j as usize));
        assert(s2.file.tags == tags_mix(m, j as int));
        assert(s2.file == FileModel { tags: tags_mix(m, j as int), ..s1.file });
    }
}

/// The tags part of the first frame: the tags, then their user data where
/// any tag carries some.
#[verifier::spinoff_prover]
#[verifier::rlimit(40)]
pub proof fn lemma_tags_part(m: FileModel, s: ReadState, fi: usize)
    requires
        m.tags.len() <= u16::MAX,
        forall|i: int|
            0 <= i < m.tags.len() ==> str_fits(#[trigger] m.tags[i].name) && ud_ok(m.tags[i].user_data),
        all_fit(tags_part(m)),
        s.file.tags == Seq::<TagModel>::empty(),
    ensures
        all_framed(tags_part(m)),
        apply_chunks(s, fi, tags_part(m)) matches Ok(s2) && s2.file == (FileModel {
            tags: rb_tags(m),
            chunk_order: s2.file.chunk_order,
            ..s.file
        }),
{
    if m.tags.len() > 0 {
        let tc = wrap(0x2018, enc_tags(m.tags));
        let f = |i: int| seq![ud_chunk(ud_or_empty(m.tags[i].user_data))];
        let rest = if any_tag_ud(m) { flat_idx(m.tags.len(), f) } else { Seq::<Seq<u8>>::empty() };
        assert(tags_part(m) == seq![tc] + rest);
        lemma_all_fit_append(seq![tc], rest);
        assert(tc.len() <= u32::MAX) by {
            assert(seq![tc][0] == tc);
        }
        lemma_step_tags(s, fi, m.tags);
        lemma_apply_chunks_append(s, fi, seq![tc], rest);
        let s1 = apply_chunks(s, fi, seq![tc]).get_Ok_0();
        assert(s1.file.tags =~= bare_tags(m.tags));
        assert(all_framed(seq![tc])) by {
            assert(seq![tc][0] == tc);
        }
        if any_tag_ud(m) {
            assert forall|i: int| 0 <= i < m.tags.len() implies ud_ok(#[trigger] m.tags[i].user_data) by {
                assert(str_fits(m.tags[i].name));
            }
            lemma_tag_uds(m, s1, fi, m.tags.len());
            assert(tags_mix(m, m.tags.len() as int) =~= rb_tags(m));
        } else {
            assert(apply_chunks(s1, fi, Seq::<Seq<u8>>::empty()) == Ok::<ReadState, ErrorModel>(s1));
            assert(bare_tags(m.tags) =~= rb_tags(m));
        }
    } else {
        assert(apply_chunks(s, fi, Seq::<Seq<u8>>::empty()) == Ok::<ReadState, ErrorModel>(s));
        assert(rb_tags(m) =~= Seq::<TagModel>::empty());
    }
}

pub open spec fn rb_slice(sl: SliceModel) -> SliceModel {
    SliceModel { user_data: rb_ud(sl.user_data), ..sl }
}

pub open spec fn rb_slices(ss: Seq<SliceModel>) -> Seq<SliceModel> {
    ss.map_values(|sl: SliceModel| rb_slice(sl))
}

pub open spec fn slice_ok(sl: SliceModel) -> bool {
    sl.keys.len() <= u32::MAX && str_fits(sl.name) && slice_keys_ok(sl) && ud_ok(sl.user_data)
}

/// One slice and its user data read back, after the slices before it.
#[verifier::spinoff_prover]
#[verifier::rlimit(40)]
proof fn lemma_slice_group(m: FileModel, s: ReadState, fi: usize, k: int)
    requires
        0 <= k < m.slices.len() <= u32::MAX,
        slice_ok(m.slices[k]),
        all_fit(slice_group(m, k)),
        s.file.slices == rb_slices(m.slices).take(k),
    ensures
        all_framed(slice_group(m, k)),
        apply_chunks(s, fi, slice_group(m, k)) matches Ok(s2) && s2.file == (FileModel {
            slices: rb_slices(m.slices).take(k + 1),
            chunk_order: s2.file.chunk_order,
            ..s.file
        }),
{
    let g = slice_group(m, k);
    let sl = m.slices[k];
    let sc = wrap(0x2022, enc_slice(sl));
    let ud = opt_ud_chunks(sl.user_data);
    assert(g == seq![sc] + ud);
    lemma_all_fit_append(seq![sc], ud);
    assert(sc.len() <= u32::MAX) by {
        assert(seq![sc][0] == sc);
    }
    lemma_step_slice(s, fi, sl);
    lemma_apply_chunks_append(s, fi, seq![sc], ud);
    let s2 = apply_chunks(s, fi, seq![sc]).get_Ok_0();
    let have = rb_slices(m.slices).take(k);
    assert(s2.file.slices == have.push(SliceModel { user_data: None, ..sl }));
    assert(s2.last == LastEntity::Slice(k as usize));
    lemma_opt_ud_keep(s2, fi, sl.user_data);
    assert(all_framed(seq![sc])) by {
        assert(seq![sc][0] == sc);
    }
    match sl.user_data {
        Some(u) => {
            assert(have.push(SliceModel { user_data: None, ..sl }).update(k, SliceModel {
                user_data: Some(ud_read_back(u)),
                ..SliceModel { user_data: None, ..sl }
            }) =~= rb_slices(m.slices).take(k + 1));
        },
        None => {
            assert(have.push(SliceModel { user_data: None, ..sl }) =~= rb_slices(m.slices).take(k + 1));
        },
    }
}

/// The slices, each with its user data, read back in turn.
#[verifier::spinoff_prover]
pub proof fn lemma_slices_part(m: FileModel, s: ReadState, fi: usize, j: nat)
    requires
        j <= m.slices.len() <= u32::MAX,
        forall|i: int| 0 <= i < m.slices.len() ==> slice_ok(#[trigger] m.slices[i]),
        all_fit(flat_idx(j, |i: int| slice_group(m, i))),
        s.file.slices == Seq::<SliceModel>::empty(),
    ensures
        all_framed(flat_idx(j, |i: int| slice_group(m, i))),
        apply_chunks(s, fi, flat_idx(j, |i: int| slice_group(m, i))) matches Ok(s2) && s2.file == (FileModel {
            slices: rb_slices(m.slices).take(j as int),
            chunk_order: s2.file.chunk_order,
            ..s.file
        }),
    decreases j,
{
    let f = |i: int| slice_group(m, i);
    if j == 0 {
        assert(rb_slices(m.slices).take(0) =~= Seq::<SliceModel>::empty());
        assert(apply_chunks(s, fi, Seq::<Seq<u8>>::empty()) == Ok::<ReadState, ErrorModel>(s));
    } else {
        let k = (j - 1) as nat;
        let prev = flat_idx(k, f);
        assert(flat_idx(j, f) == prev + f(k as int));
        lemma_all_fit_append(prev, f(k as int));
        lemma_slices_part(m, s, fi, k);
        lemma_apply_chunks_append(s, fi, prev, f(k as int));
        let s1 = apply_chunks(s, fi, prev).get_Ok_0();
        assert(slice_ok(m.slices[k as int]));
        lemma_slice_group(m, s1, fi, k as int);
    }
}

/// The tile user data read back for the first `j` tiles, the rest empty.
pub open spec fn tiles_mix(ts: TilesetModel, j: int) -> Seq<Option<UserDataModel>> {
    Seq::new(ts.tile_count as nat, |t: int| if t < j { Some(ud_read_back(tile_ud(ts, t))) } else { None })
}

/// A tileset as reading gives it back: with its own user data and every
/// tile's where any tile carries some.
pub open spec fn rb_tileset(ts: TilesetModel) -> TilesetModel {
    TilesetModel {
        user_data: if ts.user_data is Some || has_tile_ud(ts) {
            Some(ud_read_back(ud_or_empty(ts.user_data)))
        } else {
            None
        },
        tile_user_data: if has_tile_ud(ts) { tiles_mix(ts, ts.tile_count as int) } else { no_tile_user_data(ts.tile_count as nat) },
        ..tileset_read_back(ts)
    }
}

pub open spec fn rb_tilesets(s: Seq<TilesetModel>) -> Seq<TilesetModel> {
    s.map_values(|t: TilesetModel| rb_tileset(t))
}

pub open spec fn tileset_ok(ts: TilesetModel) -> bool {
    &&& tileset_codable(ts)
    &&& ud_ok(ts.user_data)
    &&& forall|t: int| 0 <= t < ts.tile_user_data.len() ==> ud_ok(#[trigger] ts.tile_user_data[t])
}

/// The tileset with its own user data read back and that of the first `j`
/// tiles.
pub open spec fn ts_partial(ts: TilesetModel, j: int) -> TilesetModel {
    TilesetModel {
        user_data: Some(ud_read_back(ud_or_empty(ts.user_data))),
        tile_user_data: tiles_mix(ts, j),
        ..tileset_read_back(ts)
    }
}

/// The tile user data chunks of the last tileset, each attached to the
/// next tile in turn.
#[verifier::spinoff_prover]
#[verifier::rlimit(40)]
proof fn lemma_tile_uds(ts: TilesetModel, have: Seq<TilesetModel>, s: ReadState, fi: usize, j: nat)
    requires
        j <= ts.tile_count,
        have.len() < u32::MAX,
        tileset_ok(ts),
        all_fit(flat_idx(j, |i: int| seq![ud_chunk(tile_ud(ts, i))])),
        s.file.tilesets == have.push(ts_partial(ts, 0)),
        s.last == LastEntity::TileSequence(have.len() as usize, 0),
    ensures
        all_framed(flat_idx(j, |i: int| seq![ud_chunk(tile_ud(ts, i))])),
        apply_chunks(s, fi, flat_idx(j, |i: int| seq![ud_chunk(tile_ud(ts, i))])) matches Ok(s2) && s2.file == (FileModel {
            tilesets: have.push(ts_partial(ts, j as int)),
            chunk_order: s2.file.chunk_order,
            ..s.file
        }) && s2.last == LastEntity::TileSequence(have.len() as usize, j as usize),
    decreases j,
{
    let f = |i: int| seq![ud_chunk(tile_ud(ts, i))];
    if j == 0 {
        assert(apply_chunks(s, fi, Seq::<Seq<u8>>::empty()) == Ok::<ReadState, ErrorModel>(s));
    } else {
        let k = (j - 1) as nat;
        let prev = flat_idx(k, f);
        let g = f(k as int);
        assert(flat_idx(j, f) == prev + g);
        lemma_all_fit_append(prev, g);
        lemma_tile_uds(ts, have, s, fi, k);
        lemma_apply_chunks_append(s, fi, prev, g);
        let s1 = apply_chunks(s, fi, prev).get_Ok_0();
        let u = tile_ud(ts, k as int);
        lemma_empty_ud_ok();
        if (k as int) < ts.tile_user_data.len() {
            assert(ud_ok(ts.tile_user_data[k as int]));
        }
        assert(ud_codable(u));
        assert(g[0] == ud_chunk(u));
        lemma_step_ud(s1, fi, u);
        let n = have.len() as int;
        let cur = ts_partial(ts, k as int);
        assert(s1.file.tilesets[n] == cur);
        assert(cur.tile_user_data.len() == ts.tile_count);
        assert(cur.tile_user_data.update(k as int, Some(ud_read_back(u))) =~= tiles_mix(ts, j as int));
        assert(have.push(cur).update(n, TilesetModel {
            tile_user_data: cur.tile_user_data.update(k as int, Some(ud_read_back(u))),
            ..cur
        }) =~= have.push(ts_partial(ts, j as int)));
    }
}

/// The user data chunk right after a tileset chunk, where the tileset or
/// any tile carries user data.
pub open spec fn tileset_ud_chunk(ts: TilesetModel) -> Seq<Seq<u8>> {
    if ts.user_data is Some || has_tile_ud(ts) {
        seq![ud_chunk(ud_or_empty(ts.user_data))]
    } else {
        Seq::empty()
    }
}

/// A tileset chunk and the tileset's user data chunk read back.
#[verifier::spinoff_prover]
#[verifier::rlimit(100)]
proof fn lemma_tileset_head(ts: TilesetModel, have: Seq<TilesetModel>, s: ReadState, fi: usize)
    requires
        have.len() < u32::MAX,
        tileset_ok(ts),
        all_fit(seq![wrap(0x2023, enc_tileset(ts))] + tileset_ud_chunk(ts)),
        s.file.tilesets == have,
    ensures
        all_framed(seq![wrap(0x2023, enc_tileset(ts))] + tileset_ud_chunk(ts)),
        apply_chunks(s, fi, seq![wrap(0x2023, enc_tileset(ts))] + tileset_ud_chunk(ts)) matches Ok(s2) && s2.file == (
        FileModel {
            tilesets: have.push(
                if ts.user_data is Some || has_tile_ud(ts) { ts_partial(ts, 0) } else { tileset_read_back(ts) },
            ),
            chunk_order: s2.file.chunk_order,
            ..s.file
        }) && ((ts.user_data is Some || has_tile_ud(ts)) ==> s2.last == LastEntity::TileSequence(
            have.len() as usize,
            0,
        )),
{
    let tc = wrap(0x2023, enc_tileset(ts));
    let uc = tileset_ud_chunk(ts);
    lemma_all_fit_append(seq![tc], uc);
    assert(tc.len() <= u32::MAX) by {
        assert(seq![tc][0] == tc);
    }
    lemma_step_tileset(s, fi, ts);
    lemma_apply_chunks_append(s, fi, seq![tc], uc);
    let s1 = apply_chunks(s, fi, seq![tc]).get_Ok_0();
    assert(all_framed(seq![tc])) by {
        assert(seq![tc][0] == tc);
    }
    if ts.user_data is Some || has_tile_ud(ts) {
        assert(uc == seq![ud_chunk(ud_or_empty(ts.user_data))]);
        lemma_tileset_ud(ts, have, s1, fi);
    } else {
        assert(apply_chunks(s1, fi, Seq::<Seq<u8>>::empty()) == Ok::<ReadState, ErrorModel>(s1));
    }
}

/// The tileset's user data chunk, right after its tileset chunk.
#[verifier::spinoff_prover]
#[verifier::rlimit(40)]
proof fn lemma_tileset_ud(ts: TilesetModel, have: Seq<TilesetModel>, s: ReadState, fi: usize)
    requires
        have.len() < u32::MAX,
        ud_ok(ts.user_data),
        ud_chunk(ud_or_empty(ts.user_data)).len() <= u32::MAX,
        s.file.tilesets == have.push(tileset_read_back(ts)),
        s.last == LastEntity::Tileset(have.len() as usize),
    ensures
        framed(ud_chunk(ud_or_empty(ts.user_data))),
        apply_chunks(s, fi, seq![ud_chunk(ud_or_empty(ts.user_data))]) matches Ok(s2) && s2.file == (FileModel {
            tilesets: have.push(ts_partial(ts, 0)),
            chunk_order: s2.file.chunk_order,
            ..s.file
        }) && s2.last == LastEntity::TileSequence(have.len() as usize, 0),
{
    let u = ud_or_empty(ts.user_data);
    lemma_empty_ud_ok();
    assert(ud_codable(u));
    lemma_step_ud(s, fi, u);
    let t0 = tileset_read_back(ts);
    assert(s.file.tilesets[have.len() as int] == t0);
    assert(tiles_mix(ts, 0) =~= no_tile_user_data(ts.tile_count as nat));
    assert(TilesetModel { user_data: Some(ud_read_back(u)), ..t0 } == ts_partial(ts, 0));
    assert(have.push(t0).update(have.len() as int, TilesetModel { user_data: Some(ud_read_back(u)), ..t0 })
        =~= have.push(ts_partial(ts, 0)));
}

/// One tileset, its user data and its tiles' user data read back, after
/// the tilesets before it.
#[verifier::spinoff_prover]
#[verifier::rlimit(40)]
proof fn lemma_tileset_group(m: FileModel, s: ReadState, fi: usize, k: int)
    requires
        0 <= k < m.tilesets.len() < u32::MAX,
        tileset_ok(m.tilesets[k]),
        all_fit(tileset_group(m.tilesets[k])),
        s.file.tilesets == rb_tilesets(m.tilesets).take(k),
    ensures
        all_framed(tileset_group(m.tilesets[k])),
        apply_chunks(s, fi, tileset_group(m.tilesets[k])) matches Ok(s2) && s2.file == (FileModel {
            tilesets: rb_tilesets(m.tilesets).take(k + 1),
            chunk_order: s2.file.chunk_order,
            ..s.file
        }),
{
    let ts = m.tilesets[k];
    let g = tileset_group(ts);
    let head = seq![wrap(0x2023, enc_tileset(ts))] + tileset_ud_chunk(ts);
    let f = |i: int| seq![ud_chunk(tile_ud(ts, i))];
    let tiles: Seq<Seq<u8>> = if has_tile_ud(ts) { flat_idx(ts.tile_count as nat, f) } else { Seq::empty() };
    assert(g == head + tiles);
    lemma_all_fit_append(head, tiles);
    let have = rb_tilesets(m.tilesets).take(k);
    lemma_tileset_head(ts, have, s, fi);
    lemma_apply_chunks_append(s, fi, head, tiles);
    let s2 = apply_chunks(s, fi, head).get_Ok_0();
    if has_tile_ud(ts) {
        lemma_tile_uds(ts, have, s2, fi, ts.tile_count as nat);
        assert(have.push(ts_partial(ts, ts.tile_count as int)) =~= rb_tilesets(m.tilesets).take(k + 1));
    } else {
        assert(apply_chunks(s2, fi, Seq::<Seq<u8>>::empty()) == Ok::<ReadState, ErrorModel>(s2));
        if ts.user_data is Some {
            assert(tiles_mix(ts, 0) =~= no_tile_user_data(ts.tile_count as nat));
            assert(have.push(ts_partial(ts, 0)) =~= rb_tilesets(m.tilesets).take(k + 1));
        } else {
            assert(have.push(tileset_read_back(ts)) =~= rb_tilesets(m.tilesets).take(k + 1));
        }
    }
}

/// The tilesets, each with its user data, read back in turn.
#[verifier::spinoff_prover]
pub proof fn lemma_tilesets_part(m: FileModel, s: ReadState, fi: usize, j: nat)
    requires
        j <= m.tilesets.len() < u32::MAX,
        forall|i: int| 0 <= i < m.tilesets.len() ==> tileset_ok(#[trigger] m.tilesets[i]),
        all_fit(flat_idx(j, |i: int| tileset_group(m.tilesets[i]))),
        s.file.tilesets == Seq::<TilesetModel>::empty(),
    ensures
        all_framed(flat_idx(j, |i: int| tileset_group(m.tilesets[i]))),
        apply_chunks(s, fi, flat_idx(j, |i: int| tileset_group(m.tilesets[i]))) matches Ok(s2) && s2.file == (FileModel {
            tilesets: rb_tilesets(m.tilesets).take(j as int),
            chunk_order: s2.file.chunk_order,
            ..s.file
        }),
    decreases j,
{
    let f = |i: int| tileset_group(m.tilesets[i]);
    if j == 0 {
        assert(rb_tilesets(m.tilesets).take(0) =~= Seq::<TilesetModel>::empty());
        assert(apply_chunks(s, fi, Seq::<Seq<u8>>::empty()) == Ok::<ReadState, ErrorModel>(s));
    } else {
        let k = (j - 1) as nat;
        let prev = flat_idx(k, f);
        assert(flat_idx(j, f) == prev + f(k as int));
        lemma_all_fit_append(prev, f(k as int));
        lemma_tilesets_part(m, s, fi, k);
        lemma_apply_chunks_append(s, fi, prev, f(k as int));
        let s1 = apply_chunks(s, fi, prev).get_Ok_0();
        assert(tileset_ok(m.tilesets[k as int]));
        lemma_tileset_group(m, s1, fi, k as int);
    }
}

/// A cel as reading gives it back: as its chunk reads back, with its
/// extra bounds and its user data.
pub open spec fn rb_cel(c: CelModel) -> CelModel {
    CelModel { extra: c.extra, user_data: rb_ud(c.user_data), ..cel_read_back(c) }
}

pub open spec fn rb_opt_cel(c: Option<CelModel>) -> Option<CelModel> {
    match c {
        Some(x) => Some(rb_cel(x)),
        None => None,
    }
}

pub open spec fn cel_ok(c: CelModel, li: usize, mode: ColorMode) -> bool {
    cel_codable(c, li, mode) && ud_ok(c.user_data)
}

/// A cel chunk, its extra bounds and its user data read back: the cel
/// under its key, every other key keeping its cel.
#[verifier::spinoff_prover]
#[verifier::rlimit(60)]
proof fn lemma_cel_group(s: ReadState, fi: usize, key: (usize, usize), c: CelModel)
    requires
        key.1 == fi,
        cel_ok(c, key.0, s.file.color_mode),
        cels_sorted(s.file.cels),
        all_fit(cel_group(key, c)),
    ensures
        all_framed(cel_group(key, c)),
        apply_chunks(s, fi, cel_group(key, c)) matches Ok(s2) && s2.file == (FileModel {
            cels: s2.file.cels,
            chunk_order: s2.file.chunk_order,
            ..s.file
        }) && cels_sorted(s2.file.cels) && forall|k2: (usize, usize)|
            #[trigger] cel_lookup(s2.file.cels, k2) == if k2 == key {
                Some(rb_cel(c))
            } else {
                cel_lookup(s.file.cels, k2)
            },
{
    let li = key.0;
    let cc = wrap(0x2005, enc_cel(c, li));
    let xc: Seq<Seq<u8>> = match c.extra {
        Some(x) => seq![wrap(0x2006, enc_cel_extra(x))],
        None => Seq::empty(),
    };
    let ud = opt_ud_chunks(c.user_data);
    assert(cel_group(key, c) == seq![cc] + xc + ud);
    lemma_all_fit_append(seq![cc] + xc, ud);
    lemma_all_fit_append(seq![cc], xc);
    assert(cc.len() <= u32::MAX) by {
        assert(seq![cc][0] == cc);
    }
    assert(all_framed(seq![cc])) by {
        assert(seq![cc][0] == cc);
    }
    lemma_step_cel(s, fi, c, li);
    lemma_apply_chunks_append(s, fi, seq![cc] + xc, ud);
    lemma_apply_chunks_append(s, fi, seq![cc], xc);
    let s1 = apply_chunks(s, fi, seq![cc]).get_Ok_0();
    let rb0 = cel_read_back(c);
    lemma_insert_props(s.file.cels, key, rb0);
    assert(s1.last == LastEntity::Cel(li, fi));
    let c1 = CelModel { extra: c.extra, ..rb0 };
    let s2 = apply_chunks(s1, fi, xc).get_Ok_0();
    match c.extra {
        Some(x) => {
            assert(xc[0] == wrap(0x2006, enc_cel_extra(x)));
            lemma_step_cel_extra(s1, fi, x, li, fi);
            let f = |cm: CelModel| CelModel { extra: Some(x), ..cm };
            lemma_modify_props(s1.file.cels, key, f);
            assert forall|k2: (usize, usize)| #[trigger] cel_lookup(s2.file.cels, k2) == if k2 == key {
                Some(c1)
            } else {
                cel_lookup(s.file.cels, k2)
            } by {
                lemma_modify_lookup(s1.file.cels, key, f, k2);
            }
        },
        None => {
            assert(apply_chunks(s1, fi, Seq::<Seq<u8>>::empty()) == Ok::<ReadState, ErrorModel>(s1));
            assert(c1 == rb0);
        },
    }
    assert(cels_sorted(s2.file.cels));
    assert(s2.last == LastEntity::Cel(li, fi));
    lemma_opt_ud_keep(s2, fi, c.user_data);
    match c.user_data {
        Some(u) => {
            let s3 = apply_chunks(s2, fi, ud).get_Ok_0();
            let f = |cm: CelModel| CelModel { user_data: Some(ud_read_back(u)), ..cm };
            assert(s3.file.cels == cel_modify(s2.file.cels, key, f));
            lemma_modify_props(s2.file.cels, key, f);
            assert forall|k2: (usize, usize)| #[trigger] cel_lookup(s3.file.cels, k2) == if k2 == key {
                Some(rb_cel(c))
            } else {
                cel_lookup(s.file.cels, k2)
            } by {
                lemma_modify_lookup(s2.file.cels, key, f, k2);
            }
        },
        None => {
            assert(c1 == rb_cel(c));
        },
    }
}

/// The cels that reading has given back before entry `j` of the cels of
/// frame `fi`: those of earlier frames, and those of frame `fi` among the
/// first `j` entries.
pub open spec fn cels_before(m: FileModel, fi: usize, j: int, key: (usize, usize)) -> Option<CelModel> {
    if key.1 < fi {
        rb_opt_cel(cel_lookup(m.cels, key))
    } else if key.1 == fi {
        rb_opt_cel(cel_lookup(m.cels.take(j), key))
    } else {
        None
    }
}

pub open spec fn cels_match(cels: Seq<((usize, usize), CelModel)>, m: FileModel, fi: usize, j: int) -> bool {
    cels_sorted(cels) && forall|key: (usize, usize)| #[trigger] cel_lookup(cels, key) == cels_before(m, fi, j, key)
}

pub open spec fn cels_ok(m: FileModel) -> bool {
    forall|i: int| 0 <= i < m.cels.len() ==> cel_ok(#[trigger] m.cels[i].1, m.cels[i].0.0, m.color_mode)
}

/// The cels of frame `fi`, each with its extra bounds and user data, read
/// back in turn.
#[verifier::spinoff_prover]
#[verifier::rlimit(40)]
pub proof fn lemma_cel_part(m: FileModel, s: ReadState, fi: usize, j: nat)
    requires
        j <= m.cels.len(),
        cels_sorted(m.cels),
        cels_ok(m),
        s.file.color_mode == m.color_mode,
        all_fit(flat_idx(j, |i: int| cel_item(m, fi, i))),
        cels_match(s.file.cels, m, fi, 0),
    ensures
        all_framed(flat_idx(j, |i: int| cel_item(m, fi, i))),
        apply_chunks(s, fi, flat_idx(j, |i: int| cel_item(m, fi, i))) matches Ok(s2) && s2.file == (FileModel {
            cels: s2.file.cels,
            chunk_order: s2.file.chunk_order,
            ..s.file
        }) && cels_match(s2.file.cels, m, fi, j as int),
    decreases j,
{
    let f = |i: int| cel_item(m, fi, i);
    if j == 0 {
        assert(apply_chunks(s, fi, Seq::<Seq<u8>>::empty()) == Ok::<ReadState, ErrorModel>(s));
    } else {
        let k = (j - 1) as nat;
        let prev = flat_idx(k, f);
        let g = f(k as int);
        assert(flat_idx(j, f) == prev + g);
        lemma_all_fit_append(prev, g);
        lemma_cel_part(m, s, fi, k);
        lemma_apply_chunks_append(s, fi, prev, g);
        let s1 = apply_chunks(s, fi, prev).get_Ok_0();
        let e = m.cels[k as int];
        if e.0.1 == fi {
            assert(cel_ok(e.1, e.0.0, m.color_mode));
            lemma_cel_group(s1, fi, e.0, e.1);
            let s2 = apply_chunks(s1, fi, g).get_Ok_0();
            assert forall|key: (usize, usize)| #[trigger] cel_lookup(s2.file.cels, key) == cels_before(m, fi, j as int, key) by {
                lemma_lookup_take_next(m.cels, k as int, key);
                assert(cel_lookup(s1.file.cels, key) == cels_before(m, fi, k as int, key));
            }
        } else {
            assert(apply_chunks(s1, fi, Seq::<Seq<u8>>::empty()) == Ok::<ReadState, ErrorModel>(s1));
            assert forall|key: (usize, usize)| #[trigger] cel_lookup(s1.file.cels, key) == cels_before(m, fi, j as int, key) by {
                lemma_lookup_take_next(m.cels, k as int, key);
                assert(cel_lookup(s1.file.cels, key) == cels_before(m, fi, k as int, key));
            }
        }
    }
}

/// Whether each part of the first frame reads back.
pub open spec fn parts_ok(m: FileModel) -> bool {
    &&& m.external_files.len() <= u32::MAX
    &&& forall|i: int| 0 <= i < m.external_files.len() ==> str_fits(#[trigger] m.external_files[i].name)
    &&& m.tilesets.len() < u32::MAX
    &&& forall|i: int| 0 <= i < m.tilesets.len() ==> tileset_ok(#[trigger] m.tilesets[i])
    &&& m.layers.len() <= 65535
    &&& parents_ok(m.layers)
    &&& parents_are_groups(m.layers)
    &&& forall|i: int| 0 <= i < m.layers.len() ==> str_fits(#[trigger] m.layers[i].name) && ud_ok(m.layers[i].user_data)
    &&& m.color_profile matches Some(ColorProfileModel::Icc { data, .. }) ==> data.len() <= u32::MAX
    &&& m.palette.len() <= u32::MAX
    &&& palette_names_fit(m.palette)
    &&& ud_ok(m.sprite_user_data)
    &&& m.tags.len() <= u16::MAX
    &&& forall|i: int|
        0 <= i < m.tags.len() ==> str_fits(#[trigger] m.tags[i].name) && ud_ok(m.tags[i].user_data)
    &&& m.slices.len() <= u32::MAX
    &&& forall|i: int| 0 <= i < m.slices.len() ==> slice_ok(#[trigger] m.slices[i])
}

/// The first frame's own chunks read back into a state that has none of
/// what they describe yet.
#[verifier::spinoff_prover]
#[verifier::rlimit(60)]
pub proof fn lemma_first_frame(m: FileModel, s: ReadState)
    requires
        parts_ok(m),
        all_fit(first_frame_chunks(m)),
        s.file.external_files == Seq::<ExternalFileModel>::empty(),
        s.file.tilesets == Seq::<TilesetModel>::empty(),
        s.file.layers == Seq::<LayerModel>::empty(),
        s.file.color_profile is None,
        s.file.palette == Seq::<ColorModel>::empty(),
        s.file.sprite_user_data is None,
        s.file.tags == Seq::<TagModel>::empty(),
        s.file.slices == Seq::<SliceModel>::empty(),
    ensures
        all_framed(first_frame_chunks(m)),
        apply_chunks(s, 0, first_frame_chunks(m)) matches Ok(s2) && s2.file == (FileModel {
            external_files: m.external_files,
            tilesets: rb_tilesets(m.tilesets),
            layers: rb_layers(m.layers),
            color_profile: m.color_profile,
            palette: rb_palette(m),
            sprite_user_data: rb_sprite_ud(m),
            tags: rb_tags(m),
            slices: rb_slices(m.slices),
            chunk_order: s2.file.chunk_order,
            ..s.file
        }),
{
    let p1 = ext_part(m);
    let p2 = flat_idx(m.tilesets.len(), |i: int| tileset_group(m.tilesets[i]));
    let p3 = flat_idx(m.layers.len(), |i: int| layer_group(m, i));
    let p4 = profile_part(m);
    let p5 = palette_part(m);
    let p6 = tags_part(m);
    let p7 = flat_idx(m.slices.len(), |i: int| slice_group(m, i));
    assert(first_frame_chunks(m) == p1 + p2 + p3 + p4 + p5 + p6 + p7);
    lemma_all_fit_append(p1 + p2 + p3 + p4 + p5 + p6, p7);
    lemma_all_fit_append(p1 + p2 + p3 + p4 + p5, p6);
    lemma_all_fit_append(p1 + p2 + p3 + p4, p5);
    lemma_all_fit_append(p1 + p2 + p3, p4);
    lemma_all_fit_append(p1 + p2, p3);
    lemma_all_fit_append(p1, p2);
    lemma_apply_chunks_append(s, 0, p1 + p2 + p3 + p4 + p5 + p6, p7);
    lemma_apply_chunks_append(s, 0, p1 + p2 + p3 + p4 + p5, p6);
    lemma_apply_chunks_append(s, 0, p1 + p2 + p3 + p4, p5);
    lemma_apply_chunks_append(s, 0, p1 + p2 + p3, p4);
    lemma_apply_chunks_append(s, 0, p1 + p2, p3);
    lemma_apply_chunks_append(s, 0, p1, p2);
    lemma_ext_part(m, s, 0);
    let s1 = apply_chunks(s, 0, p1).get_Ok_0();
    lemma_tilesets_part(m, s1, 0, m.tilesets.len());
    assert(rb_tilesets(m.tilesets).take(m.tilesets.len() as int) =~= rb_tilesets(m.tilesets));
    let s2 = apply_chunks(s1, 0, p2).get_Ok_0();
    lemma_layers_part(m, s2, 0, m.layers.len());
    assert(rb_layers(m.layers).take(m.layers.len() as int) =~= rb_layers(m.layers));
    let s3 = apply_chunks(s2, 0, p3).get_Ok_0();
    lemma_profile_part(m, s3, 0);
    let s4 = apply_chunks(s3, 0, p4).get_Ok_0();
    lemma_palette_part(m, s4);
    let s5 = apply_chunks(s4, 0, p5).get_Ok_0();
    lemma_tags_part(m, s5, 0);
    let s6 = apply_chunks(s5, 0, p6).get_Ok_0();
    lemma_slices_part(m, s6, 0, m.slices.len());
    assert(rb_slices(m.slices).take(m.slices.len() as int) =~= rb_slices(m.slices));
}

/// The model as reading gives it back after the first `k` frames, leaving
/// aside the cels and the recorded chunk order.
pub open spec fn after_frames(m: FileModel, k: nat) -> FileModel {
    if k == 0 {
        header_of(m)
    } else {
        FileModel {
            frames: m.frames.take(k as int),
            external_files: m.external_files,
            tilesets: rb_tilesets(m.tilesets),
            layers: rb_layers(m.layers),
            color_profile: m.color_profile,
            palette: rb_palette(m),
            sprite_user_data: rb_sprite_ud(m),
            tags: rb_tags(m),
            slices: rb_slices(m.slices),
            ..header_of(m)
        }
    }
}

/// A model with its cels and recorded chunk order left aside.
pub open spec fn without_cels(m: FileModel) -> FileModel {
    FileModel { cels: Seq::empty(), chunk_order: Seq::empty(), ..m }
}

/// Every chunk of frame `fi` fits its 32-bit size word, and the frame has
/// fewer than 2^32 chunks.
pub open spec fn frame_fits(m: FileModel, fi: usize) -> bool {
    all_fit(frame_chunks(m, fi)) && frame_chunks(m, fi).len() <= u32::MAX
}

/// One frame's chunks read back after the frames before it.
#[verifier::spinoff_prover]
#[verifier::rlimit(60)]
proof fn lemma_frame(m: FileModel, s: ReadState, k: nat)
    requires
        k < m.frames.len() <= 65535,
        m.chunk_order.len() == 0,
        m.unknown_chunks.len() == 0,
        cels_sorted(m.cels),
        cels_ok(m),
        parts_ok(m),
        frame_fits(m, k as usize),
        without_cels(s.file) == without_cels(FileModel { frames: m.frames.take(k + 1 as int), ..after_frames(m, k) }),
        cels_match(s.file.cels, m, k as usize, 0),
    ensures
        all_framed(frame_chunks(m, k as usize)),
        apply_chunks(s, k as usize, frame_chunks(m, k as usize)) matches Ok(s2) && without_cels(s2.file)
            == without_cels(after_frames(m, k + 1)) && cels_match(s2.file.cels, m, (k + 1) as usize, 0),
{
    let fi = k as usize;
    reveal(frame_chunks);
    assert(!has_order(m, fi));
    let first: Seq<Seq<u8>> = if fi == 0 { first_frame_chunks(m) } else { Seq::empty() };
    let cp = cel_part(m, fi);
    assert(unknown_part(m, fi) =~= Seq::<Seq<u8>>::empty());
    assert(frame_chunks(m, fi) =~= first + cp);
    lemma_all_fit_append(first, cp);
    lemma_apply_chunks_append(s, fi, first, cp);
    let hd = header_of(m);
    if fi == 0 {
        assert(s.file.external_files == hd.external_files);
        lemma_first_frame(m, s);
    } else {
        assert(apply_chunks(s, fi, Seq::<Seq<u8>>::empty()) == Ok::<ReadState, ErrorModel>(s));
    }
    let s1 = apply_chunks(s, fi, first).get_Ok_0();
    assert(without_cels(s1.file) == without_cels(after_frames(m, k + 1)));
    assert(s1.file.cels == s.file.cels);
    assert(s1.file.color_mode == m.color_mode);
    lemma_cel_part(m, s1, fi, m.cels.len());
    let s2 = apply_chunks(s1, fi, cp).get_Ok_0();
    assert forall|key: (usize, usize)| #[trigger] cel_lookup(s2.file.cels, key) == cels_before(m, (k + 1) as usize, 0, key) by {
        crate::cels::lemma_lookup_take_all(m.cels, key);
        assert(m.cels.take(0) =~= Seq::<((usize, usize), CelModel)>::empty());
    }
}

/// The frames read back in turn after the header.
#[verifier::spinoff_prover]
#[verifier::rlimit(40)]
proof fn lemma_frames(m: FileModel, k: nat)
    requires
        k <= m.frames.len() <= 65535,
        m.chunk_order.len() == 0,
        m.unknown_chunks.len() == 0,
        cels_sorted(m.cels),
        cels_ok(m),
        parts_ok(m),
        forall|fi: int| 0 <= fi < m.frames.len() ==> #[trigger] frame_fits(m, fi as usize),
    ensures
        forall|fi: int| 0 <= fi < k ==> #[trigger] all_framed(frame_chunks(m, fi as usize)),
        apply_frames(m, ReadState { file: header_of(m), last: LastEntity::Nothing }, k) matches Ok(s) && without_cels(
            s.file,
        ) == without_cels(after_frames(m, k)) && cels_match(s.file.cels, m, k as usize, 0),
    decreases k,
{
    let s0 = ReadState { file: header_of(m), last: LastEntity::Nothing };
    if k == 0 {
        assert forall|key: (usize, usize)| #[trigger] cel_lookup(s0.file.cels, key) == cels_before(m, 0, 0, key) by {
            assert(m.cels.take(0) =~= Seq::<((usize, usize), CelModel)>::empty());
        }
    } else {
        let j = (k - 1) as nat;
        lemma_frames(m, j);
        let s = apply_frames(m, s0, j).get_Ok_0();
        let s1 = ReadState { file: FileModel { frames: s.file.frames.push(m.frames[j as int]), ..s.file }, last: s.last };
        assert(s.file.frames == m.frames.take(j as int));
        assert(m.frames.take(j as int).push(m.frames[j as int]) =~= m.frames.take(k as int));
        assert(without_cels(s1.file) == without_cels(FileModel { frames: m.frames.take(j + 1 as int), ..after_frames(m, j) }));
        assert(frame_fits(m, j as usize));
        lemma_frame(m, s1, j);
    }
}

/// What reading a written file gives back: the header's fields (a pixel
/// ratio component 0 read as 1), the frames, external files and color
/// profile as written; tilesets, layers, tags, slices and cels with their
/// user data as its chunk gives it back (every tag with user data where
/// any tag has some, a tileset and each of its tiles with user data where
/// any tile has some); each tag's frame numbers as their low 16 bits,
/// which is what the tags chunk stores; each layer's parent the last group
/// before it one
/// level up, as its written depth gives it; tilesets and cels with the
/// compressed stream they were stored with; a one-color palette where
/// only sprite user data asked for a palette chunk; and no kept chunks or
/// legacy masks.
pub open spec fn read_back(m: FileModel) -> FileModel {
    FileModel {
        cels: m.cels.map_values(|e: ((usize, usize), CelModel)| (e.0, rb_cel(e.1))),
        ..after_frames(m, m.frames.len())
    }
}

/// The conditions under which a model reads back from its bytes as
/// `read_back` says: its invariant; at least one frame and at most 65535;
/// no recorded chunk order or kept chunks (a file built through the
/// library's methods); every layer's parent a group; each part within the
/// format's limits; each cel's
/// frame among the frames; and every chunk under 4 GiB, fewer than 2^32
/// per frame.
pub open spec fn writable(m: FileModel) -> bool {
    &&& m.wf()
    &&& 0 < m.frames.len() <= 65535
    &&& m.chunk_order.len() == 0
    &&& m.unknown_chunks.len() == 0
    &&& parts_ok(m)
    &&& cels_ok(m)
    &&& forall|i: int| 0 <= i < m.cels.len() ==> (#[trigger] m.cels[i]).0.1 < m.frames.len()
    &&& forall|fi: int| 0 <= fi < m.frames.len() ==> #[trigger] frame_fits(m, fi as usize)
}

/// The cels of the mapped entries are the mapped cels.
#[verifier::spinoff_prover]
pub proof fn lemma_lookup_rb(m: FileModel, key: (usize, usize))
    requires
        cels_sorted(m.cels),
    ensures
        cel_lookup(read_back(m).cels, key) == rb_opt_cel(cel_lookup(m.cels, key)),
{
    let t = read_back(m).cels;
    assert(t.len() == m.cels.len());
    assert(forall|i: int| 0 <= i < t.len() ==> (#[trigger] t[i]) == (m.cels[i].0, rb_cel(m.cels[i].1)));
    assert(cels_sorted(t));
    if crate::cels::has_key(m.cels, key) {
        let i = choose|i: int| 0 <= i < m.cels.len() && #[trigger] m.cels[i].0 == key;
        crate::cels::lemma_lookup_at(m.cels, i);
        crate::cels::lemma_lookup_at(t, i);
    } else {
        assert forall|i: int| 0 <= i < t.len() implies t[i].0 != key by {
            assert(t[i].0 == m.cels[i].0);
        }
        crate::cels::lemma_lookup_absent(t, key);
    }
}

/// A file written and read back gives back what `read_back` says: every
/// field but the cels and the recorded chunk order equal, the cels in key
/// order with the cel that `read_back` has under every key, and the chunk
/// order recording every chunk written, frame by frame.
#[verifier::spinoff_prover]
pub proof fn lemma_write_then_read(m: FileModel)
    requires
        writable(m),
    ensures
        parse_file(enc_file(m)) matches Ok(r) && without_cels(r) == without_cels(read_back(m)) && cels_sorted(
            r.cels,
        ) && forall|key: (usize, usize)| #[trigger] cel_lookup(r.cels, key) == cel_lookup(read_back(m).cels, key),
        parse_file(enc_file(m)) matches Ok(r) && r.chunk_order == order_of(m, m.frames.len()),
{
    let n = m.frames.len();
    lemma_frames(m, n);
    lemma_frames_order(m, n);
    assert forall|fi: int| 0 <= fi < m.frames.len() implies {
        &&& #[trigger] frame_chunks(m, fi as usize).len() <= u32::MAX
        &&& forall|i: int|
            0 <= i < frame_chunks(m, fi as usize).len() ==> framed(#[trigger] frame_chunks(m, fi as usize)[i])
    } by {
        assert(frame_fits(m, fi as usize));
        assert(all_framed(frame_chunks(m, fi as usize)));
    }
    assert(frames_framed(m));
    lemma_parse_written(m);
    let r = apply_frames(m, ReadState { file: header_of(m), last: LastEntity::Nothing }, n).get_Ok_0().file;
    assert forall|key: (usize, usize)| #[trigger] cel_lookup(r.cels, key) == cel_lookup(read_back(m).cels, key) by {
        lemma_lookup_rb(m, key);
        assert(cel_lookup(r.cels, key) == cels_before(m, n as usize, 0, key));
        assert(m.cels.take(0) =~= Seq::<((usize, usize), CelModel)>::empty());
        if key.1 >= n {
            assert forall|i: int| 0 <= i < m.cels.len() implies m.cels[i].0 != key by {
                assert(m.cels[i].0.1 < n);
            }
            crate::cels::lemma_lookup_absent(m.cels, key);
        }
    }
}

/// A cel's kind with no record of the stream its data was stored in.
pub open spec fn kind_without_stream(k: CelKindModel) -> CelKindModel {
    match k {
        CelKindModel::Compressed { pixels, x, y, .. } => CelKindModel::Compressed {
            pixels,
            x,
            y,
            original_compressed: None,
        },
        CelKindModel::Tilemap {
            width,
            height,
            bits_per_tile,
            tile_id_bitmask,
            x_flip_bitmask,
            y_flip_bitmask,
            d_flip_bitmask,
            tiles,
            x,
            y,
            ..
        } => CelKindModel::Tilemap {
            width,
            height,
            bits_per_tile,
            tile_id_bitmask,
            x_flip_bitmask,
            y_flip_bitmask,
            d_flip_bitmask,
            tiles,
            x,
            y,
            original_compressed: None,
        },
        _ => k,
    }
}

/// What a written file reads back with, field by field: the canvas, color
/// mode, flags, transparent index, grid, color profile, frames and external
/// files as written, the pixel ratio too where neither component is 0;
/// the layers, each with its name, kind, opacity, blend mode and flags,
/// nested as deep as before, under the last group before it one level up;
/// the tags, each with its name, direction and repeat count and its frame
/// numbers as their low 16 bits; the slices, each with its name; the
/// palette where it was not empty; the cels under the same keys, each with
/// its opacity, z-index, extra bounds and kind, all but the record of its
/// compressed stream; and no legacy masks or kept chunks.
#[verifier::spinoff_prover]
pub proof fn lemma_written_fields(m: FileModel)
    requires
        writable(m),
    ensures
        parse_file(enc_file(m)) matches Ok(r) && {
            &&& r.width == m.width && r.height == m.height && r.color_mode == m.color_mode
            &&& r.flags == m.flags && r.transparent_index == m.transparent_index && r.grid == m.grid
            &&& r.color_profile == m.color_profile && r.frames == m.frames
            &&& r.external_files == m.external_files
            &&& m.pixel_ratio.0 != 0 && m.pixel_ratio.1 != 0 ==> r.pixel_ratio == m.pixel_ratio
            &&& r.layers.len() == m.layers.len()
            &&& forall|i: int|
                0 <= i < m.layers.len() ==> {
                    &&& (#[trigger] r.layers[i]).name == m.layers[i].name
                    &&& r.layers[i].kind == m.layers[i].kind
                    &&& r.layers[i].opacity == m.layers[i].opacity
                    &&& r.layers[i].blend_mode == m.layers[i].blend_mode
                    &&& r.layers[i].visible == m.layers[i].visible
                    &&& r.layers[i].editable == m.layers[i].editable
                    &&& r.layers[i].lock_movement == m.layers[i].lock_movement
                    &&& r.layers[i].background == m.layers[i].background
                    &&& r.layers[i].prefer_linked_cels == m.layers[i].prefer_linked_cels
                    &&& r.layers[i].collapsed == m.layers[i].collapsed
                    &&& r.layers[i].reference_layer == m.layers[i].reference_layer
                    &&& depth(r.layers, i) == depth(m.layers, i)
                    &&& r.layers[i].parent == read_parent(m.layers, i)
                }
            &&& r.tags.len() == m.tags.len()
            &&& forall|i: int|
                0 <= i < m.tags.len() ==> {
                    &&& (#[trigger] r.tags[i]).name == m.tags[i].name
                    &&& r.tags[i].from_frame == frame_as_read(m.tags[i].from_frame)
                    &&& r.tags[i].to_frame == frame_as_read(m.tags[i].to_frame)
                    &&& r.tags[i].direction == m.tags[i].direction
                    &&& r.tags[i].repeat == m.tags[i].repeat
                }
            &&& r.slices.len() == m.slices.len()
            &&& forall|i: int| 0 <= i < m.slices.len() ==> (#[trigger] r.slices[i]).name == m.slices[i].name
            &&& m.palette.len() > 0 ==> r.palette == m.palette
            &&& forall|key: (usize, usize)| (#[trigger] cel_lookup(r.cels, key) is Some) == (cel_lookup(m.cels, key) is Some)
            &&& forall|key: (usize, usize)|
                #[trigger] cel_lookup(m.cels, key) matches Some(c) ==> cel_lookup(r.cels, key) matches Some(d) && {
                    &&& d.opacity == c.opacity && d.z_index == c.z_index && d.extra == c.extra
                    &&& kind_without_stream(d.kind) == kind_without_stream(c.kind)
                }
            &&& r.legacy_masks.len() == 0 && r.unknown_chunks.len() == 0
        },
{
    lemma_write_then_read(m);
    let r = parse_file(enc_file(m)).get_Ok_0();
    let rb = read_back(m);
    assert(without_cels(r) == without_cels(rb));
    assert(r.layers == rb_layers(m.layers));
    assert(r.tags == rb_tags(m));
    assert(r.slices == rb_slices(m.slices));
    assert forall|i: int| 0 <= i < m.layers.len() implies depth(r.layers, i) == depth(m.layers, i) by {
        lemma_rb_depth(m.layers, i);
    }
    assert forall|i: int| 0 <= i < m.tags.len() implies (#[trigger] r.tags[i]).name == m.tags[i].name by {
        assert(r.tags[i] == rb_tag(m, m.tags[i]));
    }
    assert forall|key: (usize, usize)| (#[trigger] cel_lookup(r.cels, key) is Some) == (cel_lookup(m.cels, key) is Some) by {
        lemma_lookup_rb(m, key);
    }
    assert forall|key: (usize, usize)|
        #[trigger] cel_lookup(m.cels, key) matches Some(c) ==> cel_lookup(r.cels, key) matches Some(d) && {
            &&& d.opacity == c.opacity && d.z_index == c.z_index && d.extra == c.extra
            &&& kind_without_stream(d.kind) == kind_without_stream(c.kind)
        } by {
        lemma_lookup_rb(m, key);
    }
}

// --- The chunk order that reading records ---

/// The entry that reading records for chunk `c` of frame `fi`, in a file
/// of color mode `mode`.
pub open spec fn order_entry(mode: ColorMode, fi: usize, c: Seq<u8>) -> ChunkOrderEntry {
    ChunkOrderEntry {
        frame_index: fi,
        chunk_type: chunk_type_of(c),
        layer_index: if chunk_type_of(c) == 0x2005 {
            match dec_cel(chunk_body(c), mode) {
                Ok(Some((l, _))) => Some(l),
                _ => None,
            }
        } else {
            None
        },
    }
}

pub open spec fn order_entries(mode: ColorMode, fi: usize, cs: Seq<Seq<u8>>) -> Seq<ChunkOrderEntry> {
    cs.map_values(|c: Seq<u8>| order_entry(mode, fi, c))
}

/// Every chunk applied records its entry, and leaves the color mode.
#[verifier::spinoff_prover]
#[verifier::rlimit(100)]
proof fn lemma_apply_chunk_order(s: ReadState, fi: usize, c: Seq<u8>)
    ensures
        apply_chunk(s, fi, chunk_type_of(c), chunk_body(c)) matches Ok(s2) ==> s2.file.chunk_order
            == s.file.chunk_order.push(order_entry(s.file.color_mode, fi, c)) && s2.file.color_mode
            == s.file.color_mode,
{
    reveal(apply_chunk);
}

/// Chunks applied in turn record their entries in turn.
#[verifier::spinoff_prover]
pub proof fn lemma_apply_chunks_order(s: ReadState, fi: usize, cs: Seq<Seq<u8>>)
    ensures
        apply_chunks(s, fi, cs) matches Ok(s2) ==> s2.file.chunk_order == s.file.chunk_order + order_entries(
            s.file.color_mode,
            fi,
            cs,
        ) && s2.file.color_mode == s.file.color_mode,
    decreases cs.len(),
{
    if cs.len() == 0 {
        assert(s.file.chunk_order + order_entries(s.file.color_mode, fi, cs) =~= s.file.chunk_order);
    } else {
        lemma_apply_chunks_order(s, fi, cs.drop_last());
        match apply_chunks(s, fi, cs.drop_last()) {
            Ok(s1) => {
                lemma_apply_chunk_order(s1, fi, cs.last());
                assert(order_entries(s.file.color_mode, fi, cs) =~= order_entries(s.file.color_mode, fi, cs.drop_last()).push(
                    order_entry(s.file.color_mode, fi, cs.last()),
                ));
            },
            Err(_) => {},
        }
    }
}

/// The entries recorded for the first `k` frames of `m` as written.
pub open spec fn order_of(m: FileModel, k: nat) -> Seq<ChunkOrderEntry>
    decreases k,
{
    if k == 0 {
        Seq::empty()
    } else {
        order_of(m, (k - 1) as nat) + order_entries(m.color_mode, (k - 1) as usize, frame_chunks(m, (k - 1) as usize))
    }
}

/// Reading the frames records the entries of their chunks in turn.
#[verifier::spinoff_prover]
pub proof fn lemma_frames_order(m: FileModel, k: nat)
    requires
        k <= m.frames.len(),
    ensures
        apply_frames(m, ReadState { file: header_of(m), last: LastEntity::Nothing }, k) matches Ok(s) ==> s.file.chunk_order
            == order_of(m, k) && s.file.color_mode == m.color_mode,
    decreases k,
{
    let s0 = ReadState { file: header_of(m), last: LastEntity::Nothing };
    if k > 0 {
        lemma_frames_order(m, (k - 1) as nat);
        match apply_frames(m, s0, (k - 1) as nat) {
            Ok(s) => {
                let s1 = ReadState { file: FileModel { frames: s.file.frames.push(m.frames[k - 1]), ..s.file }, last: s.last };
                lemma_apply_chunks_order(s1, (k - 1) as usize, frame_chunks(m, (k - 1) as usize));
            },
            Err(_) => {},
        }
    }
}

} // verus!
