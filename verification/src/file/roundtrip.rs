//! Files that another writer produced, read and written back: a file
//! whose every part is in the form this library writes it gives back its
//! own bytes, in the order its chunks came in.

use vstd::prelude::*;
use super::{depth, FileModel};
use super::reader::{
    apply_chunk, apply_palette_record, chunk_step, dec_frame_head, dec_header, palette_entries, parse_file, read_chunks, read_frames, LastEntity, ReadState,
};
use super::writer::{cel_item, cel_part, concat, write_error, default_chunks, enc_file, enc_frame, enc_header, flat_idx, frame_chunks, unknown_part, frames_bytes, has_order, replay, replay_start, replay_step, unknowns_for, wrap, ReplayState};
use super::rewrite::{lemma_replay_is_run, lemma_run_append, lemma_run_other_frame, replay_run};
use super::readback::lemma_depth_prefix;
use crate::bytes::{i16_at, i16_of_u16, le_i16, le_u16, le_u32, trunc32, u16_at, u16_of_i16, u32_at, zeros};
use crate::cel_chunk::{dec_cel, enc_cel};
use crate::cels::{cel_insert, cel_lookup, cel_modify, cels_sorted, lemma_insert_props, lemma_modify_lookup, lemma_modify_props};
use crate::layer_chunk::{dec_layer, enc_layer};
use crate::legacy_chunks::dec_old_palette;
use crate::list_chunks::{dec_palette, dec_slice, dec_tags, enc_palette, enc_slice, enc_tags, tag_enc_fn};
use crate::codec::lemma_enc_list_congr;
use crate::misc_chunks::{dec_cel_extra, dec_color_profile, dec_ext_files, enc_cel_extra, enc_color_profile, enc_ext_files};
use crate::tileset_chunk::{dec_tileset, enc_tileset};
use crate::model::{empty_ud, CelModel, LayerModel, SliceModel, TagModel, TilesetModel, UnknownChunkModel};
use crate::user_data_chunk::{dec_ud, enc_ud};
use crate::error::ErrorModel;
use crate::types::{ChunkOrderEntry, ColorMode, Frame};

verus! {

/// The chunk types that reading interprets rather than keeps as they are.
pub open spec fn interpreted(t: u16) -> bool {
    ||| t == 0x2004 || t == 0x2005 || t == 0x2006 || t == 0x2007 || t == 0x2008 || t == 0x2018
    ||| t == 0x2019 || t == 0x2020 || t == 0x2022 || t == 0x2023 || t == 0x0004 || t == 0x0011
}

/// Whether a chunk of type `t` came before in the model's recorded order.
pub open spec fn seen(m: FileModel, t: u16) -> bool {
    exists|i: int| 0 <= i < m.chunk_order.len() && (#[trigger] m.chunk_order[i]).chunk_type == t
}

/// Whether a chunk of type `t` in frame `fi` sets what a following user
/// data chunk belongs to, whatever came before it.
pub open spec fn sets_last(t: u16, fi: usize) -> bool {
    t == 0x2004 || t == 0x2005 || t == 0x2018 || t == 0x2022 || t == 0x2023 || (fi == 0 && (t == 0x2019
        || t == 0x0004 || t == 0x0011))
}

/// Whether what a user data chunk belongs to was set within frame `fi`
/// (in the first frame, from the start).
pub open spec fn last_known(m: FileModel, fi: usize) -> bool {
    fi == 0 || exists|i: int|
        0 <= i < m.chunk_order.len() && (#[trigger] m.chunk_order[i]).frame_index == fi && sets_last(
            m.chunk_order[i].chunk_type,
            fi,
        )
}

/// Whether a user data chunk with body `d`, in a parse in state `s`, is
/// the first user data of what it belongs to and encoded as read.
pub open spec fn ud_canonical(s: ReadState, fi: usize, d: Seq<u8>) -> bool {
    let m = s.file;
    &&& last_known(m, fi)
    &&& dec_ud(d) matches Ok(u) && d == enc_ud(u) && match s.last {
        LastEntity::Layer(i) => i < m.layers.len() && m.layers[i as int].user_data is None,
        LastEntity::Cel(l, f) => cel_lookup(m.cels, (l, f)) matches Some(c) && c.user_data is None,
        LastEntity::TagSequence(n) => n < m.tags.len() && m.tags[n as int].user_data is None,
        LastEntity::Palette => m.sprite_user_data is None,
        LastEntity::Slice(i) => i < m.slices.len() && m.slices[i as int].user_data is None,
        LastEntity::Tileset(i) => i < m.tilesets.len() && m.tilesets[i as int].user_data is None,
        LastEntity::TileSequence(i, k) => i < m.tilesets.len() && k < m.tilesets[i as int].tile_user_data.len()
            && m.tilesets[i as int].tile_user_data[k as int] is None,
        LastEntity::Nothing => u == empty_ud(),
    }
}

/// Whether the chunk of type `t` and body `d`, met in frame `fi` by a
/// parse in state `s`, is of a kind covered here and in the form the
/// library writes it: a layer, slice or tileset (in the first frame) whose
/// body is the encoding of what is read, a layer at the nesting depth it
/// is read at; a cel under a key not taken yet whose body is the encoding
/// of the cel read, and the first extra bounds of the cel just read; a
/// first color profile, and a single chunk of external files (at least
/// one), encoded as read; a single tags chunk, with at least
/// one tag, encoded as read; a single new palette chunk that sets the
/// whole palette, encoded as read; an old palette chunk that, after the new
/// one, changes nothing (and, in the first frame, follows a palette); the
/// first user data of a layer, cel, tag, slice, tileset, tile or the
/// sprite, or empty user data
/// where nothing came before it, encoded as read; or a chunk kept as it
/// is.
pub open spec fn chunk_canonical(s: ReadState, fi: usize, t: u16, d: Seq<u8>) -> bool {
    let m = s.file;
    if t == 0x2004 {
        &&& fi == 0
        &&& dec_layer(d) is Some
        &&& apply_chunk(s, fi, t, d) matches Ok(s2) && d == enc_layer(
            s2.file.layers[m.layers.len() as int],
            depth(s2.file.layers, m.layers.len() as int) as u16,
        )
    } else if t == 0x2005 {
        dec_cel(d, m.color_mode) matches Ok(Some((li, c))) && cel_lookup(m.cels, (li, fi)) is None && d == enc_cel(
            c,
            li,
        )
    } else if t == 0x2006 {
        &&& last_known(m, fi)
        &&& s.last matches LastEntity::Cel(l, f) && cel_lookup(m.cels, (l, f)) matches Some(c) && c.extra is None
        &&& dec_cel_extra(d) matches Some(x) && d == enc_cel_extra(x)
    } else if t == 0x2007 {
        dec_color_profile(d) matches Some(p) && m.color_profile is None && d == enc_color_profile(p)
    } else if t == 0x2008 {
        dec_ext_files(d) matches Some(es) && m.external_files.len() == 0 && es.len() > 0 && d == enc_ext_files(es)
    } else if t == 0x2022 {
        &&& fi == 0
        &&& dec_slice(d) matches Some(sl) && d == enc_slice(sl)
    } else if t == 0x2023 {
        &&& fi == 0
        &&& dec_tileset(d) matches Ok(ts) && d == enc_tileset(ts)
    } else if t == 0x2018 {
        dec_tags(d) matches Some(ts) && m.tags.len() == 0 && ts.len() > 0 && d == enc_tags(ts)
    } else if t == 0x2019 {
        dec_palette(d) matches Some(r) && !seen(m, 0x2019) && r.colors.len() > 0 && apply_palette_record(
            m.palette,
            r,
        ) == r.colors && d == enc_palette(r.colors)
    } else if t == 0x0004 || t == 0x0011 {
        &&& dec_old_palette(d, t == 0x0011) matches Some(es) && (seen(m, 0x2019) ==> palette_entries(m.palette, es)
            == m.palette)
        &&& t == 0x0011 && fi == 0 ==> s.last == LastEntity::Palette
    } else if t == 0x2020 {
        ud_canonical(s, fi, d)
    } else {
        !interpreted(t)
    }
}

/// A layer as another, but for its user data.
pub open spec fn layer_like(x: LayerModel, y: LayerModel) -> bool {
    &&& x == LayerModel { user_data: x.user_data, ..y }
    &&& y.user_data is Some ==> x.user_data == y.user_data
}

/// A cel as another, but for its user data and extra bounds.
pub open spec fn cel_like(x: CelModel, y: CelModel) -> bool {
    &&& x == CelModel { user_data: x.user_data, extra: x.extra, ..y }
    &&& y.user_data is Some ==> x.user_data == y.user_data
    &&& y.extra is Some ==> x.extra == y.extra
}

/// A slice as another, but for its user data.
pub open spec fn slice_like(x: SliceModel, y: SliceModel) -> bool {
    &&& x == SliceModel { user_data: x.user_data, ..y }
    &&& y.user_data is Some ==> x.user_data == y.user_data
}

/// A tileset as another, but for its own and its tiles' user data.
pub open spec fn tileset_like(x: TilesetModel, y: TilesetModel) -> bool {
    &&& x == TilesetModel { user_data: x.user_data, tile_user_data: x.tile_user_data, ..y }
    &&& y.user_data is Some ==> x.user_data == y.user_data
    &&& x.tile_user_data.len() == y.tile_user_data.len()
    &&& forall|j: int| 0 <= j < y.tile_user_data.len() && (#[trigger] y.tile_user_data[j]) is Some ==> x.tile_user_data[j] == y.tile_user_data[j]
}

/// A tag as another, but for its user data.
pub open spec fn tag_like(x: TagModel, y: TagModel) -> bool {
    &&& x == TagModel { user_data: x.user_data, ..y }
    &&& y.user_data is Some ==> x.user_data == y.user_data
}

/// What a later model keeps of an earlier one while a file is read: the
/// header fields, the frames, kept chunks and recorded order as a prefix,
/// the layers, cels, tags, slices and tilesets with any user data (and
/// cel extra bounds) they have, the external files once read, a color
/// profile and sprite user data once set, and the palette once the new
/// palette chunk was read.
pub open spec fn grows(a: FileModel, b: FileModel) -> bool {
    &&& b.width == a.width && b.height == a.height && b.color_mode == a.color_mode && b.flags == a.flags
    &&& b.deprecated_speed == a.deprecated_speed && b.num_colors == a.num_colors
    &&& b.transparent_index == a.transparent_index && b.pixel_ratio == a.pixel_ratio && b.grid == a.grid
    &&& a.frames.len() <= b.frames.len() && b.frames.take(a.frames.len() as int) == a.frames
    &&& a.layers.len() <= b.layers.len()
    &&& forall|i: int| 0 <= i < a.layers.len() ==> layer_like(#[trigger] b.layers[i], a.layers[i])
    &&& a.unknown_chunks.len() <= b.unknown_chunks.len() && b.unknown_chunks.take(a.unknown_chunks.len() as int)
        == a.unknown_chunks
    &&& a.chunk_order.len() <= b.chunk_order.len() && b.chunk_order.take(a.chunk_order.len() as int)
        == a.chunk_order
    &&& forall|k: (usize, usize)|
        #[trigger] cel_lookup(a.cels, k) matches Some(c) ==> cel_lookup(b.cels, k) matches Some(c2) && cel_like(c2, c)
    &&& a.tags.len() > 0 ==> b.tags.len() == a.tags.len()
    &&& forall|i: int| 0 <= i < a.tags.len() ==> tag_like(#[trigger] b.tags[i], a.tags[i])
    &&& a.slices.len() <= b.slices.len()
    &&& forall|i: int| 0 <= i < a.slices.len() ==> slice_like(#[trigger] b.slices[i], a.slices[i])
    &&& a.tilesets.len() <= b.tilesets.len()
    &&& forall|i: int| 0 <= i < a.tilesets.len() ==> tileset_like(#[trigger] b.tilesets[i], a.tilesets[i])
    &&& a.external_files.len() > 0 ==> b.external_files == a.external_files
    &&& a.color_profile is Some ==> b.color_profile == a.color_profile
    &&& a.sprite_user_data is Some ==> b.sprite_user_data == a.sprite_user_data
    &&& seen(a, 0x2019) ==> b.palette == a.palette
}

pub proof fn lemma_grows_refl(a: FileModel)
    ensures
        grows(a, a),
{
    assert(a.frames.take(a.frames.len() as int) =~= a.frames);
    assert(a.unknown_chunks.take(a.unknown_chunks.len() as int) =~= a.unknown_chunks);
    assert(a.chunk_order.take(a.chunk_order.len() as int) =~= a.chunk_order);
}

pub proof fn lemma_grows_trans(a: FileModel, b: FileModel, c: FileModel)
    requires
        grows(a, b),
        grows(b, c),
    ensures
        grows(a, c),
{
    assert(c.frames.take(a.frames.len() as int) =~= b.frames.take(b.frames.len() as int).take(a.frames.len() as int));
    assert(c.unknown_chunks.take(a.unknown_chunks.len() as int) =~= b.unknown_chunks.take(
        b.unknown_chunks.len() as int,
    ).take(a.unknown_chunks.len() as int));
    assert(c.chunk_order.take(a.chunk_order.len() as int) =~= b.chunk_order.take(b.chunk_order.len() as int).take(
        a.chunk_order.len() as int,
    ));
    assert forall|k: (usize, usize)|
        #[trigger] cel_lookup(a.cels, k) matches Some(x) ==> cel_lookup(c.cels, k) matches Some(z) && cel_like(z, x) by {
        if cel_lookup(a.cels, k) is Some {
            assert(cel_lookup(b.cels, k) is Some);
        }
    }
    assert forall|i: int| 0 <= i < a.layers.len() implies layer_like(#[trigger] c.layers[i], a.layers[i]) by {
        assert(layer_like(c.layers[i], b.layers[i]));
    }
    assert forall|i: int| 0 <= i < a.tags.len() implies tag_like(#[trigger] c.tags[i], a.tags[i]) by {
        assert(tag_like(c.tags[i], b.tags[i]));
    }
    assert forall|i: int| 0 <= i < a.slices.len() implies slice_like(#[trigger] c.slices[i], a.slices[i]) by {
        assert(slice_like(c.slices[i], b.slices[i]));
    }
    assert forall|i: int| 0 <= i < a.tilesets.len() implies tileset_like(#[trigger] c.tilesets[i], a.tilesets[i]) by {
        let x = c.tilesets[i];
        let y = b.tilesets[i];
        let z = a.tilesets[i];
        assert(tileset_like(x, y) && tileset_like(y, z));
        assert forall|j: int| 0 <= j < z.tile_user_data.len() && (#[trigger] z.tile_user_data[j]) is Some implies x.tile_user_data[j] == z.tile_user_data[j] by {
            assert(y.tile_user_data[j] == z.tile_user_data[j]);
        }
    }
    if seen(a, 0x2019) {
        let i = choose|i: int| 0 <= i < a.chunk_order.len() && (#[trigger] a.chunk_order[i]).chunk_type == 0x2019;
        assert(b.chunk_order[i] == b.chunk_order.take(a.chunk_order.len() as int)[i]);
        assert(seen(b, 0x2019));
    }
    assert(c.frames.take(a.frames.len() as int) == a.frames);
    assert(c.unknown_chunks.take(a.unknown_chunks.len() as int) == a.unknown_chunks);
    assert(c.chunk_order.take(a.chunk_order.len() as int) == a.chunk_order);
}

/// The entry that reading records for a chunk.
pub open spec fn entry_of(s: ReadState, fi: usize, t: u16, d: Seq<u8>) -> ChunkOrderEntry {
    ChunkOrderEntry {
        frame_index: fi,
        chunk_type: t,
        layer_index: if t == 0x2005 {
            match dec_cel(d, s.file.color_mode) {
                Ok(Some((li, _))) => Some(li),
                _ => None,
            }
        } else {
            None
        },
    }
}

/// What reading a covered chunk does: the model grows, its cels stay in
/// order, one entry is recorded, the layers, slices and tilesets grow by
/// one exactly for their own chunks and the kept chunks by one exactly for
/// a chunk kept as it is, and what the chunk describes is in the model.
pub open spec fn step_facts(s: ReadState, fi: usize, t: u16, d: Seq<u8>) -> bool {
    apply_chunk(s, fi, t, d) matches Ok(s2) && {
        &&& grows(s.file, s2.file)
        &&& cels_sorted(s2.file.cels)
        &&& s2.file.chunk_order == s.file.chunk_order.push(entry_of(s, fi, t, d))
        &&& s2.file.layers.len() == s.file.layers.len() + (if t == 0x2004 { 1int } else { 0 })
        &&& s2.file.slices.len() == s.file.slices.len() + (if t == 0x2022 { 1int } else { 0 })
        &&& s2.file.tilesets.len() == s.file.tilesets.len() + (if t == 0x2023 { 1int } else { 0 })
        &&& s2.file.unknown_chunks == (if t == 0x0004 || t == 0x0011 || !interpreted(t) {
            s.file.unknown_chunks.push(UnknownChunkModel { frame_index: fi, chunk_type: t, data: d })
        } else {
            s.file.unknown_chunks
        })
        &&& t == 0x2005 ==> (dec_cel(d, s.file.color_mode) matches Ok(Some((li, c))) && cel_lookup(
            s2.file.cels,
            (li, fi),
        ) == Some(c))
        &&& t == 0x2006 ==> (s.last matches LastEntity::Cel(l, f) && dec_cel_extra(d) matches Some(x) && cel_lookup(
            s2.file.cels,
            (l, f),
        ) matches Some(c) && c.extra == Some(x))
        &&& t == 0x2007 ==> (dec_color_profile(d) matches Some(p) && s2.file.color_profile == Some(p))
        &&& t == 0x2008 ==> (dec_ext_files(d) matches Some(es) && s2.file.external_files == es)
        &&& t == 0x2018 ==> (dec_tags(d) matches Some(ts) && s2.file.tags == ts)
        &&& t == 0x2019 ==> (dec_palette(d) matches Some(r) && s2.file.palette == r.colors)
        &&& t == 0x2022 ==> (dec_slice(d) matches Some(sl) && s2.file.slices[s.file.slices.len() as int] == sl)
        &&& t == 0x2023 ==> (dec_tileset(d) matches Ok(ts) && s2.file.tilesets[s.file.tilesets.len() as int] == ts)
        &&& s2.file.frames == s.file.frames
        &&& forall|k: (usize, usize)| k.1 != fi ==> (#[trigger] cel_lookup(s2.file.cels, k) is Some) == (cel_lookup(s.file.cels, k) is Some)
    }
}

/// A covered chunk read does what `step_facts` says.
pub proof fn lemma_step_grows(s: ReadState, fi: usize, t: u16, d: Seq<u8>)
    requires
        chunk_canonical(s, fi, t, d),
        apply_chunk(s, fi, t, d) is Ok,
        cels_sorted(s.file.cels),
    ensures
        step_facts(s, fi, t, d),
{
    if t == 0x2020 {
        lemma_step_grows_ud(s, fi, d);
    } else if t == 0x2005 || t == 0x2006 {
        lemma_step_grows_cel(s, fi, t, d);
    } else {
        lemma_step_grows_other(s, fi, t, d);
    }
}

/// The prefixes that a chunk read leaves in place.
proof fn lemma_step_prefixes(m: FileModel, m2: FileModel, e: ChunkOrderEntry)
    requires
        m2.chunk_order == m.chunk_order.push(e),
        m2.frames == m.frames,
        m2.unknown_chunks.len() >= m.unknown_chunks.len(),
        forall|i: int| 0 <= i < m.unknown_chunks.len() ==> m2.unknown_chunks[i] == m.unknown_chunks[i],
    ensures
        m2.chunk_order.take(m.chunk_order.len() as int) == m.chunk_order,
        m2.frames.take(m.frames.len() as int) == m.frames,
        m2.unknown_chunks.take(m.unknown_chunks.len() as int) == m.unknown_chunks,
        seen(m, 0x2019) ==> seen(m2, 0x2019),
{
    assert(m2.chunk_order.take(m.chunk_order.len() as int) =~= m.chunk_order);
    assert(m2.frames.take(m.frames.len() as int) =~= m.frames);
    assert(m2.unknown_chunks.take(m.unknown_chunks.len() as int) =~= m.unknown_chunks);
    if seen(m, 0x2019) {
        let i = choose|i: int| 0 <= i < m.chunk_order.len() && (#[trigger] m.chunk_order[i]).chunk_type == 0x2019;
        assert(m2.chunk_order[i] == m.chunk_order[i]);
    }
}

#[verifier::spinoff_prover]
#[verifier::rlimit(100)]
proof fn lemma_step_grows_other(s: ReadState, fi: usize, t: u16, d: Seq<u8>)
    requires
        t != 0x2020 && t != 0x2005 && t != 0x2006,
        chunk_canonical(s, fi, t, d),
        apply_chunk(s, fi, t, d) is Ok,
        cels_sorted(s.file.cels),
    ensures
        step_facts(s, fi, t, d),
{
    reveal(apply_chunk);
    let m = s.file;
    let s2 = apply_chunk(s, fi, t, d)->Ok_0;
    lemma_step_prefixes(m, s2.file, entry_of(s, fi, t, d));
    assert(s2.file.cels == m.cels);
    if t == 0x2018 {
        assert(m.tags + dec_tags(d)->Some_0 =~= dec_tags(d)->Some_0);
    }
    if t == 0x2008 {
        assert(m.external_files + dec_ext_files(d)->Some_0 =~= dec_ext_files(d)->Some_0);
    }
    if t == 0x2023 {
        let ts = dec_tileset(d)->Ok_0;
        assert forall|j: int| 0 <= j < m.tilesets.len() implies tileset_like(#[trigger] s2.file.tilesets[j], m.tilesets[j]) by {
            assert(s2.file.tilesets[j] == m.tilesets[j]);
        }
    }
    if seen(m, 0x2019) {
        assert(t != 0x2019);
        if t == 0x0004 || t == 0x0011 {
            assert(s2.file.palette == palette_entries(m.palette, dec_old_palette(d, t == 0x0011)->Some_0));
        }
    }
}

#[verifier::spinoff_prover]
#[verifier::rlimit(100)]
proof fn lemma_step_grows_cel(s: ReadState, fi: usize, t: u16, d: Seq<u8>)
    requires
        t == 0x2005 || t == 0x2006,
        chunk_canonical(s, fi, t, d),
        apply_chunk(s, fi, t, d) is Ok,
        cels_sorted(s.file.cels),
    ensures
        step_facts(s, fi, t, d),
{
    reveal(apply_chunk);
    let m = s.file;
    let s2 = apply_chunk(s, fi, t, d)->Ok_0;
    lemma_step_prefixes(m, s2.file, entry_of(s, fi, t, d));
    if t == 0x2005 {
        let (li, c) = dec_cel(d, m.color_mode)->Ok_0->Some_0;
        lemma_insert_props(m.cels, (li, fi), c);
        assert forall|k: (usize, usize)|
            #[trigger] cel_lookup(m.cels, k) matches Some(y) ==> cel_lookup(s2.file.cels, k) matches Some(z) && cel_like(z, y) by {
            if k == (li, fi) {
                assert(cel_lookup(m.cels, k) is None);
            }
        }
    } else {
        let x = dec_cel_extra(d)->Some_0;
        let l = s.last->Cel_0;
        let f = s.last->Cel_1;
        let g = |c: CelModel| CelModel { extra: Some(x), ..c };
        assert(s2.file.cels == cel_modify(m.cels, (l, f), g));
        lemma_modify_props(m.cels, (l, f), g);
        assert forall|k: (usize, usize)|
            #[trigger] cel_lookup(m.cels, k) matches Some(y) ==> cel_lookup(s2.file.cels, k) matches Some(z) && cel_like(z, y) by {
            lemma_modify_lookup(m.cels, (l, f), g, k);
        }
        assert forall|k: (usize, usize)| k.1 != fi implies (#[trigger] cel_lookup(s2.file.cels, k) is Some) == (cel_lookup(m.cels, k) is Some) by {
            lemma_modify_lookup(m.cels, (l, f), g, k);
        }
        lemma_modify_lookup(m.cels, (l, f), g, (l, f));
    }
}

#[verifier::spinoff_prover]
#[verifier::rlimit(100)]
proof fn lemma_step_grows_ud(s: ReadState, fi: usize, d: Seq<u8>)
    requires
        chunk_canonical(s, fi, 0x2020, d),
        apply_chunk(s, fi, 0x2020, d) is Ok,
        cels_sorted(s.file.cels),
    ensures
        step_facts(s, fi, 0x2020, d),
{
    reveal(apply_chunk);
    let m = s.file;
    let s2 = apply_chunk(s, fi, 0x2020, d)->Ok_0;
    let u = dec_ud(d)->Ok_0;
    lemma_step_prefixes(m, s2.file, entry_of(s, fi, 0x2020, d));
    assert(seen(m, 0x2019) ==> s2.file.palette == m.palette);
    match s.last {
        LastEntity::Cel(l, f) => {
            let g = |c: CelModel| CelModel { user_data: Some(u), ..c };
            assert(s2.file.cels == cel_modify(m.cels, (l, f), g));
            lemma_modify_props(m.cels, (l, f), g);
            assert forall|k: (usize, usize)|
                #[trigger] cel_lookup(m.cels, k) matches Some(x) ==> cel_lookup(s2.file.cels, k) matches Some(z) && cel_like(z, x) by {
                lemma_modify_lookup(m.cels, (l, f), g, k);
            }
            assert forall|k: (usize, usize)| k.1 != fi implies (#[trigger] cel_lookup(s2.file.cels, k) is Some) == (cel_lookup(m.cels, k) is Some) by {
                lemma_modify_lookup(m.cels, (l, f), g, k);
            }
        },
        LastEntity::Layer(i) => {
            assert forall|j: int| 0 <= j < m.layers.len() implies layer_like(#[trigger] s2.file.layers[j], m.layers[j]) by {}
        },
        LastEntity::TagSequence(n) => {
            assert forall|j: int| 0 <= j < m.tags.len() implies tag_like(#[trigger] s2.file.tags[j], m.tags[j]) by {}
        },
        LastEntity::Slice(n) => {
            assert forall|j: int| 0 <= j < m.slices.len() implies slice_like(#[trigger] s2.file.slices[j], m.slices[j]) by {}
        },
        LastEntity::Tileset(n) => {
            assert forall|j: int| 0 <= j < m.tilesets.len() implies tileset_like(#[trigger] s2.file.tilesets[j], m.tilesets[j]) by {}
        },
        LastEntity::TileSequence(n, k) => {
            assert forall|j: int| 0 <= j < m.tilesets.len() implies tileset_like(#[trigger] s2.file.tilesets[j], m.tilesets[j]) by {
                if j == n {
                    let y = m.tilesets[j];
                    let x = s2.file.tilesets[j];
                    assert forall|q: int| 0 <= q < y.tile_user_data.len() && (#[trigger] y.tile_user_data[q]) is Some implies x.tile_user_data[q] == y.tile_user_data[q] by {}
                }
            }
        },
        _ => {
            assert(s2.file.cels == m.cels);
        },
    }
}

/// The kept chunks of a frame, over two runs of kept chunks.
pub proof fn lemma_unknowns_append(a: Seq<UnknownChunkModel>, b: Seq<UnknownChunkModel>, fi: usize)
    ensures
        unknowns_for(a + b, fi) == unknowns_for(a, fi) + unknowns_for(b, fi),
    decreases b.len(),
{
    if b.len() == 0 {
        assert(a + b =~= a);
        assert(unknowns_for(a, fi) + unknowns_for(b, fi) =~= unknowns_for(a, fi));
    } else {
        lemma_unknowns_append(a, b.drop_last(), fi);
        assert((a + b).drop_last() =~= a + b.drop_last());
        assert((a + b).last() == b.last());
        if b.last().frame_index == fi {
            assert(unknowns_for(a, fi) + unknowns_for(b, fi) =~= (unknowns_for(a, fi) + unknowns_for(
                b.drop_last(),
                fi,
            )).push(b.last()));
        }
    }
}

/// A model's kept chunks of a frame begin with those of an earlier model.
pub proof fn lemma_unknowns_grow(a: FileModel, b: FileModel, fi: usize)
    requires
        grows(a, b),
    ensures
        unknowns_for(a.unknown_chunks, fi).len() <= unknowns_for(b.unknown_chunks, fi).len(),
        forall|i: int|
            0 <= i < unknowns_for(a.unknown_chunks, fi).len() ==> #[trigger] unknowns_for(b.unknown_chunks, fi)[i]
                == unknowns_for(a.unknown_chunks, fi)[i],
{
    let n = a.unknown_chunks.len() as int;
    let rest = b.unknown_chunks.subrange(n, b.unknown_chunks.len() as int);
    assert(b.unknown_chunks =~= a.unknown_chunks + rest) by {
        assert(b.unknown_chunks.take(n) == a.unknown_chunks);
    }
    lemma_unknowns_append(a.unknown_chunks, rest, fi);
}

/// Nesting depths agree where the parents agree.
pub proof fn lemma_depth_like(x: Seq<LayerModel>, y: Seq<LayerModel>, n: int, j: int)
    requires
        0 <= j < n <= x.len(),
        n <= y.len(),
        forall|i: int| 0 <= i < n ==> (#[trigger] x[i]).parent == y[i].parent,
    ensures
        depth(x, j) == depth(y, j),
    decreases j,
{
    assert(x[j].parent == y[j].parent);
    if let Some(p) = x[j].parent {
        if p < j {
            lemma_depth_like(x, y, n, p as int);
        }
    }
}

/// What a replay has written and counted, against what reading has read,
/// before a chunk.
pub open spec fn sim_pre(s: ReadState, fi: usize, t: u16, d: Seq<u8>, r: FileModel, st: ReplayState) -> bool {
    &&& chunk_canonical(s, fi, t, d)
    &&& apply_chunk(s, fi, t, d) is Ok
    &&& cels_sorted(s.file.cels)
    &&& grows(apply_chunk(s, fi, t, d)->Ok_0.file, r)
    &&& fi == 0 ==> st.layers == s.file.layers.len() && st.slices == s.file.slices.len() && st.tilesets
        == s.file.tilesets.len()
    &&& st.unknowns == unknowns_for(s.file.unknown_chunks, fi).len()
    &&& st.last == (if last_known(s.file, fi) { s.last } else { LastEntity::Nothing })
}

/// The same after the chunk, its bytes written once more.
pub open spec fn sim_post(s: ReadState, fi: usize, t: u16, d: Seq<u8>, r: FileModel, st: ReplayState) -> bool {
    apply_chunk(s, fi, t, d) matches Ok(s2) && {
        let st2 = replay_step(r, fi, st, entry_of(s, fi, t, d));
        &&& st2.chunks == st.chunks.push(wrap(t, d))
        &&& fi == 0 ==> st2.layers == s2.file.layers.len() && st2.slices == s2.file.slices.len() && st2.tilesets
            == s2.file.tilesets.len()
        &&& st2.unknowns == unknowns_for(s2.file.unknown_chunks, fi).len()
        &&& st2.last == (if last_known(s2.file, fi) { s2.last } else { LastEntity::Nothing })
    }
}

/// What the replay of a chunk can rely on besides `sim_pre`.
pub open spec fn sim_ctx(s: ReadState, fi: usize, t: u16, d: Seq<u8>, r: FileModel) -> bool {
    &&& step_facts(s, fi, t, d)
    &&& apply_chunk(s, fi, t, d) matches Ok(s2) && {
        &&& last_known(s2.file, fi) == (last_known(s.file, fi) || sets_last(t, fi))
        &&& unknowns_for(s2.file.unknown_chunks, fi).len() <= unknowns_for(r.unknown_chunks, fi).len()
        &&& forall|i: int|
            0 <= i < unknowns_for(s2.file.unknown_chunks, fi).len() ==> #[trigger] unknowns_for(r.unknown_chunks, fi)[i]
                == unknowns_for(s2.file.unknown_chunks, fi)[i]
    }
}

/// One more recorded entry of frame `fi` sets what user data belongs to
/// exactly where it did or the entry's chunk does.
pub proof fn lemma_last_known_push(m: FileModel, m2: FileModel, fi: usize, e: ChunkOrderEntry)
    requires
        m2.chunk_order == m.chunk_order.push(e),
        e.frame_index == fi,
    ensures
        last_known(m2, fi) == (last_known(m, fi) || sets_last(e.chunk_type, fi)),
{
    if last_known(m, fi) && fi != 0 {
        let i = choose|i: int|
            0 <= i < m.chunk_order.len() && (#[trigger] m.chunk_order[i]).frame_index == fi && sets_last(
                m.chunk_order[i].chunk_type,
                fi,
            );
        assert(m2.chunk_order[i] == m.chunk_order[i]);
    }
    if sets_last(e.chunk_type, fi) && fi != 0 {
        assert(m2.chunk_order[m.chunk_order.len() as int] == e);
    }
    if last_known(m2, fi) && fi != 0 && !sets_last(e.chunk_type, fi) {
        let i = choose|i: int|
            0 <= i < m2.chunk_order.len() && (#[trigger] m2.chunk_order[i]).frame_index == fi && sets_last(
                m2.chunk_order[i].chunk_type,
                fi,
            );
        assert(i < m.chunk_order.len());
        assert(m2.chunk_order[i] == m.chunk_order[i]);
    }
}

/// A covered chunk, replayed from the model that reading ends with, is
/// written with the bytes it was read from.
pub proof fn lemma_sim_step(s: ReadState, fi: usize, t: u16, d: Seq<u8>, r: FileModel, st: ReplayState)
    requires
        sim_pre(s, fi, t, d, r, st),
    ensures
        sim_post(s, fi, t, d, r, st),
{
    lemma_step_grows(s, fi, t, d);
    let s2 = apply_chunk(s, fi, t, d)->Ok_0;
    lemma_last_known_push(s.file, s2.file, fi, entry_of(s, fi, t, d));
    lemma_unknowns_grow(s2.file, r, fi);
    assert(sim_ctx(s, fi, t, d, r));
    if t == 0x2004 {
        lemma_sim_layer(s, fi, d, r, st);
    } else if t == 0x2020 {
        lemma_sim_ud(s, fi, d, r, st);
    } else if t == 0x2005 || t == 0x2006 || t == 0x2022 || t == 0x2023 {
        lemma_sim_obj(s, fi, t, d, r, st);
    } else {
        lemma_sim_rest(s, fi, t, d, r, st);
    }
}

#[verifier::spinoff_prover]
#[verifier::rlimit(80)]
proof fn lemma_sim_layer(s: ReadState, fi: usize, d: Seq<u8>, r: FileModel, st: ReplayState)
    requires
        sim_pre(s, fi, 0x2004, d, r, st),
        sim_ctx(s, fi, 0x2004, d, r),
    ensures
        sim_post(s, fi, 0x2004, d, r, st),
{
    let s2 = apply_chunk(s, fi, 0x2004, d)->Ok_0;
    let j = s.file.layers.len() as int;
    assert(layer_like(r.layers[j], s2.file.layers[j]));
    assert forall|i: int| 0 <= i < s2.file.layers.len() implies (#[trigger] r.layers[i]).parent == s2.file.layers[i].parent by {
        assert(layer_like(r.layers[i], s2.file.layers[i]));
    }
    lemma_depth_like(r.layers, s2.file.layers, s2.file.layers.len() as int, j);
    assert(enc_layer(r.layers[j], depth(r.layers, j) as u16) == enc_layer(s2.file.layers[j], depth(s2.file.layers, j) as u16));
    reveal(replay_step);
    reveal(apply_chunk);
}

#[verifier::spinoff_prover]
#[verifier::rlimit(100)]
proof fn lemma_sim_ud(s: ReadState, fi: usize, d: Seq<u8>, r: FileModel, st: ReplayState)
    requires
        sim_pre(s, fi, 0x2020, d, r, st),
        sim_ctx(s, fi, 0x2020, d, r),
    ensures
        sim_post(s, fi, 0x2020, d, r, st),
{
    reveal(apply_chunk);
    let s2 = apply_chunk(s, fi, 0x2020, d)->Ok_0;
    let u = dec_ud(d)->Ok_0;
    let m = s.file;
    assert(st.last == s.last);
    match s.last {
        LastEntity::Layer(i) => {
            assert(s2.file.layers[i as int].user_data == Some(u));
            assert(layer_like(r.layers[i as int], s2.file.layers[i as int]));
        },
        LastEntity::Cel(l, f) => {
            let g = |c: CelModel| CelModel { user_data: Some(u), ..c };
            lemma_modify_lookup(m.cels, (l, f), g, (l, f));
            assert(cel_lookup(s2.file.cels, (l, f)) matches Some(c) && c.user_data == Some(u));
        },
        LastEntity::TagSequence(n) => {
            assert(s2.file.tags[n as int].user_data == Some(u));
            assert(tag_like(r.tags[n as int], s2.file.tags[n as int]));
        },
        LastEntity::Slice(n) => {
            assert(s2.file.slices[n as int].user_data == Some(u));
            assert(slice_like(r.slices[n as int], s2.file.slices[n as int]));
        },
        LastEntity::Tileset(n) => {
            assert(s2.file.tilesets[n as int].user_data == Some(u));
            assert(tileset_like(r.tilesets[n as int], s2.file.tilesets[n as int]));
        },
        LastEntity::TileSequence(n, k) => {
            let y = s2.file.tilesets[n as int];
            assert(y.tile_user_data[k as int] == Some(u));
            assert(tileset_like(r.tilesets[n as int], y));
            assert(r.tilesets[n as int].tile_user_data[k as int] == Some(u));
        },
        _ => {},
    }
    reveal(replay_step);
}

#[verifier::spinoff_prover]
#[verifier::rlimit(100)]
proof fn lemma_sim_obj(s: ReadState, fi: usize, t: u16, d: Seq<u8>, r: FileModel, st: ReplayState)
    requires
        t == 0x2005 || t == 0x2006 || t == 0x2022 || t == 0x2023,
        sim_pre(s, fi, t, d, r, st),
        sim_ctx(s, fi, t, d, r),
    ensures
        sim_post(s, fi, t, d, r, st),
{
    let s2 = apply_chunk(s, fi, t, d)->Ok_0;
    assert(s2.file.unknown_chunks == s.file.unknown_chunks);
    if t == 0x2005 {
        let (li, c) = dec_cel(d, s.file.color_mode)->Ok_0->Some_0;
        assert(cel_lookup(r.cels, (li, fi)) matches Some(c2) && cel_like(c2, c));
        let c2 = cel_lookup(r.cels, (li, fi))->Some_0;
        assert(enc_cel(c2, li) == enc_cel(c, li));
    }
    if t == 0x2006 {
        assert(st.last == s.last);
        let l = s.last->Cel_0;
        let f = s.last->Cel_1;
        let x = dec_cel_extra(d)->Some_0;
        let c = cel_lookup(s2.file.cels, (l, f))->Some_0;
        assert(cel_lookup(r.cels, (l, f)) matches Some(c2) && cel_like(c2, c) && c2.extra == Some(x));
    }
    if t == 0x2022 {
        let j = s.file.slices.len() as int;
        assert(slice_like(r.slices[j], s2.file.slices[j]));
        assert(enc_slice(r.slices[j]) == enc_slice(s2.file.slices[j]));
    }
    if t == 0x2023 {
        let j = s.file.tilesets.len() as int;
        assert(tileset_like(r.tilesets[j], s2.file.tilesets[j]));
        assert(enc_tileset(r.tilesets[j]) == enc_tileset(s2.file.tilesets[j]));
    }
    reveal(replay_step);
    reveal(apply_chunk);
}

#[verifier::spinoff_prover]
#[verifier::rlimit(100)]
proof fn lemma_sim_rest(s: ReadState, fi: usize, t: u16, d: Seq<u8>, r: FileModel, st: ReplayState)
    requires
        t != 0x2004 && t != 0x2020 && t != 0x2005 && t != 0x2006 && t != 0x2022 && t != 0x2023,
        sim_pre(s, fi, t, d, r, st),
        sim_ctx(s, fi, t, d, r),
    ensures
        sim_post(s, fi, t, d, r, st),
{
    let s2 = apply_chunk(s, fi, t, d)->Ok_0;
    let e = entry_of(s, fi, t, d);
    let kept_here = t == 0x0004 || t == 0x0011 || !interpreted(t);
    if kept_here {
        let x = UnknownChunkModel { frame_index: fi, chunk_type: t, data: d };
        assert(s2.file.unknown_chunks.drop_last() =~= s.file.unknown_chunks);
        assert(unknowns_for(s2.file.unknown_chunks, fi) == unknowns_for(s.file.unknown_chunks, fi).push(x));
        let k = st.unknowns as int;
        assert(unknowns_for(r.unknown_chunks, fi)[k] == x);
    }
    if t == 0x2019 {
        assert(s2.file.chunk_order[s2.file.chunk_order.len() - 1] == e);
        assert(seen(s2.file, 0x2019));
    }
    if t == 0x2018 {
        let ts = dec_tags(d)->Some_0;
        assert forall|i: int| 0 <= i < r.tags.len() implies tag_enc_fn()(#[trigger] r.tags[i]) == tag_enc_fn()(ts[i]) by {
            assert(tag_like(r.tags[i], ts[i]));
        }
        lemma_enc_list_congr(r.tags, ts, tag_enc_fn());
        assert(enc_tags(r.tags) == enc_tags(ts));
    }
    reveal(replay_step);
    reveal(apply_chunk);
}

/// Four stored bytes are the little-endian form of the value they hold.
pub proof fn lemma_bytes_u32(b: Seq<u8>, p: int)
    requires
        0 <= p,
        p + 4 <= b.len(),
    ensures
        le_u32(u32_at(b, p)) == b.subrange(p, p + 4),
{
    let x0 = b[p];
    let x1 = b[p + 1];
    let x2 = b[p + 2];
    let x3 = b[p + 3];
    let w = u32_at(b, p);
    assert(w == (x0 + 256 * x1 + 65536 * x2 + 16777216 * x3) as u32);
    assert({
        let v = (x0 + 256 * x1 + 65536 * x2 + 16777216 * x3) as u32;
        &&& (v % 256) as u8 == x0
        &&& ((v / 256) % 256) as u8 == x1
        &&& ((v / 65536) % 256) as u8 == x2
        &&& (v / 16777216) as u8 == x3
    }) by (bit_vector);
    assert(le_u32(w) =~= b.subrange(p, p + 4));
}

/// Two stored bytes are the little-endian form of the value they hold.
pub proof fn lemma_bytes_u16(b: Seq<u8>, p: int)
    requires
        0 <= p,
        p + 2 <= b.len(),
    ensures
        le_u16(u16_at(b, p)) == b.subrange(p, p + 2),
{
    let x0 = b[p];
    let x1 = b[p + 1];
    let w = u16_at(b, p);
    assert(w == (x0 + 256 * x1) as u16);
    assert({
        let v = (x0 + 256 * x1) as u16;
        &&& (v % 256) as u8 == x0
        &&& (v / 256) as u8 == x1
    }) by (bit_vector);
    assert(le_u16(w) =~= b.subrange(p, p + 2));
}

/// A stored chunk is its body framed as the writer frames it.
pub proof fn lemma_chunk_bytes(b: Seq<u8>, p: int)
    requires
        0 <= p,
        p + 6 <= b.len(),
        u32_at(b, p) >= 6,
        p + u32_at(b, p) <= b.len(),
    ensures
        b.subrange(p, p + u32_at(b, p)) == wrap(u16_at(b, p + 4), b.subrange(p + 6, p + u32_at(b, p))),
{
    let n = u32_at(b, p) as int;
    let d = b.subrange(p + 6, p + n);
    assert(trunc32(d.len() + 6int) == u32_at(b, p));
    lemma_bytes_u32(b, p);
    lemma_bytes_u16(b, p + 4);
    assert(b.subrange(p, p + n) =~= b.subrange(p, p + 4) + b.subrange(p + 4, p + 6) + d);
}

/// The stored bytes of the first `k` chunks of a frame read from `p0`.
pub open spec fn frame_chunk_bytes(b: Seq<u8>, p0: int, s0: ReadState, fi: usize, k: nat) -> Seq<Seq<u8>>
    decreases k,
{
    if k == 0 {
        Seq::empty()
    } else {
        match read_chunks(b, p0, s0, fi, (k - 1) as nat) {
            Ok((_, p)) => frame_chunk_bytes(b, p0, s0, fi, (k - 1) as nat).push(b.subrange(p, p + u32_at(b, p))),
            Err(_) => Seq::empty(),
        }
    }
}

/// Whether the first `k` chunks of a frame read from `p0` are each covered
/// and in the form the library writes them.
pub open spec fn chunks_canonical(b: Seq<u8>, p0: int, s0: ReadState, fi: usize, k: nat) -> bool
    decreases k,
{
    if k == 0 {
        true
    } else {
        &&& chunks_canonical(b, p0, s0, fi, (k - 1) as nat)
        &&& match read_chunks(b, p0, s0, fi, (k - 1) as nat) {
            Ok((s, p)) => chunk_canonical(s, fi, u16_at(b, p + 4), b.subrange(p + 6, p + u32_at(b, p))),
            Err(_) => false,
        }
    }
}

/// Bytes that a run of chunks and one chunk more take up.
pub proof fn lemma_concat_push(b: Seq<u8>, p0: int, p1: int, p2: int, cs: Seq<Seq<u8>>)
    requires
        0 <= p0 <= p1 <= p2 <= b.len(),
        b.subrange(p0, p1) == concat(cs),
    ensures
        b.subrange(p0, p2) == concat(cs.push(b.subrange(p1, p2))),
{
    assert(cs.push(b.subrange(p1, p2)).drop_last() =~= cs);
    assert(b.subrange(p0, p2) =~= b.subrange(p0, p1) + b.subrange(p1, p2));
}

/// The chunks of a frame read: the model grows and its cels stay in order.
pub proof fn lemma_frame_grows(b: Seq<u8>, p0: int, s0: ReadState, fi: usize, k: nat)
    requires
        read_chunks(b, p0, s0, fi, k) is Ok,
        chunks_canonical(b, p0, s0, fi, k),
        cels_sorted(s0.file.cels),
    ensures
        read_chunks(b, p0, s0, fi, k) matches Ok((s, p)) && grows(s0.file, s.file) && cels_sorted(s.file.cels),
    decreases k,
{
    if k == 0 {
        lemma_grows_refl(s0.file);
    } else {
        lemma_frame_grows(b, p0, s0, fi, (k - 1) as nat);
        let (s1, p1) = read_chunks(b, p0, s0, fi, (k - 1) as nat)->Ok_0;
        let n = u32_at(b, p1) as int;
        let t = u16_at(b, p1 + 4);
        let d = b.subrange(p1 + 6, p1 + n);
        assert(chunk_step(b, p1, s1, fi) is Ok);
        lemma_step_grows(s1, fi, t, d);
        lemma_grows_trans(s0.file, s1.file, apply_chunk(s1, fi, t, d)->Ok_0.file);
    }
}

/// The chunks of a frame read and then replayed from the model that
/// reading ends with: the model grows, one entry of the frame is recorded
/// per chunk, and replaying those entries writes the bytes read.
#[verifier::spinoff_prover]
#[verifier::rlimit(100)]
pub proof fn lemma_frame_sim(b: Seq<u8>, p0: int, s0: ReadState, fi: usize, k: nat, r: FileModel)
    requires
        read_chunks(b, p0, s0, fi, k) is Ok,
        chunks_canonical(b, p0, s0, fi, k),
        cels_sorted(s0.file.cels),
        grows(read_chunks(b, p0, s0, fi, k)->Ok_0.0.file, r),
        fi == 0 ==> s0.file.layers.len() == 0 && s0.file.slices.len() == 0 && s0.file.tilesets.len() == 0,
        unknowns_for(s0.file.unknown_chunks, fi).len() == 0,
        last_known(s0.file, fi) ==> s0.last == LastEntity::Nothing,
        0 <= p0 <= b.len(),
    ensures
        read_chunks(b, p0, s0, fi, k) matches Ok((s, p)) && {
            let n0 = s0.file.chunk_order.len() as int;
            let es = s.file.chunk_order.subrange(n0, s.file.chunk_order.len() as int);
            let st = replay_run(r, fi, replay_start(), es);
            &&& grows(s0.file, s.file)
            &&& cels_sorted(s.file.cels)
            &&& s.file.chunk_order.len() == n0 + k
            &&& forall|i: int| 0 <= i < es.len() ==> (#[trigger] es[i]).frame_index == fi
            &&& st.chunks == frame_chunk_bytes(b, p0, s0, fi, k)
            &&& fi == 0 ==> st.layers == s.file.layers.len() && st.slices == s.file.slices.len() && st.tilesets
                == s.file.tilesets.len()
            &&& st.unknowns == unknowns_for(s.file.unknown_chunks, fi).len()
            &&& st.last == (if last_known(s.file, fi) { s.last } else { LastEntity::Nothing })
            &&& p0 <= p <= b.len()
            &&& b.subrange(p0, p) == concat(frame_chunk_bytes(b, p0, s0, fi, k))
            &&& s.file.frames == s0.file.frames
        },
    decreases k,
{
    let n0 = s0.file.chunk_order.len() as int;
    if k == 0 {
        lemma_grows_refl(s0.file);
        let es = s0.file.chunk_order.subrange(n0, n0);
        assert(es =~= Seq::<ChunkOrderEntry>::empty());
        assert(b.subrange(p0, p0) =~= Seq::<u8>::empty());
        assert(replay_run(r, fi, replay_start(), es) == replay_start());
        assert(s0.file.chunk_order.subrange(n0, s0.file.chunk_order.len() as int) =~= es);
    } else {
        let (s1, p1) = read_chunks(b, p0, s0, fi, (k - 1) as nat)->Ok_0;
        let n = u32_at(b, p1) as int;
        let t = u16_at(b, p1 + 4);
        let d = b.subrange(p1 + 6, p1 + n);
        assert(chunk_step(b, p1, s1, fi) is Ok);
        lemma_frame_grows(b, p0, s0, fi, (k - 1) as nat);
        let s2 = apply_chunk(s1, fi, t, d)->Ok_0;
        assert(read_chunks(b, p0, s0, fi, k)->Ok_0 == (s2, p1 + n));
        lemma_step_grows(s1, fi, t, d);
        lemma_grows_trans(s1.file, s2.file, r);
        lemma_frame_sim(b, p0, s0, fi, (k - 1) as nat, r);
        lemma_grows_trans(s0.file, s1.file, s2.file);
        let es1 = s1.file.chunk_order.subrange(n0, s1.file.chunk_order.len() as int);
        let e = entry_of(s1, fi, t, d);
        let es = s2.file.chunk_order.subrange(n0, s2.file.chunk_order.len() as int);
        assert(es =~= es1.push(e));
        assert(es.drop_last() =~= es1);
        let st1 = replay_run(r, fi, replay_start(), es1);
        lemma_sim_step(s1, fi, t, d, r, st1);
        assert(replay_run(r, fi, replay_start(), es) == replay_step(r, fi, st1, e));
        lemma_chunk_bytes(b, p1);
        let cs1 = frame_chunk_bytes(b, p0, s0, fi, (k - 1) as nat);
        assert(frame_chunk_bytes(b, p0, s0, fi, k) == cs1.push(b.subrange(p1, p1 + n)));
        lemma_concat_push(b, p0, p1, p1 + n, cs1);
        assert forall|i: int| 0 <= i < es.len() implies (#[trigger] es[i]).frame_index == fi by {
            if i < es1.len() {
                assert(es[i] == es1[i]);
            }
        }
    }
}

/// The stored chunks of a frame are as many as were read.
pub proof fn lemma_frame_chunk_count(b: Seq<u8>, p0: int, s0: ReadState, fi: usize, k: nat)
    requires
        read_chunks(b, p0, s0, fi, k) is Ok,
    ensures
        frame_chunk_bytes(b, p0, s0, fi, k).len() == k,
    decreases k,
{
    if k > 0 {
        lemma_frame_chunk_count(b, p0, s0, fi, (k - 1) as nat);
    }
}

/// Whether a frame header at `p`, for `n` chunks ending at `e`, is in the
/// form the writer writes it: its size the frame's length, the old chunk
/// count as the writer caps it, the reserved bytes zero, the new chunk
/// count used.
pub open spec fn frame_head_canonical(b: Seq<u8>, p: int, n: nat, e: int) -> bool {
    &&& u32_at(b, p) == e - p
    &&& u16_at(b, p + 6) == (if n > 0xFFFE { 0xFFFFu16 } else { n as u16 })
    &&& b[p + 10] == 0 && b[p + 11] == 0
    &&& u32_at(b, p + 12) == n
}

/// A stored frame in the form the writer writes it is its chunks framed.
pub proof fn lemma_frame_head_bytes(b: Seq<u8>, p: int, e: int, cs: Seq<Seq<u8>>)
    requires
        0 <= p,
        p + 16 <= e <= b.len(),
        dec_frame_head(b, p) matches Ok((_, n)) && frame_head_canonical(b, p, n, e) && cs.len() == n,
        b.subrange(p + 16, e) == concat(cs),
    ensures
        dec_frame_head(b, p) matches Ok((dur, _)) && b.subrange(p, e) == enc_frame(dur, cs),
{
    let (dur, n) = dec_frame_head(b, p)->Ok_0;
    let d = concat(cs);
    lemma_bytes_u32(b, p);
    lemma_bytes_u16(b, p + 4);
    lemma_bytes_u16(b, p + 6);
    lemma_bytes_u16(b, p + 8);
    lemma_bytes_u32(b, p + 12);
    assert(trunc32(16int + d.len()) == u32_at(b, p));
    assert(trunc32(cs.len() as int) == u32_at(b, p + 12));
    assert(b.subrange(p + 10, p + 12) =~= zeros(2));
    assert(b.subrange(p, e) =~= b.subrange(p, p + 4) + b.subrange(p + 4, p + 6) + b.subrange(p + 6, p + 8)
        + b.subrange(p + 8, p + 10) + b.subrange(p + 10, p + 12) + b.subrange(p + 12, p + 16) + b.subrange(
        p + 16,
        e,
    ));
}

/// Replaying a frame whose entries lie together, with only entries of
/// other frames around them, is replaying those entries.
pub proof fn lemma_replay_frame(r: FileModel, fi: usize, n0: int, n1: int)
    requires
        0 <= n0 <= n1 <= r.chunk_order.len(),
        forall|i: int| 0 <= i < n0 ==> (#[trigger] r.chunk_order[i]).frame_index != fi,
        forall|i: int| n1 <= i < r.chunk_order.len() ==> (#[trigger] r.chunk_order[i]).frame_index != fi,
    ensures
        replay(r, fi, r.chunk_order.len()) == replay_run(
            r,
            fi,
            replay_start(),
            r.chunk_order.subrange(n0, n1),
        ),
{
    let co = r.chunk_order;
    let a = co.subrange(0, n0);
    let f = co.subrange(n0, n1);
    let z = co.subrange(n1, co.len() as int);
    lemma_replay_is_run(r, fi, co.len());
    assert(co.take(co.len() as int) =~= a + f + z);
    lemma_run_append(r, fi, replay_start(), a + f, z);
    lemma_run_append(r, fi, replay_start(), a, f);
    assert forall|i: int| 0 <= i < a.len() implies (#[trigger] a[i]).frame_index != fi by {
        assert(a[i] == co[i]);
    }
    assert forall|i: int| 0 <= i < z.len() implies (#[trigger] z[i]).frame_index != fi by {
        assert(z[i] == co[n1 + i]);
    }
    lemma_run_other_frame(r, fi, replay_start(), a);
    lemma_run_other_frame(r, fi, replay_run(r, fi, replay_start(), a + f), z);
}

/// The parse state once a frame header read its duration.
pub open spec fn with_frame(s: ReadState, dur: u16) -> ReadState {
    ReadState { file: FileModel { frames: s.file.frames.push(Frame { duration_ms: dur }), ..s.file }, last: s.last }
}

/// Whether the first `k` frames read after the header are each in the
/// form the writer writes them, their chunks covered and in that form, the
/// first frame with at least one chunk.
pub open spec fn frames_canonical(b: Seq<u8>, s0: ReadState, k: nat) -> bool
    decreases k,
{
    if k == 0 {
        true
    } else {
        &&& frames_canonical(b, s0, (k - 1) as nat)
        &&& read_frames(b, s0, (k - 1) as nat) matches Ok((s, p)) && dec_frame_head(b, p) matches Ok((dur, n)) && {
            let sf = with_frame(s, dur);
            &&& k == 1 ==> n > 0
            &&& chunks_canonical(b, p + 16, sf, (k - 1) as usize, n)
            &&& read_chunks(b, p + 16, sf, (k - 1) as usize, n) matches Ok((_, e)) && frame_head_canonical(b, p, n, e)
        }
    }
}

/// Kept chunks of other frames only: none of this frame.
pub proof fn lemma_unknowns_none(u: Seq<UnknownChunkModel>, fi: usize)
    requires
        forall|i: int| 0 <= i < u.len() ==> (#[trigger] u[i]).frame_index != fi,
    ensures
        unknowns_for(u, fi).len() == 0,
    decreases u.len(),
{
    if u.len() > 0 {
        assert forall|i: int| 0 <= i < u.drop_last().len() implies (#[trigger] u.drop_last()[i]).frame_index != fi by {
            assert(u.drop_last()[i] == u[i]);
        }
        lemma_unknowns_none(u.drop_last(), fi);
        assert(u.last() == u[u.len() - 1]);
    }
}

/// A frame header read: the model grows.
pub proof fn lemma_with_frame_grows(s: ReadState, dur: u16)
    ensures
        grows(s.file, with_frame(s, dur).file),
{
    lemma_grows_refl(s.file);
    let f = with_frame(s, dur).file;
    assert(f.frames.take(s.file.frames.len() as int) =~= s.file.frames);
}

/// The first `k` frames read from a start with no frames, chunks or
/// recorded order: the model grows, its cels stay in order, it has `k`
/// frames, and every recorded entry and kept chunk belongs to one of them.
#[verifier::spinoff_prover]
#[verifier::rlimit(60)]
pub proof fn lemma_frames_grow(b: Seq<u8>, s0: ReadState, k: nat)
    requires
        read_frames(b, s0, k) is Ok,
        frames_canonical(b, s0, k),
        cels_sorted(s0.file.cels),
        s0.file.frames.len() == 0,
        s0.file.chunk_order.len() == 0,
        s0.file.unknown_chunks.len() == 0,
        s0.file.cels.len() == 0,
        k <= 0xFFFF,
    ensures
        read_frames(b, s0, k) matches Ok((s, p)) && {
            &&& grows(s0.file, s.file)
            &&& cels_sorted(s.file.cels)
            &&& s.file.frames.len() == k
            &&& forall|key: (usize, usize)| #[trigger] cel_lookup(s.file.cels, key) is Some ==> key.1 < k
            &&& forall|i: int| 0 <= i < s.file.chunk_order.len() ==> (#[trigger] s.file.chunk_order[i]).frame_index < k
            &&& forall|i: int| 0 <= i < s.file.unknown_chunks.len() ==> (#[trigger] s.file.unknown_chunks[i]).frame_index < k
        },
    decreases k,
{
    if k == 0 {
        lemma_grows_refl(s0.file);
        assert forall|key: (usize, usize)| #[trigger] cel_lookup(s0.file.cels, key) is Some implies key.1 < k by {
            crate::cels::lemma_lookup_absent(s0.file.cels, key);
        }
    } else {
        let fi = (k - 1) as usize;
        lemma_frames_grow(b, s0, (k - 1) as nat);
        let (s1, p1) = read_frames(b, s0, (k - 1) as nat)->Ok_0;
        let (dur, n) = dec_frame_head(b, p1)->Ok_0;
        let sf = with_frame(s1, dur);
        lemma_with_frame_grows(s1, dur);
        lemma_grows_trans(s0.file, s1.file, sf.file);
        lemma_frame_grows(b, p1 + 16, sf, fi, n);
        let s2 = read_chunks(b, p1 + 16, sf, fi, n)->Ok_0.0;
        lemma_grows_trans(s0.file, sf.file, s2.file);
        lemma_frame_track(b, p1 + 16, sf, fi, n);
        assert(read_frames(b, s0, k)->Ok_0.0 == s2);
        assert forall|i: int| 0 <= i < s2.file.chunk_order.len() implies (#[trigger] s2.file.chunk_order[i]).frame_index < k by {
            if i < sf.file.chunk_order.len() {
                assert(s2.file.chunk_order.take(sf.file.chunk_order.len() as int)[i] == sf.file.chunk_order[i]);
                assert(sf.file.chunk_order[i] == s1.file.chunk_order[i]);
            }
        }
        assert forall|key: (usize, usize)| #[trigger] cel_lookup(s2.file.cels, key) is Some implies key.1 < k by {
            if key.1 != fi {
                assert((cel_lookup(s2.file.cels, key) is Some) == (cel_lookup(sf.file.cels, key) is Some));
                assert(cel_lookup(sf.file.cels, key) == cel_lookup(s1.file.cels, key));
            }
        }
        assert forall|i: int| 0 <= i < s2.file.unknown_chunks.len() implies (#[trigger] s2.file.unknown_chunks[i]).frame_index < k by {
            if i < sf.file.unknown_chunks.len() {
                assert(s2.file.unknown_chunks.take(sf.file.unknown_chunks.len() as int)[i] == sf.file.unknown_chunks[i]);
                assert(sf.file.unknown_chunks[i] == s1.file.unknown_chunks[i]);
            }
        }
    }
}

/// The chunks of a frame read: the entries and kept chunks they add all
/// belong to the frame, and the frames stay as they are.
pub proof fn lemma_frame_track(b: Seq<u8>, p0: int, s0: ReadState, fi: usize, k: nat)
    requires
        read_chunks(b, p0, s0, fi, k) is Ok,
        chunks_canonical(b, p0, s0, fi, k),
        cels_sorted(s0.file.cels),
    ensures
        read_chunks(b, p0, s0, fi, k) matches Ok((s, p)) && {
            &&& s.file.chunk_order.len() == s0.file.chunk_order.len() + k
            &&& forall|i: int|
                s0.file.chunk_order.len() <= i < s.file.chunk_order.len() ==> (#[trigger] s.file.chunk_order[i]).frame_index == fi
            &&& s0.file.unknown_chunks.len() <= s.file.unknown_chunks.len()
            &&& forall|i: int|
                s0.file.unknown_chunks.len() <= i < s.file.unknown_chunks.len() ==> (#[trigger] s.file.unknown_chunks[i]).frame_index == fi
            &&& s.file.frames == s0.file.frames
            &&& forall|key: (usize, usize)| key.1 != fi ==> (#[trigger] cel_lookup(s.file.cels, key) is Some) == (cel_lookup(s0.file.cels, key) is Some)
        },
    decreases k,
{
    if k > 0 {
        lemma_frame_track(b, p0, s0, fi, (k - 1) as nat);
        lemma_frame_grows(b, p0, s0, fi, (k - 1) as nat);
        let (s1, p1) = read_chunks(b, p0, s0, fi, (k - 1) as nat)->Ok_0;
        let n = u32_at(b, p1) as int;
        let t = u16_at(b, p1 + 4);
        let d = b.subrange(p1 + 6, p1 + n);
        assert(chunk_step(b, p1, s1, fi) is Ok);
        lemma_step_grows(s1, fi, t, d);
        let s2 = apply_chunk(s1, fi, t, d)->Ok_0;
        assert forall|key: (usize, usize)| key.1 != fi implies (#[trigger] cel_lookup(s2.file.cels, key) is Some) == (cel_lookup(s0.file.cels, key) is Some) by {
            assert((cel_lookup(s2.file.cels, key) is Some) == (cel_lookup(s1.file.cels, key) is Some));
        }
        assert forall|i: int|
            s0.file.chunk_order.len() <= i < s2.file.chunk_order.len() implies (#[trigger] s2.file.chunk_order[i]).frame_index == fi by {
            if i < s1.file.chunk_order.len() {
                assert(s2.file.chunk_order[i] == s1.file.chunk_order[i]);
            }
        }
        assert forall|i: int|
            s0.file.unknown_chunks.len() <= i < s2.file.unknown_chunks.len() implies (#[trigger] s2.file.unknown_chunks[i]).frame_index == fi by {
            if i < s1.file.unknown_chunks.len() {
                assert(s2.file.unknown_chunks[i] == s1.file.unknown_chunks[i]);
            }
        }
    }
}

/// Chunk lists that are each empty make an empty run.
pub proof fn lemma_flat_empty(n: nat, f: spec_fn(int) -> Seq<Seq<u8>>)
    requires
        forall|i: int| 0 <= i < n ==> #[trigger] f(i) == Seq::<Seq<u8>>::empty(),
    ensures
        flat_idx(n, f) == Seq::<Seq<u8>>::empty(),
    decreases n,
{
    if n > 0 {
        lemma_flat_empty((n - 1) as nat, f);
        assert(f(n - 1) == Seq::<Seq<u8>>::empty());
        assert(flat_idx(n, f) =~= Seq::<Seq<u8>>::empty());
    }
}

/// A later frame with no recorded entry, no cel and no kept chunk is
/// written with no chunks.
pub proof fn lemma_empty_frame(r: FileModel, fi: usize)
    requires
        fi > 0,
        forall|i: int| 0 <= i < r.chunk_order.len() ==> (#[trigger] r.chunk_order[i]).frame_index != fi,
        forall|i: int| 0 <= i < r.unknown_chunks.len() ==> (#[trigger] r.unknown_chunks[i]).frame_index != fi,
        forall|i: int| 0 <= i < r.cels.len() ==> (#[trigger] r.cels[i]).0.1 != fi,
    ensures
        frame_chunks(r, fi) == Seq::<Seq<u8>>::empty(),
{
    reveal(frame_chunks);
    assert(!has_order(r, fi));
    let fc = |i: int| cel_item(r, fi, i);
    assert forall|i: int| 0 <= i < r.cels.len() implies #[trigger] fc(i) == Seq::<Seq<u8>>::empty() by {}
    lemma_flat_empty(r.cels.len(), fc);
    let fu = |i: int| if r.unknown_chunks[i].frame_index == fi {
        seq![wrap(r.unknown_chunks[i].chunk_type, r.unknown_chunks[i].data)]
    } else {
        Seq::empty()
    };
    assert forall|i: int| 0 <= i < r.unknown_chunks.len() implies #[trigger] fu(i) == Seq::<Seq<u8>>::empty() by {}
    lemma_flat_empty(r.unknown_chunks.len(), fu);
    assert(cel_part(r, fi) == Seq::<Seq<u8>>::empty());
    assert(unknown_part(r, fi) == Seq::<Seq<u8>>::empty());
    assert(default_chunks(r, fi) =~= Seq::<Seq<u8>>::empty());
}

/// A frame whose entries lie together, with at least one of them, is
/// written with what replaying those entries writes.
pub proof fn lemma_frame_with_chunks(r: FileModel, fi: usize, n0: int, n1: int, s: FileModel)
    requires
        0 <= n0 < n1,
        s.chunk_order.len() == n1 <= r.chunk_order.len(),
        r.chunk_order.take(n1) == s.chunk_order,
        forall|i: int| 0 <= i < n0 ==> (#[trigger] r.chunk_order[i]).frame_index != fi,
        forall|i: int| n1 <= i < r.chunk_order.len() ==> (#[trigger] r.chunk_order[i]).frame_index != fi,
        forall|i: int| n0 <= i < n1 ==> (#[trigger] s.chunk_order[i]).frame_index == fi,
    ensures
        frame_chunks(r, fi) == replay_run(r, fi, replay_start(), s.chunk_order.subrange(n0, n1)).chunks,
{
    lemma_replay_frame(r, fi, n0, n1);
    assert(r.chunk_order.subrange(n0, n1) =~= s.chunk_order.subrange(n0, n1)) by {
        assert forall|i: int| 0 <= i < n1 - n0 implies r.chunk_order.subrange(n0, n1)[i] == s.chunk_order.subrange(n0, n1)[i] by {
            assert(r.chunk_order.take(n1)[n0 + i] == s.chunk_order[n0 + i]);
        }
    }
    assert(has_order(r, fi)) by {
        assert(r.chunk_order.take(n1)[n0] == s.chunk_order[n0]);
        assert(r.chunk_order[n0].frame_index == fi);
    }
    reveal(frame_chunks);
}

/// The first `k` frames read, then written from the model that reading
/// ends with, give back the bytes they were read from.
#[verifier::spinoff_prover]
#[verifier::rlimit(100)]
pub proof fn lemma_frames_bytes(b: Seq<u8>, s0: ReadState, k: nat, r: FileModel)
    requires
        read_frames(b, s0, k) is Ok,
        frames_canonical(b, s0, k),
        cels_sorted(s0.file.cels),
        s0.file.frames.len() == 0,
        s0.file.chunk_order.len() == 0,
        s0.file.unknown_chunks.len() == 0,
        s0.last == LastEntity::Nothing,
        s0.file.slices.len() == 0,
        s0.file.tilesets.len() == 0,
        s0.file.layers.len() == 0,
        k <= 0xFFFF,
        128 <= b.len(),
        s0.file.cels.len() == 0,
        grows(read_frames(b, s0, k)->Ok_0.0.file, r),
        cels_sorted(r.cels),
        forall|i: int|
            read_frames(b, s0, k)->Ok_0.0.file.chunk_order.len() <= i < r.chunk_order.len() ==> (
            #[trigger] r.chunk_order[i]).frame_index >= k,
        forall|i: int|
            read_frames(b, s0, k)->Ok_0.0.file.unknown_chunks.len() <= i < r.unknown_chunks.len() ==> (
            #[trigger] r.unknown_chunks[i]).frame_index >= k,
        forall|key: (usize, usize)|
            #[trigger] cel_lookup(r.cels, key) is Some && key.1 < k ==> cel_lookup(
                read_frames(b, s0, k)->Ok_0.0.file.cels,
                key,
            ) is Some,
    ensures
        read_frames(b, s0, k) matches Ok((s, p)) && 128 <= p <= b.len() && b.subrange(128, p) == frames_bytes(r, k),
    decreases k,
{
    lemma_frames_grow(b, s0, k);
    if k == 0 {
        assert(b.subrange(128, 128) =~= Seq::<u8>::empty());
    } else {
        let fi = (k - 1) as usize;
        let (s1, p1) = read_frames(b, s0, (k - 1) as nat)->Ok_0;
        lemma_frames_grow(b, s0, (k - 1) as nat);
        let (dur, n) = dec_frame_head(b, p1)->Ok_0;
        let sf = with_frame(s1, dur);
        let (s2, e) = read_chunks(b, p1 + 16, sf, fi, n)->Ok_0;
        assert(read_frames(b, s0, k)->Ok_0 == (s2, e));
        lemma_with_frame_grows(s1, dur);
        lemma_frame_grows(b, p1 + 16, sf, fi, n);
        lemma_grows_trans(sf.file, s2.file, r);
        lemma_grows_trans(s1.file, sf.file, r);
        lemma_frame_track(b, p1 + 16, sf, fi, n);
        let n0 = s1.file.chunk_order.len() as int;
        let n1 = s2.file.chunk_order.len() as int;
        assert forall|i: int| n0 <= i < r.chunk_order.len() implies (#[trigger] r.chunk_order[i]).frame_index >= k - 1 by {
            if i < n1 {
                assert(r.chunk_order.take(n1)[i] == s2.file.chunk_order[i]);
            }
        }
        assert forall|i: int|
            s1.file.unknown_chunks.len() <= i < r.unknown_chunks.len() implies (#[trigger] r.unknown_chunks[i]).frame_index >= k - 1 by {
            if i < s2.file.unknown_chunks.len() {
                assert(r.unknown_chunks.take(s2.file.unknown_chunks.len() as int)[i] == s2.file.unknown_chunks[i]);
            }
        }
        assert forall|key: (usize, usize)| #[trigger] cel_lookup(r.cels, key) is Some && key.1 < k - 1 implies cel_lookup(
            s1.file.cels,
            key,
        ) is Some by {
            assert((cel_lookup(s2.file.cels, key) is Some) == (cel_lookup(sf.file.cels, key) is Some));
        }
        lemma_frames_bytes(b, s0, (k - 1) as nat, r);
        assert forall|i: int| 0 <= i < sf.file.unknown_chunks.len() implies (#[trigger] sf.file.unknown_chunks[i]).frame_index != fi by {
            assert(sf.file.unknown_chunks[i] == s1.file.unknown_chunks[i]);
        }
        lemma_unknowns_none(sf.file.unknown_chunks, fi);
        assert(fi == 0 ==> sf.file.layers.len() == 0 && sf.file.slices.len() == 0 && sf.file.tilesets.len() == 0) by {
            if fi == 0 {
                assert(read_frames(b, s0, 0) == Ok::<(ReadState, int), ErrorModel>((s0, 128)));
            }
        }
        assert(last_known(sf.file, fi) ==> sf.last == LastEntity::Nothing) by {
            if fi == 0 {
                assert(read_frames(b, s0, 0) == Ok::<(ReadState, int), ErrorModel>((s0, 128)));
            } else if last_known(sf.file, fi) {
                let i = choose|i: int|
                    0 <= i < sf.file.chunk_order.len() && (#[trigger] sf.file.chunk_order[i]).frame_index == fi && sets_last(
                        sf.file.chunk_order[i].chunk_type,
                        fi,
                    );
                assert(sf.file.chunk_order[i] == s1.file.chunk_order[i]);
            }
        }
        lemma_frame_sim(b, p1 + 16, sf, fi, n, r);
        lemma_frame_chunk_count(b, p1 + 16, sf, fi, n);
        let cs = frame_chunk_bytes(b, p1 + 16, sf, fi, n);
        lemma_frame_head_bytes(b, p1, e, cs);
        // the frame's entries lie together in the final order
        assert forall|i: int| 0 <= i < n0 implies (#[trigger] r.chunk_order[i]).frame_index != fi by {
            assert(r.chunk_order.take(n0)[i] == s1.file.chunk_order[i]);
        }
        assert forall|i: int| n1 <= i < r.chunk_order.len() implies (#[trigger] r.chunk_order[i]).frame_index != fi by {}
        if n == 0 {
            assert(s2 == sf);
            assert(fi > 0);
            assert forall|i: int| 0 <= i < r.chunk_order.len() implies (#[trigger] r.chunk_order[i]).frame_index != fi by {
                if i < n0 {
                    assert(r.chunk_order.take(n0)[i] == s1.file.chunk_order[i]);
                }
            }
            assert forall|i: int| 0 <= i < r.unknown_chunks.len() implies (#[trigger] r.unknown_chunks[i]).frame_index != fi by {
                if i < s1.file.unknown_chunks.len() {
                    assert(r.unknown_chunks.take(s1.file.unknown_chunks.len() as int)[i] == s1.file.unknown_chunks[i]);
                }
            }
            assert forall|i: int| 0 <= i < r.cels.len() implies (#[trigger] r.cels[i]).0.1 != fi by {
                crate::cels::lemma_lookup_at(r.cels, i);
                let key = r.cels[i].0;
                if key.1 == fi {
                    assert(cel_lookup(s2.file.cels, key) is Some);
                    assert(cel_lookup(s1.file.cels, key) is Some);
                }
            }
            lemma_empty_frame(r, fi);
            assert(cs =~= Seq::<Seq<u8>>::empty());
        } else {
            assert(r.chunk_order.take(n1) == s2.file.chunk_order);
            lemma_frame_with_chunks(r, fi, n0, n1, s2.file);
        }
        assert(r.frames[fi as int] == Frame { duration_ms: dur }) by {
            assert(r.frames.take(s2.file.frames.len() as int)[fi as int] == s2.file.frames[fi as int]);
            assert(s2.file.frames == sf.file.frames);
        }
        assert(b.subrange(128, e) =~= b.subrange(128, p1) + b.subrange(p1, e));
    }
}

/// Whether a file's 128-byte header is in the form the writer writes it:
/// its size field the file's length, the reserved bytes zero, and neither
/// pixel ratio component 0.
pub open spec fn header_canonical(b: Seq<u8>) -> bool {
    &&& 128 <= b.len() <= u32::MAX
    &&& u32_at(b, 0) == b.len()
    &&& b.subrange(20, 28) == zeros(8)
    &&& b.subrange(29, 32) == zeros(3)
    &&& b[34] != 0 && b[35] != 0
    &&& b.subrange(44, 128) == zeros(84)
}

/// Whether a file is in the form this library writes it, in every part
/// that reading interprets: its header, each frame header, and each chunk
/// (see `chunk_canonical`; strings among them valid UTF-8, since each body
/// is the encoding of what it reads as), the first frame with at least one
/// chunk, and nothing after the last frame.
pub open spec fn file_canonical(b: Seq<u8>) -> bool {
    &&& header_canonical(b)
    &&& dec_header(b) matches Ok(h) && {
        let s0 = ReadState { file: h, last: LastEntity::Nothing };
        &&& frames_canonical(b, s0, u16_at(b, 6) as nat)
        &&& read_frames(b, s0, u16_at(b, 6) as nat) matches Ok((_, p)) && p == b.len()
    }
}

/// Two stored bytes read as a signed value are its little-endian form.
pub proof fn lemma_bytes_i16(b: Seq<u8>, p: int)
    requires
        0 <= p,
        p + 2 <= b.len(),
    ensures
        le_i16(i16_at(b, p)) == b.subrange(p, p + 2),
{
    lemma_bytes_u16(b, p);
    let w = u16_at(b, p);
    assert(u16_of_i16(i16_of_u16(w)) == w);
}

/// The header of a file in canonical form is the header written for the
/// model read from it.
#[verifier::spinoff_prover]
#[verifier::rlimit(60)]
pub proof fn lemma_header_bytes(b: Seq<u8>, r: FileModel)
    requires
        header_canonical(b),
        dec_header(b) matches Ok(h) && grows(h, r),
        r.frames.len() == u16_at(b, 6),
    ensures
        b.subrange(0, 128) == enc_header(r, u32_at(b, 0)),
{
    let h = dec_header(b)->Ok_0;
    lemma_bytes_u32(b, 0);
    lemma_bytes_u16(b, 4);
    lemma_bytes_u16(b, 6);
    lemma_bytes_u16(b, 8);
    lemma_bytes_u16(b, 10);
    lemma_bytes_u16(b, 12);
    lemma_bytes_u32(b, 14);
    lemma_bytes_u16(b, 18);
    lemma_bytes_u16(b, 32);
    lemma_bytes_i16(b, 36);
    lemma_bytes_i16(b, 38);
    lemma_bytes_u16(b, 40);
    lemma_bytes_u16(b, 42);
    assert(r.color_mode.spec_to_depth() == u16_at(b, 12));
    assert(r.frames.len() as u16 == u16_at(b, 6));
    assert(le_u32(0) + le_u32(0) =~= b.subrange(20, 28));
    assert(seq![r.transparent_index] =~= b.subrange(28, 29));
    assert(seq![r.pixel_ratio.0, r.pixel_ratio.1] =~= b.subrange(34, 36));
    assert(b.subrange(0, 128) =~= b.subrange(0, 4) + b.subrange(4, 6) + b.subrange(6, 8) + b.subrange(8, 10)
        + b.subrange(10, 12) + b.subrange(12, 14) + b.subrange(14, 18) + b.subrange(18, 20) + b.subrange(20, 28)
        + b.subrange(28, 29) + b.subrange(29, 32) + b.subrange(32, 34) + b.subrange(34, 36) + b.subrange(36, 38)
        + b.subrange(38, 40) + b.subrange(40, 42) + b.subrange(42, 44) + b.subrange(44, 128));
}

/// The frames of a file in canonical form are the frames written for the
/// model read from it, which keeps the header's fields.
#[verifier::spinoff_prover]
#[verifier::rlimit(80)]
pub proof fn lemma_body_bytes(b: Seq<u8>)
    requires
        parse_file(b) is Ok,
        file_canonical(b),
    ensures
        parse_file(b) matches Ok(r) && dec_header(b) matches Ok(h) && {
            &&& b.subrange(128, b.len() as int) == frames_bytes(r, u16_at(b, 6) as nat)
            &&& grows(h, r)
            &&& r.frames.len() == u16_at(b, 6)
        },
{
    let h = dec_header(b)->Ok_0;
    let s0 = ReadState { file: h, last: LastEntity::Nothing };
    let nf = u16_at(b, 6) as nat;
    let sn = read_frames(b, s0, nf)->Ok_0.0;
    let r = sn.file;
    assert(parse_file(b) == Ok::<FileModel, ErrorModel>(r));
    lemma_grows_refl(r);
    lemma_frames_grow(b, s0, nf);
    assert(r.unknown_chunks.take(r.unknown_chunks.len() as int) =~= r.unknown_chunks);
    lemma_frames_bytes(b, s0, nf, r);
}

/// A file in the form this library writes it, read and written back,
/// gives back its own bytes: the chunks in the order they came in, each
/// covered chunk written from what reading made of it, and each chunk
/// kept as it is written as it was; writing meets no error unless the
/// file has more than 65535 layers or is indexed without a palette.
#[verifier::spinoff_prover]
#[verifier::rlimit(80)]
pub proof fn lemma_read_write_identical(b: Seq<u8>)
    requires
        parse_file(b) is Ok,
        file_canonical(b),
    ensures
        parse_file(b) matches Ok(r) && enc_file(r) == b,
        parse_file(b) matches Ok(r) && (r.layers.len() <= 65535 && !(r.color_mode == ColorMode::Indexed
            && r.palette.len() == 0) ==> write_error(r) is None),
{
    let r = parse_file(b)->Ok_0;
    let nf = u16_at(b, 6) as nat;
    lemma_body_bytes(b);
    assert(enc_file(r) == b) by {
        lemma_header_bytes(b, r);
        let body = frames_bytes(r, nf);
        assert(trunc32(128int + body.len()) == u32_at(b, 0));
        assert(enc_file(r) == enc_header(r, trunc32(128int + body.len())) + body);
        assert(b =~= b.subrange(0, 128) + b.subrange(128, b.len() as int));
    }
    assert(r.frames.len() <= 65535);
}

} // verus!
