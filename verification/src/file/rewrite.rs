//! Writing again what was read: a written file, read back, is written in
//! the order that reading recorded, and that gives the same bytes.

use vstd::prelude::*;
use super::reader::{parse_file, LastEntity};
use crate::bytes::trunc32;
use super::writer::{
    ext_part, flat_idx, layer_group, non_empty_ud, opt_ud_chunks, palette_part, profile_part, replay, replay_start,
    replay_step, slice_group, tags_part, any_tag_ud, ud_or_empty, ud_chunk, has_tile_ud, tile_ud,
    tileset_group, cel_group, cel_item, cel_part, first_frame_chunks, frame_chunks, has_order, unknown_part,
    default_chunks, enc_file, enc_header, frames_bytes, wrap, writer_user_data, ReplayState,
};
use super::{depth, filler_color, parents_ok, FileModel};
use crate::codec::lemma_enc_list_congr;
use crate::cel_chunk::{cel_codable, enc_cel, lemma_cel_roundtrip};
use super::readback::{
    all_fit, lemma_all_fit_append, lemma_wrap, order_entries, order_entry, rb_cel, rb_layer_at, rb_layers, lemma_rb_depth, parents_are_groups, rb_palette,
    rb_slice, rb_slices, rb_sprite_ud, rb_tag, rb_tags, rb_tileset, rb_tilesets, tileset_ud_chunk, rb_opt_cel,
    cel_ok, cels_ok, lemma_lookup_rb, order_of, parts_ok, read_back, without_cels, writable, frame_fits,
    lemma_write_then_read,
};
use crate::cels::{cel_lookup, cels_sorted, lemma_lookup_at};
use crate::layer_chunk::enc_layer;
use crate::list_chunks::{enc_palette, enc_slice, enc_tags, tag_enc_fn};
use crate::misc_chunks::{enc_cel_extra, enc_color_profile, enc_ext_files};
use crate::tileset_chunk::enc_tileset;
use crate::types::{ChunkOrderEntry, ColorMode};
use crate::error::ErrorModel;
use crate::user_data_chunk::{enc_ud, ud_read_back};
use crate::model::{CelModel, ColorModel, TilesetModel, UserDataModel};

verus! {

/// The replay state after the entries `es`, replayed in turn for frame
/// `fi` from `st`.
pub open spec fn replay_run(r: FileModel, fi: usize, st: ReplayState, es: Seq<ChunkOrderEntry>) -> ReplayState
    decreases es.len(),
{
    if es.len() == 0 {
        st
    } else {
        replay_step(r, fi, replay_run(r, fi, st, es.drop_last()), es.last())
    }
}

/// Replaying the first `k` recorded entries is a run over them.
pub proof fn lemma_replay_is_run(r: FileModel, fi: usize, k: nat)
    requires
        k <= r.chunk_order.len(),
    ensures
        replay(r, fi, k) == replay_run(r, fi, replay_start(), r.chunk_order.take(k as int)),
    decreases k,
{
    if k == 0 {
        assert(r.chunk_order.take(0) =~= Seq::<ChunkOrderEntry>::empty());
    } else {
        lemma_replay_is_run(r, fi, (k - 1) as nat);
        assert(r.chunk_order.take(k as int).drop_last() =~= r.chunk_order.take(k - 1));
        assert(r.chunk_order.take(k as int).last() == r.chunk_order[k - 1]);
    }
}

/// A run over two runs of entries is the second run after the first.
pub proof fn lemma_run_append(r: FileModel, fi: usize, st: ReplayState, a: Seq<ChunkOrderEntry>, b: Seq<ChunkOrderEntry>)
    ensures
        replay_run(r, fi, st, a + b) == replay_run(r, fi, replay_run(r, fi, st, a), b),
    decreases b.len(),
{
    if b.len() == 0 {
        assert(a + b =~= a);
    } else {
        assert((a + b).drop_last() =~= a + b.drop_last());
        assert((a + b).last() == b.last());
        lemma_run_append(r, fi, st, a, b.drop_last());
    }
}

/// A run over one entry is one step.
pub proof fn lemma_run_one(r: FileModel, fi: usize, st: ReplayState, e: ChunkOrderEntry)
    ensures
        replay_run(r, fi, st, seq![e]) == replay_step(r, fi, st, e),
{
    assert(seq![e].drop_last() =~= Seq::<ChunkOrderEntry>::empty());
    assert(seq![e].last() == e);
    assert(replay_run(r, fi, st, Seq::<ChunkOrderEntry>::empty()) == st);
}

/// Entries of other frames leave a run where it was.
pub proof fn lemma_run_other_frame(r: FileModel, fi: usize, st: ReplayState, es: Seq<ChunkOrderEntry>)
    requires
        forall|i: int| 0 <= i < es.len() ==> (#[trigger] es[i]).frame_index != fi,
    ensures
        replay_run(r, fi, st, es) == st,
    decreases es.len(),
{
    if es.len() > 0 {
        assert forall|i: int| 0 <= i < es.drop_last().len() implies (#[trigger] es.drop_last()[i]).frame_index != fi by {
            assert(es.drop_last()[i] == es[i]);
        }
        lemma_run_other_frame(r, fi, st, es.drop_last());
        assert(es.last() == es[es.len() - 1]);
        assert(replay_step(r, fi, st, es.last()) == st) by {
            reveal(replay_step);
        }
    }
}

/// User data read back is written with the same bytes.
pub proof fn lemma_ud_chunk_rb(u: UserDataModel)
    ensures
        ud_chunk(ud_read_back(u)) == ud_chunk(u),
{
    assert(enc_ud(ud_read_back(u)) =~= enc_ud(u));
}

// --- One recorded entry replayed ---

#[verifier::spinoff_prover]
pub proof fn lemma_rs_layer(r: FileModel, fi: usize, st: ReplayState)
    ensures
        replay_step(r, fi, st, (ChunkOrderEntry { frame_index: fi, chunk_type: 0x2004, layer_index: None })) == (if st.layers < r.layers.len() {
            ReplayState {
                chunks: st.chunks.push(
                    wrap(0x2004, enc_layer(r.layers[st.layers as int], depth(r.layers, st.layers as int) as u16)),
                ),
                layers: st.layers + 1,
                last: LastEntity::Layer(st.layers as usize),
                ..st
            }
        } else {
            st
        }),
{
    reveal(replay_step);
}

#[verifier::spinoff_prover]
pub proof fn lemma_rs_ud(r: FileModel, fi: usize, st: ReplayState)
    ensures
        replay_step(r, fi, st, (ChunkOrderEntry { frame_index: fi, chunk_type: 0x2020, layer_index: None })) == (ReplayState {
            chunks: st.chunks.push(ud_chunk(writer_user_data(r, st.last).0)),
            last: writer_user_data(r, st.last).1,
            ..st
        }),
{
    reveal(replay_step);
}

#[verifier::spinoff_prover]
pub proof fn lemma_rs_tileset(r: FileModel, fi: usize, st: ReplayState)
    ensures
        replay_step(r, fi, st, (ChunkOrderEntry { frame_index: fi, chunk_type: 0x2023, layer_index: None })) == (if st.tilesets < r.tilesets.len() {
            ReplayState {
                chunks: st.chunks.push(wrap(0x2023, enc_tileset(r.tilesets[st.tilesets as int]))),
                tilesets: st.tilesets + 1,
                last: LastEntity::Tileset(st.tilesets as usize),
                ..st
            }
        } else {
            st
        }),
{
    reveal(replay_step);
}

#[verifier::spinoff_prover]
pub proof fn lemma_rs_slice(r: FileModel, fi: usize, st: ReplayState)
    ensures
        replay_step(r, fi, st, (ChunkOrderEntry { frame_index: fi, chunk_type: 0x2022, layer_index: None })) == (if st.slices < r.slices.len() {
            ReplayState {
                chunks: st.chunks.push(wrap(0x2022, enc_slice(r.slices[st.slices as int]))),
                slices: st.slices + 1,
                last: LastEntity::Slice(st.slices as usize),
                ..st
            }
        } else {
            st
        }),
{
    reveal(replay_step);
}

#[verifier::spinoff_prover]
pub proof fn lemma_rs_ext(r: FileModel, fi: usize, st: ReplayState)
    ensures
        replay_step(r, fi, st, (ChunkOrderEntry { frame_index: fi, chunk_type: 0x2008, layer_index: None })) == (if r.external_files.len() > 0 {
            ReplayState { chunks: st.chunks.push(wrap(0x2008, enc_ext_files(r.external_files))), ..st }
        } else {
            st
        }),
{
    reveal(replay_step);
}

#[verifier::spinoff_prover]
pub proof fn lemma_rs_profile(r: FileModel, fi: usize, st: ReplayState)
    ensures
        replay_step(r, fi, st, (ChunkOrderEntry { frame_index: fi, chunk_type: 0x2007, layer_index: None })) == (match r.color_profile {
            Some(p) => ReplayState { chunks: st.chunks.push(wrap(0x2007, enc_color_profile(p))), ..st },
            None => st,
        }),
{
    reveal(replay_step);
}

#[verifier::spinoff_prover]
pub proof fn lemma_rs_palette(r: FileModel, fi: usize, st: ReplayState)
    ensures
        replay_step(r, fi, st, (ChunkOrderEntry { frame_index: fi, chunk_type: 0x2019, layer_index: None })) == (if r.palette.len() > 0 {
            ReplayState {
                chunks: st.chunks.push(wrap(0x2019, enc_palette(r.palette))),
                last: if fi == 0 { LastEntity::Palette } else { st.last },
                ..st
            }
        } else {
            st
        }),
{
    reveal(replay_step);
}

#[verifier::spinoff_prover]
pub proof fn lemma_rs_tags(r: FileModel, fi: usize, st: ReplayState)
    ensures
        replay_step(r, fi, st, (ChunkOrderEntry { frame_index: fi, chunk_type: 0x2018, layer_index: None })) == (if r.tags.len() > 0 {
            ReplayState {
                chunks: st.chunks.push(wrap(0x2018, enc_tags(r.tags))),
                last: LastEntity::TagSequence(0),
                ..st
            }
        } else {
            st
        }),
{
    reveal(replay_step);
}

#[verifier::spinoff_prover]
pub proof fn lemma_rs_cel(r: FileModel, fi: usize, st: ReplayState, li: usize)
    ensures
        replay_step(r, fi, st, (ChunkOrderEntry { frame_index: fi, chunk_type: 0x2005, layer_index: Some(li) })) == (match cel_lookup(r.cels, (li, fi)) {
            Some(c) => ReplayState {
                chunks: st.chunks.push(wrap(0x2005, enc_cel(c, li))),
                last: LastEntity::Cel(li, fi),
                ..st
            },
            None => st,
        }),
{
    reveal(replay_step);
}

#[verifier::spinoff_prover]
pub proof fn lemma_rs_extra(r: FileModel, fi: usize, st: ReplayState)
    ensures
        replay_step(r, fi, st, (ChunkOrderEntry { frame_index: fi, chunk_type: 0x2006, layer_index: None })) == (match st.last {
            LastEntity::Cel(li, f) => match cel_lookup(r.cels, (li, f)) {
                Some(c) => match c.extra {
                    Some(x) => ReplayState { chunks: st.chunks.push(wrap(0x2006, enc_cel_extra(x))), ..st },
                    None => st,
                },
                None => st,
            },
            _ => st,
        }),
{
    reveal(replay_step);
}

// --- The entries recorded for written chunks ---

pub proof fn lemma_entries_append(mode: ColorMode, fi: usize, a: Seq<Seq<u8>>, b: Seq<Seq<u8>>)
    ensures
        order_entries(mode, fi, a + b) == order_entries(mode, fi, a) + order_entries(mode, fi, b),
{
    assert(order_entries(mode, fi, a + b) =~= order_entries(mode, fi, a) + order_entries(mode, fi, b));
}

/// A chunk other than a cel chunk records its type and frame.
pub proof fn lemma_entry_plain(mode: ColorMode, fi: usize, t: u16, d: Seq<u8>)
    requires
        t != 0x2005,
        d.len() + 6 <= u32::MAX,
    ensures
        order_entries(mode, fi, seq![wrap(t, d)]) == seq![
            (ChunkOrderEntry { frame_index: fi, chunk_type: t, layer_index: None }),
        ],
{
    lemma_wrap(t, d);
    assert(order_entries(mode, fi, seq![wrap(t, d)]) =~= seq![order_entry(mode, fi, wrap(t, d))]);
}

/// A cel chunk records its type, frame and layer.
pub proof fn lemma_entry_cel(mode: ColorMode, fi: usize, c: CelModel, li: usize)
    requires
        cel_codable(c, li, mode),
        enc_cel(c, li).len() + 6 <= u32::MAX,
    ensures
        order_entries(mode, fi, seq![wrap(0x2005, enc_cel(c, li))]) == seq![
            (ChunkOrderEntry { frame_index: fi, chunk_type: 0x2005, layer_index: Some(li) }),
        ],
{
    lemma_wrap(0x2005, enc_cel(c, li));
    lemma_cel_roundtrip(c, li, mode);
    assert(order_entries(mode, fi, seq![wrap(0x2005, enc_cel(c, li))]) =~= seq![
        order_entry(mode, fi, wrap(0x2005, enc_cel(c, li))),
    ]);
}

// --- What was read back is written with the same bytes ---

pub proof fn lemma_enc_cel_rb(c: CelModel, li: usize)
    ensures
        enc_cel(rb_cel(c), li) == enc_cel(c, li),
{
    assert(enc_cel(rb_cel(c), li) =~= enc_cel(c, li));
}

pub proof fn lemma_enc_tileset_rb(ts: TilesetModel)
    ensures
        enc_tileset(rb_tileset(ts)) == enc_tileset(ts),
{
    assert(enc_tileset(rb_tileset(ts)) =~= enc_tileset(ts));
}

pub proof fn lemma_enc_tags_rb(m: FileModel)
    ensures
        enc_tags(rb_tags(m)) == enc_tags(m.tags),
{
    let a = rb_tags(m);
    assert forall|i: int| 0 <= i < a.len() implies tag_enc_fn()(#[trigger] a[i]) == tag_enc_fn()(m.tags[i]) by {
        assert(a[i] == rb_tag(m, m.tags[i]));
    }
    lemma_enc_list_congr(a, m.tags, tag_enc_fn());
}

// --- The parts of the first frame, replayed ---

/// One layer group, replayed after the layers before it.
#[verifier::spinoff_prover]
#[verifier::rlimit(40)]
proof fn lemma_rlayer_group(m: FileModel, r: FileModel, st: ReplayState, k: int, mode: ColorMode)
    requires
        0 <= k < m.layers.len() <= 65535,
        parents_ok(m.layers),
        parents_are_groups(m.layers),
        all_fit(layer_group(m, k)),
        r.layers == rb_layers(m.layers),
        st.layers == k,
    ensures
        replay_run(r, 0, st, order_entries(mode, 0, layer_group(m, k))) == (ReplayState {
            chunks: st.chunks + layer_group(m, k),
            layers: (k + 1) as nat,
            last: LastEntity::Layer(k as usize),
            ..st
        }),
{
    let g = layer_group(m, k);
    let l = m.layers[k];
    let cl = depth(m.layers, k) as u16;
    let lc = wrap(0x2004, enc_layer(l, cl));
    let ud = opt_ud_chunks(l.user_data);
    assert(g == seq![lc] + ud);
    assert(g[0] == lc);
    lemma_entries_append(mode, 0, seq![lc], ud);
    lemma_entry_plain(mode, 0, 0x2004, enc_layer(l, cl));
    lemma_run_append(r, 0, st, order_entries(mode, 0, seq![lc]), order_entries(mode, 0, ud));
    lemma_run_one(r, 0, st, ChunkOrderEntry { frame_index: 0, chunk_type: 0x2004, layer_index: None });
    lemma_rs_layer(r, 0, st);
    lemma_rb_depth(m.layers, k);
    assert(r.layers[k] == rb_layer_at(m.layers, k));
    assert(enc_layer(rb_layer_at(m.layers, k), cl) =~= enc_layer(l, cl));
    let st1 = replay_step(r, 0, st, ChunkOrderEntry { frame_index: 0, chunk_type: 0x2004, layer_index: None });
    assert(st1 == ReplayState {
        chunks: st.chunks.push(lc),
        layers: (k + 1) as nat,
        last: LastEntity::Layer(k as usize),
        ..st
    });
    match l.user_data {
        Some(x) => {
            assert(ud == seq![ud_chunk(x)]);
            assert(g[1] == ud_chunk(x));
            lemma_entry_plain(mode, 0, 0x2020, enc_ud(x));
            lemma_run_one(r, 0, st1, ChunkOrderEntry { frame_index: 0, chunk_type: 0x2020, layer_index: None });
            lemma_rs_ud(r, 0, st1);
            lemma_ud_chunk_rb(x);
            assert(st.chunks.push(lc).push(ud_chunk(x)) =~= st.chunks + g);
        },
        None => {
            assert(order_entries(mode, 0, ud) =~= Seq::<ChunkOrderEntry>::empty());
            assert(st.chunks.push(lc) =~= st.chunks + g);
        },
    }
}

/// The layer groups, replayed in turn.
#[verifier::spinoff_prover]
#[verifier::rlimit(60)]
pub proof fn lemma_rlayers(m: FileModel, r: FileModel, st: ReplayState, j: nat, mode: ColorMode)
    requires
        j <= m.layers.len() <= 65535,
        parents_ok(m.layers),
        parents_are_groups(m.layers),
        all_fit(flat_idx(j, |i: int| layer_group(m, i))),
        r.layers == rb_layers(m.layers),
        st.layers == 0,
    ensures
        replay_run(r, 0, st, order_entries(mode, 0, flat_idx(j, |i: int| layer_group(m, i)))) == (ReplayState {
            chunks: st.chunks + flat_idx(j, |i: int| layer_group(m, i)),
            layers: j,
            last: if j == 0 { st.last } else { LastEntity::Layer((j - 1) as usize) },
            ..st
        }),
    decreases j,
{
    let f = |i: int| layer_group(m, i);
    if j == 0 {
        assert(order_entries(mode, 0, flat_idx(0, f)) =~= Seq::<ChunkOrderEntry>::empty());
        assert(st.chunks + flat_idx(0, f) =~= st.chunks);
    } else {
        let k = (j - 1) as nat;
        let prev = flat_idx(k, f);
        assert(flat_idx(j, f) == prev + f(k as int));
        lemma_all_fit_append(prev, f(k as int));
        lemma_rlayers(m, r, st, k, mode);
        lemma_entries_append(mode, 0, prev, f(k as int));
        lemma_run_append(r, 0, st, order_entries(mode, 0, prev), order_entries(mode, 0, f(k as int)));
        let st1 = replay_run(r, 0, st, order_entries(mode, 0, prev));
        assert(st1.layers == k);
        lemma_rlayer_group(m, r, st1, k as int, mode);
        let st2 = replay_run(r, 0, st1, order_entries(mode, 0, f(k as int)));
        assert(st2.chunks == st1.chunks + f(k as int));
        assert(st.chunks + prev + f(k as int) =~= st.chunks + flat_idx(j, f));
        assert(st2.chunks == st.chunks + flat_idx(j, f));
        assert(st2.layers == j);
        assert(st2.last == LastEntity::Layer((j - 1) as usize));
        assert(st2.slices == st.slices && st2.tilesets == st.tilesets && st2.unknowns == st.unknowns);
    }
}

/// One slice group, replayed after the slices before it.
#[verifier::spinoff_prover]
#[verifier::rlimit(40)]
proof fn lemma_rslice_group(m: FileModel, r: FileModel, st: ReplayState, k: int, mode: ColorMode)
    requires
        0 <= k < m.slices.len() <= u32::MAX,
        all_fit(slice_group(m, k)),
        r.slices == rb_slices(m.slices),
        st.slices == k,
    ensures
        replay_run(r, 0, st, order_entries(mode, 0, slice_group(m, k))) == (ReplayState {
            chunks: st.chunks + slice_group(m, k),
            slices: (k + 1) as nat,
            last: LastEntity::Slice(k as usize),
            ..st
        }),
{
    let g = slice_group(m, k);
    let sl = m.slices[k];
    let sc = wrap(0x2022, enc_slice(sl));
    let ud = opt_ud_chunks(sl.user_data);
    assert(g == seq![sc] + ud);
    assert(g[0] == sc);
    lemma_entries_append(mode, 0, seq![sc], ud);
    lemma_entry_plain(mode, 0, 0x2022, enc_slice(sl));
    lemma_run_append(r, 0, st, order_entries(mode, 0, seq![sc]), order_entries(mode, 0, ud));
    lemma_run_one(r, 0, st, ChunkOrderEntry { frame_index: 0, chunk_type: 0x2022, layer_index: None });
    lemma_rs_slice(r, 0, st);
    assert(r.slices[k] == rb_slice(sl));
    assert(enc_slice(rb_slice(sl)) == enc_slice(sl));
    let st1 = replay_step(r, 0, st, ChunkOrderEntry { frame_index: 0, chunk_type: 0x2022, layer_index: None });
    assert(st1 == ReplayState {
        chunks: st.chunks.push(sc),
        slices: (k + 1) as nat,
        last: LastEntity::Slice(k as usize),
        ..st
    });
    match sl.user_data {
        Some(x) => {
            assert(ud == seq![ud_chunk(x)]);
            assert(g[1] == ud_chunk(x));
            lemma_entry_plain(mode, 0, 0x2020, enc_ud(x));
            lemma_run_one(r, 0, st1, ChunkOrderEntry { frame_index: 0, chunk_type: 0x2020, layer_index: None });
            lemma_rs_ud(r, 0, st1);
            lemma_ud_chunk_rb(x);
            assert(st.chunks.push(sc).push(ud_chunk(x)) =~= st.chunks + g);
        },
        None => {
            assert(order_entries(mode, 0, ud) =~= Seq::<ChunkOrderEntry>::empty());
            assert(st.chunks.push(sc) =~= st.chunks + g);
        },
    }
}

/// The slice groups, replayed in turn.
#[verifier::spinoff_prover]
pub proof fn lemma_rslices(m: FileModel, r: FileModel, st: ReplayState, j: nat, mode: ColorMode)
    requires
        j <= m.slices.len() <= u32::MAX,
        all_fit(flat_idx(j, |i: int| slice_group(m, i))),
        r.slices == rb_slices(m.slices),
        st.slices == 0,
    ensures
        replay_run(r, 0, st, order_entries(mode, 0, flat_idx(j, |i: int| slice_group(m, i)))) == (ReplayState {
            chunks: st.chunks + flat_idx(j, |i: int| slice_group(m, i)),
            slices: j,
            last: if j == 0 { st.last } else { LastEntity::Slice((j - 1) as usize) },
            ..st
        }),
    decreases j,
{
    let f = |i: int| slice_group(m, i);
    if j == 0 {
        assert(order_entries(mode, 0, flat_idx(0, f)) =~= Seq::<ChunkOrderEntry>::empty());
        assert(st.chunks + flat_idx(0, f) =~= st.chunks);
    } else {
        let k = (j - 1) as nat;
        let prev = flat_idx(k, f);
        assert(flat_idx(j, f) == prev + f(k as int));
        lemma_all_fit_append(prev, f(k as int));
        lemma_rslices(m, r, st, k, mode);
        lemma_entries_append(mode, 0, prev, f(k as int));
        lemma_run_append(r, 0, st, order_entries(mode, 0, prev), order_entries(mode, 0, f(k as int)));
        let st1 = replay_run(r, 0, st, order_entries(mode, 0, prev));
        lemma_rslice_group(m, r, st1, k as int, mode);
        assert(st.chunks + prev + f(k as int) =~= st.chunks + flat_idx(j, f));
    }
}

/// The external files part, replayed.
#[verifier::spinoff_prover]
pub proof fn lemma_rext(m: FileModel, r: FileModel, st: ReplayState, mode: ColorMode)
    requires
        all_fit(ext_part(m)),
        r.external_files == m.external_files,
    ensures
        replay_run(r, 0, st, order_entries(mode, 0, ext_part(m))) == (ReplayState {
            chunks: st.chunks + ext_part(m),
            ..st
        }),
{
    if m.external_files.len() > 0 {
        let c = wrap(0x2008, enc_ext_files(m.external_files));
        assert(ext_part(m)[0] == c);
        lemma_entry_plain(mode, 0, 0x2008, enc_ext_files(m.external_files));
        lemma_run_one(r, 0, st, ChunkOrderEntry { frame_index: 0, chunk_type: 0x2008, layer_index: None });
        lemma_rs_ext(r, 0, st);
        assert(st.chunks.push(c) =~= st.chunks + ext_part(m));
    } else {
        assert(order_entries(mode, 0, ext_part(m)) =~= Seq::<ChunkOrderEntry>::empty());
        assert(st.chunks + ext_part(m) =~= st.chunks);
    }
}

/// The color profile part, replayed.
#[verifier::spinoff_prover]
pub proof fn lemma_rprofile(m: FileModel, r: FileModel, st: ReplayState, mode: ColorMode)
    requires
        all_fit(profile_part(m)),
        r.color_profile == m.color_profile,
    ensures
        replay_run(r, 0, st, order_entries(mode, 0, profile_part(m))) == (ReplayState {
            chunks: st.chunks + profile_part(m),
            ..st
        }),
{
    match m.color_profile {
        Some(p) => {
            let c = wrap(0x2007, enc_color_profile(p));
            assert(profile_part(m)[0] == c);
            lemma_entry_plain(mode, 0, 0x2007, enc_color_profile(p));
            lemma_run_one(r, 0, st, ChunkOrderEntry { frame_index: 0, chunk_type: 0x2007, layer_index: None });
            lemma_rs_profile(r, 0, st);
            assert(st.chunks.push(c) =~= st.chunks + profile_part(m));
        },
        None => {
            assert(order_entries(mode, 0, profile_part(m)) =~= Seq::<ChunkOrderEntry>::empty());
            assert(st.chunks + profile_part(m) =~= st.chunks);
        },
    }
}

/// A user data chunk replayed where the last entity's user data is `x`
/// read back.
#[verifier::spinoff_prover]
#[verifier::rlimit(80)]
proof fn lemma_rud(r: FileModel, fi: usize, st: ReplayState, mode: ColorMode, x: UserDataModel, nxt: LastEntity)
    requires
        ud_chunk(x).len() <= u32::MAX,
        writer_user_data(r, st.last) == (ud_read_back(x), nxt),
    ensures
        replay_run(r, fi, st, order_entries(mode, fi, seq![ud_chunk(x)])) == (ReplayState {
            chunks: st.chunks.push(ud_chunk(x)),
            last: nxt,
            ..st
        }),
{
    lemma_entry_plain(mode, fi, 0x2020, enc_ud(x));
    lemma_run_one(r, fi, st, ChunkOrderEntry { frame_index: fi, chunk_type: 0x2020, layer_index: None });
    lemma_rs_ud(r, fi, st);
    lemma_ud_chunk_rb(x);
}

/// A palette chunk replayed.
#[verifier::spinoff_prover]
proof fn lemma_rpal_chunk(r: FileModel, st: ReplayState, mode: ColorMode, pal: Seq<ColorModel>)
    requires
        r.palette == pal,
        pal.len() > 0,
        wrap(0x2019, enc_palette(pal)).len() <= u32::MAX,
    ensures
        replay_run(r, 0, st, order_entries(mode, 0, seq![wrap(0x2019, enc_palette(pal))])) == (ReplayState {
            chunks: st.chunks.push(wrap(0x2019, enc_palette(pal))),
            last: LastEntity::Palette,
            ..st
        }),
{
    lemma_entry_plain(mode, 0, 0x2019, enc_palette(pal));
    lemma_run_one(r, 0, st, ChunkOrderEntry { frame_index: 0, chunk_type: 0x2019, layer_index: None });
    lemma_rs_palette(r, 0, st);
}

/// The palette part, replayed.
#[verifier::spinoff_prover]
#[verifier::rlimit(40)]
pub proof fn lemma_rpalette(m: FileModel, r: FileModel, st: ReplayState, mode: ColorMode)
    requires
        all_fit(palette_part(m)),
        r.palette == rb_palette(m),
        r.sprite_user_data == rb_sprite_ud(m),
    ensures
        replay_run(r, 0, st, order_entries(mode, 0, palette_part(m))) == (ReplayState {
            chunks: st.chunks + palette_part(m),
            last: if palette_part(m).len() > 0 { LastEntity::Palette } else { st.last },
            ..st
        }),
{
    if m.palette.len() > 0 || non_empty_ud(m.sprite_user_data) {
        let pal = if m.palette.len() > 0 { m.palette } else { seq![filler_color()] };
        let pc = wrap(0x2019, enc_palette(pal));
        let ud = opt_ud_chunks(m.sprite_user_data);
        assert(palette_part(m) == seq![pc] + ud);
        assert(palette_part(m)[0] == pc);
        lemma_entries_append(mode, 0, seq![pc], ud);
        lemma_run_append(r, 0, st, order_entries(mode, 0, seq![pc]), order_entries(mode, 0, ud));
        lemma_rpal_chunk(r, st, mode, pal);
        let st1 = ReplayState { chunks: st.chunks.push(pc), last: LastEntity::Palette, ..st };
        match m.sprite_user_data {
            Some(x) => {
                assert(ud == seq![ud_chunk(x)]);
                assert(palette_part(m)[1] == ud_chunk(x));
                lemma_rud(r, 0, st1, mode, x, LastEntity::Palette);
                assert(st.chunks.push(pc).push(ud_chunk(x)) =~= st.chunks + palette_part(m));
            },
            None => {
                assert(order_entries(mode, 0, ud) =~= Seq::<ChunkOrderEntry>::empty());
                assert(st.chunks.push(pc) =~= st.chunks + palette_part(m));
            },
        }
    } else {
        assert(order_entries(mode, 0, palette_part(m)) =~= Seq::<ChunkOrderEntry>::empty());
        assert(st.chunks + palette_part(m) =~= st.chunks);
    }
}

/// The tag user data chunks, replayed in turn.
#[verifier::spinoff_prover]
#[verifier::rlimit(40)]
proof fn lemma_rtag_uds(m: FileModel, r: FileModel, st: ReplayState, j: nat, mode: ColorMode)
    requires
        j <= m.tags.len() <= u16::MAX,
        any_tag_ud(m),
        all_fit(flat_idx(j, |i: int| seq![ud_chunk(ud_or_empty(m.tags[i].user_data))])),
        r.tags == rb_tags(m),
        st.last == LastEntity::TagSequence(0),
    ensures
        replay_run(r, 0, st, order_entries(mode, 0, flat_idx(j, |i: int| seq![ud_chunk(ud_or_empty(m.tags[i].user_data))])))
            == (ReplayState {
            chunks: st.chunks + flat_idx(j, |i: int| seq![ud_chunk(ud_or_empty(m.tags[i].user_data))]),
            last: LastEntity::TagSequence(j as usize),
            ..st
        }),
    decreases j,
{
    let f = |i: int| seq![ud_chunk(ud_or_empty(m.tags[i].user_data))];
    if j == 0 {
        assert(order_entries(mode, 0, flat_idx(0, f)) =~= Seq::<ChunkOrderEntry>::empty());
        assert(st.chunks + flat_idx(0, f) =~= st.chunks);
    } else {
        let k = (j - 1) as nat;
        let prev = flat_idx(k, f);
        assert(flat_idx(j, f) == prev + f(k as int));
        lemma_all_fit_append(prev, f(k as int));
        lemma_rtag_uds(m, r, st, k, mode);
        lemma_entries_append(mode, 0, prev, f(k as int));
        lemma_run_append(r, 0, st, order_entries(mode, 0, prev), order_entries(mode, 0, f(k as int)));
        let st1 = replay_run(r, 0, st, order_entries(mode, 0, prev));
        let u = ud_or_empty(m.tags[k as int].user_data);
        assert(f(k as int)[0] == ud_chunk(u));
        assert(r.tags[k as int] == rb_tag(m, m.tags[k as int]));
        assert(writer_user_data(r, st1.last) == (ud_read_back(u), LastEntity::TagSequence(j as usize)));
        lemma_rud(r, 0, st1, mode, u, LastEntity::TagSequence(j as usize));
        assert(st1.chunks.push(ud_chunk(u)) =~= st.chunks + flat_idx(j, f));
    }
}

/// The tags part, replayed.
#[verifier::spinoff_prover]
#[verifier::rlimit(40)]
pub proof fn lemma_rtags(m: FileModel, r: FileModel, st: ReplayState, mode: ColorMode)
    requires
        m.tags.len() <= u16::MAX,
        all_fit(tags_part(m)),
        r.tags == rb_tags(m),
    ensures
        replay_run(r, 0, st, order_entries(mode, 0, tags_part(m))).chunks == st.chunks + tags_part(m),
        replay_run(r, 0, st, order_entries(mode, 0, tags_part(m))).layers == st.layers,
        replay_run(r, 0, st, order_entries(mode, 0, tags_part(m))).slices == st.slices,
        replay_run(r, 0, st, order_entries(mode, 0, tags_part(m))).tilesets == st.tilesets,
        replay_run(r, 0, st, order_entries(mode, 0, tags_part(m))).unknowns == st.unknowns,
{
    if m.tags.len() > 0 {
        let tc = wrap(0x2018, enc_tags(m.tags));
        let f = |i: int| seq![ud_chunk(ud_or_empty(m.tags[i].user_data))];
        let rest = if any_tag_ud(m) { flat_idx(m.tags.len(), f) } else { Seq::<Seq<u8>>::empty() };
        assert(tags_part(m) == seq![tc] + rest);
        assert(tags_part(m)[0] == tc);
        lemma_all_fit_append(seq![tc], rest);
        lemma_entries_append(mode, 0, seq![tc], rest);
        lemma_run_append(r, 0, st, order_entries(mode, 0, seq![tc]), order_entries(mode, 0, rest));
        lemma_entry_plain(mode, 0, 0x2018, enc_tags(m.tags));
        lemma_run_one(r, 0, st, ChunkOrderEntry { frame_index: 0, chunk_type: 0x2018, layer_index: None });
        lemma_rs_tags(r, 0, st);
        lemma_enc_tags_rb(m);
        let st1 = ReplayState { chunks: st.chunks.push(tc), last: LastEntity::TagSequence(0), ..st };
        assert(replay_run(r, 0, st, order_entries(mode, 0, seq![tc])) == st1);
        if any_tag_ud(m) {
            lemma_rtag_uds(m, r, st1, m.tags.len(), mode);
            assert(st.chunks.push(tc) + rest =~= st.chunks + tags_part(m));
        } else {
            assert(order_entries(mode, 0, rest) =~= Seq::<ChunkOrderEntry>::empty());
            assert(st.chunks.push(tc) =~= st.chunks + tags_part(m));
        }
    } else {
        assert(order_entries(mode, 0, tags_part(m)) =~= Seq::<ChunkOrderEntry>::empty());
        assert(st.chunks + tags_part(m) =~= st.chunks);
    }
}

/// A tile's user data in the tileset read back is its user data read back.
proof fn lemma_tile_ud_rb(ts: TilesetModel, t: int)
    requires
        0 <= t < ts.tile_count,
        has_tile_ud(ts),
    ensures
        tile_ud(rb_tileset(ts), t) == ud_read_back(tile_ud(ts, t)),
{
    assert(rb_tileset(ts).tile_user_data.len() == ts.tile_count);
    assert(rb_tileset(ts).tile_user_data[t] == Some(ud_read_back(tile_ud(ts, t))));
}

/// The tile user data chunks of tileset `k`, replayed in turn.
#[verifier::spinoff_prover]
#[verifier::rlimit(80)]
proof fn lemma_rtile_uds(ts: TilesetModel, r: FileModel, k: int, st: ReplayState, j: nat, mode: ColorMode)
    requires
        j <= ts.tile_count,
        0 <= k < r.tilesets.len() < u32::MAX,
        r.tilesets[k] == rb_tileset(ts),
        has_tile_ud(ts),
        all_fit(flat_idx(j, |i: int| seq![ud_chunk(tile_ud(ts, i))])),
        st.last == LastEntity::TileSequence(k as usize, 0),
    ensures
        replay_run(r, 0, st, order_entries(mode, 0, flat_idx(j, |i: int| seq![ud_chunk(tile_ud(ts, i))]))) == (ReplayState {
            chunks: st.chunks + flat_idx(j, |i: int| seq![ud_chunk(tile_ud(ts, i))]),
            last: LastEntity::TileSequence(k as usize, j as usize),
            ..st
        }),
    decreases j,
{
    let f = |i: int| seq![ud_chunk(tile_ud(ts, i))];
    if j == 0 {
        assert(order_entries(mode, 0, flat_idx(0, f)) =~= Seq::<ChunkOrderEntry>::empty());
        assert(st.chunks + flat_idx(0, f) =~= st.chunks);
    } else {
        let t = (j - 1) as nat;
        let prev = flat_idx(t, f);
        assert(flat_idx(j, f) == prev + f(t as int));
        lemma_all_fit_append(prev, f(t as int));
        lemma_rtile_uds(ts, r, k, st, t, mode);
        lemma_entries_append(mode, 0, prev, f(t as int));
        lemma_run_append(r, 0, st, order_entries(mode, 0, prev), order_entries(mode, 0, f(t as int)));
        let st1 = replay_run(r, 0, st, order_entries(mode, 0, prev));
        let u = tile_ud(ts, t as int);
        assert(f(t as int)[0] == ud_chunk(u));
        lemma_tile_ud_rb(ts, t as int);
        assert(st1.last == LastEntity::TileSequence(k as usize, t as usize));
        assert(writer_user_data(r, st1.last) == (ud_read_back(u), LastEntity::TileSequence(k as usize, j as usize)));
        lemma_rud(r, 0, st1, mode, u, LastEntity::TileSequence(k as usize, j as usize));
        assert(st1.chunks.push(ud_chunk(u)) =~= st.chunks + flat_idx(j, f));
    }
}

/// A tileset chunk and the tileset's user data chunk, replayed.
#[verifier::spinoff_prover]
#[verifier::rlimit(40)]
proof fn lemma_rtileset_head(ts: TilesetModel, r: FileModel, k: int, st: ReplayState, mode: ColorMode)
    requires
        0 <= k < r.tilesets.len() < u32::MAX,
        r.tilesets[k] == rb_tileset(ts),
        st.tilesets == k,
        all_fit(seq![wrap(0x2023, enc_tileset(ts))] + tileset_ud_chunk(ts)),
    ensures
        replay_run(r, 0, st, order_entries(mode, 0, seq![wrap(0x2023, enc_tileset(ts))] + tileset_ud_chunk(ts)))
            == (ReplayState {
            chunks: st.chunks + (seq![wrap(0x2023, enc_tileset(ts))] + tileset_ud_chunk(ts)),
            tilesets: (k + 1) as nat,
            last: if ts.user_data is Some || has_tile_ud(ts) {
                LastEntity::TileSequence(k as usize, 0)
            } else {
                LastEntity::Tileset(k as usize)
            },
            ..st
        }),
{
    let tc = wrap(0x2023, enc_tileset(ts));
    let uc = tileset_ud_chunk(ts);
    assert((seq![tc] + uc)[0] == tc);
    lemma_entries_append(mode, 0, seq![tc], uc);
    lemma_run_append(r, 0, st, order_entries(mode, 0, seq![tc]), order_entries(mode, 0, uc));
    lemma_entry_plain(mode, 0, 0x2023, enc_tileset(ts));
    lemma_run_one(r, 0, st, ChunkOrderEntry { frame_index: 0, chunk_type: 0x2023, layer_index: None });
    lemma_rs_tileset(r, 0, st);
    lemma_enc_tileset_rb(ts);
    let st1 = ReplayState { chunks: st.chunks.push(tc), tilesets: (k + 1) as nat, last: LastEntity::Tileset(k as usize), ..st };
    assert(replay_run(r, 0, st, order_entries(mode, 0, seq![tc])) == st1);
    if ts.user_data is Some || has_tile_ud(ts) {
        let u = ud_or_empty(ts.user_data);
        assert(uc == seq![ud_chunk(u)]);
        assert((seq![tc] + uc)[1] == ud_chunk(u));
        assert(writer_user_data(r, st1.last) == (ud_read_back(u), LastEntity::TileSequence(k as usize, 0)));
        lemma_rud(r, 0, st1, mode, u, LastEntity::TileSequence(k as usize, 0));
        assert(st.chunks.push(tc).push(ud_chunk(u)) =~= st.chunks + (seq![tc] + uc));
    } else {
        assert(order_entries(mode, 0, uc) =~= Seq::<ChunkOrderEntry>::empty());
        assert(st.chunks.push(tc) =~= st.chunks + (seq![tc] + uc));
    }
}

/// One tileset group, replayed after the tilesets before it.
#[verifier::spinoff_prover]
#[verifier::rlimit(40)]
proof fn lemma_rtileset_group(m: FileModel, r: FileModel, st: ReplayState, k: int, mode: ColorMode)
    requires
        0 <= k < m.tilesets.len() < u32::MAX,
        all_fit(tileset_group(m.tilesets[k])),
        r.tilesets == rb_tilesets(m.tilesets),
        st.tilesets == k,
    ensures
        replay_run(r, 0, st, order_entries(mode, 0, tileset_group(m.tilesets[k]))).chunks == st.chunks + tileset_group(
            m.tilesets[k],
        ),
        replay_run(r, 0, st, order_entries(mode, 0, tileset_group(m.tilesets[k]))).tilesets == k + 1,
        replay_run(r, 0, st, order_entries(mode, 0, tileset_group(m.tilesets[k]))).layers == st.layers,
        replay_run(r, 0, st, order_entries(mode, 0, tileset_group(m.tilesets[k]))).slices == st.slices,
        replay_run(r, 0, st, order_entries(mode, 0, tileset_group(m.tilesets[k]))).unknowns == st.unknowns,
{
    let ts = m.tilesets[k];
    let head = seq![wrap(0x2023, enc_tileset(ts))] + tileset_ud_chunk(ts);
    let f = |i: int| seq![ud_chunk(tile_ud(ts, i))];
    let tiles: Seq<Seq<u8>> = if has_tile_ud(ts) { flat_idx(ts.tile_count as nat, f) } else { Seq::empty() };
    assert(tileset_group(ts) == head + tiles);
    lemma_all_fit_append(head, tiles);
    assert(r.tilesets[k] == rb_tileset(ts));
    lemma_rtileset_head(ts, r, k, st, mode);
    lemma_entries_append(mode, 0, head, tiles);
    lemma_run_append(r, 0, st, order_entries(mode, 0, head), order_entries(mode, 0, tiles));
    let st1 = replay_run(r, 0, st, order_entries(mode, 0, head));
    if has_tile_ud(ts) {
        lemma_rtile_uds(ts, r, k, st1, ts.tile_count as nat, mode);
        assert(st.chunks + head + tiles =~= st.chunks + tileset_group(ts));
    } else {
        assert(order_entries(mode, 0, tiles) =~= Seq::<ChunkOrderEntry>::empty());
        assert(st.chunks + head =~= st.chunks + tileset_group(ts));
    }
}

/// The tileset groups, replayed in turn.
#[verifier::spinoff_prover]
#[verifier::rlimit(40)]
pub proof fn lemma_rtilesets(m: FileModel, r: FileModel, st: ReplayState, j: nat, mode: ColorMode)
    requires
        j <= m.tilesets.len() < u32::MAX,
        all_fit(flat_idx(j, |i: int| tileset_group(m.tilesets[i]))),
        r.tilesets == rb_tilesets(m.tilesets),
        st.tilesets == 0,
    ensures
        replay_run(r, 0, st, order_entries(mode, 0, flat_idx(j, |i: int| tileset_group(m.tilesets[i])))).chunks
            == st.chunks + flat_idx(j, |i: int| tileset_group(m.tilesets[i])),
        replay_run(r, 0, st, order_entries(mode, 0, flat_idx(j, |i: int| tileset_group(m.tilesets[i])))).tilesets == j,
        replay_run(r, 0, st, order_entries(mode, 0, flat_idx(j, |i: int| tileset_group(m.tilesets[i])))).layers
            == st.layers,
        replay_run(r, 0, st, order_entries(mode, 0, flat_idx(j, |i: int| tileset_group(m.tilesets[i])))).slices
            == st.slices,
        replay_run(r, 0, st, order_entries(mode, 0, flat_idx(j, |i: int| tileset_group(m.tilesets[i])))).unknowns
            == st.unknowns,
    decreases j,
{
    let f = |i: int| tileset_group(m.tilesets[i]);
    if j == 0 {
        assert(order_entries(mode, 0, flat_idx(0, f)) =~= Seq::<ChunkOrderEntry>::empty());
        assert(st.chunks + flat_idx(0, f) =~= st.chunks);
    } else {
        let k = (j - 1) as nat;
        let prev = flat_idx(k, f);
        assert(flat_idx(j, f) == prev + f(k as int));
        lemma_all_fit_append(prev, f(k as int));
        lemma_rtilesets(m, r, st, k, mode);
        lemma_entries_append(mode, 0, prev, f(k as int));
        lemma_run_append(r, 0, st, order_entries(mode, 0, prev), order_entries(mode, 0, f(k as int)));
        let st1 = replay_run(r, 0, st, order_entries(mode, 0, prev));
        lemma_rtileset_group(m, r, st1, k as int, mode);
        assert(st.chunks + prev + f(k as int) =~= st.chunks + flat_idx(j, f));
    }
}

/// One cel group of frame `fi`, replayed.
#[verifier::spinoff_prover]
#[verifier::rlimit(80)]
proof fn lemma_rcel_group(r: FileModel, fi: usize, st: ReplayState, key: (usize, usize), c: CelModel, mode: ColorMode)
    requires
        key.1 == fi,
        cel_codable(c, key.0, mode),
        all_fit(cel_group(key, c)),
        cel_lookup(r.cels, key) == Some(rb_cel(c)),
    ensures
        replay_run(r, fi, st, order_entries(mode, fi, cel_group(key, c))).chunks == st.chunks + cel_group(key, c),
        replay_run(r, fi, st, order_entries(mode, fi, cel_group(key, c))).layers == st.layers,
        replay_run(r, fi, st, order_entries(mode, fi, cel_group(key, c))).slices == st.slices,
        replay_run(r, fi, st, order_entries(mode, fi, cel_group(key, c))).tilesets == st.tilesets,
        replay_run(r, fi, st, order_entries(mode, fi, cel_group(key, c))).unknowns == st.unknowns,
{
    let li = key.0;
    let cc = wrap(0x2005, enc_cel(c, li));
    let xc: Seq<Seq<u8>> = match c.extra {
        Some(x) => seq![wrap(0x2006, enc_cel_extra(x))],
        None => Seq::empty(),
    };
    let ud = opt_ud_chunks(c.user_data);
    let g = cel_group(key, c);
    assert(g == seq![cc] + xc + ud);
    assert(g[0] == cc);
    lemma_entries_append(mode, fi, seq![cc] + xc, ud);
    lemma_entries_append(mode, fi, seq![cc], xc);
    lemma_run_append(r, fi, st, order_entries(mode, fi, seq![cc] + xc), order_entries(mode, fi, ud));
    lemma_run_append(r, fi, st, order_entries(mode, fi, seq![cc]), order_entries(mode, fi, xc));
    lemma_entry_cel(mode, fi, c, li);
    lemma_run_one(r, fi, st, ChunkOrderEntry { frame_index: fi, chunk_type: 0x2005, layer_index: Some(li) });
    lemma_rs_cel(r, fi, st, li);
    lemma_enc_cel_rb(c, li);
    let st1 = ReplayState { chunks: st.chunks.push(cc), last: LastEntity::Cel(li, fi), ..st };
    assert(replay_run(r, fi, st, order_entries(mode, fi, seq![cc])) == st1);
    let st2 = replay_run(r, fi, st1, order_entries(mode, fi, xc));
    match c.extra {
        Some(x) => {
            assert(g[1] == wrap(0x2006, enc_cel_extra(x)));
            lemma_entry_plain(mode, fi, 0x2006, enc_cel_extra(x));
            lemma_run_one(r, fi, st1, ChunkOrderEntry { frame_index: fi, chunk_type: 0x2006, layer_index: None });
            lemma_rs_extra(r, fi, st1);
            assert(st2 == ReplayState { chunks: st1.chunks.push(wrap(0x2006, enc_cel_extra(x))), ..st1 });
        },
        None => {
            assert(order_entries(mode, fi, xc) =~= Seq::<ChunkOrderEntry>::empty());
            assert(st2 == st1);
        },
    }
    assert(st2.chunks == st.chunks + (seq![cc] + xc)) by {
        assert(st.chunks.push(cc) + xc =~= st.chunks + (seq![cc] + xc));
    }
    assert(st2.last == LastEntity::Cel(li, fi));
    match c.user_data {
        Some(x) => {
            assert(ud == seq![ud_chunk(x)]);
            assert(g[g.len() - 1] == ud_chunk(x));
            assert(writer_user_data(r, st2.last) == (ud_read_back(x), st2.last));
            lemma_rud(r, fi, st2, mode, x, st2.last);
            assert(st2.chunks.push(ud_chunk(x)) =~= st.chunks + g);
        },
        None => {
            assert(order_entries(mode, fi, ud) =~= Seq::<ChunkOrderEntry>::empty());
            assert(st2.chunks =~= st.chunks + g);
        },
    }
}

/// The cels of frame `fi`, replayed in turn.
#[verifier::spinoff_prover]
#[verifier::rlimit(40)]
pub proof fn lemma_rcels(m: FileModel, r: FileModel, fi: usize, st: ReplayState, j: nat)
    requires
        j <= m.cels.len(),
        cels_sorted(m.cels),
        cels_ok(m),
        all_fit(flat_idx(j, |i: int| cel_item(m, fi, i))),
        forall|key: (usize, usize)| #[trigger] cel_lookup(r.cels, key) == rb_opt_cel(cel_lookup(m.cels, key)),
    ensures
        replay_run(r, fi, st, order_entries(m.color_mode, fi, flat_idx(j, |i: int| cel_item(m, fi, i)))).chunks
            == st.chunks + flat_idx(j, |i: int| cel_item(m, fi, i)),
    decreases j,
{
    let f = |i: int| cel_item(m, fi, i);
    let mode = m.color_mode;
    if j == 0 {
        assert(order_entries(mode, fi, flat_idx(0, f)) =~= Seq::<ChunkOrderEntry>::empty());
        assert(st.chunks + flat_idx(0, f) =~= st.chunks);
    } else {
        let k = (j - 1) as nat;
        let prev = flat_idx(k, f);
        assert(flat_idx(j, f) == prev + f(k as int));
        lemma_all_fit_append(prev, f(k as int));
        lemma_rcels(m, r, fi, st, k);
        lemma_entries_append(mode, fi, prev, f(k as int));
        lemma_run_append(r, fi, st, order_entries(mode, fi, prev), order_entries(mode, fi, f(k as int)));
        let st1 = replay_run(r, fi, st, order_entries(mode, fi, prev));
        let e = m.cels[k as int];
        if e.0.1 == fi {
            assert(cel_ok(e.1, e.0.0, mode));
            lemma_lookup_at(m.cels, k as int);
            assert(cel_lookup(r.cels, e.0) == rb_opt_cel(cel_lookup(m.cels, e.0)));
            lemma_rcel_group(r, fi, st1, e.0, e.1, mode);
        } else {
            assert(order_entries(mode, fi, f(k as int)) =~= Seq::<ChunkOrderEntry>::empty());
        }
        assert(st.chunks + prev + f(k as int) =~= st.chunks + flat_idx(j, f));
    }
}

/// What `r` holds when it is what reading `m`'s bytes gave back.
pub open spec fn reads_back_as(r: FileModel, m: FileModel) -> bool {
    &&& without_cels(r) == without_cels(read_back(m))
    &&& cels_sorted(r.cels)
    &&& forall|key: (usize, usize)| #[trigger] cel_lookup(r.cels, key) == cel_lookup(read_back(m).cels, key)
    &&& r.chunk_order == order_of(m, m.frames.len())
}

/// The external files, tilesets and layers of the first frame, replayed
/// from the start of a frame.
#[verifier::spinoff_prover]
#[verifier::rlimit(60)]
proof fn lemma_rfirst_a(m: FileModel, r: FileModel, mode: ColorMode)
    requires
        0 < m.frames.len(),
        parts_ok(m),
        all_fit(
            ext_part(m) + flat_idx(m.tilesets.len(), |i: int| tileset_group(m.tilesets[i])) + flat_idx(
                m.layers.len(),
                |i: int| layer_group(m, i),
            ),
        ),
        without_cels(r) == without_cels(read_back(m)),
    ensures
        ({
            let p = ext_part(m) + flat_idx(m.tilesets.len(), |i: int| tileset_group(m.tilesets[i])) + flat_idx(
                m.layers.len(),
                |i: int| layer_group(m, i),
            );
            let st = replay_run(r, 0, replay_start(), order_entries(mode, 0, p));
            st.chunks == p && st.slices == 0
        }),
{
    let p1 = ext_part(m);
    let p2 = flat_idx(m.tilesets.len(), |i: int| tileset_group(m.tilesets[i]));
    let p3 = flat_idx(m.layers.len(), |i: int| layer_group(m, i));
    lemma_all_fit_append(p1 + p2, p3);
    lemma_all_fit_append(p1, p2);
    lemma_entries_append(mode, 0, p1 + p2, p3);
    lemma_entries_append(mode, 0, p1, p2);
    let e1 = order_entries(mode, 0, p1);
    let e2 = order_entries(mode, 0, p2);
    let e3 = order_entries(mode, 0, p3);
    let st0 = replay_start();
    lemma_run_append(r, 0, st0, e1 + e2, e3);
    lemma_run_append(r, 0, st0, e1, e2);
    assert(r.external_files == m.external_files);
    lemma_rext(m, r, st0, mode);
    let st1 = replay_run(r, 0, st0, e1);
    assert(r.tilesets == rb_tilesets(m.tilesets));
    lemma_rtilesets(m, r, st1, m.tilesets.len(), mode);
    let st2 = replay_run(r, 0, st1, e2);
    assert(r.layers == rb_layers(m.layers));
    lemma_rlayers(m, r, st2, m.layers.len(), mode);
    assert(Seq::<Seq<u8>>::empty() + p1 + p2 + p3 =~= p1 + p2 + p3);
}

/// The color profile, palette, tags and slices of the first frame,
/// replayed after its first parts.
#[verifier::spinoff_prover]
#[verifier::rlimit(60)]
proof fn lemma_rfirst_b(m: FileModel, r: FileModel, st: ReplayState, mode: ColorMode)
    requires
        0 < m.frames.len(),
        parts_ok(m),
        all_fit(profile_part(m) + palette_part(m) + tags_part(m) + flat_idx(m.slices.len(), |i: int| slice_group(m, i))),
        without_cels(r) == without_cels(read_back(m)),
        st.slices == 0,
    ensures
        replay_run(
            r,
            0,
            st,
            order_entries(
                mode,
                0,
                profile_part(m) + palette_part(m) + tags_part(m) + flat_idx(m.slices.len(), |i: int| slice_group(m, i)),
            ),
        ).chunks == st.chunks + (profile_part(m) + palette_part(m) + tags_part(m) + flat_idx(
            m.slices.len(),
            |i: int| slice_group(m, i),
        )),
{
    let p4 = profile_part(m);
    let p5 = palette_part(m);
    let p6 = tags_part(m);
    let p7 = flat_idx(m.slices.len(), |i: int| slice_group(m, i));
    lemma_all_fit_append(p4 + p5 + p6, p7);
    lemma_all_fit_append(p4 + p5, p6);
    lemma_all_fit_append(p4, p5);
    lemma_entries_append(mode, 0, p4 + p5 + p6, p7);
    lemma_entries_append(mode, 0, p4 + p5, p6);
    lemma_entries_append(mode, 0, p4, p5);
    let e4 = order_entries(mode, 0, p4);
    let e5 = order_entries(mode, 0, p5);
    let e6 = order_entries(mode, 0, p6);
    let e7 = order_entries(mode, 0, p7);
    lemma_run_append(r, 0, st, e4 + e5 + e6, e7);
    lemma_run_append(r, 0, st, e4 + e5, e6);
    lemma_run_append(r, 0, st, e4, e5);
    lemma_rprofile(m, r, st, mode);
    let st4 = replay_run(r, 0, st, e4);
    lemma_rpalette(m, r, st4, mode);
    let st5 = replay_run(r, 0, st4, e5);
    lemma_rtags(m, r, st5, mode);
    let st6 = replay_run(r, 0, st5, e6);
    assert(r.slices == rb_slices(m.slices));
    lemma_rslices(m, r, st6, m.slices.len(), mode);
    assert(st.chunks + p4 + p5 + p6 + p7 =~= st.chunks + (p4 + p5 + p6 + p7));
}

proof fn lemma_first_split(m: FileModel)
    ensures
        first_frame_chunks(m) == (ext_part(m) + flat_idx(m.tilesets.len(), |i: int| tileset_group(m.tilesets[i]))
            + flat_idx(m.layers.len(), |i: int| layer_group(m, i))) + (profile_part(m) + palette_part(m) + tags_part(m)
            + flat_idx(m.slices.len(), |i: int| slice_group(m, i))),
{
    let a = ext_part(m) + flat_idx(m.tilesets.len(), |i: int| tileset_group(m.tilesets[i])) + flat_idx(
        m.layers.len(),
        |i: int| layer_group(m, i),
    );
    let b = profile_part(m) + palette_part(m) + tags_part(m) + flat_idx(m.slices.len(), |i: int| slice_group(m, i));
    assert(first_frame_chunks(m) =~= a + b);
}

/// The first frame's own chunks, replayed from the start of a frame.
#[verifier::spinoff_prover]
#[verifier::rlimit(60)]
proof fn lemma_rfirst(m: FileModel, r: FileModel, mode: ColorMode)
    requires
        0 < m.frames.len(),
        parts_ok(m),
        all_fit(first_frame_chunks(m)),
        without_cels(r) == without_cels(read_back(m)),
    ensures
        replay_run(r, 0, replay_start(), order_entries(mode, 0, first_frame_chunks(m))).chunks == first_frame_chunks(m),
{
    let a = ext_part(m) + flat_idx(m.tilesets.len(), |i: int| tileset_group(m.tilesets[i])) + flat_idx(
        m.layers.len(),
        |i: int| layer_group(m, i),
    );
    let b = profile_part(m) + palette_part(m) + tags_part(m) + flat_idx(m.slices.len(), |i: int| slice_group(m, i));
    lemma_first_split(m);
    lemma_all_fit_append(a, b);
    lemma_entries_append(mode, 0, a, b);
    lemma_run_append(r, 0, replay_start(), order_entries(mode, 0, a), order_entries(mode, 0, b));
    lemma_rfirst_a(m, r, mode);
    let st = replay_run(r, 0, replay_start(), order_entries(mode, 0, a));
    assert(st.chunks == a && st.slices == 0);
    lemma_rfirst_b(m, r, st, mode);
    assert(replay_run(r, 0, st, order_entries(mode, 0, b)).chunks == a + b);
}

/// A frame's chunks, replayed from the start of the frame, are the chunks
/// written.
#[verifier::spinoff_prover]
#[verifier::rlimit(40)]
proof fn lemma_rframe(m: FileModel, r: FileModel, fi: usize)
    requires
        0 < m.frames.len(),
        m.chunk_order.len() == 0,
        m.unknown_chunks.len() == 0,
        cels_sorted(m.cels),
        cels_ok(m),
        parts_ok(m),
        all_fit(frame_chunks(m, fi)),
        reads_back_as(r, m),
    ensures
        replay_run(r, fi, replay_start(), order_entries(m.color_mode, fi, frame_chunks(m, fi))).chunks == frame_chunks(m, fi),
{
    let mode = m.color_mode;
    reveal(frame_chunks);
    assert(!has_order(m, fi));
    let first: Seq<Seq<u8>> = if fi == 0 { first_frame_chunks(m) } else { Seq::empty() };
    let cp = cel_part(m, fi);
    assert(unknown_part(m, fi) =~= Seq::<Seq<u8>>::empty());
    assert(frame_chunks(m, fi) =~= first + cp);
    lemma_all_fit_append(first, cp);
    lemma_entries_append(mode, fi, first, cp);
    lemma_run_append(r, fi, replay_start(), order_entries(mode, fi, first), order_entries(mode, fi, cp));
    if fi == 0 {
        lemma_rfirst(m, r, mode);
    } else {
        assert(order_entries(mode, fi, first) =~= Seq::<ChunkOrderEntry>::empty());
    }
    let st1 = replay_run(r, fi, replay_start(), order_entries(mode, fi, first));
    assert(st1.chunks == first);
    assert forall|key: (usize, usize)| #[trigger] cel_lookup(r.cels, key) == rb_opt_cel(cel_lookup(m.cels, key)) by {
        lemma_lookup_rb(m, key);
    }
    lemma_rcels(m, r, fi, st1, m.cels.len());
}

/// Replaying the entries of all frames up to `k` for frame `fi` replays
/// those of frame `fi` alone.
#[verifier::spinoff_prover]
proof fn lemma_run_order_of(m: FileModel, r: FileModel, fi: usize, k: nat)
    requires
        k <= usize::MAX,
    ensures
        replay_run(r, fi, replay_start(), order_of(m, k)) == if fi < k {
            replay_run(r, fi, replay_start(), order_entries(m.color_mode, fi, frame_chunks(m, fi)))
        } else {
            replay_start()
        },
    decreases k,
{
    if k == 0 {
        assert(order_of(m, 0) =~= Seq::<ChunkOrderEntry>::empty());
    } else {
        let g = (k - 1) as usize;
        let es = order_entries(m.color_mode, g, frame_chunks(m, g));
        lemma_run_order_of(m, r, fi, (k - 1) as nat);
        lemma_run_append(r, fi, replay_start(), order_of(m, (k - 1) as nat), es);
        if g != fi {
            assert forall|i: int| 0 <= i < es.len() implies (#[trigger] es[i]).frame_index != fi by {
                assert(es[i] == order_entry(m.color_mode, g, frame_chunks(m, g)[i]));
            }
            lemma_run_other_frame(r, fi, replay_run(r, fi, replay_start(), order_of(m, (k - 1) as nat)), es);
        } else {
            assert(order_of(m, (k - 1) as nat) =~= order_of(m, (k - 1) as nat));
            lemma_run_order_of_before(m, r, fi, (k - 1) as nat);
        }
    }
}

/// Entries of frames before `fi` leave the replay of `fi` at its start.
#[verifier::spinoff_prover]
proof fn lemma_run_order_of_before(m: FileModel, r: FileModel, fi: usize, k: nat)
    requires
        k <= fi,
    ensures
        replay_run(r, fi, replay_start(), order_of(m, k)) == replay_start(),
    decreases k,
{
    if k > 0 {
        let g = (k - 1) as usize;
        let es = order_entries(m.color_mode, g, frame_chunks(m, g));
        lemma_run_order_of_before(m, r, fi, (k - 1) as nat);
        lemma_run_append(r, fi, replay_start(), order_of(m, (k - 1) as nat), es);
        assert forall|i: int| 0 <= i < es.len() implies (#[trigger] es[i]).frame_index != fi by {
            assert(es[i] == order_entry(m.color_mode, g, frame_chunks(m, g)[i]));
        }
        lemma_run_other_frame(r, fi, replay_start(), es);
    } else {
        assert(order_of(m, 0) =~= Seq::<ChunkOrderEntry>::empty());
    }
}

// --- Frames with and without recorded chunks ---

/// A run of groups is empty exactly when every group is.
proof fn lemma_flat_empty(n: nat, f: spec_fn(int) -> Seq<Seq<u8>>)
    ensures
        (flat_idx(n, f).len() == 0) == (forall|i: int| 0 <= i < n ==> (#[trigger] f(i)).len() == 0),
    decreases n,
{
    if n > 0 {
        lemma_flat_empty((n - 1) as nat, f);
        assert(flat_idx(n, f) == flat_idx((n - 1) as nat, f) + f(n - 1));
        if flat_idx(n, f).len() == 0 {
            assert forall|i: int| 0 <= i < n implies (#[trigger] f(i)).len() == 0 by {
                if i < n - 1 {
                } else {
                    assert(f(n - 1).len() == 0);
                }
            }
        }
    }
}

/// Frame `fi` has recorded entries exactly when it has chunks.
#[verifier::spinoff_prover]
proof fn lemma_order_has(m: FileModel, fi: usize, k: nat)
    requires
        k <= usize::MAX,
    ensures
        (exists|i: int| 0 <= i < order_of(m, k).len() && (#[trigger] order_of(m, k)[i]).frame_index == fi) == (fi < k
            && frame_chunks(m, fi).len() > 0),
    decreases k,
{
    if k > 0 {
        let g = (k - 1) as usize;
        let a = order_of(m, (k - 1) as nat);
        let es = order_entries(m.color_mode, g, frame_chunks(m, g));
        lemma_order_has(m, fi, (k - 1) as nat);
        assert(order_of(m, k) == a + es);
        assert forall|i: int| 0 <= i < es.len() implies (#[trigger] es[i]).frame_index == g by {
            assert(es[i] == order_entry(m.color_mode, g, frame_chunks(m, g)[i]));
        }
        if exists|i: int| 0 <= i < a.len() && (#[trigger] a[i]).frame_index == fi {
            let i = choose|i: int| 0 <= i < a.len() && (#[trigger] a[i]).frame_index == fi;
            assert((a + es)[i] == a[i]);
        }
        if g == fi && frame_chunks(m, fi).len() > 0 {
            assert((a + es)[a.len() as int] == es[0]);
        }
        if exists|i: int| 0 <= i < (a + es).len() && (#[trigger] (a + es)[i]).frame_index == fi {
            let i = choose|i: int| 0 <= i < (a + es).len() && (#[trigger] (a + es)[i]).frame_index == fi;
            if i >= a.len() {
                assert((a + es)[i] == es[i - a.len()]);
            } else {
                assert((a + es)[i] == a[i]);
            }
        }
    } else {
        assert(order_of(m, 0).len() == 0);
    }
}

/// A frame without chunks is written without chunks again.
#[verifier::spinoff_prover]
#[verifier::rlimit(60)]
proof fn lemma_empty_frame(m: FileModel, r: FileModel, fi: usize)
    requires
        0 < m.frames.len(),
        m.chunk_order.len() == 0,
        m.unknown_chunks.len() == 0,
        cels_sorted(m.cels),
        frame_chunks(m, fi).len() == 0,
        reads_back_as(r, m),
    ensures
        default_chunks(r, fi).len() == 0,
{
    reveal(frame_chunks);
    assert(!has_order(m, fi));
    assert(frame_chunks(m, fi) == default_chunks(m, fi));
    let first_m: Seq<Seq<u8>> = if fi == 0 { first_frame_chunks(m) } else { Seq::empty() };
    assert(default_chunks(m, fi) == first_m + cel_part(m, fi) + unknown_part(m, fi));
    assert(first_m.len() == 0 && cel_part(m, fi).len() == 0);
    assert(r.unknown_chunks.len() == 0);
    assert(unknown_part(r, fi) =~= Seq::<Seq<u8>>::empty());
    if fi == 0 {
        lemma_first_split(m);
        lemma_first_split(r);
        let ft = |i: int| tileset_group(m.tilesets[i]);
        let fl = |i: int| layer_group(m, i);
        let fs = |i: int| slice_group(m, i);
        lemma_flat_empty(m.tilesets.len(), ft);
        lemma_flat_empty(m.layers.len(), fl);
        lemma_flat_empty(m.slices.len(), fs);
        if m.tilesets.len() > 0 {
            assert(ft(0).len() > 0);
        }
        if m.layers.len() > 0 {
            assert(fl(0).len() > 0);
        }
        if m.slices.len() > 0 {
            assert(fs(0).len() > 0);
        }
        assert(r.tilesets.len() == 0 && r.layers.len() == 0 && r.slices.len() == 0);
        assert(r.external_files == m.external_files && r.color_profile == m.color_profile);
        assert(m.tags.len() == 0);
        assert(r.tags.len() == 0);
        assert(m.palette.len() == 0 && !non_empty_ud(m.sprite_user_data));
        assert(r.palette.len() == 0 && r.sprite_user_data is None);
        assert(flat_idx(0, |i: int| tileset_group(r.tilesets[i])).len() == 0);
        assert(flat_idx(0, |i: int| layer_group(r, i)).len() == 0);
        assert(flat_idx(0, |i: int| slice_group(r, i)).len() == 0);
        assert(first_frame_chunks(r).len() == 0);
    }
    let fc = |i: int| cel_item(m, fi, i);
    let fr = |i: int| cel_item(r, fi, i);
    lemma_flat_empty(m.cels.len(), fc);
    lemma_flat_empty(r.cels.len(), fr);
    assert forall|i: int| 0 <= i < r.cels.len() implies (#[trigger] fr(i)).len() == 0 by {
        if r.cels[i].0.1 == fi {
            let key = r.cels[i].0;
            lemma_lookup_at(r.cels, i);
            lemma_lookup_rb(m, key);
            assert(crate::cels::has_key(m.cels, key));
            let j = choose|j: int| 0 <= j < m.cels.len() && #[trigger] m.cels[j].0 == key;
            assert(fc(j).len() > 0);
            assert(false);
        }
    }
}

/// Every frame is written again with the chunks it was written with.
#[verifier::spinoff_prover]
#[verifier::rlimit(40)]
pub proof fn lemma_frame_rewritten(m: FileModel, r: FileModel, fi: usize)
    requires
        writable(m),
        fi < m.frames.len(),
        reads_back_as(r, m),
    ensures
        frame_chunks(r, fi) == frame_chunks(m, fi),
{
    let n = m.frames.len();
    assert(frame_fits(m, (fi as int) as usize));
    lemma_order_has(m, fi, n);
    if frame_chunks(m, fi).len() > 0 {
        assert(has_order(r, fi)) by {
            let i = choose|i: int| 0 <= i < order_of(m, n).len() && (#[trigger] order_of(m, n)[i]).frame_index == fi;
            assert(r.chunk_order[i].frame_index == fi);
        }
        assert(frame_chunks(r, fi) == replay(r, fi, r.chunk_order.len()).chunks) by {
            reveal(frame_chunks);
        }
        lemma_replay_is_run(r, fi, r.chunk_order.len());
        assert(r.chunk_order.take(r.chunk_order.len() as int) =~= order_of(m, n));
        lemma_run_order_of(m, r, fi, n);
        lemma_rframe(m, r, fi);
    } else {
        assert(!has_order(r, fi)) by {
            if has_order(r, fi) {
                let i = choose|i: int| 0 <= i < r.chunk_order.len() && (#[trigger] r.chunk_order[i]).frame_index == fi;
                assert(order_of(m, n)[i].frame_index == fi);
            }
        }
        assert(frame_chunks(r, fi) == default_chunks(r, fi)) by {
            reveal(frame_chunks);
        }
        lemma_empty_frame(m, r, fi);
        assert(frame_chunks(r, fi) =~= frame_chunks(m, fi));
    }
}

/// The frames are written again with the bytes they were written with.
#[verifier::spinoff_prover]
proof fn lemma_frames_rewritten(m: FileModel, r: FileModel, k: nat)
    requires
        writable(m),
        k <= m.frames.len(),
        reads_back_as(r, m),
    ensures
        frames_bytes(r, k) == frames_bytes(m, k),
    decreases k,
{
    if k > 0 {
        lemma_frames_rewritten(m, r, (k - 1) as nat);
        assert(r.frames == m.frames.take(m.frames.len() as int));
        assert(r.frames[k - 1] == m.frames[k - 1]);
        lemma_frame_rewritten(m, r, (k - 1) as usize);
    }
}

/// A file written, read back and written again gives the same bytes (its
/// pixel ratio components not 0, which reading turns into 1); and the model
/// read back, which records the order of the chunks it came from, is read
/// back as itself from what it writes.
pub proof fn lemma_write_read_write(m: FileModel)
    requires
        writable(m),
        m.pixel_ratio.0 != 0,
        m.pixel_ratio.1 != 0,
    ensures
        parse_file(enc_file(m)) matches Ok(r) && enc_file(r) == enc_file(m),
        parse_file(enc_file(m)) matches Ok(r) && parse_file(enc_file(r)) == Ok::<
            FileModel,
            ErrorModel,
        >(r),
{
    lemma_write_then_read(m);
    let r = parse_file(enc_file(m)).get_Ok_0();
    assert forall|key: (usize, usize)| #[trigger] cel_lookup(r.cels, key) == cel_lookup(read_back(m).cels, key) by {}
    assert(reads_back_as(r, m));
    let n = m.frames.len();
    lemma_frames_rewritten(m, r, n);
    assert(r.frames =~= m.frames);
    assert(r.pixel_ratio == m.pixel_ratio);
    let body = frames_bytes(m, n);
    assert(enc_header(r, trunc32(128int + body.len())) == enc_header(m, trunc32(128int + body.len())));
}

} // verus!
