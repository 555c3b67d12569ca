//! Writing a whole file: each frame's chunks, in the order in which the
//! file was read where one was recorded, else in a fixed default order.

use vstd::prelude::*;
use super::reader::LastEntity;
use super::{depth, filler_color, parents_ok, AsepriteFile, FileModel};
use crate::bytes::{le_i16, le_u16, le_u32, trunc32, zeros};
use crate::cel_chunk::{cel_needs_deflate, cel_stream_reads_back, enc_cel};
use crate::cels::cel_lookup;
use crate::error::ErrorModel;
use crate::layer_chunk::enc_layer;
use crate::list_chunks::{enc_palette, enc_slice, enc_tags};
use crate::misc_chunks::{enc_cel_extra, enc_color_profile, enc_ext_files};
use crate::model::{empty_ud, CelModel, TilesetModel, UnknownChunkModel, UserDataModel};
use crate::tileset_chunk::{enc_tileset, tileset_needs_deflate, tileset_stream_reads_back};
use crate::cel_chunk::encode_cel_chunk;
use crate::error::AsepriteError;
use crate::layer_chunk::encode_layer_chunk;
use crate::list_chunks::{color_views, encode_palette_chunk, encode_slice_chunk, encode_tags_chunk};
use crate::misc_chunks::{encode_cel_extra_chunk, encode_color_profile_chunk, encode_external_files_chunk};
use crate::tileset_chunk::encode_tileset_chunk;
use crate::types::{Cel, ChunkOrderEntry, Color, ColorMode, Tileset, UserData};
use crate::user_data_chunk::encode_user_data_chunk;
use crate::user_data_chunk::enc_ud;

verus! {

/// Every tileset that writing compresses is stored with a stream that
/// decompresses to its tiles.
pub open spec fn tileset_streams_ok(m: FileModel) -> bool {
    forall|i: int|
        0 <= i < m.tilesets.len() ==> (tileset_needs_deflate(#[trigger] m.tilesets[i]) ==> tileset_stream_reads_back(
            m.tilesets[i],
        ))
}

/// Every cel of frame `fi` that writing compresses is stored with a stream
/// that decompresses to its data.
pub open spec fn cel_streams_ok(m: FileModel, fi: usize) -> bool {
    forall|i: int|
        0 <= i < m.cels.len() ==> ((#[trigger] m.cels[i]).0.1 == fi && cel_needs_deflate(m.cels[i].1.kind)
            ==> cel_stream_reads_back(m.cels[i].1.kind))
}

/// A chunk as stored: its size (head included), its type, its body.
pub open spec fn wrap(t: u16, d: Seq<u8>) -> Seq<u8> {
    le_u32(trunc32(d.len() + 6int)) + le_u16(t) + d
}

/// The chunks, one after the other.
pub open spec fn concat(cs: Seq<Seq<u8>>) -> Seq<u8>
    decreases cs.len(),
{
    if cs.len() == 0 {
        Seq::empty()
    } else {
        concat(cs.drop_last()) + cs.last()
    }
}

/// The chunks that `f` gives for 0, 1, ..., n - 1, in turn.
pub open spec fn flat_idx(n: nat, f: spec_fn(int) -> Seq<Seq<u8>>) -> Seq<Seq<u8>>
    decreases n,
{
    if n == 0 {
        Seq::empty()
    } else {
        flat_idx((n - 1) as nat, f) + f(n - 1)
    }
}

pub open spec fn ud_or_empty(u: Option<UserDataModel>) -> UserDataModel {
    match u {
        Some(x) => x,
        None => empty_ud(),
    }
}

pub open spec fn ud_chunk(u: UserDataModel) -> Seq<u8> {
    wrap(0x2020, enc_ud(u))
}

/// A user data chunk where there is user data.
pub open spec fn opt_ud_chunks(u: Option<UserDataModel>) -> Seq<Seq<u8>> {
    match u {
        Some(x) => seq![ud_chunk(x)],
        None => Seq::empty(),
    }
}

/// User data that carries something.
pub open spec fn non_empty_ud(u: Option<UserDataModel>) -> bool {
    match u {
        Some(x) => x.text is Some || x.color is Some || x.properties.len() > 0,
        None => false,
    }
}

// --- The default order ---

pub open spec fn ext_part(m: FileModel) -> Seq<Seq<u8>> {
    if m.external_files.len() > 0 {
        seq![wrap(0x2008, enc_ext_files(m.external_files))]
    } else {
        Seq::empty()
    }
}

pub open spec fn has_tile_ud(ts: TilesetModel) -> bool {
    exists|i: int| 0 <= i < ts.tile_user_data.len() && #[trigger] ts.tile_user_data[i] is Some
}

/// The user data of tile `i`, or empty user data.
pub open spec fn tile_ud(ts: TilesetModel, i: int) -> UserDataModel {
    if 0 <= i < ts.tile_user_data.len() {
        ud_or_empty(ts.tile_user_data[i])
    } else {
        empty_ud()
    }
}

/// A tileset chunk, then the tileset's user data and one user data chunk
/// per tile where any tile has user data.
pub open spec fn tileset_group(ts: TilesetModel) -> Seq<Seq<u8>> {
    seq![wrap(0x2023, enc_tileset(ts))] + (if ts.user_data is Some || has_tile_ud(ts) {
        seq![ud_chunk(ud_or_empty(ts.user_data))]
    } else {
        Seq::empty()
    }) + (if has_tile_ud(ts) {
        flat_idx(ts.tile_count as nat, |i: int| seq![ud_chunk(tile_ud(ts, i))])
    } else {
        Seq::empty()
    })
}

pub open spec fn layer_group(m: FileModel, i: int) -> Seq<Seq<u8>> {
    seq![wrap(0x2004, enc_layer(m.layers[i], depth(m.layers, i) as u16))] + opt_ud_chunks(m.layers[i].user_data)
}

pub open spec fn profile_part(m: FileModel) -> Seq<Seq<u8>> {
    match m.color_profile {
        Some(p) => seq![wrap(0x2007, enc_color_profile(p))],
        None => Seq::empty(),
    }
}

/// The palette chunk, or a one-color palette chunk to carry sprite user
/// data, then the sprite user data.
pub open spec fn palette_part(m: FileModel) -> Seq<Seq<u8>> {
    if m.palette.len() > 0 {
        seq![wrap(0x2019, enc_palette(m.palette))] + opt_ud_chunks(m.sprite_user_data)
    } else if non_empty_ud(m.sprite_user_data) {
        seq![wrap(0x2019, enc_palette(seq![filler_color()]))] + opt_ud_chunks(m.sprite_user_data)
    } else {
        Seq::empty()
    }
}

pub open spec fn any_tag_ud(m: FileModel) -> bool {
    exists|i: int| 0 <= i < m.tags.len() && non_empty_ud(#[trigger] m.tags[i].user_data)
}

pub open spec fn tags_part(m: FileModel) -> Seq<Seq<u8>> {
    if m.tags.len() > 0 {
        seq![wrap(0x2018, enc_tags(m.tags))] + (if any_tag_ud(m) {
            flat_idx(m.tags.len(), |i: int| seq![ud_chunk(ud_or_empty(m.tags[i].user_data))])
        } else {
            Seq::empty()
        })
    } else {
        Seq::empty()
    }
}

pub open spec fn slice_group(m: FileModel, i: int) -> Seq<Seq<u8>> {
    seq![wrap(0x2022, enc_slice(m.slices[i]))] + opt_ud_chunks(m.slices[i].user_data)
}

/// The chunks that only the first frame carries in the default order.
pub open spec fn first_frame_chunks(m: FileModel) -> Seq<Seq<u8>> {
    ext_part(m) + flat_idx(m.tilesets.len(), |i: int| tileset_group(m.tilesets[i])) + flat_idx(
        m.layers.len(),
        |i: int| layer_group(m, i),
    ) + profile_part(m) + palette_part(m) + tags_part(m) + flat_idx(m.slices.len(), |i: int| slice_group(m, i))
}

/// A cel chunk, its extra bounds and its user data.
pub open spec fn cel_group(k: (usize, usize), c: CelModel) -> Seq<Seq<u8>> {
    seq![wrap(0x2005, enc_cel(c, k.0))] + (match c.extra {
        Some(x) => seq![wrap(0x2006, enc_cel_extra(x))],
        None => Seq::empty(),
    }) + opt_ud_chunks(c.user_data)
}

/// The chunks of entry `i` of the cels, if it belongs to frame `fi`.
pub open spec fn cel_item(m: FileModel, fi: usize, i: int) -> Seq<Seq<u8>> {
    if m.cels[i].0.1 == fi {
        cel_group(m.cels[i].0, m.cels[i].1)
    } else {
        Seq::empty()
    }
}

pub open spec fn cel_part(m: FileModel, fi: usize) -> Seq<Seq<u8>> {
    flat_idx(m.cels.len(), |i: int| cel_item(m, fi, i))
}

pub open spec fn unknown_part(m: FileModel, fi: usize) -> Seq<Seq<u8>> {
    flat_idx(
        m.unknown_chunks.len(),
        |i: int| if m.unknown_chunks[i].frame_index == fi {
            seq![wrap(m.unknown_chunks[i].chunk_type, m.unknown_chunks[i].data)]
        } else {
            Seq::empty()
        },
    )
}

/// The chunks of frame `fi` in the default order.
pub open spec fn default_chunks(m: FileModel, fi: usize) -> Seq<Seq<u8>> {
    (if fi == 0 { first_frame_chunks(m) } else { Seq::empty() }) + cel_part(m, fi) + unknown_part(m, fi)
}

// --- Replaying a recorded order ---

/// The kept chunks of frame `fi`, in order.
pub open spec fn unknowns_for(s: Seq<UnknownChunkModel>, fi: usize) -> Seq<UnknownChunkModel>
    decreases s.len(),
{
    if s.len() == 0 {
        Seq::empty()
    } else if s.last().frame_index == fi {
        unknowns_for(s.drop_last(), fi).push(s.last())
    } else {
        unknowns_for(s.drop_last(), fi)
    }
}

/// The state of a replay: the chunks so far, how many layers, slices,
/// tilesets and kept chunks were written, and what the last chunk
/// described.
pub struct ReplayState {
    pub chunks: Seq<Seq<u8>>,
    pub layers: nat,
    pub slices: nat,
    pub tilesets: nat,
    pub unknowns: nat,
    pub last: LastEntity,
}

/// The user data that a user data chunk carries after what the last chunk
/// described (empty where there is none), and what it describes next.
pub open spec fn writer_user_data(m: FileModel, last: LastEntity) -> (UserDataModel, LastEntity) {
    match last {
        LastEntity::Layer(i) => (if i < m.layers.len() { ud_or_empty(m.layers[i as int].user_data) } else { empty_ud() }, last),
        LastEntity::Cel(l, f) => (
            match cel_lookup(m.cels, (l, f)) {
                Some(c) => ud_or_empty(c.user_data),
                None => empty_ud(),
            },
            last,
        ),
        LastEntity::TagSequence(n) => (
            if n < m.tags.len() { ud_or_empty(m.tags[n as int].user_data) } else { empty_ud() },
            LastEntity::TagSequence((n + 1) as usize),
        ),
        LastEntity::Palette => (ud_or_empty(m.sprite_user_data), last),
        LastEntity::Slice(i) => (if i < m.slices.len() { ud_or_empty(m.slices[i as int].user_data) } else { empty_ud() }, last),
        LastEntity::Tileset(i) => (
            if i < m.tilesets.len() { ud_or_empty(m.tilesets[i as int].user_data) } else { empty_ud() },
            LastEntity::TileSequence(i, 0),
        ),
        LastEntity::TileSequence(ts, t) => (
            if ts < m.tilesets.len() { tile_ud(m.tilesets[ts as int], t as int) } else { empty_ud() },
            LastEntity::TileSequence(ts, (t + 1) as usize),
        ),
        LastEntity::Nothing => (empty_ud(), last),
    }
}

/// Writes the next kept chunk of the frame, if one is left.
pub open spec fn replay_unknown(m: FileModel, fi: usize, st: ReplayState) -> ReplayState {
    let unk = unknowns_for(m.unknown_chunks, fi);
    if st.unknowns < unk.len() {
        ReplayState {
            chunks: st.chunks.push(wrap(unk[st.unknowns as int].chunk_type, unk[st.unknowns as int].data)),
            unknowns: st.unknowns + 1,
            ..st
        }
    } else {
        st
    }
}

/// One recorded chunk of frame `fi` written again from the file's data.
#[verifier::opaque]
pub open spec fn replay_step(m: FileModel, fi: usize, st: ReplayState, e: ChunkOrderEntry) -> ReplayState {
    let t = e.chunk_type;
    if e.frame_index != fi {
        st
    } else if t == 0x2004 {
        if st.layers < m.layers.len() {
            ReplayState {
                chunks: st.chunks.push(
                    wrap(0x2004, enc_layer(m.layers[st.layers as int], depth(m.layers, st.layers as int) as u16)),
                ),
                layers: st.layers + 1,
                last: LastEntity::Layer(st.layers as usize),
                ..st
            }
        } else {
            st
        }
    } else if t == 0x2005 {
        match e.layer_index {
            Some(li) => match cel_lookup(m.cels, (li, fi)) {
                Some(c) => ReplayState {
                    chunks: st.chunks.push(wrap(0x2005, enc_cel(c, li))),
                    last: LastEntity::Cel(li, fi),
                    ..st
                },
                None => st,
            },
            None => st,
        }
    } else if t == 0x2006 {
        match st.last {
            LastEntity::Cel(li, f) => match cel_lookup(m.cels, (li, f)) {
                Some(c) => match c.extra {
                    Some(x) => ReplayState { chunks: st.chunks.push(wrap(0x2006, enc_cel_extra(x))), ..st },
                    None => st,
                },
                None => st,
            },
            _ => st,
        }
    } else if t == 0x2007 {
        match m.color_profile {
            Some(p) => ReplayState { chunks: st.chunks.push(wrap(0x2007, enc_color_profile(p))), ..st },
            None => st,
        }
    } else if t == 0x2018 {
        if m.tags.len() > 0 {
            ReplayState {
                chunks: st.chunks.push(wrap(0x2018, enc_tags(m.tags))),
                last: LastEntity::TagSequence(0),
                ..st
            }
        } else {
            st
        }
    } else if t == 0x2019 {
        if m.palette.len() > 0 {
            ReplayState {
                chunks: st.chunks.push(wrap(0x2019, enc_palette(m.palette))),
                last: if fi == 0 { LastEntity::Palette } else { st.last },
                ..st
            }
        } else {
            st
        }
    } else if t == 0x2020 {
        let (u, next) = writer_user_data(m, st.last);
        ReplayState { chunks: st.chunks.push(ud_chunk(u)), last: next, ..st }
    } else if t == 0x2008 {
        if m.external_files.len() > 0 {
            ReplayState { chunks: st.chunks.push(wrap(0x2008, enc_ext_files(m.external_files))), ..st }
        } else {
            st
        }
    } else if t == 0x2023 {
        if st.tilesets < m.tilesets.len() {
            ReplayState {
                chunks: st.chunks.push(wrap(0x2023, enc_tileset(m.tilesets[st.tilesets as int]))),
                tilesets: st.tilesets + 1,
                last: LastEntity::Tileset(st.tilesets as usize),
                ..st
            }
        } else {
            st
        }
    } else if t == 0x2022 {
        if st.slices < m.slices.len() {
            ReplayState {
                chunks: st.chunks.push(wrap(0x2022, enc_slice(m.slices[st.slices as int]))),
                slices: st.slices + 1,
                last: LastEntity::Slice(st.slices as usize),
                ..st
            }
        } else {
            st
        }
    } else if t == 0x0004 {
        let st2 = replay_unknown(m, fi, st);
        ReplayState { last: if fi == 0 { LastEntity::Palette } else { st2.last }, ..st2 }
    } else {
        replay_unknown(m, fi, st)
    }
}

pub open spec fn replay_start() -> ReplayState {
    ReplayState { chunks: Seq::empty(), layers: 0, slices: 0, tilesets: 0, unknowns: 0, last: LastEntity::Nothing }
}

/// The first `k` recorded entries replayed for frame `fi`.
pub open spec fn replay(m: FileModel, fi: usize, k: nat) -> ReplayState
    decreases k,
{
    if k == 0 {
        replay_start()
    } else {
        replay_step(m, fi, replay(m, fi, (k - 1) as nat), m.chunk_order[k - 1])
    }
}

/// Whether an order was recorded for frame `fi`.
pub open spec fn has_order(m: FileModel, fi: usize) -> bool {
    exists|i: int| 0 <= i < m.chunk_order.len() && (#[trigger] m.chunk_order[i]).frame_index == fi
}

/// The chunks of frame `fi`.
#[verifier::opaque]
pub open spec fn frame_chunks(m: FileModel, fi: usize) -> Seq<Seq<u8>> {
    if has_order(m, fi) {
        replay(m, fi, m.chunk_order.len()).chunks
    } else {
        default_chunks(m, fi)
    }
}

/// A frame: its 16-byte header, then its chunks.
pub open spec fn enc_frame(duration: u16, cs: Seq<Seq<u8>>) -> Seq<u8> {
    let d = concat(cs);
    let n = cs.len();
    le_u32(trunc32(16int + d.len())) + le_u16(0xF1FA) + le_u16(if n > 0xFFFE { 0xFFFF } else { n as u16 }) + le_u16(
        duration,
    ) + zeros(2) + le_u32(trunc32(n as int)) + d
}

/// The first `k` frames, one after the other.
pub open spec fn frames_bytes(m: FileModel, k: nat) -> Seq<u8>
    decreases k,
{
    if k == 0 {
        Seq::empty()
    } else {
        frames_bytes(m, (k - 1) as nat) + enc_frame(m.frames[k - 1].duration_ms, frame_chunks(m, (k - 1) as usize))
    }
}

/// The 128-byte header for a file of `total` bytes.
pub open spec fn enc_header(m: FileModel, total: u32) -> Seq<u8> {
    le_u32(total) + le_u16(0xA5E0) + le_u16(m.frames.len() as u16) + le_u16(m.width) + le_u16(m.height) + le_u16(
        m.color_mode.spec_to_depth(),
    ) + le_u32(m.flags) + le_u16(m.deprecated_speed) + le_u32(0) + le_u32(0) + seq![m.transparent_index]
        + zeros(3) + le_u16(m.num_colors) + seq![m.pixel_ratio.0, m.pixel_ratio.1] + le_i16(m.grid.x) + le_i16(
        m.grid.y,
    ) + le_u16(m.grid.width) + le_u16(m.grid.height) + zeros(84)
}

/// The bytes of a file.
pub open spec fn enc_file(m: FileModel) -> Seq<u8> {
    let body = frames_bytes(m, m.frames.len());
    enc_header(m, trunc32(128int + body.len())) + body
}

/// The error that writing `m` meets before anything is encoded, if any.
pub open spec fn write_error(m: FileModel) -> Option<ErrorModel> {
    if m.frames.len() > 65535 {
        Some(ErrorModel::FormatLimitExceeded { field: "frames"@, value: m.frames.len() as usize, max: 65535 })
    } else if m.layers.len() > 65535 {
        Some(ErrorModel::FormatLimitExceeded { field: "layers"@, value: m.layers.len() as usize, max: 65535 })
    } else if m.color_mode == ColorMode::Indexed && m.palette.len() == 0 {
        Some(ErrorModel::MissingPalette)
    } else {
        None
    }
}



/// The chunks of a frame written so far: their bytes and their number.
struct Chunks {
    data: Vec<u8>,
    count: usize,
    cs: Ghost<Seq<Seq<u8>>>,
}

impl Chunks {
    spec fn chunks(&self) -> Seq<Seq<u8>> {
        self.cs@
    }

    spec fn wf(&self) -> bool {
        self.data@ == concat(self.cs@) && self.count == self.cs@.len() && self.count <= self.data@.len()
    }

    fn new() -> (c: Chunks)
        ensures
            c.wf(),
            c.chunks() == Seq::<Seq<u8>>::empty(),
    {
        Chunks { data: Vec::new(), count: 0, cs: Ghost(Seq::empty()) }
    }

    /// Appends a chunk of type `t` with body `d`.
    fn push(&mut self, t: u16, d: &[u8])
        requires
            old(self).wf(),
        ensures
            final(self).wf(),
            final(self).chunks() == old(self).chunks().push(wrap(t, d@)),
    {
        let size = crate::bytes::trunc32_add(d.len(), 6);
        let ghost before = self.data@;
        crate::bytes::write_dword(&mut self.data, size);
        crate::bytes::write_word(&mut self.data, t);
        crate::bytes::push_bytes(&mut self.data, d);
        let new_len = self.data.len();
        assert(new_len >= before.len() + 6);
        self.count = self.count + 1;
        proof {
            self.cs@ = self.cs@.push(wrap(t, d@));
            assert(self.cs@.drop_last() =~= old(self).cs@);
            assert(self.data@ =~= concat(old(self).cs@) + wrap(t, d@));
        }
    }
}


fn empty_user_data() -> (u: UserData)
    ensures
        u@ == empty_ud(),
{
    let u = UserData { text: None, color: None, properties: Vec::new() };
    assert(u@.properties =~= Seq::<crate::model::PropertiesMapModel>::empty());
    u
}

/// The bytes of a user data chunk body for `u`, or for empty user data.
fn encode_opt_user_data(u: &Option<UserData>) -> (d: Vec<u8>)
    ensures
        d@ == enc_ud(ud_or_empty(crate::model::opt_ud_view(*u))),
{
    match u {
        Some(x) => encode_user_data_chunk(x),
        None => {
            let e = empty_user_data();
            encode_user_data_chunk(&e)
        },
    }
}

fn is_non_empty_user_data(u: &Option<UserData>) -> (b: bool)
    ensures
        b == non_empty_ud(crate::model::opt_ud_view(*u)),
{
    match u {
        Some(x) => x.text.is_some() || x.color.is_some() || x.properties.len() > 0,
        None => false,
    }
}

fn has_tile_user_data(ts: &Tileset) -> (b: bool)
    ensures
        b == has_tile_ud(ts@),
{
    let mut i: usize = 0;
    while i < ts.tile_user_data.len()
        invariant
            i <= ts.tile_user_data@.len(),
            forall|k: int| 0 <= k < i ==> ts.tile_user_data@[k] is None,
        decreases ts.tile_user_data@.len() - i,
    {
        if ts.tile_user_data[i].is_some() {
            assert(ts@.tile_user_data[i as int] is Some);
            return true;
        }
        i = i + 1;
    }
    proof {
        assert forall|k: int| 0 <= k < ts@.tile_user_data.len() implies !(#[trigger] ts@.tile_user_data[k] is Some) by {
            assert(ts.tile_user_data@[k] is None);
        }
    }
    false
}

/// Appends the user data chunk of `u`, if there is user data.
fn emit_user_data_chunk(out: &mut Chunks, u: &Option<UserData>)
    requires
        old(out).wf(),
    ensures
        final(out).wf(),
        final(out).chunks() == old(out).chunks() + opt_ud_chunks(crate::model::opt_ud_view(*u)),
{
    if let Some(x) = u {
        let d = encode_user_data_chunk(x);
        out.push(0x2020, d.as_slice());
        assert(out.chunks() =~= old(out).chunks() + opt_ud_chunks(crate::model::opt_ud_view(*u)));
    } else {
        assert(out.chunks() =~= old(out).chunks() + opt_ud_chunks(crate::model::opt_ud_view(*u)));
    }
}

/// Appends a tileset chunk and the user data chunks that follow it.
fn emit_tileset_group(out: &mut Chunks, ts: &Tileset) -> (r: Result<(), AsepriteError>)
    requires
        old(out).wf(),
    ensures
        final(out).wf(),
        match r {
            Ok(()) => final(out).chunks() == old(out).chunks() + tileset_group(ts@),
            Err(_) => false,
        },
        tileset_needs_deflate(ts@) ==> tileset_stream_reads_back(ts@),
{
    let d = encode_tileset_chunk(ts)?;
    out.push(0x2023, d.as_slice());
    let ghost c1 = out.chunks();
    let htu = has_tile_user_data(ts);
    if ts.user_data.is_some() || htu {
        let d = encode_opt_user_data(&ts.user_data);
        out.push(0x2020, d.as_slice());
    }
    let ghost c2 = out.chunks();
    let ghost f = |i: int| seq![ud_chunk(tile_ud(ts@, i))];
    if htu {
        let mut i: u32 = 0;
        while i < ts.tile_count
            invariant
                i <= ts.tile_count,
                out.wf(),
                out.chunks() == c2 + flat_idx(i as nat, f),
                f == (|i: int| seq![ud_chunk(tile_ud(ts@, i))]),
            decreases ts.tile_count - i,
        {
            let d = if (i as usize) < ts.tile_user_data.len() {
                encode_opt_user_data(&ts.tile_user_data[i as usize])
            } else {
                let e = empty_user_data();
                encode_user_data_chunk(&e)
            };
            out.push(0x2020, d.as_slice());
            proof {
                assert(flat_idx((i + 1) as nat, f) == flat_idx(i as nat, f) + f(i as int));
                assert(out.chunks() =~= c2 + flat_idx((i + 1) as nat, f));
            }
            i = i + 1;
        }
    }
    assert(out.chunks() =~= old(out).chunks() + tileset_group(ts@));
    Ok(())
}

pub proof fn lemma_depth_below(ls: Seq<crate::model::LayerModel>, i: int)
    requires
        parents_ok(ls),
        0 <= i,
    ensures
        depth(ls, i) <= i,
    decreases i,
{
    if 0 <= i < ls.len() {
        if let Some(p) = ls[i].parent {
            lemma_depth_below(ls, p as int);
        }
    }
}

proof fn lemma_concat7<A>(c0: Seq<A>, a1: Seq<A>, a2: Seq<A>, a3: Seq<A>, a4: Seq<A>, a5: Seq<A>, a6: Seq<A>, a7: Seq<A>)
    ensures
        c0 + a1 + a2 + a3 + a4 + a5 + a6 + a7 == c0 + (a1 + a2 + a3 + a4 + a5 + a6 + a7),
{
    assert(c0 + a1 + a2 + a3 + a4 + a5 + a6 + a7 =~= c0 + (a1 + a2 + a3 + a4 + a5 + a6 + a7));
}

impl AsepriteFile {
    fn emit_tilesets(&self, out: &mut Chunks) -> (r: Result<(), AsepriteError>)
        requires
            old(out).wf(),
        ensures
            final(out).wf(),
            match r {
                Ok(()) => final(out).chunks() == old(out).chunks() + flat_idx(
                    self@.tilesets.len(),
                    |i: int| tileset_group(self@.tilesets[i]),
                ),
                Err(_) => false,
            },
            tileset_streams_ok(self@),
    {
        let ghost m = self@;
        let ghost c1 = out.chunks();
        let ghost ft = |i: int| tileset_group(m.tilesets[i]);
        let mut i: usize = 0;
        while i < self.tilesets.len()
            invariant
                i <= self.tilesets@.len(),
                m == self@,
                out.wf(),
                out.chunks() == c1 + flat_idx(i as nat, ft),
                ft == (|i: int| tileset_group(m.tilesets[i])),
                forall|j: int|
                    0 <= j < i ==> (tileset_needs_deflate(#[trigger] m.tilesets[j]) ==> tileset_stream_reads_back(
                        m.tilesets[j],
                    )),
            decreases self.tilesets@.len() - i,
        {
            assert(m.tilesets[i as int] == self.tilesets@[i as int]@);
            match emit_tileset_group(out, &self.tilesets[i]) {
                Ok(()) => {},
                Err(e) => {
                    return Err(e);
                },
            }
            proof {
                assert(flat_idx((i + 1) as nat, ft) == flat_idx(i as nat, ft) + ft(i as int));
                assert(out.chunks() =~= c1 + flat_idx((i + 1) as nat, ft));
            }
            i = i + 1;
        }
        Ok(())
    }

    fn emit_layers(&self, out: &mut Chunks)
        requires
            self.wf(),
            self@.layers.len() <= 65535,
            old(out).wf(),
        ensures
            final(out).wf(),
            final(out).chunks() == old(out).chunks() + flat_idx(self@.layers.len(), |i: int| layer_group(self@, i)),
    {
        let ghost m = self@;
        let ghost c2 = out.chunks();
        let ghost fl = |i: int| layer_group(m, i);
        let mut i: usize = 0;
        while i < self.layers.len()
            invariant
                i <= self.layers@.len(),
                self.layers@.len() <= 65535,
                m == self@,
                self.wf(),
                out.wf(),
                out.chunks() == c2 + flat_idx(i as nat, fl),
                fl == (|i: int| layer_group(m, i)),
            decreases self.layers@.len() - i,
        {
            proof {
                lemma_depth_below(m.layers, i as int);
            }
            let level = super::compute_child_level(&self.layers, i);
            let d = encode_layer_chunk(&self.layers[i], level);
            out.push(0x2004, d.as_slice());
            emit_user_data_chunk(out, &self.layers[i].user_data);
            proof {
                assert(flat_idx((i + 1) as nat, fl) == flat_idx(i as nat, fl) + fl(i as int));
                assert(out.chunks() =~= c2 + flat_idx((i + 1) as nat, fl));
            }
            i = i + 1;
        }
    }

    fn emit_palette(&self, out: &mut Chunks)
        requires
            old(out).wf(),
        ensures
            final(out).wf(),
            final(out).chunks() == old(out).chunks() + palette_part(self@),
    {
        let ghost m = self@;
        let ghost c4 = out.chunks();
        if self.palette.len() > 0 {
            let d = encode_palette_chunk(&self.palette);
            out.push(0x2019, d.as_slice());
            emit_user_data_chunk(out, &self.sprite_user_data);
        } else if is_non_empty_user_data(&self.sprite_user_data) {
            let mut one: Vec<Color> = Vec::new();
            one.push(Color { r: 0, g: 0, b: 0, a: 255, name: None });
            assert(color_views(one@) =~= seq![filler_color()]);
            let d = encode_palette_chunk(&one);
            out.push(0x2019, d.as_slice());
            emit_user_data_chunk(out, &self.sprite_user_data);
        }
        assert(out.chunks() =~= c4 + palette_part(m));
    }

    fn emit_tags(&self, out: &mut Chunks)
        requires
            old(out).wf(),
        ensures
            final(out).wf(),
            final(out).chunks() == old(out).chunks() + tags_part(self@),
    {
        let ghost m = self@;
        let ghost c5 = out.chunks();
        if self.tags.len() > 0 {
            let d = encode_tags_chunk(&self.tags);
            out.push(0x2018, d.as_slice());
            let ghost c51 = out.chunks();
            let mut any = false;
            let mut j: usize = 0;
            while j < self.tags.len()
                invariant
                    j <= self.tags@.len(),
                    m == self@,
                    any <==> exists|k: int| 0 <= k < j && non_empty_ud(#[trigger] m.tags[k].user_data),
                decreases self.tags@.len() - j,
            {
                assert(m.tags[j as int].user_data == crate::model::opt_ud_view(self.tags@[j as int].user_data));
                if is_non_empty_user_data(&self.tags[j].user_data) {
                    any = true;
                }
                j = j + 1;
            }
            assert(any == any_tag_ud(m));
            if any {
                let ghost fg = |i: int| seq![ud_chunk(ud_or_empty(m.tags[i].user_data))];
                let mut j: usize = 0;
                while j < self.tags.len()
                    invariant
                        j <= self.tags@.len(),
                        m == self@,
                        out.wf(),
                        out.chunks() == c51 + flat_idx(j as nat, fg),
                        fg == (|i: int| seq![ud_chunk(ud_or_empty(m.tags[i].user_data))]),
                    decreases self.tags@.len() - j,
                {
                    let d = encode_opt_user_data(&self.tags[j].user_data);
                    out.push(0x2020, d.as_slice());
                    proof {
                        assert(flat_idx((j + 1) as nat, fg) == flat_idx(j as nat, fg) + fg(j as int));
                        assert(out.chunks() =~= c51 + flat_idx((j + 1) as nat, fg));
                    }
                    j = j + 1;
                }
            }
        }
        assert(out.chunks() =~= c5 + tags_part(m));
    }

    fn emit_slices(&self, out: &mut Chunks)
        requires
            old(out).wf(),
        ensures
            final(out).wf(),
            final(out).chunks() == old(out).chunks() + flat_idx(self@.slices.len(), |i: int| slice_group(self@, i)),
    {
        let ghost m = self@;
        let ghost c6 = out.chunks();
        let ghost fs = |i: int| slice_group(m, i);
        let mut i: usize = 0;
        while i < self.slices.len()
            invariant
                i <= self.slices@.len(),
                m == self@,
                out.wf(),
                out.chunks() == c6 + flat_idx(i as nat, fs),
                fs == (|i: int| slice_group(m, i)),
            decreases self.slices@.len() - i,
        {
            let d = encode_slice_chunk(&self.slices[i]);
            out.push(0x2022, d.as_slice());
            emit_user_data_chunk(out, &self.slices[i].user_data);
            proof {
                assert(flat_idx((i + 1) as nat, fs) == flat_idx(i as nat, fs) + fs(i as int));
                assert(out.chunks() =~= c6 + flat_idx((i + 1) as nat, fs));
            }
            i = i + 1;
        }
    }

    #[verifier::spinoff_prover]
    fn emit_first_frame(&self, out: &mut Chunks) -> (r: Result<(), AsepriteError>)
        requires
            self.wf(),
            self@.layers.len() <= 65535,
            old(out).wf(),
        ensures
            final(out).wf(),
            match r {
                Ok(()) => final(out).chunks() == old(out).chunks() + first_frame_chunks(self@),
                Err(_) => false,
            },
            tileset_streams_ok(self@),
    {
        let ghost m = self@;
        let ghost c0 = out.chunks();
        if self.external_files.len() > 0 {
            let d = encode_external_files_chunk(&self.external_files);
            out.push(0x2008, d.as_slice());
        }
        assert(out.chunks() =~= c0 + ext_part(m));
        let ghost c1 = out.chunks();
        self.emit_tilesets(out)?;
        let ghost c2 = out.chunks();
        self.emit_layers(out);
        let ghost c3 = out.chunks();
        if let Some(p) = &self.color_profile {
            let d = encode_color_profile_chunk(p);
            out.push(0x2007, d.as_slice());
        }
        assert(out.chunks() =~= c3 + profile_part(m));
        let ghost c4 = out.chunks();
        self.emit_palette(out);
        let ghost c5 = out.chunks();
        self.emit_tags(out);
        let ghost c6 = out.chunks();
        self.emit_slices(out);
        proof {
            lemma_concat7(
                c0,
                ext_part(m),
                flat_idx(m.tilesets.len(), |i: int| tileset_group(m.tilesets[i])),
                flat_idx(m.layers.len(), |i: int| layer_group(m, i)),
                profile_part(m),
                palette_part(m),
                tags_part(m),
                flat_idx(m.slices.len(), |i: int| slice_group(m, i)),
            );
        }
        Ok(())
    }
}


/// Appends a cel chunk, its extra-bounds chunk and its user data chunk.
fn emit_cel_group(out: &mut Chunks, li: usize, cel: &Cel) -> (r: Result<(), AsepriteError>)
    requires
        old(out).wf(),
    ensures
        final(out).wf(),
        match r {
            Ok(()) => final(out).chunks() == old(out).chunks() + cel_group((li, 0), cel@),
            Err(_) => false,
        },
        cel_needs_deflate(cel@.kind) ==> cel_stream_reads_back(cel@.kind),
{
    let d = encode_cel_chunk(cel, li)?;
    out.push(0x2005, d.as_slice());
    if let Some(x) = &cel.extra {
        let d = encode_cel_extra_chunk(x);
        out.push(0x2006, d.as_slice());
    }
    emit_user_data_chunk(out, &cel.user_data);
    assert(out.chunks() =~= old(out).chunks() + cel_group((li, 0), cel@));
    Ok(())
}

impl AsepriteFile {
    fn emit_cels(&self, out: &mut Chunks, fi: usize) -> (r: Result<(), AsepriteError>)
        requires
            old(out).wf(),
        ensures
            final(out).wf(),
            match r {
                Ok(()) => final(out).chunks() == old(out).chunks() + cel_part(self@, fi),
                Err(_) => false,
            },
            cel_streams_ok(self@, fi),
    {
        let ghost m = self@;
        let ghost c0 = out.chunks();
        let ghost f = |i: int| cel_item(m, fi, i);
        let mut i: usize = 0;
        while i < self.cels.len()
            invariant
                i <= self.cels@.len(),
                m == self@,
                out.wf(),
                out.chunks() == c0 + flat_idx(i as nat, f),
                f == (|i: int| cel_item(m, fi, i)),
                forall|j: int|
                    0 <= j < i ==> ((#[trigger] m.cels[j]).0.1 == fi && cel_needs_deflate(m.cels[j].1.kind)
                        ==> cel_stream_reads_back(m.cels[j].1.kind)),
            decreases self.cels@.len() - i,
        {
            let e = &self.cels[i];
            assert(m.cels[i as int] == (e.0, e.1@));
            if e.0.1 == fi {
                match emit_cel_group(out, e.0.0, &e.1) {
                    Ok(()) => {},
                    Err(err) => {
                        return Err(err);
                    },
                }
                assert(cel_group((e.0.0, 0), e.1@) == cel_group(e.0, e.1@));
            }
            proof {
                assert(flat_idx((i + 1) as nat, f) == flat_idx(i as nat, f) + f(i as int));
                assert(out.chunks() =~= c0 + flat_idx((i + 1) as nat, f));
            }
            i = i + 1;
        }
        assert(m.cels.len() == self.cels@.len());
        Ok(())
    }

    fn emit_unknowns(&self, out: &mut Chunks, fi: usize)
        requires
            old(out).wf(),
        ensures
            final(out).wf(),
            final(out).chunks() == old(out).chunks() + unknown_part(self@, fi),
    {
        let ghost m = self@;
        let ghost c0 = out.chunks();
        let ghost f = |i: int| if m.unknown_chunks[i].frame_index == fi {
            seq![wrap(m.unknown_chunks[i].chunk_type, m.unknown_chunks[i].data)]
        } else {
            Seq::empty()
        };
        let mut i: usize = 0;
        while i < self.unknown_chunks.len()
            invariant
                i <= self.unknown_chunks@.len(),
                m == self@,
                out.wf(),
                out.chunks() == c0 + flat_idx(i as nat, f),
                f == (|i: int| if m.unknown_chunks[i].frame_index == fi {
                    seq![wrap(m.unknown_chunks[i].chunk_type, m.unknown_chunks[i].data)]
                } else {
                    Seq::empty()
                }),
            decreases self.unknown_chunks@.len() - i,
        {
            let uc = &self.unknown_chunks[i];
            assert(m.unknown_chunks[i as int] == uc@);
            if uc.frame_index == fi {
                out.push(uc.chunk_type, uc.data.as_slice());
            }
            proof {
                assert(flat_idx((i + 1) as nat, f) == flat_idx(i as nat, f) + f(i as int));
                assert(out.chunks() =~= c0 + flat_idx((i + 1) as nat, f));
            }
            i = i + 1;
        }
    }

    fn emit_default_frame(&self, out: &mut Chunks, fi: usize) -> (r: Result<(), AsepriteError>)
        requires
            self.wf(),
            self@.layers.len() <= 65535,
            old(out).wf(),
        ensures
            final(out).wf(),
            match r {
                Ok(()) => final(out).chunks() == old(out).chunks() + default_chunks(self@, fi),
                Err(_) => false,
            },
            cel_streams_ok(self@, fi),
            fi == 0 ==> tileset_streams_ok(self@),
    {
        let ghost c0 = out.chunks();
        if fi == 0 {
            self.emit_first_frame(out)?;
        }
        let ghost c1 = out.chunks();
        self.emit_cels(out, fi)?;
        self.emit_unknowns(out, fi);
        assert(out.chunks() =~= c0 + default_chunks(self@, fi));
        Ok(())
    }
}


/// The counters and last entity of a replay.
struct Replay {
    layers: usize,
    slices: usize,
    tilesets: usize,
    unknowns: usize,
    last: LastEntity,
}

spec fn replay_view(out: Seq<Seq<u8>>, st: Replay) -> ReplayState {
    ReplayState {
        chunks: out,
        layers: st.layers as nat,
        slices: st.slices as nat,
        tilesets: st.tilesets as nat,
        unknowns: st.unknowns as nat,
        last: st.last,
    }
}

proof fn lemma_replay_step_counter(m: FileModel, fi: usize, st: ReplayState, e: ChunkOrderEntry)
    requires
        super::reader::last_counter(st.last) < usize::MAX,
    ensures
        super::reader::last_counter(replay_step(m, fi, st, e).last) <= super::reader::last_counter(st.last) + 1,
{
    reveal(replay_step);
}

proof fn lemma_replay_skip(m: FileModel, fi: usize, st: ReplayState, e: ChunkOrderEntry)
    requires
        e.frame_index != fi,
    ensures
        replay_step(m, fi, st, e) == st,
{
    reveal(replay_step);
}

proof fn lemma_replay_other(m: FileModel, fi: usize, st: ReplayState, e: ChunkOrderEntry)
    requires
        e.frame_index == fi,
        e.chunk_type != 0x2004 && e.chunk_type != 0x2005 && e.chunk_type != 0x2006 && e.chunk_type != 0x2007
            && e.chunk_type != 0x2018 && e.chunk_type != 0x2019 && e.chunk_type != 0x2020 && e.chunk_type != 0x2008
            && e.chunk_type != 0x2023 && e.chunk_type != 0x2022,
    ensures
        replay_step(m, fi, st, e) == (if e.chunk_type == 0x0004 {
            ReplayState {
                last: if fi == 0 { LastEntity::Palette } else { replay_unknown(m, fi, st).last },
                ..replay_unknown(m, fi, st)
            }
        } else {
            replay_unknown(m, fi, st)
        }),
{
    reveal(replay_step);
}

impl AsepriteFile {
    /// The positions of the kept chunks of frame `fi`, in order.
    fn unknown_indices(&self, fi: usize) -> (v: Vec<usize>)
        ensures
            v@.len() == unknowns_for(self@.unknown_chunks, fi).len(),
            forall|k: int|
                #![trigger v@[k]]
                0 <= k < v@.len() ==> v@[k] < self@.unknown_chunks.len() && self@.unknown_chunks[v@[k] as int]
                    == unknowns_for(self@.unknown_chunks, fi)[k],
    {
        let ghost s = self@.unknown_chunks;
        let mut v: Vec<usize> = Vec::new();
        let mut i: usize = 0;
        while i < self.unknown_chunks.len()
            invariant
                i <= self.unknown_chunks@.len(),
                s == self@.unknown_chunks,
                v@.len() == unknowns_for(s.take(i as int), fi).len(),
                forall|k: int|
                    #![trigger v@[k]]
                    0 <= k < v@.len() ==> v@[k] < i && s[v@[k] as int] == unknowns_for(s.take(i as int), fi)[k],
            decreases self.unknown_chunks@.len() - i,
        {
            proof {
                assert(s.take(i + 1).drop_last() =~= s.take(i as int));
                assert(s.take(i + 1).last() == s[i as int]);
            }
            assert(s[i as int] == self.unknown_chunks@[i as int]@);
            let ghost u0 = unknowns_for(s.take(i as int), fi);
            let ghost v0 = v@;
            if self.unknown_chunks[i].frame_index == fi {
                v.push(i);
                proof {
                    let u1 = unknowns_for(s.take(i + 1), fi);
                    assert(u1 == u0.push(s[i as int]));
                    assert forall|k: int| 0 <= k < v@.len() implies v@[k] < i + 1 && s[v@[k] as int] == u1[k] by {
                        if k < v0.len() {
                            assert(v@[k] == v0[k]);
                            assert(u1[k] == u0[k]);
                        } else {
                            assert(k == v0.len());
                            assert(v@[k] == i);
                            assert(u1[k] == s[i as int]);
                        }
                    }
                }
            } else {
                proof {
                    let u1 = unknowns_for(s.take(i + 1), fi);
                    assert(u1 == u0);
                    assert forall|k: int| 0 <= k < v@.len() implies v@[k] < i + 1 && s[v@[k] as int] == u1[k] by {
                        assert(v@[k] == v0[k]);
                    }
                }
            }
            i = i + 1;
        }
        assert(s.take(i as int) =~= s);
        assert(unknowns_for(s.take(i as int), fi) == unknowns_for(s, fi));
        assert forall|k: int| 0 <= k < v@.len() implies v@[k] < self@.unknown_chunks.len() && self@.unknown_chunks[v@[k] as int]
            == unknowns_for(self@.unknown_chunks, fi)[k] by {
            assert(v@[k] < i);
        }
        v
    }

    /// The body of the user data chunk a replay writes after `last`, and
    /// what the next user data chunk belongs to.
    fn writer_resolve_user_data(&self, last: LastEntity) -> (r: (Vec<u8>, LastEntity))
        requires
            self.wf(),
            super::reader::last_counter(last) < usize::MAX,
        ensures
            r.0@ == enc_ud(writer_user_data(self@, last).0),
            r.1 == writer_user_data(self@, last).1,
    {
        match last {
            LastEntity::Layer(i) => {
                if i < self.layers.len() {
                    (encode_opt_user_data(&self.layers[i].user_data), last)
                } else {
                    (encode_opt_user_data(&None), last)
                }
            },
            LastEntity::Cel(l, f) => {
                match crate::cels::find_cel(&self.cels, (l, f)) {
                    Some(i) => (encode_opt_user_data(&self.cels[i].1.user_data), last),
                    None => (encode_opt_user_data(&None), last),
                }
            },
            LastEntity::TagSequence(n) => {
                let d = if n < self.tags.len() {
                    encode_opt_user_data(&self.tags[n].user_data)
                } else {
                    encode_opt_user_data(&None)
                };
                (d, LastEntity::TagSequence(n + 1))
            },
            LastEntity::Palette => (encode_opt_user_data(&self.sprite_user_data), last),
            LastEntity::Slice(i) => {
                if i < self.slices.len() {
                    (encode_opt_user_data(&self.slices[i].user_data), last)
                } else {
                    (encode_opt_user_data(&None), last)
                }
            },
            LastEntity::Tileset(i) => {
                let d = if i < self.tilesets.len() {
                    encode_opt_user_data(&self.tilesets[i].user_data)
                } else {
                    encode_opt_user_data(&None)
                };
                (d, LastEntity::TileSequence(i, 0))
            },
            LastEntity::TileSequence(ts, t) => {
                let d = if ts < self.tilesets.len() && t < self.tilesets[ts].tile_user_data.len() {
                    encode_opt_user_data(&self.tilesets[ts].tile_user_data[t])
                } else {
                    encode_opt_user_data(&None)
                };
                (d, LastEntity::TileSequence(ts, t + 1))
            },
            LastEntity::Nothing => (encode_opt_user_data(&None), last),
        }
    }

    fn replay_unknown_exec(&self, out: &mut Chunks, st: &mut Replay, fi: usize, unk: &Vec<usize>)
        requires
            old(out).wf(),
            unk@.len() == unknowns_for(self@.unknown_chunks, fi).len(),
            forall|k: int|
                #![trigger unk@[k]]
                0 <= k < unk@.len() ==> unk@[k] < self@.unknown_chunks.len() && self@.unknown_chunks[unk@[k] as int]
                    == unknowns_for(self@.unknown_chunks, fi)[k],
        ensures
            final(out).wf(),
            replay_view(final(out).chunks(), *final(st)) == replay_unknown(
                self@,
                fi,
                replay_view(old(out).chunks(), *old(st)),
            ),
    {
        if st.unknowns < unk.len() {
            let uc = &self.unknown_chunks[unk[st.unknowns]];
            assert(uc@ == unknowns_for(self@.unknown_chunks, fi)[st.unknowns as int]);
            out.push(uc.chunk_type, uc.data.as_slice());
            st.unknowns = st.unknowns + 1;
        }
    }

    fn replay_layer(&self, out: &mut Chunks, st: &mut Replay, fi: usize, e: ChunkOrderEntry) -> (r: Result<(), AsepriteError>)
        requires
            self.wf(),
            self@.layers.len() <= 65535,
            old(out).wf(),
            super::reader::last_counter(old(st).last) < usize::MAX,
            e.frame_index == fi,
            e.chunk_type == 0x2004,
        ensures
            final(out).wf(),
            match r {
                Ok(()) => replay_view(final(out).chunks(), *final(st)) == replay_step(
                    self@,
                    fi,
                    replay_view(old(out).chunks(), *old(st)),
                    e,
                ),
                Err(_) => false,
            },
    {
        proof {
            reveal(replay_step);
        }
        let ghost m = self@;
        if st.layers < self.layers.len() {
            proof {
                lemma_depth_below(m.layers, st.layers as int);
            }
            let level = super::compute_child_level(&self.layers, st.layers);
            let d = encode_layer_chunk(&self.layers[st.layers], level);
            out.push(0x2004, d.as_slice());
            st.last = LastEntity::Layer(st.layers);
            st.layers = st.layers + 1;
        }
        Ok(())
    }

    fn replay_cel(&self, out: &mut Chunks, st: &mut Replay, fi: usize, e: ChunkOrderEntry) -> (r: Result<(), AsepriteError>)
        requires
            self.wf(),
            self@.layers.len() <= 65535,
            old(out).wf(),
            super::reader::last_counter(old(st).last) < usize::MAX,
            e.frame_index == fi,
            e.chunk_type == 0x2005,
        ensures
            final(out).wf(),
            match r {
                Ok(()) => replay_view(final(out).chunks(), *final(st)) == replay_step(
                    self@,
                    fi,
                    replay_view(old(out).chunks(), *old(st)),
                    e,
                ),
                Err(_) => false,
            },
    {
        proof {
            reveal(replay_step);
        }
        let ghost m = self@;
        if let Some(li) = e.layer_index {
            if let Some(i) = crate::cels::find_cel(&self.cels, (li, fi)) {
                let d = match encode_cel_chunk(&self.cels[i].1, li) {
                    Ok(d) => d,
                    Err(err) => {
                        return Err(err);
                    },
                };
                out.push(0x2005, d.as_slice());
                st.last = LastEntity::Cel(li, fi);
            }
        }
        Ok(())
    }

    fn replay_cel_extra(&self, out: &mut Chunks, st: &mut Replay, fi: usize, e: ChunkOrderEntry) -> (r: Result<(), AsepriteError>)
        requires
            self.wf(),
            self@.layers.len() <= 65535,
            old(out).wf(),
            super::reader::last_counter(old(st).last) < usize::MAX,
            e.frame_index == fi,
            e.chunk_type == 0x2006,
        ensures
            final(out).wf(),
            match r {
                Ok(()) => replay_view(final(out).chunks(), *final(st)) == replay_step(
                    self@,
                    fi,
                    replay_view(old(out).chunks(), *old(st)),
                    e,
                ),
                Err(_) => false,
            },
    {
        proof {
            reveal(replay_step);
        }
        let ghost m = self@;
        if let LastEntity::Cel(li, f) = st.last {
            if let Some(i) = crate::cels::find_cel(&self.cels, (li, f)) {
                if let Some(x) = &self.cels[i].1.extra {
                    let d = encode_cel_extra_chunk(x);
                    out.push(0x2006, d.as_slice());
                }
            }
        }
        Ok(())
    }

    fn replay_listed(&self, out: &mut Chunks, st: &mut Replay, fi: usize, e: ChunkOrderEntry) -> (r: Result<(), AsepriteError>)
        requires
            self.wf(),
            self@.layers.len() <= 65535,
            old(out).wf(),
            super::reader::last_counter(old(st).last) < usize::MAX,
            e.frame_index == fi,
            e.chunk_type == 0x2007 || e.chunk_type == 0x2018 || e.chunk_type == 0x2019 || e.chunk_type == 0x2008,
        ensures
            final(out).wf(),
            match r {
                Ok(()) => replay_view(final(out).chunks(), *final(st)) == replay_step(
                    self@,
                    fi,
                    replay_view(old(out).chunks(), *old(st)),
                    e,
                ),
                Err(_) => false,
            },
    {
        proof {
            reveal(replay_step);
        }
        let ghost m = self@;
        let t = e.chunk_type;
        if t == 0x2007 {
            if let Some(p) = &self.color_profile {
                let d = encode_color_profile_chunk(p);
                out.push(0x2007, d.as_slice());
            }
        } else if t == 0x2018 {
            if self.tags.len() > 0 {
                let d = encode_tags_chunk(&self.tags);
                out.push(0x2018, d.as_slice());
                st.last = LastEntity::TagSequence(0);
            }
        } else if t == 0x2019 {
            if self.palette.len() > 0 {
                let d = encode_palette_chunk(&self.palette);
                out.push(0x2019, d.as_slice());
                if fi == 0 {
                    st.last = LastEntity::Palette;
                }
            }
        } else {
            if self.external_files.len() > 0 {
                let d = encode_external_files_chunk(&self.external_files);
                out.push(0x2008, d.as_slice());
            }
        }
        Ok(())
    }

    fn replay_user_data(&self, out: &mut Chunks, st: &mut Replay, fi: usize, e: ChunkOrderEntry) -> (r: Result<(), AsepriteError>)
        requires
            self.wf(),
            self@.layers.len() <= 65535,
            old(out).wf(),
            super::reader::last_counter(old(st).last) < usize::MAX,
            e.frame_index == fi,
            e.chunk_type == 0x2020,
        ensures
            final(out).wf(),
            match r {
                Ok(()) => replay_view(final(out).chunks(), *final(st)) == replay_step(
                    self@,
                    fi,
                    replay_view(old(out).chunks(), *old(st)),
                    e,
                ),
                Err(_) => false,
            },
    {
        proof {
            reveal(replay_step);
        }
        let ghost m = self@;
        let (d, next) = self.writer_resolve_user_data(st.last);
        out.push(0x2020, d.as_slice());
        st.last = next;
        Ok(())
    }

    fn replay_tileset(&self, out: &mut Chunks, st: &mut Replay, fi: usize, e: ChunkOrderEntry) -> (r: Result<(), AsepriteError>)
        requires
            self.wf(),
            self@.layers.len() <= 65535,
            old(out).wf(),
            super::reader::last_counter(old(st).last) < usize::MAX,
            e.frame_index == fi,
            e.chunk_type == 0x2023,
        ensures
            final(out).wf(),
            match r {
                Ok(()) => replay_view(final(out).chunks(), *final(st)) == replay_step(
                    self@,
                    fi,
                    replay_view(old(out).chunks(), *old(st)),
                    e,
                ),
                Err(_) => false,
            },
    {
        proof {
            reveal(replay_step);
        }
        let ghost m = self@;
        if st.tilesets < self.tilesets.len() {
            let d = match encode_tileset_chunk(&self.tilesets[st.tilesets]) {
                Ok(d) => d,
                Err(err) => {
                    return Err(err);
                },
            };
            out.push(0x2023, d.as_slice());
            st.last = LastEntity::Tileset(st.tilesets);
            st.tilesets = st.tilesets + 1;
        }
        Ok(())
    }

    fn replay_slice(&self, out: &mut Chunks, st: &mut Replay, fi: usize, e: ChunkOrderEntry) -> (r: Result<(), AsepriteError>)
        requires
            self.wf(),
            self@.layers.len() <= 65535,
            old(out).wf(),
            super::reader::last_counter(old(st).last) < usize::MAX,
            e.frame_index == fi,
            e.chunk_type == 0x2022,
        ensures
            final(out).wf(),
            match r {
                Ok(()) => replay_view(final(out).chunks(), *final(st)) == replay_step(
                    self@,
                    fi,
                    replay_view(old(out).chunks(), *old(st)),
                    e,
                ),
                Err(_) => false,
            },
    {
        proof {
            reveal(replay_step);
        }
        let ghost m = self@;
        if st.slices < self.slices.len() {
            let d = encode_slice_chunk(&self.slices[st.slices]);
            out.push(0x2022, d.as_slice());
            st.last = LastEntity::Slice(st.slices);
            st.slices = st.slices + 1;
        }
        Ok(())
    }

    /// Writes one recorded chunk of frame `fi` again.
    fn replay_entry(&self, out: &mut Chunks, st: &mut Replay, fi: usize, e: ChunkOrderEntry, unk: &Vec<usize>) -> (r: Result<(), AsepriteError>)
        requires
            self.wf(),
            self@.layers.len() <= 65535,
            old(out).wf(),
            super::reader::last_counter(old(st).last) < usize::MAX,
            unk@.len() == unknowns_for(self@.unknown_chunks, fi).len(),
            forall|k: int|
                #![trigger unk@[k]]
                0 <= k < unk@.len() ==> unk@[k] < self@.unknown_chunks.len() && self@.unknown_chunks[unk@[k] as int]
                    == unknowns_for(self@.unknown_chunks, fi)[k],
        ensures
            final(out).wf(),
            match r {
                Ok(()) => replay_view(final(out).chunks(), *final(st)) == replay_step(
                    self@,
                    fi,
                    replay_view(old(out).chunks(), *old(st)),
                    e,
                ),
                Err(_) => false,
            },
    {
        let t = e.chunk_type;
        if e.frame_index != fi {
            proof {
                lemma_replay_skip(self@, fi, replay_view(out.chunks(), *st), e);
            }
            return Ok(());
        }
        if t == 0x2004 {
            self.replay_layer(out, st, fi, e)
        } else if t == 0x2005 {
            self.replay_cel(out, st, fi, e)
        } else if t == 0x2006 {
            self.replay_cel_extra(out, st, fi, e)
        } else if t == 0x2007 || t == 0x2018 || t == 0x2019 || t == 0x2008 {
            self.replay_listed(out, st, fi, e)
        } else if t == 0x2020 {
            self.replay_user_data(out, st, fi, e)
        } else if t == 0x2023 {
            self.replay_tileset(out, st, fi, e)
        } else if t == 0x2022 {
            self.replay_slice(out, st, fi, e)
        } else {
            proof {
                lemma_replay_other(self@, fi, replay_view(out.chunks(), *st), e);
            }
            self.replay_unknown_exec(out, st, fi, unk);
            if t == 0x0004 && fi == 0 {
                st.last = LastEntity::Palette;
            }
            Ok(())
        }
    }
}


/// Appends a frame: its header, then its chunks.
fn push_frame(body: &mut Vec<u8>, duration: u16, c: &Chunks)
    requires
        c.wf(),
    ensures
        final(body)@ == old(body)@ + enc_frame(duration, c.chunks()),
{
    let size = crate::bytes::trunc32_add(c.data.len(), 16);
    crate::bytes::write_dword(body, size);
    crate::bytes::write_word(body, 0xF1FA);
    let old_count: u16 = if c.count > 0xFFFE { 0xFFFF } else { c.count as u16 };
    crate::bytes::write_word(body, old_count);
    crate::bytes::write_word(body, duration);
    crate::bytes::write_zeros(body, 2);
    let count = crate::bytes::trunc32_add(c.count, 0);
    crate::bytes::write_dword(body, count);
    crate::bytes::push_bytes(body, c.data.as_slice());
    assert(body@ =~= old(body)@ + enc_frame(duration, c.chunks()));
}

impl AsepriteFile {
    fn emit_replayed_frame(&self, out: &mut Chunks, fi: usize) -> (r: Result<(), AsepriteError>)
        requires
            self.wf(),
            self@.layers.len() <= 65535,
            old(out).wf(),
            old(out).chunks() == Seq::<Seq<u8>>::empty(),
        ensures
            final(out).wf(),
            match r {
                Ok(()) => final(out).chunks() == replay(self@, fi, self@.chunk_order.len()).chunks,
                Err(_) => false,
            },
    {
        let ghost m = self@;
        let unk = self.unknown_indices(fi);
        let mut st = Replay { layers: 0, slices: 0, tilesets: 0, unknowns: 0, last: LastEntity::Nothing };
        let mut k: usize = 0;
        while k < self.chunk_order.len()
            invariant
                k <= self.chunk_order@.len(),
                m == self@,
                self.wf(),
                self@.layers.len() <= 65535,
                out.wf(),
                replay_view(out.chunks(), st) == replay(m, fi, k as nat),
                super::reader::last_counter(st.last) <= k,
                unk@.len() == unknowns_for(self@.unknown_chunks, fi).len(),
                forall|j: int|
                    #![trigger unk@[j]]
                    0 <= j < unk@.len() ==> unk@[j] < self@.unknown_chunks.len() && self@.unknown_chunks[unk@[j] as int]
                        == unknowns_for(self@.unknown_chunks, fi)[j],
            decreases self.chunk_order@.len() - k,
        {
            let e = self.chunk_order[k];
            proof {
                lemma_replay_step_counter(m, fi, replay_view(out.chunks(), st), e);
            }
            self.replay_entry(out, &mut st, fi, e, &unk)?;
            k = k + 1;
        }
        Ok(())
    }

    /// The chunks of frame `fi`.
    fn build_frame(&self, fi: usize) -> (r: Result<Chunks, AsepriteError>)
        requires
            self.wf(),
            self@.layers.len() <= 65535,
        ensures
            match r {
                Ok(c) => c.wf() && c.chunks() == frame_chunks(self@, fi),
                Err(_) => false,
            },
            !has_order(self@, fi) ==> cel_streams_ok(self@, fi) && (fi == 0 ==> tileset_streams_ok(self@)),
    {
        reveal(frame_chunks);
        let ghost m = self@;
        let mut has = false;
        let mut i: usize = 0;
        while i < self.chunk_order.len()
            invariant
                i <= self.chunk_order@.len(),
                m == self@,
                has <==> exists|j: int| 0 <= j < i && (#[trigger] m.chunk_order[j]).frame_index == fi,
            decreases self.chunk_order@.len() - i,
        {
            if self.chunk_order[i].frame_index == fi {
                has = true;
            }
            i = i + 1;
        }
        assert(has == has_order(m, fi));
        let mut out = Chunks::new();
        if has {
            self.emit_replayed_frame(&mut out, fi)?;
        } else {
            self.emit_default_frame(&mut out, fi)?;
            assert(out.chunks() =~= default_chunks(m, fi));
        }
        Ok(out)
    }

    /// Appends the 128-byte header for a file of `total` bytes.
    fn push_header(&self, out: &mut Vec<u8>, total: u32)
        ensures
            final(out)@ == old(out)@ + enc_header(self@, total),
    {
        crate::bytes::write_dword(out, total);
        crate::bytes::write_word(out, 0xA5E0);
        crate::bytes::write_word(out, self.frames.len() as u16);
        crate::bytes::write_word(out, self.width);
        crate::bytes::write_word(out, self.height);
        crate::bytes::write_word(out, self.color_mode.to_depth());
        crate::bytes::write_dword(out, self.flags);
        crate::bytes::write_word(out, self.deprecated_speed);
        crate::bytes::write_dword(out, 0);
        crate::bytes::write_dword(out, 0);
        crate::bytes::write_byte(out, self.transparent_index);
        crate::bytes::write_zeros(out, 3);
        crate::bytes::write_word(out, self.num_colors);
        crate::bytes::write_byte(out, self.pixel_width);
        crate::bytes::write_byte(out, self.pixel_height);
        crate::bytes::write_short(out, self.grid.x);
        crate::bytes::write_short(out, self.grid.y);
        crate::bytes::write_word(out, self.grid.width);
        crate::bytes::write_word(out, self.grid.height);
        crate::bytes::write_zeros(out, 84);
        assert(out@ =~= old(out)@ + enc_header(self@, total));
    }

    /// Writes the file in the Aseprite binary format, appending its bytes to
    /// `out`. Fails, writing nothing, where the file has more frames or
    /// layers than the format can count, is indexed without a palette, or
    /// compressing data fails.
    pub fn write_to(&self, out: &mut Vec<u8>) -> (r: Result<(), AsepriteError>)
        requires
            self.wf(),
        ensures
            match r {
                Ok(()) => write_error(self@) is None && final(out)@ == old(out)@ + enc_file(self@),
                Err(e) => final(out)@ == old(out)@ && write_error(self@) == Some(e@),
            },
            r is Ok ==> forall|fi: int|
                0 <= fi < self@.frames.len() && !has_order(self@, fi as usize) ==> #[trigger] cel_streams_ok(
                    self@,
                    fi as usize,
                ),
            r is Ok && 0 < self@.frames.len() && !has_order(self@, 0) ==> tileset_streams_ok(self@),
    {
        let ghost m = self@;
        if self.frames.len() > 65535 {
            return Err(AsepriteError::FormatLimitExceeded { field: "frames", value: self.frames.len(), max: 65535 });
        }
        if self.layers.len() > 65535 {
            return Err(AsepriteError::FormatLimitExceeded { field: "layers", value: self.layers.len(), max: 65535 });
        }
        let indexed = match self.color_mode {
            ColorMode::Indexed => true,
            _ => false,
        };
        if indexed && self.palette.len() == 0 {
            return Err(AsepriteError::MissingPalette);
        }
        assert(write_error(m) is None);
        let mut body: Vec<u8> = Vec::new();
        let mut fi: usize = 0;
        while fi < self.frames.len()
            invariant
                fi <= self.frames@.len(),
                write_error(m) is None,
                out@ == old(out)@,
                m == self@,
                self.wf(),
                self@.layers.len() <= 65535,
                body@ == frames_bytes(m, fi as nat),
                forall|g: int| 0 <= g < fi && !has_order(m, g as usize) ==> #[trigger] cel_streams_ok(m, g as usize),
                0 < fi && !has_order(m, 0) ==> tileset_streams_ok(m),
            decreases self.frames@.len() - fi,
        {
            let c = self.build_frame(fi)?;
            assert(fi == (fi as int) as usize);
            push_frame(&mut body, self.frames[fi].duration_ms, &c);
            fi = fi + 1;
        }
        let total = crate::bytes::trunc32_add(body.len(), 128);
        let ghost start = out@;
        self.push_header(out, total);
        crate::bytes::push_bytes(out, body.as_slice());
        assert(out@ =~= start + enc_file(m));
        Ok(())
    }
}

} // verus!
