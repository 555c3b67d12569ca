//! Parsing a whole file: the header, then each frame's chunks in turn,
//! with user data chunks attached to what the chunk before them described.

use vstd::prelude::*;
use super::{
    depth, depths_ok, empty_file, layer_views, palette_set, parents_ok, AsepriteFile, FileModel,
};
use crate::bytes::{avail, i16_at, read_short, read_word, read_dword, read_byte, skip, u16_at, u32_at};
use crate::cel_chunk::dec_cel;
use crate::cels::{cel_insert, cel_modify};
use crate::error::{AsepriteError, ErrorModel};
use crate::layer_chunk::dec_layer;
use crate::legacy_chunks::{dec_mask, dec_old_palette};
use crate::list_chunks::{color_views, dec_palette, dec_slice, dec_tags, PaletteRecord};
use crate::misc_chunks::{dec_cel_extra, dec_color_profile, dec_ext_files};
use crate::model::{CelModel, ColorModel, LayerModel, TagModel, TilesetModel, UnknownChunkModel, UserDataModel, SliceModel};
use crate::tileset_chunk::dec_tileset;
use crate::types::{ChunkOrderEntry, Color, ColorMode, Frame, GridInfo, Layer, LayerKind, UnknownChunk, UserData};
use crate::user_data_chunk::dec_ud;

verus! {

/// What the chunk before a user data chunk described.
#[derive(Copy, Clone, Debug, PartialEq, Eq, Structural)]
pub enum LastEntity {
    Nothing,
    Layer(usize),
    Cel(usize, usize),
    /// The index of the tag that the next user data chunk belongs to.
    TagSequence(usize),
    Palette,
    Slice(usize),
    Tileset(usize),
    /// A tileset and the index of the tile that the next user data chunk belongs to.
    TileSequence(usize, usize),
}

/// The state of a parse between chunks.
pub struct ReadState {
    pub file: FileModel,
    pub last: LastEntity,
}

/// The counter that a user data chunk advances, if any.
pub open spec fn last_counter(l: LastEntity) -> int {
    match l {
        LastEntity::TagSequence(n) => n as int,
        LastEntity::TileSequence(_, t) => t as int,
        _ => 0,
    }
}

/// The last group layer below index `n` whose nesting depth is `target`.
pub open spec fn find_parent_below(ls: Seq<LayerModel>, n: nat, target: int) -> Option<usize>
    decreases n,
{
    if n == 0 {
        None
    } else if depth(ls, n - 1) == target && ls[n - 1].kind == LayerKind::Group {
        Some((n - 1) as usize)
    } else {
        find_parent_below(ls, (n - 1) as nat, target)
    }
}

/// The model with one more entry in the recorded chunk order.
pub open spec fn ordered(m: FileModel, fi: usize, t: u16, li: Option<usize>) -> FileModel {
    FileModel {
        chunk_order: m.chunk_order.push(ChunkOrderEntry { frame_index: fi, chunk_type: t, layer_index: li }),
        ..m
    }
}

/// The model with a chunk kept as raw bytes.
pub open spec fn kept(m: FileModel, fi: usize, t: u16, d: Seq<u8>) -> FileModel {
    FileModel {
        unknown_chunks: m.unknown_chunks.push(UnknownChunkModel { frame_index: fi, chunk_type: t, data: d }),
        ..m
    }
}

/// User data attached to what the last chunk described; a tag or tile
/// sequence moves on to the next tag or tile.
pub open spec fn apply_user_data(s: ReadState, u: UserDataModel) -> ReadState {
    let m = s.file;
    match s.last {
        LastEntity::Layer(i) => ReadState {
            file: if i < m.layers.len() {
                FileModel {
                    layers: m.layers.update(i as int, LayerModel { user_data: Some(u), ..m.layers[i as int] }),
                    ..m
                }
            } else {
                m
            },
            last: s.last,
        },
        LastEntity::Cel(l, f) => ReadState {
            file: FileModel {
                cels: cel_modify(m.cels, (l, f), |c: CelModel| CelModel { user_data: Some(u), ..c }),
                ..m
            },
            last: s.last,
        },
        LastEntity::TagSequence(n) => ReadState {
            file: if n < m.tags.len() {
                FileModel {
                    tags: m.tags.update(n as int, TagModel { user_data: Some(u), ..m.tags[n as int] }),
                    ..m
                }
            } else {
                m
            },
            last: LastEntity::TagSequence((n + 1) as usize),
        },
        LastEntity::Palette => ReadState { file: FileModel { sprite_user_data: Some(u), ..m }, last: s.last },
        LastEntity::Slice(i) => ReadState {
            file: if i < m.slices.len() {
                FileModel {
                    slices: m.slices.update(i as int, SliceModel { user_data: Some(u), ..m.slices[i as int] }),
                    ..m
                }
            } else {
                m
            },
            last: s.last,
        },
        LastEntity::Tileset(i) => ReadState {
            file: if i < m.tilesets.len() {
                FileModel {
                    tilesets: m.tilesets.update(
                        i as int,
                        TilesetModel { user_data: Some(u), ..m.tilesets[i as int] },
                    ),
                    ..m
                }
            } else {
                m
            },
            last: LastEntity::TileSequence(i, 0),
        },
        LastEntity::TileSequence(ts, t) => ReadState {
            file: if ts < m.tilesets.len() && t < m.tilesets[ts as int].tile_user_data.len() {
                FileModel {
                    tilesets: m.tilesets.update(
                        ts as int,
                        TilesetModel {
                            tile_user_data: m.tilesets[ts as int].tile_user_data.update(t as int, Some(u)),
                            ..m.tilesets[ts as int]
                        },
                    ),
                    ..m
                }
            } else {
                m
            },
            last: LastEntity::TileSequence(ts, (t + 1) as usize),
        },
        LastEntity::Nothing => s,
    }
}

/// The palette grown with filler colors to `needed` entries, where that
/// is more than it has and at most 256.
pub open spec fn palette_grow(p: Seq<ColorModel>, needed: int) -> Seq<ColorModel> {
    if needed > p.len() && needed <= 256 {
        p + Seq::new((needed - p.len()) as nat, |k: int| super::filler_color())
    } else {
        p
    }
}

/// The palette with `cs` set at indices `first`, `first + 1`, ...
pub open spec fn palette_apply(p: Seq<ColorModel>, first: int, cs: Seq<ColorModel>) -> Seq<ColorModel>
    decreases cs.len(),
{
    if cs.len() == 0 {
        p
    } else {
        palette_set(palette_apply(p, first, cs.drop_last()), first + cs.len() - 1, cs.last())
    }
}

/// The palette after a palette chunk.
pub open spec fn apply_palette_record(p: Seq<ColorModel>, r: PaletteRecord) -> Seq<ColorModel> {
    let needed = if r.new_size >= r.last + 1 { r.new_size as int } else { r.last + 1 };
    palette_apply(palette_grow(p, needed), r.first as int, r.colors)
}

/// The palette with the (index, color) entries set in turn.
pub open spec fn palette_entries(p: Seq<ColorModel>, es: Seq<(int, ColorModel)>) -> Seq<ColorModel>
    decreases es.len(),
{
    if es.len() == 0 {
        p
    } else {
        palette_set(palette_entries(p, es.drop_last()), es.last().0, es.last().1)
    }
}

/// What one chunk of type `t` with body `d`, in frame `fi`, does to the
/// parse state.
#[verifier::opaque]
pub open spec fn apply_chunk(s: ReadState, fi: usize, t: u16, d: Seq<u8>) -> Result<ReadState, ErrorModel> {
    let m = s.file;
    if t == 0x2004 {
        match dec_layer(d) {
            None => Err(ErrorModel::Io),
            Some((l, cl)) => {
                let parent = if cl == 0 { None } else { find_parent_below(m.layers, m.layers.len(), cl - 1) };
                let m2 = FileModel { layers: m.layers.push(LayerModel { parent, ..l }), ..m };
                Ok(ReadState { file: ordered(m2, fi, t, None), last: LastEntity::Layer(m.layers.len() as usize) })
            },
        }
    } else if t == 0x2005 {
        match dec_cel(d, m.color_mode) {
            Err(e) => Err(e),
            Ok(None) => Ok(ReadState { file: ordered(m, fi, t, None), last: s.last }),
            Ok(Some((li, c))) => Ok(
                ReadState {
                    file: ordered(FileModel { cels: cel_insert(m.cels, (li, fi), c), ..m }, fi, t, Some(li)),
                    last: LastEntity::Cel(li, fi),
                },
            ),
        }
    } else if t == 0x2007 {
        match dec_color_profile(d) {
            None => Err(ErrorModel::Io),
            Some(p) => Ok(ReadState { file: ordered(FileModel { color_profile: Some(p), ..m }, fi, t, None), last: s.last }),
        }
    } else if t == 0x2018 {
        match dec_tags(d) {
            None => Err(ErrorModel::Io),
            Some(ts) => Ok(
                ReadState {
                    file: ordered(FileModel { tags: m.tags + ts, ..m }, fi, t, None),
                    last: LastEntity::TagSequence(0),
                },
            ),
        }
    } else if t == 0x2019 {
        match dec_palette(d) {
            None => Err(ErrorModel::Io),
            Some(r) => Ok(
                ReadState {
                    file: ordered(FileModel { palette: apply_palette_record(m.palette, r), ..m }, fi, t, None),
                    last: if fi == 0 { LastEntity::Palette } else { s.last },
                },
            ),
        }
    } else if t == 0x2020 {
        match dec_ud(d) {
            Err(e) => Err(e),
            Ok(u) => {
                let s2 = apply_user_data(s, u);
                Ok(ReadState { file: ordered(s2.file, fi, t, None), last: s2.last })
            },
        }
    } else if t == 0x2022 {
        match dec_slice(d) {
            None => Err(ErrorModel::Io),
            Some(sl) => Ok(
                ReadState {
                    file: ordered(FileModel { slices: m.slices.push(sl), ..m }, fi, t, None),
                    last: LastEntity::Slice(m.slices.len() as usize),
                },
            ),
        }
    } else if t == 0x2006 {
        match dec_cel_extra(d) {
            None => Err(ErrorModel::Io),
            Some(x) => {
                let m2 = match s.last {
                    LastEntity::Cel(l, f) => FileModel {
                        cels: cel_modify(m.cels, (l, f), |c: CelModel| CelModel { extra: Some(x), ..c }),
                        ..m
                    },
                    _ => m,
                };
                Ok(ReadState { file: ordered(m2, fi, t, None), last: s.last })
            },
        }
    } else if t == 0x2008 {
        match dec_ext_files(d) {
            None => Err(ErrorModel::Io),
            Some(es) => Ok(
                ReadState {
                    file: ordered(FileModel { external_files: m.external_files + es, ..m }, fi, t, None),
                    last: s.last,
                },
            ),
        }
    } else if t == 0x2023 {
        match dec_tileset(d) {
            Err(e) => Err(e),
            Ok(ts) => Ok(
                ReadState {
                    file: ordered(FileModel { tilesets: m.tilesets.push(ts), ..m }, fi, t, None),
                    last: LastEntity::Tileset(m.tilesets.len() as usize),
                },
            ),
        }
    } else if t == 0x0004 || t == 0x0011 {
        match dec_old_palette(d, t == 0x0011) {
            None => Err(ErrorModel::Io),
            Some(es) => Ok(
                ReadState {
                    file: ordered(kept(FileModel { palette: palette_entries(m.palette, es), ..m }, fi, t, d), fi, t, None),
                    last: if fi == 0 { LastEntity::Palette } else { s.last },
                },
            ),
        }
    } else if t == 0x2016 {
        let m2 = match dec_mask(d) {
            Some(mk) => FileModel { legacy_masks: m.legacy_masks.push(mk), ..m },
            None => m,
        };
        Ok(ReadState { file: ordered(kept(m2, fi, t, d), fi, t, None), last: s.last })
    } else {
        Ok(ReadState { file: ordered(kept(m, fi, t, d), fi, t, None), last: s.last })
    }
}

/// One chunk read at `p`: its size (at least its 6-byte head), its type,
/// then its body.
pub open spec fn chunk_step(b: Seq<u8>, p: int, s: ReadState, fi: usize) -> Result<(ReadState, int), ErrorModel> {
    if !avail(b, p, 6) {
        Err(ErrorModel::Io)
    } else if u32_at(b, p) < 6 {
        Err(ErrorModel::InvalidChunkSize)
    } else if !avail(b, p + 6, u32_at(b, p) - 6) {
        Err(ErrorModel::Io)
    } else {
        match apply_chunk(s, fi, u16_at(b, p + 4), b.subrange(p + 6, p + u32_at(b, p))) {
            Err(e) => Err(e),
            Ok(s2) => Ok((s2, p + u32_at(b, p))),
        }
    }
}

/// The first `k` chunks of a frame, read in turn from `p0`.
pub open spec fn read_chunks(b: Seq<u8>, p0: int, s0: ReadState, fi: usize, k: nat) -> Result<(ReadState, int), ErrorModel>
    decreases k,
{
    if k == 0 {
        Ok((s0, p0))
    } else {
        match read_chunks(b, p0, s0, fi, (k - 1) as nat) {
            Err(e) => Err(e),
            Ok((s, p)) => chunk_step(b, p, s, fi),
        }
    }
}

/// A frame header at `p`: its duration and its chunk count (the 32-bit
/// count where it is not zero, else the 16-bit one).
pub open spec fn dec_frame_head(b: Seq<u8>, p: int) -> Result<(u16, nat), ErrorModel> {
    if !avail(b, p, 6) {
        Err(ErrorModel::Io)
    } else if u16_at(b, p + 4) != 0xF1FA {
        Err(ErrorModel::InvalidMagic)
    } else if !avail(b, p, 16) {
        Err(ErrorModel::Io)
    } else {
        Ok((u16_at(b, p + 8), if u32_at(b, p + 12) != 0 { u32_at(b, p + 12) as nat } else { u16_at(b, p + 6) as nat }))
    }
}

/// The first `k` frames, read in turn after the header.
pub open spec fn read_frames(b: Seq<u8>, s0: ReadState, k: nat) -> Result<(ReadState, int), ErrorModel>
    decreases k,
{
    if k == 0 {
        Ok((s0, 128))
    } else {
        match read_frames(b, s0, (k - 1) as nat) {
            Err(e) => Err(e),
            Ok((s, p)) => match dec_frame_head(b, p) {
                Err(e) => Err(e),
                Ok((dur, n)) => read_chunks(
                    b,
                    p + 16,
                    ReadState { file: FileModel { frames: s.file.frames.push(Frame { duration_ms: dur }), ..s.file }, last: s.last },
                    (k - 1) as usize,
                    n,
                ),
            },
        }
    }
}

/// A pixel ratio component, 0 read as 1.
pub open spec fn ratio_part(v: u8) -> u8 {
    if v == 0 { 1 } else { v }
}

/// The file a 128-byte header describes, before any frame.
pub open spec fn dec_header(b: Seq<u8>) -> Result<FileModel, ErrorModel> {
    if !avail(b, 0, 6) {
        Err(ErrorModel::Io)
    } else if u16_at(b, 4) != 0xA5E0 {
        Err(ErrorModel::InvalidMagic)
    } else if !avail(b, 0, 14) {
        Err(ErrorModel::Io)
    } else {
        match ColorMode::spec_from_depth(u16_at(b, 12)) {
            None => Err(ErrorModel::UnsupportedColorDepth(u16_at(b, 12))),
            Some(mode) => if !avail(b, 0, 128) {
                Err(ErrorModel::Io)
            } else {
                Ok(
                    FileModel {
                        flags: u32_at(b, 14),
                        deprecated_speed: u16_at(b, 18),
                        transparent_index: b[28],
                        num_colors: u16_at(b, 32),
                        pixel_ratio: (ratio_part(b[34]), ratio_part(b[35])),
                        grid: GridInfo { x: i16_at(b, 36), y: i16_at(b, 38), width: u16_at(b, 40), height: u16_at(b, 42) },
                        ..empty_file(u16_at(b, 8), u16_at(b, 10), mode)
                    },
                )
            },
        }
    }
}

/// The file that the bytes `b` hold, or the error that reading them meets.
pub open spec fn parse_file(b: Seq<u8>) -> Result<FileModel, ErrorModel> {
    match dec_header(b) {
        Err(e) => Err(e),
        Ok(m) => match read_frames(b, ReadState { file: m, last: LastEntity::Nothing }, u16_at(b, 6) as nat) {
            Err(e) => Err(e),
            Ok((s, _)) => Ok(s.file),
        },
    }
}

pub proof fn lemma_find_parent(ls: Seq<LayerModel>, n: nat, target: int)
    requires
        n <= usize::MAX,
    ensures
        find_parent_below(ls, n, target) matches Some(i) ==> i < n && depth(ls, i as int) == target
            && ls[i as int].kind == LayerKind::Group,
    decreases n,
{
    if n > 0 {
        lemma_find_parent(ls, (n - 1) as nat, target);
    }
}

/// The last group layer whose depth is one less than `child_level`: the
/// parent that a layer chunk at that level belongs to.
fn find_parent_for_child_level(layers: &Vec<Layer>, child_level: u16) -> (r: Option<usize>)
    requires
        child_level >= 1,
        parents_ok(layer_views(layers@)),
        depths_ok(layer_views(layers@)),
    ensures
        r == find_parent_below(layer_views(layers@), layers@.len(), child_level - 1),
{
    let ghost ls = layer_views(layers@);
    let mut i: usize = layers.len();
    while i > 0
        invariant
            i <= layers@.len(),
            ls == layer_views(layers@),
            parents_ok(ls),
            depths_ok(ls),
            child_level >= 1,
            find_parent_below(ls, layers@.len(), child_level - 1) == find_parent_below(ls, i as nat, child_level - 1),
        decreases i,
    {
        let level = super::compute_child_level(layers, i - 1);
        let is_group = match layers[i - 1].kind {
            LayerKind::Group => true,
            _ => false,
        };
        assert(ls[i - 1] == layers@[i - 1]@);
        if level == child_level - 1 && is_group {
            return Some(i - 1);
        }
        i = i - 1;
    }
    None
}

impl AsepriteFile {
    fn push_order(&mut self, fi: usize, t: u16, li: Option<usize>)
        requires
            old(self).wf(),
        ensures
            final(self)@ == ordered(old(self)@, fi, t, li),
            final(self).wf(),
    {
        self.chunk_order.push(ChunkOrderEntry { frame_index: fi, chunk_type: t, layer_index: li });
    }

    fn push_unknown(&mut self, fi: usize, t: u16, d: &[u8])
        requires
            old(self).wf(),
        ensures
            final(self)@ == kept(old(self)@, fi, t, d@),
            final(self).wf(),
    {
        let data = crate::bytes::copy_range(d, 0, d.len());
        assert(data@ =~= d@);
        self.unknown_chunks.push(UnknownChunk { frame_index: fi, chunk_type: t, data });
        assert(super::unknown_views(self.unknown_chunks@) =~= old(self)@.unknown_chunks.push(
            UnknownChunkModel { frame_index: fi, chunk_type: t, data: d@ },
        ));
    }

    fn apply_palette_record_exec(&mut self, new_size: u32, first: u32, last: u32, colors: Vec<Color>)
        requires
            old(self).wf(),
            colors@.len() == crate::list_chunks::palette_count(first, last),
        ensures
            final(self).wf(),
            final(self)@ == (FileModel {
                palette: apply_palette_record(
                    old(self)@.palette,
                    PaletteRecord { new_size, first, last, colors: color_views(colors@) },
                ),
                ..old(self)@
            }),
    {
        let needed: u64 = if new_size as u64 >= last as u64 + 1 { new_size as u64 } else { last as u64 + 1 };
        let ghost p0 = self@.palette;
        if needed > self.palette.len() as u64 && needed <= 256 {
            while (self.palette.len() as u64) < needed
                invariant
                    self.palette@.len() <= needed <= 256,
                    p0.len() <= self.palette@.len(),
                    self@ == (FileModel { palette: color_views(self.palette@), ..old(self)@ }),
                    color_views(self.palette@) == p0 + Seq::new(
                        (self.palette@.len() - p0.len()) as nat,
                        |k: int| super::filler_color(),
                    ),
                    self.wf(),
                decreases needed - self.palette@.len(),
            {
                let ghost prev = self.palette@;
                self.set_palette_entry(self.palette.len(), Color { r: 0, g: 0, b: 0, a: 255, name: None });
                proof {
                    assert(color_views(self.palette@) =~= color_views(prev).push(super::filler_color()));
                    assert(color_views(self.palette@) =~= p0 + Seq::new(
                        (self.palette@.len() - p0.len()) as nat,
                        |k: int| super::filler_color(),
                    ));
                }
            }
        }
        assert(self@.palette == palette_grow(p0, needed as int));
        let ghost p1 = self@.palette;
        let ghost cs = color_views(colors@);
        let n = colors.len();
        let mut j: usize = 0;
        while j < n
            invariant
                j <= n,
                n == colors@.len(),
                n == crate::list_chunks::palette_count(first, last),
                cs == color_views(colors@),
                self.wf(),
                self@ == (FileModel { palette: palette_apply(p1, first as int, cs.take(j as int)), ..old(self)@ }),
            decreases n - j,
        {
            let c = super::copy_color(&colors[j]);
            let ghost before = self@.palette;
            self.set_palette_entry(first as usize + j, c);
            proof {
                assert(cs.take(j + 1).drop_last() =~= cs.take(j as int));
                assert(cs.take(j + 1).last() == cs[j as int]);
            }
            j = j + 1;
        }
        assert(cs.take(n as int) =~= cs);
    }
}


impl AsepriteFile {
    fn set_slice_ud_at(&mut self, index: usize, ud: UserData)
        requires
            old(self).wf(),
        ensures
            final(self).wf(),
            index < old(self)@.slices.len() ==> final(self)@ == (FileModel {
                slices: old(self)@.slices.update(
                    index as int,
                    SliceModel { user_data: Some(ud@), ..old(self)@.slices[index as int] },
                ),
                ..old(self)@
            }),
            index >= old(self)@.slices.len() ==> final(self)@ == old(self)@,
    {
        if index < self.slices.len() {
            let mut x = self.slices.remove(index);
            x.user_data = Some(ud);
            self.slices.insert(index, x);
            proof {
                assert(super::slice_views(self.slices@) =~= old(self)@.slices.update(
                    index as int,
                    SliceModel { user_data: Some(ud@), ..old(self)@.slices[index as int] },
                ));
            }
        }
    }

    fn set_tileset_ud_at(&mut self, index: usize, ud: UserData)
        requires
            old(self).wf(),
        ensures
            final(self).wf(),
            index < old(self)@.tilesets.len() ==> final(self)@ == (FileModel {
                tilesets: old(self)@.tilesets.update(
                    index as int,
                    TilesetModel { user_data: Some(ud@), ..old(self)@.tilesets[index as int] },
                ),
                ..old(self)@
            }),
            index >= old(self)@.tilesets.len() ==> final(self)@ == old(self)@,
    {
        if index < self.tilesets.len() {
            let mut x = self.tilesets.remove(index);
            x.user_data = Some(ud);
            self.tilesets.insert(index, x);
            proof {
                assert(super::tileset_views(self.tilesets@) =~= old(self)@.tilesets.update(
                    index as int,
                    TilesetModel { user_data: Some(ud@), ..old(self)@.tilesets[index as int] },
                ));
            }
        }
    }

    fn set_tile_ud_at(&mut self, ts: usize, t: usize, ud: UserData)
        requires
            old(self).wf(),
        ensures
            final(self).wf(),
            (ts < old(self)@.tilesets.len() && t < old(self)@.tilesets[ts as int].tile_user_data.len())
                ==> final(self)@ == (FileModel {
                tilesets: old(self)@.tilesets.update(
                    ts as int,
                    TilesetModel {
                        tile_user_data: old(self)@.tilesets[ts as int].tile_user_data.update(t as int, Some(ud@)),
                        ..old(self)@.tilesets[ts as int]
                    },
                ),
                ..old(self)@
            }),
            !(ts < old(self)@.tilesets.len() && t < old(self)@.tilesets[ts as int].tile_user_data.len())
                ==> final(self)@ == old(self)@,
    {
        if ts < self.tilesets.len() && t < self.tilesets[ts].tile_user_data.len() {
            let mut x = self.tilesets.remove(ts);
            let ghost before = x@;
            x.tile_user_data.set(t, Some(ud));
            proof {
                assert(x.tile_user_data@.map_values(|u: Option<UserData>| crate::model::opt_ud_view(u))
                    =~= before.tile_user_data.update(t as int, Some(ud@)));
            }
            self.tilesets.insert(ts, x);
            proof {
                assert(super::tileset_views(self.tilesets@) =~= old(self)@.tilesets.update(
                    ts as int,
                    TilesetModel {
                        tile_user_data: old(self)@.tilesets[ts as int].tile_user_data.update(t as int, Some(ud@)),
                        ..old(self)@.tilesets[ts as int]
                    },
                ));
            }
        }
    }

    /// Attaches user data to what the last chunk described.
    fn attach_user_data(&mut self, last: &mut LastEntity, ud: UserData)
        requires
            old(self).wf(),
            depths_ok(old(self)@.layers),
            last_counter(*old(last)) < usize::MAX,
        ensures
            final(self).wf(),
            depths_ok(final(self)@.layers),
            apply_user_data(ReadState { file: old(self)@, last: *old(last) }, ud@) == (ReadState {
                file: final(self)@,
                last: *final(last),
            }),
    {
        let ghost u = ud@;
        match *last {
            LastEntity::Layer(i) => {
                self.set_layer_ud_at(i, ud);
                proof {
                    let a = old(self)@.layers;
                    let b = self@.layers;
                    assert forall|j: int| 0 <= j < b.len() implies #[trigger] depth(b, j) <= 65535 by {
                        super::lemma_depth_same_parents(a, b, j);
                    }
                }
            },
            LastEntity::Cel(l, f) => {
                self.modify_cel(l, f, Some(ud), None);
                assert(self@.cels =~= cel_modify(
                    old(self)@.cels,
                    (l, f),
                    |c: CelModel| CelModel { user_data: Some(u), ..c },
                ));
            },
            LastEntity::TagSequence(n) => {
                self.set_tag_user_data(n, ud);
                *last = LastEntity::TagSequence(n + 1);
            },
            LastEntity::Palette => {
                self.sprite_user_data = Some(ud);
            },
            LastEntity::Slice(i) => {
                self.set_slice_ud_at(i, ud);
            },
            LastEntity::Tileset(i) => {
                self.set_tileset_ud_at(i, ud);
                *last = LastEntity::TileSequence(i, 0);
            },
            LastEntity::TileSequence(ts, t) => {
                self.set_tile_ud_at(ts, t, ud);
                *last = LastEntity::TileSequence(ts, t + 1);
            },
            LastEntity::Nothing => {},
        }
    }
}


/// What a chunk reader promises: the state that `apply_chunk` gives, or
/// the error it meets.
pub open spec fn chunk_result(
    s0: ReadState,
    fi: usize,
    t: u16,
    d: Seq<u8>,
    r: Result<(), AsepriteError>,
    s1: ReadState,
) -> bool {
    match r {
        Ok(_) => apply_chunk(s0, fi, t, d) == Ok::<ReadState, ErrorModel>(s1),
        Err(e) => apply_chunk(s0, fi, t, d) == Err::<ReadState, ErrorModel>(e@),
    }
}

/// The invariant of the parse state.
pub open spec fn state_ok(s: ReadState) -> bool {
    s.file.wf() && depths_ok(s.file.layers)
}

proof fn lemma_depths_push(ls: Seq<LayerModel>, x: LayerModel)
    requires
        parents_ok(ls),
        depths_ok(ls),
        x.parent matches Some(p) ==> p < ls.len() && depth(ls, p as int) < 65535,
    ensures
        parents_ok(ls.push(x)),
        depths_ok(ls.push(x)),
{
    let t = ls.push(x);
    assert forall|i: int| 0 <= i < t.len() implies #[trigger] depth(t, i) <= 65535 by {
        if i < ls.len() {
            super::lemma_depth_push(ls, x, i);
        } else {
            if let Some(p) = x.parent {
                super::lemma_depth_push(ls, x, p as int);
            }
        }
    }
    assert forall|i: int| 0 <= i < t.len() implies (#[trigger] t[i].parent matches Some(p) ==> p < i) by {
        if i < ls.len() {
            assert(t[i] == ls[i]);
        }
    }
}

impl AsepriteFile {
    #[verifier::spinoff_prover]
    #[verifier::rlimit(60)]
    fn chunk_layer(&mut self, last: &mut LastEntity, fi: usize, d: &[u8]) -> (r: Result<(), AsepriteError>)
        requires
            state_ok(ReadState { file: old(self)@, last: *old(last) }),
        ensures
            chunk_result(ReadState { file: old(self)@, last: *old(last) }, fi, 0x2004, d@, r, ReadState { file: final(self)@, last: *final(last) }),
            r is Ok ==> state_ok(ReadState { file: final(self)@, last: *final(last) }),
    {
        proof {
            reveal(apply_chunk);
        }
        let (layer, cl) = match crate::layer_chunk::read_layer_chunk(d) {
            Ok(x) => x,
            Err(e) => {
                return Err(e);
            },
        };
        let parent = if cl == 0 {
            None
        } else {
            find_parent_for_child_level(&self.layers, cl)
        };
        let nlayers = self.layers.len();
        proof {
            assert(self@.layers.len() == nlayers);
            if cl != 0 {
                lemma_find_parent(self@.layers, self@.layers.len(), cl - 1);
            }
        }
        let mut layer = layer;
        layer.parent = parent;
        let idx = self.layers.len();
        let ghost l0 = self@.layers;
        self.layers.push(layer);
        proof {
            assert(self@.layers =~= l0.push(layer@));
            lemma_depths_push(l0, layer@);
        }
        *last = LastEntity::Layer(idx);
        self.push_order(fi, 0x2004, None);
        Ok(())
    }

    fn chunk_cel(&mut self, last: &mut LastEntity, fi: usize, d: &[u8]) -> (r: Result<(), AsepriteError>)
        requires
            state_ok(ReadState { file: old(self)@, last: *old(last) }),
        ensures
            chunk_result(ReadState { file: old(self)@, last: *old(last) }, fi, 0x2005, d@, r, ReadState { file: final(self)@, last: *final(last) }),
            r is Ok ==> state_ok(ReadState { file: final(self)@, last: *final(last) }),
    {
        proof {
            reveal(apply_chunk);
        }
        match crate::cel_chunk::read_cel_chunk(d, self.color_mode) {
            Err(e) => Err(e),
            Ok(None) => {
                self.push_order(fi, 0x2005, None);
                Ok(())
            },
            Ok(Some((li, cel))) => {
                self.put_cel(li, fi, cel);
                *last = LastEntity::Cel(li, fi);
                self.push_order(fi, 0x2005, Some(li));
                Ok(())
            },
        }
    }

    fn chunk_color_profile(&mut self, last: &mut LastEntity, fi: usize, d: &[u8]) -> (r: Result<(), AsepriteError>)
        requires
            state_ok(ReadState { file: old(self)@, last: *old(last) }),
        ensures
            chunk_result(ReadState { file: old(self)@, last: *old(last) }, fi, 0x2007, d@, r, ReadState { file: final(self)@, last: *final(last) }),
            r is Ok ==> state_ok(ReadState { file: final(self)@, last: *final(last) }),
    {
        proof {
            reveal(apply_chunk);
        }
        let p = match crate::misc_chunks::read_color_profile_chunk(d) {
            Ok(p) => p,
            Err(e) => {
                return Err(e);
            },
        };
        self.color_profile = Some(p);
        self.push_order(fi, 0x2007, None);
        Ok(())
    }

    fn chunk_tags(&mut self, last: &mut LastEntity, fi: usize, d: &[u8]) -> (r: Result<(), AsepriteError>)
        requires
            state_ok(ReadState { file: old(self)@, last: *old(last) }),
        ensures
            chunk_result(ReadState { file: old(self)@, last: *old(last) }, fi, 0x2018, d@, r, ReadState { file: final(self)@, last: *final(last) }),
            r is Ok ==> state_ok(ReadState { file: final(self)@, last: *final(last) }),
    {
        proof {
            reveal(apply_chunk);
        }
        let mut v = match crate::list_chunks::read_tags_chunk(d) {
            Ok(v) => v,
            Err(e) => {
                return Err(e);
            },
        };
        let ghost t0 = self.tags@;
        let ghost v0 = v@;
        self.tags.append(&mut v);
        assert(crate::list_chunks::tag_views(self.tags@) =~= crate::list_chunks::tag_views(t0)
            + crate::list_chunks::tag_views(v0));
        *last = LastEntity::TagSequence(0);
        self.push_order(fi, 0x2018, None);
        Ok(())
    }

    fn chunk_palette(&mut self, last: &mut LastEntity, fi: usize, d: &[u8]) -> (r: Result<(), AsepriteError>)
        requires
            state_ok(ReadState { file: old(self)@, last: *old(last) }),
        ensures
            chunk_result(ReadState { file: old(self)@, last: *old(last) }, fi, 0x2019, d@, r, ReadState { file: final(self)@, last: *final(last) }),
            r is Ok ==> state_ok(ReadState { file: final(self)@, last: *final(last) }),
    {
        proof {
            reveal(apply_chunk);
        }
        let (n, f, l, v) = match crate::list_chunks::read_palette_chunk(d) {
            Ok(x) => x,
            Err(e) => {
                return Err(e);
            },
        };
        proof {
            let g = crate::list_chunks::color_dec_fn();
            assert forall|bb: Seq<u8>, pp: int| (#[trigger] g(bb, pp) matches Some((_, p2)) ==> pp <= p2) by {
            }
            crate::codec::lemma_dec_list_bounds(d@, 20, crate::list_chunks::palette_count(f, l), g);
        }
        self.apply_palette_record_exec(n, f, l, v);
        if fi == 0 {
            *last = LastEntity::Palette;
        }
        self.push_order(fi, 0x2019, None);
        Ok(())
    }

    fn chunk_user_data(&mut self, last: &mut LastEntity, fi: usize, d: &[u8]) -> (r: Result<(), AsepriteError>)
        requires
            state_ok(ReadState { file: old(self)@, last: *old(last) }),
            last_counter(*old(last)) < usize::MAX,
        ensures
            chunk_result(ReadState { file: old(self)@, last: *old(last) }, fi, 0x2020, d@, r, ReadState { file: final(self)@, last: *final(last) }),
            r is Ok ==> state_ok(ReadState { file: final(self)@, last: *final(last) }),
    {
        proof {
            reveal(apply_chunk);
        }
        let ud = match crate::user_data_chunk::read_user_data_chunk(d) {
            Ok(u) => u,
            Err(e) => {
                return Err(e);
            },
        };
        self.attach_user_data(last, ud);
        self.push_order(fi, 0x2020, None);
        Ok(())
    }

    fn chunk_slice(&mut self, last: &mut LastEntity, fi: usize, d: &[u8]) -> (r: Result<(), AsepriteError>)
        requires
            state_ok(ReadState { file: old(self)@, last: *old(last) }),
        ensures
            chunk_result(ReadState { file: old(self)@, last: *old(last) }, fi, 0x2022, d@, r, ReadState { file: final(self)@, last: *final(last) }),
            r is Ok ==> state_ok(ReadState { file: final(self)@, last: *final(last) }),
    {
        proof {
            reveal(apply_chunk);
        }
        let sl = match crate::list_chunks::read_slice_chunk(d) {
            Ok(x) => x,
            Err(e) => {
                return Err(e);
            },
        };
        let idx = self.slices.len();
        self.slices.push(sl);
        assert(super::slice_views(self.slices@) =~= old(self)@.slices.push(sl@));
        *last = LastEntity::Slice(idx);
        self.push_order(fi, 0x2022, None);
        Ok(())
    }

    fn chunk_cel_extra(&mut self, last: &mut LastEntity, fi: usize, d: &[u8]) -> (r: Result<(), AsepriteError>)
        requires
            state_ok(ReadState { file: old(self)@, last: *old(last) }),
        ensures
            chunk_result(ReadState { file: old(self)@, last: *old(last) }, fi, 0x2006, d@, r, ReadState { file: final(self)@, last: *final(last) }),
            r is Ok ==> state_ok(ReadState { file: final(self)@, last: *final(last) }),
    {
        proof {
            reveal(apply_chunk);
        }
        let x = match crate::misc_chunks::read_cel_extra_chunk(d) {
            Ok(x) => x,
            Err(e) => {
                return Err(e);
            },
        };
        if let LastEntity::Cel(l, f) = *last {
            self.modify_cel(l, f, None, Some(x));
            assert(self@.cels =~= cel_modify(
                old(self)@.cels,
                (l, f),
                |c: CelModel| CelModel { extra: Some(x), ..c },
            ));
        }
        self.push_order(fi, 0x2006, None);
        Ok(())
    }

    fn chunk_external_files(&mut self, last: &mut LastEntity, fi: usize, d: &[u8]) -> (r: Result<(), AsepriteError>)
        requires
            state_ok(ReadState { file: old(self)@, last: *old(last) }),
        ensures
            chunk_result(ReadState { file: old(self)@, last: *old(last) }, fi, 0x2008, d@, r, ReadState { file: final(self)@, last: *final(last) }),
            r is Ok ==> state_ok(ReadState { file: final(self)@, last: *final(last) }),
    {
        proof {
            reveal(apply_chunk);
        }
        let mut v = match crate::misc_chunks::read_external_files_chunk(d) {
            Ok(v) => v,
            Err(e) => {
                return Err(e);
            },
        };
        let ghost e0 = self.external_files@;
        let ghost v0 = v@;
        self.external_files.append(&mut v);
        assert(crate::misc_chunks::ext_views(self.external_files@) =~= crate::misc_chunks::ext_views(e0)
            + crate::misc_chunks::ext_views(v0));
        self.push_order(fi, 0x2008, None);
        Ok(())
    }

    fn chunk_tileset(&mut self, last: &mut LastEntity, fi: usize, d: &[u8]) -> (r: Result<(), AsepriteError>)
        requires
            state_ok(ReadState { file: old(self)@, last: *old(last) }),
        ensures
            chunk_result(ReadState { file: old(self)@, last: *old(last) }, fi, 0x2023, d@, r, ReadState { file: final(self)@, last: *final(last) }),
            r is Ok ==> state_ok(ReadState { file: final(self)@, last: *final(last) }),
    {
        proof {
            reveal(apply_chunk);
        }
        let ts = match crate::tileset_chunk::read_tileset_chunk(d) {
            Ok(x) => x,
            Err(e) => {
                return Err(e);
            },
        };
        let idx = self.tilesets.len();
        self.tilesets.push(ts);
        assert(super::tileset_views(self.tilesets@) =~= old(self)@.tilesets.push(ts@));
        *last = LastEntity::Tileset(idx);
        self.push_order(fi, 0x2023, None);
        Ok(())
    }

    fn chunk_old_palette(&mut self, last: &mut LastEntity, fi: usize, t: u16, d: &[u8]) -> (r: Result<(), AsepriteError>)
        requires
            state_ok(ReadState { file: old(self)@, last: *old(last) }),
            t == 0x0004 || t == 0x0011,
        ensures
            chunk_result(ReadState { file: old(self)@, last: *old(last) }, fi, t, d@, r, ReadState { file: final(self)@, last: *final(last) }),
            r is Ok ==> state_ok(ReadState { file: final(self)@, last: *final(last) }),
    {
        proof {
            reveal(apply_chunk);
        }
        let entries = if t == 0x0011 {
            crate::legacy_chunks::parse_old_palette_0011(d)
        } else {
            crate::legacy_chunks::parse_old_palette_0004(d)
        };
        let entries = match entries {
            Ok(v) => v,
            Err(e) => {
                return Err(e);
            },
        };
        let ghost es = crate::legacy_chunks::entry_views(entries@);
        let ghost p0 = self@.palette;
        let mut j: usize = 0;
        while j < entries.len()
            invariant
                j <= entries@.len(),
                es == crate::legacy_chunks::entry_views(entries@),
                self.wf(),
                self@ == (FileModel { palette: palette_entries(p0, es.take(j as int)), ..old(self)@ }),
            decreases entries@.len() - j,
        {
            let c = super::copy_color(&entries[j].1);
            self.set_palette_entry(entries[j].0, c);
            proof {
                assert(es.take(j + 1).drop_last() =~= es.take(j as int));
                assert(es.take(j + 1).last() == es[j as int]);
            }
            j = j + 1;
        }
        assert(es.take(entries@.len() as int) =~= es);
        self.push_unknown(fi, t, d);
        self.push_order(fi, t, None);
        if fi == 0 {
            *last = LastEntity::Palette;
        }
        Ok(())
    }

    fn chunk_mask(&mut self, last: &mut LastEntity, fi: usize, d: &[u8]) -> (r: Result<(), AsepriteError>)
        requires
            state_ok(ReadState { file: old(self)@, last: *old(last) }),
        ensures
            chunk_result(ReadState { file: old(self)@, last: *old(last) }, fi, 0x2016, d@, r, ReadState { file: final(self)@, last: *final(last) }),
            r is Ok ==> state_ok(ReadState { file: final(self)@, last: *final(last) }),
    {
        proof {
            reveal(apply_chunk);
        }
        if let Some(mk) = crate::legacy_chunks::parse_mask_chunk(d) {
            self.legacy_masks.push(mk);
            assert(super::mask_views(self.legacy_masks@) =~= old(self)@.legacy_masks.push(mk@));
        }
        self.push_unknown(fi, 0x2016, d);
        self.push_order(fi, 0x2016, None);
        Ok(())
    }

    fn chunk_other(&mut self, last: &mut LastEntity, fi: usize, t: u16, d: &[u8]) -> (r: Result<(), AsepriteError>)
        requires
            state_ok(ReadState { file: old(self)@, last: *old(last) }),
            t != 0x2004 && t != 0x2005 && t != 0x2007 && t != 0x2018 && t != 0x2019 && t != 0x2020
                && t != 0x2022 && t != 0x2006 && t != 0x2008 && t != 0x2023 && t != 0x0004 && t != 0x0011
                && t != 0x2016,
        ensures
            chunk_result(ReadState { file: old(self)@, last: *old(last) }, fi, t, d@, r, ReadState { file: final(self)@, last: *final(last) }),
            r is Ok ==> state_ok(ReadState { file: final(self)@, last: *final(last) }),
    {
        proof {
            reveal(apply_chunk);
        }
        self.push_unknown(fi, t, d);
        self.push_order(fi, t, None);
        Ok(())
    }

    /// Applies one chunk of type `t` with body `d`, read in frame `fi`.
    fn apply_chunk_exec(&mut self, last: &mut LastEntity, fi: usize, t: u16, d: &[u8]) -> (r: Result<(), AsepriteError>)
        requires
            state_ok(ReadState { file: old(self)@, last: *old(last) }),
            last_counter(*old(last)) < usize::MAX,
        ensures
            chunk_result(ReadState { file: old(self)@, last: *old(last) }, fi, t, d@, r, ReadState { file: final(self)@, last: *final(last) }),
            r is Ok ==> state_ok(ReadState { file: final(self)@, last: *final(last) }),
    {
        if t == 0x2004 {
            self.chunk_layer(last, fi, d)
        } else if t == 0x2005 {
            self.chunk_cel(last, fi, d)
        } else if t == 0x2007 {
            self.chunk_color_profile(last, fi, d)
        } else if t == 0x2018 {
            self.chunk_tags(last, fi, d)
        } else if t == 0x2019 {
            self.chunk_palette(last, fi, d)
        } else if t == 0x2020 {
            self.chunk_user_data(last, fi, d)
        } else if t == 0x2022 {
            self.chunk_slice(last, fi, d)
        } else if t == 0x2006 {
            self.chunk_cel_extra(last, fi, d)
        } else if t == 0x2008 {
            self.chunk_external_files(last, fi, d)
        } else if t == 0x2023 {
            self.chunk_tileset(last, fi, d)
        } else if t == 0x0004 || t == 0x0011 {
            self.chunk_old_palette(last, fi, t, d)
        } else if t == 0x2016 {
            self.chunk_mask(last, fi, d)
        } else {
            self.chunk_other(last, fi, t, d)
        }
    }
}


proof fn lemma_apply_counter(s: ReadState, fi: usize, t: u16, d: Seq<u8>)
    requires
        last_counter(s.last) < usize::MAX,
    ensures
        apply_chunk(s, fi, t, d) matches Ok(s2) ==> last_counter(s2.last) <= last_counter(s.last) + 1,
{
    reveal(apply_chunk);
}

proof fn lemma_chunks_err(b: Seq<u8>, p0: int, s0: ReadState, fi: usize, j: nat, k: nat, e: ErrorModel)
    requires
        j <= k,
        read_chunks(b, p0, s0, fi, j) == Err::<(ReadState, int), ErrorModel>(e),
    ensures
        read_chunks(b, p0, s0, fi, k) == Err::<(ReadState, int), ErrorModel>(e),
    decreases k,
{
    if k > j {
        lemma_chunks_err(b, p0, s0, fi, j, (k - 1) as nat, e);
    }
}

proof fn lemma_frames_err(b: Seq<u8>, s0: ReadState, j: nat, k: nat, e: ErrorModel)
    requires
        j <= k,
        read_frames(b, s0, j) == Err::<(ReadState, int), ErrorModel>(e),
    ensures
        read_frames(b, s0, k) == Err::<(ReadState, int), ErrorModel>(e),
    decreases k,
{
    if k > j {
        lemma_frames_err(b, s0, j, (k - 1) as nat, e);
    }
}

/// Reads the 128-byte header: the empty file it describes and the
/// number of frames.
fn read_header(data: &[u8]) -> (r: Result<(AsepriteFile, u16), AsepriteError>)
    ensures
        match r {
            Ok((f, n)) => dec_header(data@) == Ok::<FileModel, ErrorModel>(f@) && n == u16_at(data@, 6)
                && state_ok(ReadState { file: f@, last: LastEntity::Nothing }) && avail(data@, 0, 128),
            Err(e) => dec_header(data@) == Err::<FileModel, ErrorModel>(e@),
        },
{
    let mut pos: usize = 0;
    let _file_size = read_dword(data, &mut pos)?;
    let magic = read_word(data, &mut pos)?;
    if magic != 0xA5E0 {
        return Err(AsepriteError::InvalidMagic);
    }
    let num_frames = read_word(data, &mut pos)?;
    let width = read_word(data, &mut pos)?;
    let height = read_word(data, &mut pos)?;
    let color_depth = read_word(data, &mut pos)?;
    let color_mode = ColorMode::from_depth(color_depth)?;
    let flags = read_dword(data, &mut pos)?;
    let deprecated_speed = read_word(data, &mut pos)?;
    skip(data, &mut pos, 8)?;
    let transparent_index = read_byte(data, &mut pos)?;
    skip(data, &mut pos, 3)?;
    let num_colors = read_word(data, &mut pos)?;
    let pixel_width = read_byte(data, &mut pos)?;
    let pixel_height = read_byte(data, &mut pos)?;
    let grid_x = read_short(data, &mut pos)?;
    let grid_y = read_short(data, &mut pos)?;
    let grid_w = read_word(data, &mut pos)?;
    let grid_h = read_word(data, &mut pos)?;
    skip(data, &mut pos, 84)?;
    let mut file = AsepriteFile::new(width, height, color_mode);
    file.flags = flags;
    file.deprecated_speed = deprecated_speed;
    file.num_colors = num_colors;
    file.transparent_index = transparent_index;
    file.pixel_width = if pixel_width == 0 { 1 } else { pixel_width };
    file.pixel_height = if pixel_height == 0 { 1 } else { pixel_height };
    file.grid = GridInfo { x: grid_x, y: grid_y, width: grid_w, height: grid_h };
    Ok((file, num_frames))
}

/// Reads a frame header at `pos`: the frame's duration and chunk count.
fn read_frame_head(data: &[u8], pos: usize) -> (r: Result<(u16, usize), AsepriteError>)
    ensures
        match r {
            Ok((dur, n)) => dec_frame_head(data@, pos as int) == Ok::<(u16, nat), ErrorModel>((dur, n as nat))
                && avail(data@, pos as int, 16),
            Err(e) => dec_frame_head(data@, pos as int) == Err::<(u16, nat), ErrorModel>(e@),
        },
{
    let mut p = pos;
    let _frame_bytes = read_dword(data, &mut p)?;
    let magic = read_word(data, &mut p)?;
    if magic != 0xF1FA {
        return Err(AsepriteError::InvalidMagic);
    }
    let old_num_chunks = read_word(data, &mut p)?;
    let duration = read_word(data, &mut p)?;
    skip(data, &mut p, 2)?;
    let new_num_chunks = read_dword(data, &mut p)?;
    let n: usize = if new_num_chunks != 0 { new_num_chunks as usize } else { old_num_chunks as usize };
    Ok((duration, n))
}

impl AsepriteFile {
    /// Reads the chunk at `pos` and applies it; the position after it.
    fn read_chunk(&mut self, last: &mut LastEntity, data: &[u8], pos: usize, fi: usize) -> (r: Result<usize, AsepriteError>)
        requires
            state_ok(ReadState { file: old(self)@, last: *old(last) }),
            last_counter(*old(last)) <= pos,
        ensures
            match r {
                Ok(p2) => chunk_step(data@, pos as int, ReadState { file: old(self)@, last: *old(last) }, fi)
                    == Ok::<(ReadState, int), ErrorModel>((ReadState { file: final(self)@, last: *final(last) }, p2 as int))
                    && state_ok(ReadState { file: final(self)@, last: *final(last) })
                    && last_counter(*final(last)) <= p2 && p2 <= data@.len(),
                Err(e) => chunk_step(data@, pos as int, ReadState { file: old(self)@, last: *old(last) }, fi)
                    == Err::<(ReadState, int), ErrorModel>(e@),
            },
    {
        let mut p = pos;
        let chunk_size = read_dword(data, &mut p)?;
        let chunk_type = read_word(data, &mut p)?;
        if chunk_size < 6 {
            return Err(AsepriteError::InvalidChunkSize);
        }
        let body_len = (chunk_size - 6) as usize;
        if body_len > data.len() - p {
            return Err(crate::bytes::eof_error());
        }
        let body = vstd::slice::slice_subrange(data, p, p + body_len);
        proof {
            lemma_apply_counter(ReadState { file: self@, last: *last }, fi, chunk_type, body@);
        }
        match self.apply_chunk_exec(last, fi, chunk_type, body) {
            Ok(()) => Ok(p + body_len),
            Err(e) => Err(e),
        }
    }

    /// Parses an Aseprite file from its bytes.
    pub fn from_reader(data: &[u8]) -> (r: Result<AsepriteFile, AsepriteError>)
        ensures
            match r {
                Ok(f) => parse_file(data@) == Ok::<FileModel, ErrorModel>(f@) && f.wf(),
                Err(e) => parse_file(data@) == Err::<FileModel, ErrorModel>(e@),
            },
    {
        let (mut file, num_frames) = match read_header(data) {
            Ok(x) => x,
            Err(e) => {
                return Err(e);
            },
        };
        let ghost s0 = ReadState { file: file@, last: LastEntity::Nothing };
        let dlen = data.len();
        let mut last = LastEntity::Nothing;
        let mut pos: usize = 128;
        let mut fi: usize = 0;
        while fi < num_frames as usize
            invariant
                fi <= num_frames,
                num_frames == u16_at(data@, 6),
                dec_header(data@) == Ok::<FileModel, ErrorModel>(s0.file),
                s0.last == LastEntity::Nothing,
                read_frames(data@, s0, fi as nat) == Ok::<(ReadState, int), ErrorModel>(
                    (ReadState { file: file@, last }, pos as int),
                ),
                state_ok(ReadState { file: file@, last }),
                last_counter(last) <= pos,
                pos <= data@.len(),
                dlen == data@.len(),
            decreases num_frames - fi,
        {
            let ghost sprev = ReadState { file: file@, last };
            let ghost pprev = pos as int;
            let (dur, n) = match read_frame_head(data, pos) {
                Ok(x) => x,
                Err(e) => {
                    proof {
                        lemma_frames_err(data@, s0, (fi + 1) as nat, num_frames as nat, e@);
                    }
                    return Err(e);
                },
            };
            assert(pos + 16 <= dlen);
            file.frames.push(Frame { duration_ms: dur });
            let ghost s1 = ReadState { file: file@, last };
            assert(s1 == ReadState {
                file: FileModel { frames: sprev.file.frames.push(Frame { duration_ms: dur }), ..sprev.file },
                last: sprev.last,
            });
            pos = pos + 16;
            let mut c: usize = 0;
            while c < n
                invariant
                    c <= n,
                    fi < num_frames,
                    num_frames == u16_at(data@, 6),
                    dec_header(data@) == Ok::<FileModel, ErrorModel>(s0.file),
                    s0.last == LastEntity::Nothing,
                    read_frames(data@, s0, fi as nat) == Ok::<(ReadState, int), ErrorModel>((sprev, pprev)),
                    dec_frame_head(data@, pprev) == Ok::<(u16, nat), ErrorModel>((dur, n as nat)),
                    s1 == (ReadState {
                        file: FileModel { frames: sprev.file.frames.push(Frame { duration_ms: dur }), ..sprev.file },
                        last: sprev.last,
                    }),
                    read_chunks(data@, pprev + 16, s1, fi, c as nat) == Ok::<(ReadState, int), ErrorModel>(
                        (ReadState { file: file@, last }, pos as int),
                    ),
                    state_ok(ReadState { file: file@, last }),
                    last_counter(last) <= pos,
                    pos <= data@.len(),
                decreases n - c,
            {
                match file.read_chunk(&mut last, data, pos, fi) {
                    Ok(p2) => {
                        pos = p2;
                    },
                    Err(e) => {
                        proof {
                            lemma_chunks_err(data@, pprev + 16, s1, fi, (c + 1) as nat, n as nat, e@);
                            lemma_frames_err(data@, s0, (fi + 1) as nat, num_frames as nat, e@);
                        }
                        return Err(e);
                    },
                }
                c = c + 1;
            }
            fi = fi + 1;
        }
        Ok(file)
    }
}

} // verus!
