//! The sprite file: header fields, palette, layers, frames, cels, tags,
//! slices, tilesets and the chunks kept for faithful rewriting.

use vstd::prelude::*;
use crate::cels::{
    cel_insert, cel_lookup, cel_modify, cel_views, cels_sorted, find_cel, insert_cel,
    lemma_insert_props, lemma_modify_props,
};
use crate::error::{AsepriteError, ErrorModel};
use crate::list_chunks::{color_views, tag_views};
use crate::misc_chunks::ext_views;
use crate::model::{
    opt_ud_view, CelKindModel, CelModel, ColorModel, ColorProfileModel, ExternalFileModel,
    LayerModel, LegacyMaskModel, PixelsModel, SliceModel, TagModel, TilesetModel,
    UnknownChunkModel, UserDataModel,
};
pub mod reader;
pub mod writer;
pub mod readback;
pub mod rewrite;
pub mod roundtrip;

use crate::types::{
    BlendMode, Cel, CelExtra, CelKind, CelOptions, ChunkOrderEntry, Color, ColorMode, ColorProfile,
    ExternalFile, Frame, GridInfo, GroupRef, Layer, LayerKind, LayerOptions, LayerRef, LegacyMask,
    LoopDirection, Pixels, Slice, Tag, Tileset, UnknownChunk, UserData,
};

verus! {

/// The model of a file: every field as a mathematical value, the cels as
/// entries in increasing key order.
pub struct FileModel {
    pub width: u16,
    pub height: u16,
    pub color_mode: ColorMode,
    pub flags: u32,
    pub deprecated_speed: u16,
    pub num_colors: u16,
    pub transparent_index: u8,
    pub pixel_ratio: (u8, u8),
    pub grid: GridInfo,
    pub color_profile: Option<ColorProfileModel>,
    pub palette: Seq<ColorModel>,
    pub layers: Seq<LayerModel>,
    pub frames: Seq<Frame>,
    pub tags: Seq<TagModel>,
    pub slices: Seq<SliceModel>,
    pub sprite_user_data: Option<UserDataModel>,
    pub cels: Seq<((usize, usize), CelModel)>,
    pub tilesets: Seq<TilesetModel>,
    pub external_files: Seq<ExternalFileModel>,
    pub legacy_masks: Seq<LegacyMaskModel>,
    pub unknown_chunks: Seq<UnknownChunkModel>,
    pub chunk_order: Seq<ChunkOrderEntry>,
}

/// Each layer's parent comes before it.
pub open spec fn parents_ok(ls: Seq<LayerModel>) -> bool {
    forall|i: int| 0 <= i < ls.len() ==> (#[trigger] ls[i].parent matches Some(p) ==> p < i)
}

/// The nesting depth of layer `i`: how many parents lie above it.
pub open spec fn depth(ls: Seq<LayerModel>, i: int) -> nat
    decreases i,
{
    if 0 <= i < ls.len() {
        match ls[i].parent {
            Some(p) => if p < i {
                1 + depth(ls, p as int)
            } else {
                0
            },
            None => 0,
        }
    } else {
        0
    }
}

/// Every layer's nesting depth fits the 16-bit field that stores it.
pub open spec fn depths_ok(ls: Seq<LayerModel>) -> bool {
    forall|i: int| 0 <= i < ls.len() ==> #[trigger] depth(ls, i) <= 65535
}

/// Adding a layer leaves the depths of the layers before it.
pub proof fn lemma_depth_push(ls: Seq<LayerModel>, x: LayerModel, i: int)
    requires
        0 <= i < ls.len(),
    ensures
        depth(ls.push(x), i) == depth(ls, i),
    decreases i,
{
    if let Some(p) = ls[i].parent {
        if p < i {
            lemma_depth_push(ls, x, p as int);
        }
    }
    assert(ls.push(x)[i] == ls[i]);
}

/// Depths depend on the parents alone.
pub proof fn lemma_depth_same_parents(a: Seq<LayerModel>, b: Seq<LayerModel>, i: int)
    requires
        a.len() == b.len(),
        forall|j: int| 0 <= j < a.len() ==> (#[trigger] a[j]).parent == b[j].parent,
    ensures
        depth(a, i) == depth(b, i),
    decreases i,
{
    if 0 <= i < a.len() {
        assert(a[i].parent == b[i].parent);
        if let Some(p) = a[i].parent {
            if p < i {
                lemma_depth_same_parents(a, b, p as int);
            }
        }
    }
}

/// The nesting depth of the layer at `index`, counted by following parents.
pub(crate) fn compute_child_level(layers: &Vec<Layer>, index: usize) -> (r: u16)
    requires
        index < layers@.len(),
        parents_ok(layer_views(layers@)),
        depth(layer_views(layers@), index as int) <= 65535,
    ensures
        r == depth(layer_views(layers@), index as int),
{
    let ghost ls = layer_views(layers@);
    let mut level: u16 = 0;
    let mut current: usize = index;
    loop
        invariant
            current < layers@.len(),
            ls == layer_views(layers@),
            parents_ok(ls),
            level + depth(ls, current as int) == depth(ls, index as int),
            depth(ls, index as int) <= 65535,
        decreases current,
    {
        assert(ls[current as int] == layers@[current as int]@);
        match layers[current].parent {
            Some(p) => {
                assert(p < current);
                level = level + 1;
                current = p;
            },
            None => {
                return level;
            },
        }
    }
}

impl FileModel {
    /// The file's invariant: cels in increasing key order, parents before
    /// their children.
    pub open spec fn wf(self) -> bool {
        cels_sorted(self.cels) && parents_ok(self.layers)
    }

    /// The cel under (layer, frame), if any.
    pub open spec fn cel_at(self, layer: usize, frame: usize) -> Option<CelModel> {
        cel_lookup(self.cels, (layer, frame))
    }

    /// The cel reached from (layer, frame) by following links on the layer,
    /// at most `fuel` of them: the first cel that is not linked, or `None`
    /// where a cel is missing or the links go on longer.
    pub open spec fn resolve_chain(self, layer: usize, frame: usize, fuel: nat) -> Option<CelModel>
        decreases fuel,
    {
        match self.cel_at(layer, frame) {
            None => None,
            Some(c) => match c.kind {
                CelKindModel::Linked { source_frame, .. } => if fuel == 0 {
                    None
                } else {
                    self.resolve_chain(layer, source_frame, (fuel - 1) as nat)
                },
                _ => Some(c),
            },
        }
    }

    /// The cel under (layer, frame) with links followed to a cel that is
    /// not linked: `None` where a cel on the way is missing, or where the
    /// links run in a circle (a chain without a circle follows fewer links
    /// than the file has cels).
    pub open spec fn resolved_at(self, layer: usize, frame: usize) -> Option<CelModel> {
        self.resolve_chain(layer, frame, self.cels.len())
    }
}

/// Following links never ends at a linked cel.
proof fn lemma_chain_not_linked(m: FileModel, layer: usize, frame: usize, fuel: nat)
    ensures
        m.resolve_chain(layer, frame, fuel) matches Some(c) ==> !(c.kind is Linked),
    decreases fuel,
{
    if let Some(c) = m.cel_at(layer, frame) {
        if let CelKindModel::Linked { source_frame, .. } = c.kind {
            if fuel > 0 {
                lemma_chain_not_linked(m, layer, source_frame, (fuel - 1) as nat);
            }
        }
    }
}

/// Resolving a cel never gives a linked cel.
pub proof fn lemma_resolved_not_linked(m: FileModel, layer: usize, frame: usize)
    ensures
        m.resolved_at(layer, frame) matches Some(c) ==> !(c.kind is Linked),
{
    lemma_chain_not_linked(m, layer, frame, m.cels.len());
}

/// A cel set at (layer, frame), as the cel-setting methods do, is the cel
/// found there afterwards, and every other position keeps its cel.
pub proof fn lemma_cel_after_set(m: FileModel, layer: usize, frame: usize, c: CelModel, l2: usize, f2: usize)
    requires
        m.wf(),
    ensures
        (FileModel { cels: cel_insert(m.cels, (layer, frame), c), ..m }).wf(),
        (FileModel { cels: cel_insert(m.cels, (layer, frame), c), ..m }).cel_at(l2, f2) == if l2 == layer && f2
            == frame {
            Some(c)
        } else {
            m.cel_at(l2, f2)
        },
{
    lemma_insert_props(m.cels, (layer, frame), c);
    if !(l2 == layer && f2 == frame) {
        assert((l2, f2) != (layer, frame));
    }
}

/// A linked cel set at (layer, frame) to another source frame, where the
/// layer has a cel that is not linked, resolves to that cel.
pub proof fn lemma_linked_resolves(m: FileModel, layer: usize, frame: usize, source_frame: usize)
    requires
        m.wf(),
        source_frame != frame,
        m.cel_at(layer, source_frame) matches Some(c) && !(c.kind is Linked),
    ensures
        ({
            let m2 = FileModel {
                cels: cel_insert(m.cels, (layer, frame), plain_cel(CelKindModel::Linked { source_frame, x: 0, y: 0 })),
                ..m
            };
            &&& m2.cel_at(layer, frame) == Some(plain_cel(CelKindModel::Linked { source_frame, x: 0, y: 0 }))
            &&& m2.resolved_at(layer, frame) == m.cel_at(layer, source_frame)
        }),
{
    let lc = plain_cel(CelKindModel::Linked { source_frame, x: 0, y: 0 });
    let m2 = FileModel { cels: cel_insert(m.cels, (layer, frame), lc), ..m };
    lemma_cel_after_set(m, layer, frame, lc, layer, frame);
    lemma_cel_after_set(m, layer, frame, lc, layer, source_frame);
    assert(crate::cels::has_key(m2.cels, (layer, frame)));
    assert(m2.cels.len() > 0);
    let n = m2.cels.len();
    assert(m2.resolve_chain(layer, frame, n) == m2.resolve_chain(layer, source_frame, (n - 1) as nat));
}

/// The model of an empty file.
pub open spec fn empty_file(width: u16, height: u16, color_mode: ColorMode) -> FileModel {
    FileModel {
        width,
        height,
        color_mode,
        flags: 1,
        deprecated_speed: 0,
        num_colors: 0,
        transparent_index: 0,
        pixel_ratio: (1, 1),
        grid: GridInfo { x: 0, y: 0, width: 16, height: 16 },
        color_profile: None,
        palette: Seq::empty(),
        layers: Seq::empty(),
        frames: Seq::empty(),
        tags: Seq::empty(),
        slices: Seq::empty(),
        sprite_user_data: None,
        cels: Seq::empty(),
        tilesets: Seq::empty(),
        external_files: Seq::empty(),
        legacy_masks: Seq::empty(),
        unknown_chunks: Seq::empty(),
        chunk_order: Seq::empty(),
    }
}

/// The layer that the layer-adding methods create.
pub open spec fn new_layer(name: Seq<char>, kind: LayerKind, parent: Option<usize>, o: LayerOptions) -> LayerModel {
    LayerModel {
        name,
        kind,
        parent,
        opacity: o.opacity,
        blend_mode: o.blend_mode,
        visible: o.visible,
        editable: o.editable,
        lock_movement: o.lock_movement,
        background: o.background,
        prefer_linked_cels: o.prefer_linked_cels,
        collapsed: o.collapsed,
        reference_layer: o.reference_layer,
        user_data: None,
    }
}

/// A cel of the given kind at full opacity, without z-index, user data or
/// extra bounds.
pub open spec fn plain_cel(kind: CelKindModel) -> CelModel {
    CelModel { kind, opacity: 255, z_index: 0, user_data: None, extra: None }
}

/// The color that palette growth fills in: opaque black.
pub open spec fn filler_color() -> ColorModel {
    ColorModel { r: 0, g: 0, b: 0, a: 255, name: None }
}

/// The palette with entry `i` set to `c`, grown with filler colors first
/// where it is too short.
pub open spec fn palette_set(p: Seq<ColorModel>, i: int, c: ColorModel) -> Seq<ColorModel> {
    if i < p.len() {
        p.update(i, c)
    } else {
        (p + Seq::new((i - p.len()) as nat, |k: int| filler_color())).push(c)
    }
}

pub open spec fn layer_views(s: Seq<Layer>) -> Seq<LayerModel> {
    s.map_values(|l: Layer| l@)
}

pub open spec fn slice_views(s: Seq<Slice>) -> Seq<SliceModel> {
    s.map_values(|l: Slice| l@)
}

pub open spec fn tileset_views(s: Seq<Tileset>) -> Seq<TilesetModel> {
    s.map_values(|l: Tileset| l@)
}

pub open spec fn mask_views(s: Seq<LegacyMask>) -> Seq<LegacyMaskModel> {
    s.map_values(|l: LegacyMask| l@)
}

pub open spec fn unknown_views(s: Seq<UnknownChunk>) -> Seq<UnknownChunkModel> {
    s.map_values(|l: UnknownChunk| l@)
}

pub open spec fn opt_profile_view(p: Option<ColorProfile>) -> Option<ColorProfileModel> {
    match p {
        Some(x) => Some(x@),
        None => None,
    }
}

/// An Aseprite `.ase`/`.aseprite` file.
#[derive(Clone, Debug)]
pub struct AsepriteFile {
    width: u16,
    height: u16,
    color_mode: ColorMode,
    flags: u32,
    deprecated_speed: u16,
    num_colors: u16,
    transparent_index: u8,
    pixel_width: u8,
    pixel_height: u8,
    grid: GridInfo,
    color_profile: Option<ColorProfile>,
    palette: Vec<Color>,
    layers: Vec<Layer>,
    frames: Vec<Frame>,
    tags: Vec<Tag>,
    slices: Vec<Slice>,
    sprite_user_data: Option<UserData>,
    cels: Vec<((usize, usize), Cel)>,
    tilesets: Vec<Tileset>,
    external_files: Vec<ExternalFile>,
    legacy_masks: Vec<LegacyMask>,
    unknown_chunks: Vec<UnknownChunk>,
    chunk_order: Vec<ChunkOrderEntry>,
}

impl View for AsepriteFile {
    type V = FileModel;

    closed spec fn view(&self) -> FileModel {
        FileModel {
            width: self.width,
            height: self.height,
            color_mode: self.color_mode,
            flags: self.flags,
            deprecated_speed: self.deprecated_speed,
            num_colors: self.num_colors,
            transparent_index: self.transparent_index,
            pixel_ratio: (self.pixel_width, self.pixel_height),
            grid: self.grid,
            color_profile: opt_profile_view(self.color_profile),
            palette: color_views(self.palette@),
            layers: layer_views(self.layers@),
            frames: self.frames@,
            tags: tag_views(self.tags@),
            slices: slice_views(self.slices@),
            sprite_user_data: opt_ud_view(self.sprite_user_data),
            cels: cel_views(self.cels@),
            tilesets: tileset_views(self.tilesets@),
            external_files: ext_views(self.external_files@),
            legacy_masks: mask_views(self.legacy_masks@),
            unknown_chunks: unknown_views(self.unknown_chunks@),
            chunk_order: self.chunk_order@,
        }
    }
}

fn copy_color(c: &Color) -> (r: Color)
    ensures
        r@ == c@,
{
    let name = match &c.name {
        Some(n) => Some(n.clone()),
        None => None,
    };
    Color { r: c.r, g: c.g, b: c.b, a: c.a, name }
}

impl AsepriteFile {
    /// The file's invariant holds.
    pub open spec fn wf(&self) -> bool {
        self@.wf()
    }

    /// Creates an empty file with the given canvas dimensions and color mode.
    pub fn new(width: u16, height: u16, color_mode: ColorMode) -> (f: AsepriteFile)
        ensures
            f@ == empty_file(width, height, color_mode),
            f.wf(),
    {
        let f = AsepriteFile {
            width,
            height,
            color_mode,
            flags: 1,
            deprecated_speed: 0,
            num_colors: 0,
            transparent_index: 0,
            pixel_width: 1,
            pixel_height: 1,
            grid: GridInfo::default(),
            color_profile: None,
            palette: Vec::new(),
            layers: Vec::new(),
            frames: Vec::new(),
            tags: Vec::new(),
            slices: Vec::new(),
            sprite_user_data: None,
            cels: Vec::new(),
            tilesets: Vec::new(),
            external_files: Vec::new(),
            legacy_masks: Vec::new(),
            unknown_chunks: Vec::new(),
            chunk_order: Vec::new(),
        };
        assert(f@.palette =~= Seq::<ColorModel>::empty());
        assert(f@.layers =~= Seq::<LayerModel>::empty());
        assert(f@.tags =~= Seq::<TagModel>::empty());
        assert(f@.slices =~= Seq::<SliceModel>::empty());
        assert(f@.cels =~= Seq::<((usize, usize), CelModel)>::empty());
        assert(f@.tilesets =~= Seq::<TilesetModel>::empty());
        assert(f@.external_files =~= Seq::<ExternalFileModel>::empty());
        assert(f@.legacy_masks =~= Seq::<LegacyMaskModel>::empty());
        assert(f@.unknown_chunks =~= Seq::<UnknownChunkModel>::empty());
        f
    }

    // --- Accessors ---
    /// Returns the canvas width in pixels.
    pub fn width(&self) -> (r: u16)
        ensures
            r == self@.width,
    {
        self.width
    }

    /// Returns the canvas height in pixels.
    pub fn height(&self) -> (r: u16)
        ensures
            r == self@.height,
    {
        self.height
    }

    /// Returns the color mode.
    pub fn color_mode(&self) -> (r: ColorMode)
        ensures
            r == self@.color_mode,
    {
        self.color_mode
    }

    /// Returns the raw header flags.
    pub fn flags(&self) -> (r: u32)
        ensures
            r == self@.flags,
    {
        self.flags
    }

    /// Returns the deprecated frame speed of the header.
    pub(crate) fn deprecated_speed(&self) -> (r: u16)
        ensures
            r == self@.deprecated_speed,
    {
        self.deprecated_speed
    }

    /// Returns the number of colors stated in the header.
    pub(crate) fn num_colors(&self) -> (r: u16)
        ensures
            r == self@.num_colors,
    {
        self.num_colors
    }

    /// Returns the pixel aspect ratio as (width, height).
    pub fn pixel_ratio(&self) -> (r: (u8, u8))
        ensures
            r == self@.pixel_ratio,
    {
        (self.pixel_width, self.pixel_height)
    }

    /// Returns the grid overlay settings.
    pub fn grid(&self) -> (r: &GridInfo)
        ensures
            *r == self@.grid,
    {
        &self.grid
    }

    /// Returns the color profile, if set.
    pub fn color_profile(&self) -> (r: &Option<ColorProfile>)
        ensures
            opt_profile_view(*r) == self@.color_profile,
    {
        &self.color_profile
    }

    /// Returns the color palette (empty if no palette chunk was present).
    pub fn palette(&self) -> (r: &[Color])
        ensures
            color_views(r@) == self@.palette,
    {
        self.palette.as_slice()
    }

    /// Returns all layers in document order.
    pub fn layers(&self) -> (r: &[Layer])
        ensures
            layer_views(r@) == self@.layers,
    {
        self.layers.as_slice()
    }

    /// Returns all frames.
    pub fn frames(&self) -> (r: &[Frame])
        ensures
            r@ == self@.frames,
    {
        self.frames.as_slice()
    }

    /// Returns all animation tags.
    pub fn tags(&self) -> (r: &[Tag])
        ensures
            tag_views(r@) == self@.tags,
    {
        self.tags.as_slice()
    }

    /// Returns all slices.
    pub fn slices(&self) -> (r: &[Slice])
        ensures
            slice_views(r@) == self@.slices,
    {
        self.slices.as_slice()
    }

    /// Returns the sprite-level user data, if set.
    pub fn sprite_user_data(&self) -> (r: &Option<UserData>)
        ensures
            opt_ud_view(*r) == self@.sprite_user_data,
    {
        &self.sprite_user_data
    }

    /// Returns the transparent palette index (only meaningful for indexed color mode).
    pub fn transparent_index(&self) -> (r: u8)
        ensures
            r == self@.transparent_index,
    {
        self.transparent_index
    }

    /// Returns legacy mask chunks.
    pub fn legacy_masks(&self) -> (r: &[LegacyMask])
        ensures
            mask_views(r@) == self@.legacy_masks,
    {
        self.legacy_masks.as_slice()
    }

    /// Returns all tilesets.
    pub fn tilesets(&self) -> (r: &[Tileset])
        ensures
            tileset_views(r@) == self@.tilesets,
    {
        self.tilesets.as_slice()
    }

    /// Returns all external file references.
    pub fn external_files(&self) -> (r: &[ExternalFile])
        ensures
            ext_views(r@) == self@.external_files,
    {
        self.external_files.as_slice()
    }

    /// Returns the raw cel at the given layer and frame, or `None`. May
    /// return a linked cel; `resolve_cel` follows links.
    pub fn cel(&self, layer: LayerRef, frame: usize) -> (r: Option<&Cel>)
        requires
            self.wf(),
        ensures
            match r {
                Some(c) => self@.cel_at(layer.index(), frame) == Some(c@),
                None => self@.cel_at(layer.index(), frame) is None,
            },
    {
        match find_cel(&self.cels, (layer.index(), frame)) {
            Some(i) => Some(&self.cels[i].1),
            None => None,
        }
    }

    /// Returns the cel at the given layer and frame, following linked cels
    /// on the layer until a cel that is not linked; never a linked cel.
    /// `None` if the cel or a link target is missing, or the links run in a
    /// circle.
    pub fn resolve_cel(&self, layer: LayerRef, frame: usize) -> (r: Option<&Cel>)
        requires
            self.wf(),
        ensures
            match r {
                Some(t) => self@.resolved_at(layer.index(), frame) == Some(t@),
                None => self@.resolved_at(layer.index(), frame) is None,
            },
    {
        let mut f = frame;
        let mut fuel = self.cels.len();
        loop
            invariant
                self.wf(),
                self@.resolved_at(layer.index(), frame) == self@.resolve_chain(layer.index(), f, fuel as nat),
            decreases fuel,
        {
            let c = match self.cel(layer, f) {
                Some(c) => c,
                None => {
                    return None;
                },
            };
            match &c.kind {
                CelKind::Linked { source_frame, .. } => {
                    if fuel == 0 {
                        return None;
                    }
                    f = *source_frame;
                    fuel = fuel - 1;
                },
                _ => {
                    return Some(c);
                },
            }
        }
    }

    // --- Handle construction from parsed data ---
    /// Returns a handle for the non-group layer at `index`, or `None` if
    /// the index is out of bounds or the layer is a group.
    pub fn layer_ref(&self, index: usize) -> (r: Option<LayerRef>)
        ensures
            match r {
                Some(l) => index < self@.layers.len() && self@.layers[index as int].kind != LayerKind::Group
                    && l.index() == index,
                None => index >= self@.layers.len() || self@.layers[index as int].kind == LayerKind::Group,
            },
    {
        if index >= self.layers.len() {
            return None;
        }
        match self.layers[index].kind {
            LayerKind::Group => None,
            _ => Some(LayerRef::at(index)),
        }
    }

    /// Returns a handle for the group layer at `index`, or `None` if the
    /// index is out of bounds or the layer is not a group.
    pub fn group_ref(&self, index: usize) -> (r: Option<GroupRef>)
        ensures
            match r {
                Some(g) => index < self@.layers.len() && self@.layers[index as int].kind == LayerKind::Group
                    && g.index() == index,
                None => index >= self@.layers.len() || self@.layers[index as int].kind != LayerKind::Group,
            },
    {
        if index >= self.layers.len() {
            return None;
        }
        match self.layers[index].kind {
            LayerKind::Group => Some(GroupRef::at(index)),
            _ => None,
        }
    }

    // --- Layers ---
    fn push_layer(&mut self, name: &str, kind: LayerKind, parent: Option<usize>, opts: &LayerOptions) -> (r: usize)
        requires
            old(self).wf(),
            parent matches Some(p) ==> p < old(self)@.layers.len(),
        ensures
            r == old(self)@.layers.len(),
            final(self)@ == (FileModel {
                layers: old(self)@.layers.push(new_layer(name@, kind, parent, *opts)),
                ..old(self)@
            }),
            final(self).wf(),
    {
        let index = self.layers.len();
        self.layers.push(
            Layer {
                name: name.to_owned(),
                kind,
                parent,
                opacity: opts.opacity,
                blend_mode: opts.blend_mode,
                visible: opts.visible,
                editable: opts.editable,
                lock_movement: opts.lock_movement,
                background: opts.background,
                prefer_linked_cels: opts.prefer_linked_cels,
                collapsed: opts.collapsed,
                reference_layer: opts.reference_layer,
                user_data: None,
            },
        );
        proof {
            assert(layer_views(self.layers@) =~= old(self)@.layers.push(new_layer(name@, kind, parent, *opts)));
        }
        index
    }

    /// Adds a normal layer at the top level.
    pub fn add_layer(&mut self, name: &str) -> (r: LayerRef)
        requires
            old(self).wf(),
        ensures
            r.index() == old(self)@.layers.len(),
            final(self)@ == (FileModel {
                layers: old(self)@.layers.push(
                    new_layer(name@, LayerKind::Normal, None, LayerOptions::spec_default()),
                ),
                ..old(self)@
            }),
            final(self).wf(),
    {
        let opts = LayerOptions::default();
        LayerRef::at(self.push_layer(name, LayerKind::Normal, None, &opts))
    }

    /// Adds a normal layer at the top level with custom options.
    pub fn add_layer_with(&mut self, name: &str, opts: LayerOptions) -> (r: LayerRef)
        requires
            old(self).wf(),
        ensures
            r.index() == old(self)@.layers.len(),
            final(self)@ == (FileModel {
                layers: old(self)@.layers.push(new_layer(name@, LayerKind::Normal, None, opts)),
                ..old(self)@
            }),
            final(self).wf(),
    {
        LayerRef::at(self.push_layer(name, LayerKind::Normal, None, &opts))
    }

    /// Adds a group layer at the top level.
    pub fn add_group(&mut self, name: &str) -> (r: GroupRef)
        requires
            old(self).wf(),
        ensures
            r.index() == old(self)@.layers.len(),
            final(self)@ == (FileModel {
                layers: old(self)@.layers.push(
                    new_layer(name@, LayerKind::Group, None, LayerOptions::spec_default()),
                ),
                ..old(self)@
            }),
            final(self).wf(),
    {
        let opts = LayerOptions::default();
        GroupRef::at(self.push_layer(name, LayerKind::Group, None, &opts))
    }

    /// Adds a group layer at the top level with custom options.
    pub fn add_group_with(&mut self, name: &str, opts: LayerOptions) -> (r: GroupRef)
        requires
            old(self).wf(),
        ensures
            r.index() == old(self)@.layers.len(),
            final(self)@ == (FileModel {
                layers: old(self)@.layers.push(new_layer(name@, LayerKind::Group, None, opts)),
                ..old(self)@
            }),
            final(self).wf(),
    {
        GroupRef::at(self.push_layer(name, LayerKind::Group, None, &opts))
    }

    /// Adds a normal layer inside a group of this file.
    pub fn add_layer_in(&mut self, name: &str, parent: GroupRef) -> (r: LayerRef)
        requires
            old(self).wf(),
            parent.index() < old(self)@.layers.len(),
        ensures
            r.index() == old(self)@.layers.len(),
            final(self)@ == (FileModel {
                layers: old(self)@.layers.push(
                    new_layer(name@, LayerKind::Normal, Some(parent.index()), LayerOptions::spec_default()),
                ),
                ..old(self)@
            }),
            final(self).wf(),
    {
        let opts = LayerOptions::default();
        LayerRef::at(self.push_layer(name, LayerKind::Normal, Some(parent.index()), &opts))
    }

    /// Adds a normal layer inside a group of this file with custom options.
    pub fn add_layer_in_with(&mut self, name: &str, parent: GroupRef, opts: LayerOptions) -> (r: LayerRef)
        requires
            old(self).wf(),
            parent.index() < old(self)@.layers.len(),
        ensures
            r.index() == old(self)@.layers.len(),
            final(self)@ == (FileModel {
                layers: old(self)@.layers.push(
                    new_layer(name@, LayerKind::Normal, Some(parent.index()), opts),
                ),
                ..old(self)@
            }),
            final(self).wf(),
    {
        LayerRef::at(self.push_layer(name, LayerKind::Normal, Some(parent.index()), &opts))
    }

    /// Adds a nested group inside a group of this file.
    pub fn add_group_in(&mut self, name: &str, parent: GroupRef) -> (r: GroupRef)
        requires
            old(self).wf(),
            parent.index() < old(self)@.layers.len(),
        ensures
            r.index() == old(self)@.layers.len(),
            final(self)@ == (FileModel {
                layers: old(self)@.layers.push(
                    new_layer(name@, LayerKind::Group, Some(parent.index()), LayerOptions::spec_default()),
                ),
                ..old(self)@
            }),
            final(self).wf(),
    {
        let opts = LayerOptions::default();
        GroupRef::at(self.push_layer(name, LayerKind::Group, Some(parent.index()), &opts))
    }

    /// Adds a nested group inside a group of this file with custom options.
    pub fn add_group_in_with(&mut self, name: &str, parent: GroupRef, opts: LayerOptions) -> (r: GroupRef)
        requires
            old(self).wf(),
            parent.index() < old(self)@.layers.len(),
        ensures
            r.index() == old(self)@.layers.len(),
            final(self)@ == (FileModel {
                layers: old(self)@.layers.push(
                    new_layer(name@, LayerKind::Group, Some(parent.index()), opts),
                ),
                ..old(self)@
            }),
            final(self).wf(),
    {
        GroupRef::at(self.push_layer(name, LayerKind::Group, Some(parent.index()), &opts))
    }

    /// Adds a top-level tilemap layer referencing the given tileset index.
    pub fn add_tilemap_layer(&mut self, name: &str, tileset_index: u32) -> (r: LayerRef)
        requires
            old(self).wf(),
        ensures
            r.index() == old(self)@.layers.len(),
            final(self)@ == (FileModel {
                layers: old(self)@.layers.push(
                    new_layer(name@, LayerKind::Tilemap { tileset_index }, None, LayerOptions::spec_default()),
                ),
                ..old(self)@
            }),
            final(self).wf(),
    {
        let opts = LayerOptions::default();
        LayerRef::at(self.push_layer(name, LayerKind::Tilemap { tileset_index }, None, &opts))
    }

    fn put_cel(&mut self, layer: usize, frame: usize, cel: Cel)
        requires
            old(self).wf(),
        ensures
            final(self)@ == (FileModel { cels: cel_insert(old(self)@.cels, (layer, frame), cel@), ..old(self)@ }),
            final(self).wf(),
    {
        insert_cel(&mut self.cels, (layer, frame), cel);
    }

    /// Sets tilemap data for a tilemap layer/frame: 32-bit tiles with the
    /// standard id and flip masks.
    pub fn set_tilemap_cel(
        &mut self,
        layer: LayerRef,
        frame: usize,
        tiles: Vec<u32>,
        width: u16,
        height: u16,
        x: i16,
        y: i16,
    ) -> (r: Result<(), AsepriteError>)
        requires
            old(self).wf(),
        ensures
            final(self).wf(),
            frame >= old(self)@.frames.len() ==> (r matches Err(e) && e@ == ErrorModel::FrameOutOfBounds(frame)
                && final(self)@ == old(self)@),
            frame < old(self)@.frames.len() ==> r is Ok && final(self)@ == (FileModel {
                cels: cel_insert(
                    old(self)@.cels,
                    (layer.index(), frame),
                    plain_cel(
                        CelKindModel::Tilemap {
                            width,
                            height,
                            bits_per_tile: 32,
                            tile_id_bitmask: 0x1fff_ffff,
                            x_flip_bitmask: 0x2000_0000,
                            y_flip_bitmask: 0x4000_0000,
                            d_flip_bitmask: 0x8000_0000,
                            tiles: tiles@,
                            x,
                            y,
                            original_compressed: None,
                        },
                    ),
                ),
                ..old(self)@
            }),
    {
        if frame >= self.frames.len() {
            return Err(AsepriteError::FrameOutOfBounds(frame));
        }
        let cel = Cel {
            kind: CelKind::Tilemap {
                width,
                height,
                bits_per_tile: 32,
                tile_id_bitmask: 0x1fff_ffff,
                x_flip_bitmask: 0x2000_0000,
                y_flip_bitmask: 0x4000_0000,
                d_flip_bitmask: 0x8000_0000,
                tiles,
                x,
                y,
                original_compressed: None,
            },
            opacity: 255,
            z_index: 0,
            user_data: None,
            extra: None,
        };
        self.put_cel(layer.index(), frame, cel);
        Ok(())
    }

    // --- Frames ---
    /// Adds a frame with the given duration in milliseconds. Returns the frame index.
    pub fn add_frame(&mut self, duration_ms: u16) -> (r: usize)
        requires
            old(self).wf(),
        ensures
            r == old(self)@.frames.len(),
            final(self)@ == (FileModel {
                frames: old(self)@.frames.push(Frame { duration_ms }),
                ..old(self)@
            }),
            final(self).wf(),
    {
        let index = self.frames.len();
        self.frames.push(Frame { duration_ms });
        index
    }

    // --- Cels ---
    /// Sets pixel data for a layer/frame, to be stored compressed. Fails if
    /// the frame index is out of bounds.
    pub fn set_cel(&mut self, layer: LayerRef, frame: usize, pixels: Pixels, x: i16, y: i16) -> (r: Result<
        (),
        AsepriteError,
    >)
        requires
            old(self).wf(),
        ensures
            final(self).wf(),
            frame >= old(self)@.frames.len() ==> (r matches Err(e) && e@ == ErrorModel::FrameOutOfBounds(frame)
                && final(self)@ == old(self)@),
            frame < old(self)@.frames.len() ==> r is Ok && final(self)@ == (FileModel {
                cels: cel_insert(
                    old(self)@.cels,
                    (layer.index(), frame),
                    plain_cel(CelKindModel::Compressed { pixels: pixels@, x, y, original_compressed: None }),
                ),
                ..old(self)@
            }),
    {
        if frame >= self.frames.len() {
            return Err(AsepriteError::FrameOutOfBounds(frame));
        }
        let cel = Cel {
            kind: CelKind::Compressed { pixels, x, y, original_compressed: None },
            opacity: 255,
            z_index: 0,
            user_data: None,
            extra: None,
        };
        self.put_cel(layer.index(), frame, cel);
        Ok(())
    }

    /// Sets pixel data for a layer/frame with custom opacity, position and z-index.
    pub fn set_cel_with(&mut self, layer: LayerRef, frame: usize, opts: CelOptions) -> (r: Result<
        (),
        AsepriteError,
    >)
        requires
            old(self).wf(),
        ensures
            final(self).wf(),
            frame >= old(self)@.frames.len() ==> (r matches Err(e) && e@ == ErrorModel::FrameOutOfBounds(frame)
                && final(self)@ == old(self)@),
            frame < old(self)@.frames.len() ==> r is Ok && final(self)@ == (FileModel {
                cels: cel_insert(
                    old(self)@.cels,
                    (layer.index(), frame),
                    CelModel {
                        kind: CelKindModel::Compressed {
                            pixels: opts.pixels@,
                            x: opts.x,
                            y: opts.y,
                            original_compressed: None,
                        },
                        opacity: opts.opacity,
                        z_index: opts.z_index,
                        user_data: None,
                        extra: None,
                    },
                ),
                ..old(self)@
            }),
    {
        if frame >= self.frames.len() {
            return Err(AsepriteError::FrameOutOfBounds(frame));
        }
        let cel = Cel {
            kind: CelKind::Compressed { pixels: opts.pixels, x: opts.x, y: opts.y, original_compressed: None },
            opacity: opts.opacity,
            z_index: opts.z_index,
            user_data: None,
            extra: None,
        };
        self.put_cel(layer.index(), frame, cel);
        Ok(())
    }

    /// Sets uncompressed pixel data for a layer/frame.
    pub fn set_raw_cel(&mut self, layer: LayerRef, frame: usize, pixels: Pixels, x: i16, y: i16) -> (r: Result<
        (),
        AsepriteError,
    >)
        requires
            old(self).wf(),
        ensures
            final(self).wf(),
            frame >= old(self)@.frames.len() ==> (r matches Err(e) && e@ == ErrorModel::FrameOutOfBounds(frame)
                && final(self)@ == old(self)@),
            frame < old(self)@.frames.len() ==> r is Ok && final(self)@ == (FileModel {
                cels: cel_insert(
                    old(self)@.cels,
                    (layer.index(), frame),
                    plain_cel(CelKindModel::Raw { pixels: pixels@, x, y }),
                ),
                ..old(self)@
            }),
    {
        if frame >= self.frames.len() {
            return Err(AsepriteError::FrameOutOfBounds(frame));
        }
        let cel = Cel { kind: CelKind::Raw { pixels, x, y }, opacity: 255, z_index: 0, user_data: None, extra: None };
        self.put_cel(layer.index(), frame, cel);
        Ok(())
    }

    /// Sets a linked cel pointing to another frame's cel on the same layer.
    /// Fails if either frame index is out of bounds (the target frame first).
    pub fn set_linked_cel(&mut self, layer: LayerRef, frame: usize, source_frame: usize) -> (r: Result<
        (),
        AsepriteError,
    >)
        requires
            old(self).wf(),
        ensures
            final(self).wf(),
            frame >= old(self)@.frames.len() ==> (r matches Err(e) && e@ == ErrorModel::FrameOutOfBounds(frame)
                && final(self)@ == old(self)@),
            frame < old(self)@.frames.len() && source_frame >= old(self)@.frames.len() ==> (r matches Err(e)
                && e@ == ErrorModel::FrameOutOfBounds(source_frame) && final(self)@ == old(self)@),
            frame < old(self)@.frames.len() && source_frame < old(self)@.frames.len() ==> r is Ok
                && final(self)@ == (FileModel {
                cels: cel_insert(
                    old(self)@.cels,
                    (layer.index(), frame),
                    plain_cel(CelKindModel::Linked { source_frame, x: 0, y: 0 }),
                ),
                ..old(self)@
            }),
    {
        if frame >= self.frames.len() {
            return Err(AsepriteError::FrameOutOfBounds(frame));
        }
        if source_frame >= self.frames.len() {
            return Err(AsepriteError::FrameOutOfBounds(source_frame));
        }
        let cel = Cel {
            kind: CelKind::Linked { source_frame, x: 0, y: 0 },
            opacity: 255,
            z_index: 0,
            user_data: None,
            extra: None,
        };
        self.put_cel(layer.index(), frame, cel);
        Ok(())
    }

    // --- Tags ---
    /// Adds an animation tag spanning the given frame range.
    pub fn add_tag(&mut self, name: &str, frames: std::ops::RangeInclusive<usize>, direction: LoopDirection) -> (r:
        Result<usize, AsepriteError>)
        requires
            old(self).wf(),
        ensures
            final(self).wf(),
            match r {
                Ok(i) => i == old(self)@.tags.len() && frames@.end < old(self)@.frames.len() && final(self)@ == (
                FileModel {
                    tags: old(self)@.tags.push(
                        TagModel {
                            name: name@,
                            from_frame: frames@.start,
                            to_frame: frames@.end,
                            direction,
                            repeat: 0,
                            user_data: None,
                        },
                    ),
                    ..old(self)@
                }),
                Err(e) => e@ == ErrorModel::InvalidFrameRange && frames@.end >= old(self)@.frames.len()
                    && final(self)@ == old(self)@,
            },
    {
        self.add_tag_with(name, frames, direction, 0)
    }

    /// Adds an animation tag with a custom repeat count. Fails when the range
    /// ends past the file's last frame (always, on a file without frames).
    pub fn add_tag_with(
        &mut self,
        name: &str,
        frames: std::ops::RangeInclusive<usize>,
        direction: LoopDirection,
        repeat: u16,
    ) -> (r: Result<usize, AsepriteError>)
        requires
            old(self).wf(),
        ensures
            final(self).wf(),
            match r {
                Ok(i) => i == old(self)@.tags.len() && frames@.end < old(self)@.frames.len() && final(self)@ == (
                FileModel {
                    tags: old(self)@.tags.push(
                        TagModel {
                            name: name@,
                            from_frame: frames@.start,
                            to_frame: frames@.end,
                            direction,
                            repeat,
                            user_data: None,
                        },
                    ),
                    ..old(self)@
                }),
                Err(e) => e@ == ErrorModel::InvalidFrameRange && frames@.end >= old(self)@.frames.len()
                    && final(self)@ == old(self)@,
            },
    {
        let from = range_start(&frames);
        let to = range_end(&frames);
        if to >= self.frames.len() {
            return Err(AsepriteError::InvalidFrameRange);
        }
        let index = self.tags.len();
        self.tags.push(
            Tag { name: name.to_owned(), from_frame: from, to_frame: to, direction, repeat, user_data: None },
        );
        proof {
            assert(tag_views(self.tags@) =~= old(self)@.tags.push(
                TagModel { name: name@, from_frame: from, to_frame: to, direction, repeat, user_data: None },
            ));
        }
        Ok(index)
    }

    // --- Palette ---
    /// Sets the color palette. Fails with more than 256 entries.
    pub fn set_palette(&mut self, colors: &[Color]) -> (r: Result<(), AsepriteError>)
        requires
            old(self).wf(),
        ensures
            final(self).wf(),
            colors@.len() > 256 ==> (r matches Err(e) && e@ == (ErrorModel::FormatLimitExceeded {
                field: "palette"@,
                value: colors@.len() as usize,
                max: 256,
            }) && final(self)@ == old(self)@),
            colors@.len() <= 256 ==> r is Ok && final(self)@ == (FileModel {
                palette: color_views(colors@),
                ..old(self)@
            }),
    {
        if colors.len() > 256 {
            return Err(AsepriteError::FormatLimitExceeded { field: "palette", value: colors.len(), max: 256 });
        }
        let mut palette: Vec<Color> = Vec::new();
        let mut i: usize = 0;
        while i < colors.len()
            invariant
                i <= colors@.len(),
                color_views(palette@) == color_views(colors@.take(i as int)),
            decreases colors@.len() - i,
        {
            let c = copy_color(&colors[i]);
            let ghost prev = palette@;
            palette.push(c);
            proof {
                assert(color_views(palette@) =~= color_views(prev).push(colors@[i as int]@));
                assert(colors@.take(i + 1) =~= colors@.take(i as int).push(colors@[i as int]));
                assert(color_views(colors@.take(i + 1)) =~= color_views(colors@.take(i as int)).push(
                    colors@[i as int]@,
                ));
            }
            i = i + 1;
        }
        assert(colors@.take(colors@.len() as int) =~= colors@);
        self.palette = palette;
        Ok(())
    }

    /// Sets palette entry `index`, growing the palette with opaque black
    /// where it is shorter.
    pub(crate) fn set_palette_entry(&mut self, index: usize, color: Color)
        requires
            old(self).wf(),
        ensures
            final(self).wf(),
            final(self)@ == (FileModel {
                palette: palette_set(old(self)@.palette, index as int, color@),
                ..old(self)@
            }),
    {
        let ghost p0 = self@.palette;
        let mut pal: Vec<Color> = Vec::new();
        std::mem::swap(&mut pal, &mut self.palette);
        if index >= pal.len() {
            while pal.len() < index
                invariant
                    pal@.len() <= index,
                    p0.len() <= pal@.len(),
                    color_views(pal@) == p0 + Seq::new((pal@.len() - p0.len()) as nat, |k: int| filler_color()),
                decreases index - pal@.len(),
            {
                let ghost prev = pal@;
                pal.push(Color { r: 0, g: 0, b: 0, a: 255, name: None });
                proof {
                    assert(color_views(pal@) =~= color_views(prev).push(filler_color()));
                    assert(color_views(pal@) =~= p0 + Seq::new(
                        (pal@.len() - p0.len()) as nat,
                        |k: int| filler_color(),
                    ));
                }
            }
            let ghost prev = pal@;
            pal.push(color);
            proof {
                assert(color_views(pal@) =~= color_views(prev).push(color@));
                assert(color_views(pal@) =~= palette_set(p0, index as int, color@));
            }
        } else {
            pal.set(index, color);
            proof {
                assert(color_views(pal@) =~= palette_set(p0, index as int, color@));
            }
        }
        self.palette = pal;
    }

    /// Sets the transparent palette index.
    pub fn set_transparent_index(&mut self, index: u8)
        requires
            old(self).wf(),
        ensures
            final(self)@ == (FileModel { transparent_index: index, ..old(self)@ }),
            final(self).wf(),
    {
        self.transparent_index = index;
    }

    /// Sets the color profile.
    pub fn set_color_profile(&mut self, profile: ColorProfile)
        requires
            old(self).wf(),
        ensures
            final(self)@ == (FileModel { color_profile: Some(profile@), ..old(self)@ }),
            final(self).wf(),
    {
        self.color_profile = Some(profile);
    }

    /// Adds a slice.
    pub fn add_slice(&mut self, slice: Slice)
        requires
            old(self).wf(),
        ensures
            final(self)@ == (FileModel { slices: old(self)@.slices.push(slice@), ..old(self)@ }),
            final(self).wf(),
    {
        self.slices.push(slice);
        assert(slice_views(self.slices@) =~= old(self)@.slices.push(slice@));
    }

    /// Sets the sprite-level user data.
    pub fn set_sprite_user_data(&mut self, ud: UserData)
        requires
            old(self).wf(),
        ensures
            final(self)@ == (FileModel { sprite_user_data: Some(ud@), ..old(self)@ }),
            final(self).wf(),
    {
        self.sprite_user_data = Some(ud);
    }

    /// Adds a tileset definition.
    pub fn add_tileset(&mut self, tileset: Tileset)
        requires
            old(self).wf(),
        ensures
            final(self)@ == (FileModel { tilesets: old(self)@.tilesets.push(tileset@), ..old(self)@ }),
            final(self).wf(),
    {
        self.tilesets.push(tileset);
        assert(tileset_views(self.tilesets@) =~= old(self)@.tilesets.push(tileset@));
    }

    /// Adds an external file reference.
    pub fn add_external_file(&mut self, ef: ExternalFile)
        requires
            old(self).wf(),
        ensures
            final(self)@ == (FileModel {
                external_files: old(self)@.external_files.push(ef@),
                ..old(self)@
            }),
            final(self).wf(),
    {
        self.external_files.push(ef);
        assert(ext_views(self.external_files@) =~= old(self)@.external_files.push(ef@));
    }

    fn set_layer_ud_at(&mut self, index: usize, ud: UserData)
        requires
            old(self).wf(),
        ensures
            final(self).wf(),
            index < old(self)@.layers.len() ==> final(self)@ == (FileModel {
                layers: old(self)@.layers.update(
                    index as int,
                    LayerModel { user_data: Some(ud@), ..old(self)@.layers[index as int] },
                ),
                ..old(self)@
            }),
            index >= old(self)@.layers.len() ==> final(self)@ == old(self)@,
    {
        if index < self.layers.len() {
            let mut l = self.layers.remove(index);
            l.user_data = Some(ud);
            self.layers.insert(index, l);
            proof {
                assert(layer_views(self.layers@) =~= old(self)@.layers.update(
                    index as int,
                    LayerModel { user_data: Some(ud@), ..old(self)@.layers[index as int] },
                ));
            }
        }
    }

    /// Sets user data on a layer (nothing happens for an index out of bounds).
    pub fn set_layer_user_data(&mut self, layer: LayerRef, ud: UserData)
        requires
            old(self).wf(),
        ensures
            final(self).wf(),
            layer.index() < old(self)@.layers.len() ==> final(self)@ == (FileModel {
                layers: old(self)@.layers.update(
                    layer.index() as int,
                    LayerModel { user_data: Some(ud@), ..old(self)@.layers[layer.index() as int] },
                ),
                ..old(self)@
            }),
            layer.index() >= old(self)@.layers.len() ==> final(self)@ == old(self)@,
    {
        self.set_layer_ud_at(layer.index(), ud);
    }

    /// Sets user data on a group layer (nothing happens for an index out of bounds).
    pub fn set_group_user_data(&mut self, group: GroupRef, ud: UserData)
        requires
            old(self).wf(),
        ensures
            final(self).wf(),
            group.index() < old(self)@.layers.len() ==> final(self)@ == (FileModel {
                layers: old(self)@.layers.update(
                    group.index() as int,
                    LayerModel { user_data: Some(ud@), ..old(self)@.layers[group.index() as int] },
                ),
                ..old(self)@
            }),
            group.index() >= old(self)@.layers.len() ==> final(self)@ == old(self)@,
    {
        self.set_layer_ud_at(group.index(), ud);
    }

    fn modify_cel(&mut self, layer: usize, frame: usize, ud: Option<UserData>, extra: Option<CelExtra>)
        requires
            old(self).wf(),
        ensures
            final(self).wf(),
            final(self)@ == (FileModel {
                cels: cel_modify(
                    old(self)@.cels,
                    (layer, frame),
                    |c: CelModel|
                        CelModel {
                            user_data: if ud is Some { opt_ud_view(ud) } else { c.user_data },
                            extra: if extra is Some { extra } else { c.extra },
                            ..c
                        },
                ),
                ..old(self)@
            }),
    {
        let ghost f = |c: CelModel|
            CelModel {
                user_data: if ud is Some { opt_ud_view(ud) } else { c.user_data },
                extra: if extra is Some { extra } else { c.extra },
                ..c
            };
        proof {
            lemma_modify_props(self@.cels, (layer, frame), f);
        }
        match find_cel(&self.cels, (layer, frame)) {
            None => {
                assert(cel_modify(old(self)@.cels, (layer, frame), f) =~= old(self)@.cels);
            },
            Some(i) => {
                let (key, mut cel) = self.cels.remove(i);
                if ud.is_some() {
                    cel.user_data = ud;
                }
                if extra.is_some() {
                    cel.extra = extra;
                }
                self.cels.insert(i, (key, cel));
                proof {
                    let s = old(self)@.cels;
                    assert forall|j: int| 0 <= j < s.len() && j != i implies s[j].0 != (layer, frame) by {
                        if j < i {
                            assert(crate::cels::key_lt(s[j].0, s[i as int].0));
                        } else {
                            assert(crate::cels::key_lt(s[i as int].0, s[j].0));
                        }
                    }
                    assert(cel_views(self.cels@) =~= cel_modify(s, (layer, frame), f));
                }
            },
        }
    }

    /// Sets user data on a cel (nothing happens where there is no cel).
    pub fn set_cel_user_data(&mut self, layer: LayerRef, frame: usize, ud: UserData)
        requires
            old(self).wf(),
        ensures
            final(self).wf(),
            final(self)@ == (FileModel {
                cels: cel_modify(
                    old(self)@.cels,
                    (layer.index(), frame),
                    |c: CelModel| CelModel { user_data: Some(ud@), ..c },
                ),
                ..old(self)@
            }),
    {
        let ghost u = Some(ud);
        self.modify_cel(layer.index(), frame, Some(ud), None);
        assert(self@.cels =~= cel_modify(
            old(self)@.cels,
            (layer.index(), frame),
            |c: CelModel| CelModel { user_data: Some(ud@), ..c },
        ));
    }

    /// Sets extra precision bounds on a cel (nothing happens where there is no cel).
    pub fn set_cel_extra(&mut self, layer: LayerRef, frame: usize, extra: CelExtra)
        requires
            old(self).wf(),
        ensures
            final(self).wf(),
            final(self)@ == (FileModel {
                cels: cel_modify(
                    old(self)@.cels,
                    (layer.index(), frame),
                    |c: CelModel| CelModel { extra: Some(extra), ..c },
                ),
                ..old(self)@
            }),
    {
        self.modify_cel(layer.index(), frame, None, Some(extra));
        assert(self@.cels =~= cel_modify(
            old(self)@.cels,
            (layer.index(), frame),
            |c: CelModel| CelModel { extra: Some(extra), ..c },
        ));
    }

    /// Sets user data on a tag (nothing happens for an index out of bounds).
    pub fn set_tag_user_data(&mut self, tag_index: usize, ud: UserData)
        requires
            old(self).wf(),
        ensures
            final(self).wf(),
            tag_index < old(self)@.tags.len() ==> final(self)@ == (FileModel {
                tags: old(self)@.tags.update(
                    tag_index as int,
                    TagModel { user_data: Some(ud@), ..old(self)@.tags[tag_index as int] },
                ),
                ..old(self)@
            }),
            tag_index >= old(self)@.tags.len() ==> final(self)@ == old(self)@,
    {
        if tag_index < self.tags.len() {
            let mut t = self.tags.remove(tag_index);
            t.user_data = Some(ud);
            self.tags.insert(tag_index, t);
            proof {
                assert(tag_views(self.tags@) =~= old(self)@.tags.update(
                    tag_index as int,
                    TagModel { user_data: Some(ud@), ..old(self)@.tags[tag_index as int] },
                ));
            }
        }
    }
}

/// `RangeInclusive::start`: the lower bound of the range.
#[verifier::external_body]
fn range_start(r: &std::ops::RangeInclusive<usize>) -> (s: usize)
    ensures
        s == r@.start,
{
    *r.start()
}

/// `RangeInclusive::end`: the upper bound of the range.
#[verifier::external_body]
fn range_end(r: &std::ops::RangeInclusive<usize>) -> (e: usize)
    ensures
        e == r@.end,
{
    *r.end()
}

} // verus!
