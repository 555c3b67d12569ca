//! Mathematical models of the data records: strings as `Seq<char>`, byte
//! buffers as `Seq<u8>`, vectors as sequences of models.

use vstd::prelude::*;
use crate::types::{
    BlendMode, CelExtra, CelKind, Cel, Color, ColorProfile, ExternalFile, ExternalFileType, Layer,
    LayerKind, LegacyMask, LoopDirection, Pixels, PropertiesMap, PropertyValue, Slice, SliceKey, Tag,
    Tileset, TilesetData, TilesetFlags, UnknownChunk, UserData,
};

verus! {

broadcast use vstd::std_specs::vec::axiom_vec_decreases_to_view;

pub enum PropertyValueModel {
    Bool(bool),
    Int8(i8),
    UInt8(u8),
    Int16(i16),
    UInt16(u16),
    Int32(i32),
    UInt32(u32),
    Int64(i64),
    UInt64(u64),
    Fixed(u32),
    Float(u32),
    Double(u64),
    String(Seq<char>),
    Point(i32, i32),
    Size(i32, i32),
    Rect(i32, i32, i32, i32),
    Vector(Seq<PropertyValueModel>),
    Properties(Seq<(Seq<char>, PropertyValueModel)>),
    Uuid(Seq<u8>),
}

/// The models of the elements of a vector value.
pub open spec fn vec_view(e: Seq<PropertyValue>) -> Seq<PropertyValueModel>
    decreases e, 0int,
{
    Seq::new(e.len(), |i: int| if 0 <= i < e.len() { pv_view(e[i]) } else { PropertyValueModel::Bool(false) })
}

/// The models of named entries.
pub open spec fn entries_view(e: Seq<(String, PropertyValue)>) -> Seq<(Seq<char>, PropertyValueModel)>
    decreases e, 0int,
{
    Seq::new(e.len(), |i: int| if 0 <= i < e.len() { (e[i].0@, pv_view(e[i].1)) } else { (Seq::empty(), PropertyValueModel::Bool(false)) })
}

pub open spec fn pv_view(v: PropertyValue) -> PropertyValueModel
    decreases v, 1int,
{
    match v {
        PropertyValue::Bool(b) => PropertyValueModel::Bool(b),
        PropertyValue::Int8(x) => PropertyValueModel::Int8(x),
        PropertyValue::UInt8(x) => PropertyValueModel::UInt8(x),
        PropertyValue::Int16(x) => PropertyValueModel::Int16(x),
        PropertyValue::UInt16(x) => PropertyValueModel::UInt16(x),
        PropertyValue::Int32(x) => PropertyValueModel::Int32(x),
        PropertyValue::UInt32(x) => PropertyValueModel::UInt32(x),
        PropertyValue::Int64(x) => PropertyValueModel::Int64(x),
        PropertyValue::UInt64(x) => PropertyValueModel::UInt64(x),
        PropertyValue::Fixed(x) => PropertyValueModel::Fixed(x),
        PropertyValue::Float(x) => PropertyValueModel::Float(x),
        PropertyValue::Double(x) => PropertyValueModel::Double(x),
        PropertyValue::String(s) => PropertyValueModel::String(s@),
        PropertyValue::Point(a, b) => PropertyValueModel::Point(a, b),
        PropertyValue::Size(a, b) => PropertyValueModel::Size(a, b),
        PropertyValue::Rect(a, b, c, d) => PropertyValueModel::Rect(a, b, c, d),
        PropertyValue::Vector(e) => PropertyValueModel::Vector(vec_view(e@)),
        PropertyValue::Properties(e) => PropertyValueModel::Properties(entries_view(e@)),
        PropertyValue::Uuid(u) => PropertyValueModel::Uuid(u@),
    }
}

impl View for PropertyValue {
    type V = PropertyValueModel;

    open spec fn view(&self) -> PropertyValueModel {
        pv_view(*self)
    }
}


pub open spec fn opt_string_view(s: Option<String>) -> Option<Seq<char>> {
    match s {
        Some(x) => Some(x@),
        None => None,
    }
}

pub open spec fn opt_bytes_view(s: Option<Vec<u8>>) -> Option<Seq<u8>> {
    match s {
        Some(x) => Some(x@),
        None => None,
    }
}

pub struct PropertiesMapModel {
    pub key: u32,
    pub entries: Seq<(Seq<char>, PropertyValueModel)>,
}

impl View for PropertiesMap {
    type V = PropertiesMapModel;

    open spec fn view(&self) -> PropertiesMapModel {
        PropertiesMapModel { key: self.key, entries: entries_view(self.entries@) }
    }
}

pub struct ColorModel {
    pub r: u8,
    pub g: u8,
    pub b: u8,
    pub a: u8,
    pub name: Option<Seq<char>>,
}

impl View for Color {
    type V = ColorModel;

    open spec fn view(&self) -> ColorModel {
        ColorModel { r: self.r, g: self.g, b: self.b, a: self.a, name: opt_string_view(self.name) }
    }
}

pub open spec fn opt_color_view(c: Option<Color>) -> Option<ColorModel> {
    match c {
        Some(x) => Some(x@),
        None => None,
    }
}

pub struct UserDataModel {
    pub text: Option<Seq<char>>,
    pub color: Option<ColorModel>,
    pub properties: Seq<PropertiesMapModel>,
}

impl View for UserData {
    type V = UserDataModel;

    open spec fn view(&self) -> UserDataModel {
        UserDataModel {
            text: opt_string_view(self.text),
            color: opt_color_view(self.color),
            properties: self.properties@.map_values(|m: PropertiesMap| m@),
        }
    }
}

pub open spec fn opt_ud_view(u: Option<UserData>) -> Option<UserDataModel> {
    match u {
        Some(x) => Some(x@),
        None => None,
    }
}

/// The user data that carries nothing.
pub open spec fn empty_ud() -> UserDataModel {
    UserDataModel { text: None, color: None, properties: Seq::empty() }
}

pub struct PixelsModel {
    pub data: Seq<u8>,
    pub width: u16,
    pub height: u16,
}

impl View for Pixels {
    type V = PixelsModel;

    open spec fn view(&self) -> PixelsModel {
        PixelsModel { data: self.data@, width: self.width, height: self.height }
    }
}

pub enum ColorProfileModel {
    NoProfile,
    SRgb { flags: u16, gamma: u32 },
    Icc { flags: u16, gamma: u32, data: Seq<u8> },
}

impl View for ColorProfile {
    type V = ColorProfileModel;

    open spec fn view(&self) -> ColorProfileModel {
        match self {
            ColorProfile::NoProfile => ColorProfileModel::NoProfile,
            ColorProfile::SRgb { flags, gamma } => ColorProfileModel::SRgb { flags: *flags, gamma: *gamma },
            ColorProfile::Icc { flags, gamma, data } => ColorProfileModel::Icc { flags: *flags, gamma: *gamma, data: data@ },
        }
    }
}

pub struct LayerModel {
    pub name: Seq<char>,
    pub kind: LayerKind,
    pub parent: Option<usize>,
    pub opacity: u8,
    pub blend_mode: BlendMode,
    pub visible: bool,
    pub editable: bool,
    pub lock_movement: bool,
    pub background: bool,
    pub prefer_linked_cels: bool,
    pub collapsed: bool,
    pub reference_layer: bool,
    pub user_data: Option<UserDataModel>,
}

impl View for Layer {
    type V = LayerModel;

    open spec fn view(&self) -> LayerModel {
        LayerModel {
            name: self.name@,
            kind: self.kind,
            parent: self.parent,
            opacity: self.opacity,
            blend_mode: self.blend_mode,
            visible: self.visible,
            editable: self.editable,
            lock_movement: self.lock_movement,
            background: self.background,
            prefer_linked_cels: self.prefer_linked_cels,
            collapsed: self.collapsed,
            reference_layer: self.reference_layer,
            user_data: opt_ud_view(self.user_data),
        }
    }
}

pub struct TagModel {
    pub name: Seq<char>,
    pub from_frame: usize,
    pub to_frame: usize,
    pub direction: LoopDirection,
    pub repeat: u16,
    pub user_data: Option<UserDataModel>,
}

impl View for Tag {
    type V = TagModel;

    open spec fn view(&self) -> TagModel {
        TagModel {
            name: self.name@,
            from_frame: self.from_frame,
            to_frame: self.to_frame,
            direction: self.direction,
            repeat: self.repeat,
            user_data: opt_ud_view(self.user_data),
        }
    }
}

pub enum CelKindModel {
    Raw { pixels: PixelsModel, x: i16, y: i16 },
    Compressed { pixels: PixelsModel, x: i16, y: i16, original_compressed: Option<Seq<u8>> },
    Linked { source_frame: usize, x: i16, y: i16 },
    Tilemap {
        width: u16,
        height: u16,
        bits_per_tile: u16,
        tile_id_bitmask: u32,
        x_flip_bitmask: u32,
        y_flip_bitmask: u32,
        d_flip_bitmask: u32,
        tiles: Seq<u32>,
        x: i16,
        y: i16,
        original_compressed: Option<Seq<u8>>,
    },
}

impl View for CelKind {
    type V = CelKindModel;

    open spec fn view(&self) -> CelKindModel {
        match self {
            CelKind::Raw { pixels, x, y } => CelKindModel::Raw { pixels: pixels@, x: *x, y: *y },
            CelKind::Compressed { pixels, x, y, original_compressed } => CelKindModel::Compressed {
                pixels: pixels@,
                x: *x,
                y: *y,
                original_compressed: opt_bytes_view(*original_compressed),
            },
            CelKind::Linked { source_frame, x, y } => CelKindModel::Linked {
                source_frame: *source_frame,
                x: *x,
                y: *y,
            },
            CelKind::Tilemap {
                width,
                height,
                bits_per_tile,
                tile_id_bitmask,
                x_flip_bitmask,
                y_flip_bitmask,
                d_flip_bitmask,
                tiles,
                x,
                y,
                original_compressed,
            } => CelKindModel::Tilemap {
                width: *width,
                height: *height,
                bits_per_tile: *bits_per_tile,
                tile_id_bitmask: *tile_id_bitmask,
                x_flip_bitmask: *x_flip_bitmask,
                y_flip_bitmask: *y_flip_bitmask,
                d_flip_bitmask: *d_flip_bitmask,
                tiles: tiles@,
                x: *x,
                y: *y,
                original_compressed: opt_bytes_view(*original_compressed),
            },
        }
    }
}

pub struct CelModel {
    pub kind: CelKindModel,
    pub opacity: u8,
    pub z_index: i16,
    pub user_data: Option<UserDataModel>,
    pub extra: Option<CelExtra>,
}

impl View for Cel {
    type V = CelModel;

    open spec fn view(&self) -> CelModel {
        CelModel {
            kind: self.kind@,
            opacity: self.opacity,
            z_index: self.z_index,
            user_data: opt_ud_view(self.user_data),
            extra: self.extra,
        }
    }
}

pub struct SliceModel {
    pub name: Seq<char>,
    pub keys: Seq<SliceKey>,
    pub has_nine_patch: bool,
    pub has_pivot: bool,
    pub user_data: Option<UserDataModel>,
}

impl View for Slice {
    type V = SliceModel;

    open spec fn view(&self) -> SliceModel {
        SliceModel {
            name: self.name@,
            keys: self.keys@,
            has_nine_patch: self.has_nine_patch,
            has_pivot: self.has_pivot,
            user_data: opt_ud_view(self.user_data),
        }
    }
}

pub enum TilesetDataModel {
    Embedded { pixels: Seq<u8>, original_compressed: Option<Seq<u8>> },
    External { external_file_id: u32, tileset_id_in_external: u32 },
    Empty,
}

impl View for TilesetData {
    type V = TilesetDataModel;

    open spec fn view(&self) -> TilesetDataModel {
        match self {
            TilesetData::Embedded { pixels, original_compressed } => TilesetDataModel::Embedded {
                pixels: pixels@,
                original_compressed: opt_bytes_view(*original_compressed),
            },
            TilesetData::External { external_file_id, tileset_id_in_external } =>
                TilesetDataModel::External {
                external_file_id: *external_file_id,
                tileset_id_in_external: *tileset_id_in_external,
            },
            TilesetData::Empty => TilesetDataModel::Empty,
        }
    }
}

pub struct TilesetModel {
    pub id: u32,
    pub flags: TilesetFlags,
    pub name: Seq<char>,
    pub tile_count: u32,
    pub tile_width: u16,
    pub tile_height: u16,
    pub base_index: i16,
    pub data: TilesetDataModel,
    pub user_data: Option<UserDataModel>,
    pub tile_user_data: Seq<Option<UserDataModel>>,
}

impl View for Tileset {
    type V = TilesetModel;

    open spec fn view(&self) -> TilesetModel {
        TilesetModel {
            id: self.id,
            flags: self.flags,
            name: self.name@,
            tile_count: self.tile_count,
            tile_width: self.tile_width,
            tile_height: self.tile_height,
            base_index: self.base_index,
            data: self.data@,
            user_data: opt_ud_view(self.user_data),
            tile_user_data: self.tile_user_data@.map_values(|u: Option<UserData>| opt_ud_view(u)),
        }
    }
}

pub struct ExternalFileModel {
    pub id: u32,
    pub file_type: ExternalFileType,
    pub name: Seq<char>,
}

impl View for ExternalFile {
    type V = ExternalFileModel;

    open spec fn view(&self) -> ExternalFileModel {
        ExternalFileModel { id: self.id, file_type: self.file_type, name: self.name@ }
    }
}

pub struct LegacyMaskModel {
    pub x: i16,
    pub y: i16,
    pub width: u16,
    pub height: u16,
    pub name: Seq<char>,
    pub bitmap: Seq<u8>,
}

impl View for LegacyMask {
    type V = LegacyMaskModel;

    open spec fn view(&self) -> LegacyMaskModel {
        LegacyMaskModel {
            x: self.x,
            y: self.y,
            width: self.width,
            height: self.height,
            name: self.name@,
            bitmap: self.bitmap@,
        }
    }
}

pub struct UnknownChunkModel {
    pub frame_index: usize,
    pub chunk_type: u16,
    pub data: Seq<u8>,
}

impl View for UnknownChunk {
    type V = UnknownChunkModel;

    open spec fn view(&self) -> UnknownChunkModel {
        UnknownChunkModel { frame_index: self.frame_index, chunk_type: self.chunk_type, data: self.data@ }
    }
}

} // verus!
