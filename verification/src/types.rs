//! The data model of an Aseprite file: enums, handles and records.

use vstd::prelude::*;
use crate::error::AsepriteError;

verus! {

// --- Enums ---

/// The color depth mode of an Aseprite file.
#[non_exhaustive]
#[derive(Copy, Clone, Debug, PartialEq, Eq, Structural)]
pub enum ColorMode {
    Rgba,
    Grayscale,
    Indexed,
}

impl ColorMode {
    pub open spec fn spec_bytes_per_pixel(self) -> usize {
        match self {
            ColorMode::Rgba => 4,
            ColorMode::Grayscale => 2,
            ColorMode::Indexed => 1,
        }
    }

    /// Returns the number of bytes per pixel for this mode.
    #[verifier::when_used_as_spec(spec_bytes_per_pixel)]
    pub fn bytes_per_pixel(self) -> (n: usize)
        ensures
            n == self.spec_bytes_per_pixel(),
    {
        match self {
            ColorMode::Rgba => 4,
            ColorMode::Grayscale => 2,
            ColorMode::Indexed => 1,
        }
    }

    /// The color mode stored as `depth` bits per pixel, if any.
    pub open spec fn spec_from_depth(depth: u16) -> Option<ColorMode> {
        if depth == 32 {
            Some(ColorMode::Rgba)
        } else if depth == 16 {
            Some(ColorMode::Grayscale)
        } else if depth == 8 {
            Some(ColorMode::Indexed)
        } else {
            None
        }
    }

    pub(crate) fn from_depth(depth: u16) -> (r: Result<ColorMode, AsepriteError>)
        ensures
            match r {
                Ok(m) => Self::spec_from_depth(depth) == Some(m),
                Err(e) => Self::spec_from_depth(depth) is None && e == AsepriteError::UnsupportedColorDepth(depth),
            },
    {
        match depth {
            32 => Ok(ColorMode::Rgba),
            16 => Ok(ColorMode::Grayscale),
            8 => Ok(ColorMode::Indexed),
            d => Err(AsepriteError::UnsupportedColorDepth(d)),
        }
    }

    pub open spec fn spec_to_depth(self) -> u16 {
        match self {
            ColorMode::Rgba => 32,
            ColorMode::Grayscale => 16,
            ColorMode::Indexed => 8,
        }
    }

    #[verifier::when_used_as_spec(spec_to_depth)]
    pub(crate) fn to_depth(self) -> (d: u16)
        ensures
            d == self.spec_to_depth(),
    {
        match self {
            ColorMode::Rgba => 32,
            ColorMode::Grayscale => 16,
            ColorMode::Indexed => 8,
        }
    }
}

/// The type of a layer.
#[non_exhaustive]
#[derive(Copy, Clone, Debug, PartialEq, Eq, Structural)]
pub enum LayerKind {
    Normal,
    Group,
    /// A tilemap layer referencing a tileset by index.
    Tilemap { tileset_index: u32 },
}

/// Layer blend mode, matching Aseprite's blend mode list.
#[non_exhaustive]
#[derive(Copy, Clone, Debug, PartialEq, Eq, Structural)]
pub enum BlendMode {
    Normal,
    Multiply,
    Screen,
    Overlay,
    Darken,
    Lighten,
    ColorDodge,
    ColorBurn,
    HardLight,
    SoftLight,
    Difference,
    Exclusion,
    Hue,
    Saturation,
    Color,
    Luminosity,
    Addition,
    Subtract,
    Divide,
}

impl BlendMode {
    pub open spec fn spec_to_u16(self) -> u16 {
        match self {
            BlendMode::Normal => 0,
            BlendMode::Multiply => 1,
            BlendMode::Screen => 2,
            BlendMode::Overlay => 3,
            BlendMode::Darken => 4,
            BlendMode::Lighten => 5,
            BlendMode::ColorDodge => 6,
            BlendMode::ColorBurn => 7,
            BlendMode::HardLight => 8,
            BlendMode::SoftLight => 9,
            BlendMode::Difference => 10,
            BlendMode::Exclusion => 11,
            BlendMode::Hue => 12,
            BlendMode::Saturation => 13,
            BlendMode::Color => 14,
            BlendMode::Luminosity => 15,
            BlendMode::Addition => 16,
            BlendMode::Subtract => 17,
            BlendMode::Divide => 18,
        }
    }

    /// The blend mode numbered `v`; unknown numbers mean `Normal`.
    pub open spec fn spec_from_u16(v: u16) -> BlendMode {
        if v == 1 {
            BlendMode::Multiply
        } else if v == 2 {
            BlendMode::Screen
        } else if v == 3 {
            BlendMode::Overlay
        } else if v == 4 {
            BlendMode::Darken
        } else if v == 5 {
            BlendMode::Lighten
        } else if v == 6 {
            BlendMode::ColorDodge
        } else if v == 7 {
            BlendMode::ColorBurn
        } else if v == 8 {
            BlendMode::HardLight
        } else if v == 9 {
            BlendMode::SoftLight
        } else if v == 10 {
            BlendMode::Difference
        } else if v == 11 {
            BlendMode::Exclusion
        } else if v == 12 {
            BlendMode::Hue
        } else if v == 13 {
            BlendMode::Saturation
        } else if v == 14 {
            BlendMode::Color
        } else if v == 15 {
            BlendMode::Luminosity
        } else if v == 16 {
            BlendMode::Addition
        } else if v == 17 {
            BlendMode::Subtract
        } else if v == 18 {
            BlendMode::Divide
        } else {
            BlendMode::Normal
        }
    }

    #[verifier::when_used_as_spec(spec_from_u16)]
    pub(crate) fn from_u16(v: u16) -> (m: BlendMode)
        ensures
            m == Self::spec_from_u16(v),
    {
        match v {
            1 => BlendMode::Multiply,
            2 => BlendMode::Screen,
            3 => BlendMode::Overlay,
            4 => BlendMode::Darken,
            5 => BlendMode::Lighten,
            6 => BlendMode::ColorDodge,
            7 => BlendMode::ColorBurn,
            8 => BlendMode::HardLight,
            9 => BlendMode::SoftLight,
            10 => BlendMode::Difference,
            11 => BlendMode::Exclusion,
            12 => BlendMode::Hue,
            13 => BlendMode::Saturation,
            14 => BlendMode::Color,
            15 => BlendMode::Luminosity,
            16 => BlendMode::Addition,
            17 => BlendMode::Subtract,
            18 => BlendMode::Divide,
            _ => BlendMode::Normal,
        }
    }

    #[verifier::when_used_as_spec(spec_to_u16)]
    pub(crate) fn to_u16(self) -> (v: u16)
        ensures
            v == self.spec_to_u16(),
    {
        match self {
            BlendMode::Normal => 0,
            BlendMode::Multiply => 1,
            BlendMode::Screen => 2,
            BlendMode::Overlay => 3,
            BlendMode::Darken => 4,
            BlendMode::Lighten => 5,
            BlendMode::ColorDodge => 6,
            BlendMode::ColorBurn => 7,
            BlendMode::HardLight => 8,
            BlendMode::SoftLight => 9,
            BlendMode::Difference => 10,
            BlendMode::Exclusion => 11,
            BlendMode::Hue => 12,
            BlendMode::Saturation => 13,
            BlendMode::Color => 14,
            BlendMode::Luminosity => 15,
            BlendMode::Addition => 16,
            BlendMode::Subtract => 17,
            BlendMode::Divide => 18,
        }
    }
}

/// A blend mode's number names that blend mode back.
pub proof fn lemma_blend_mode_roundtrip(m: BlendMode)
    ensures
        BlendMode::spec_from_u16(m.spec_to_u16()) == m,
{
}

/// Animation loop direction for tags.
#[non_exhaustive]
#[derive(Copy, Clone, Debug, PartialEq, Eq, Structural)]
pub enum LoopDirection {
    Forward,
    Reverse,
    PingPong,
    PingPongReverse,
}

impl LoopDirection {
    /// The direction numbered `v`; unknown numbers mean `Forward`.
    pub open spec fn spec_from_u8(v: u8) -> LoopDirection {
        if v == 1 {
            LoopDirection::Reverse
        } else if v == 2 {
            LoopDirection::PingPong
        } else if v == 3 {
            LoopDirection::PingPongReverse
        } else {
            LoopDirection::Forward
        }
    }

    pub open spec fn spec_to_u8(self) -> u8 {
        match self {
            LoopDirection::Forward => 0,
            LoopDirection::Reverse => 1,
            LoopDirection::PingPong => 2,
            LoopDirection::PingPongReverse => 3,
        }
    }

    #[verifier::when_used_as_spec(spec_from_u8)]
    pub(crate) fn from_u8(v: u8) -> (d: LoopDirection)
        ensures
            d == Self::spec_from_u8(v),
    {
        match v {
            0 => LoopDirection::Forward,
            1 => LoopDirection::Reverse,
            2 => LoopDirection::PingPong,
            3 => LoopDirection::PingPongReverse,
            _ => LoopDirection::Forward,
        }
    }

    #[verifier::when_used_as_spec(spec_to_u8)]
    pub(crate) fn to_u8(self) -> (v: u8)
        ensures
            v == self.spec_to_u8(),
    {
        match self {
            LoopDirection::Forward => 0,
            LoopDirection::Reverse => 1,
            LoopDirection::PingPong => 2,
            LoopDirection::PingPongReverse => 3,
        }
    }
}

/// A loop direction's number names that direction back.
pub proof fn lemma_loop_direction_roundtrip(d: LoopDirection)
    ensures
        LoopDirection::spec_from_u8(d.spec_to_u8()) == d,
{
}

/// Color profile embedded in the file.
#[non_exhaustive]
#[derive(Clone, Debug, PartialEq)]
pub enum ColorProfile {
    /// No profile (stored as profile type 0).
    NoProfile,
    SRgb { flags: u16, gamma: u32 },
    Icc { flags: u16, gamma: u32, data: Vec<u8> },
}

// --- Handles ---

/// Handle to a non-group layer.
#[derive(Copy, Clone, Debug, PartialEq, Eq, Structural)]
pub struct LayerRef(pub(crate) usize);

/// Handle to a group layer.
#[derive(Copy, Clone, Debug, PartialEq, Eq, Structural)]
pub struct GroupRef(pub(crate) usize);

impl LayerRef {
    pub closed spec fn spec_index(&self) -> usize {
        self.0
    }

    /// The handle of the layer at `index`.
    pub(crate) fn at(index: usize) -> (r: LayerRef)
        ensures
            r.spec_index() == index,
    {
        LayerRef(index)
    }

    /// Returns the underlying layer index.
    #[verifier::when_used_as_spec(spec_index)]
    pub fn index(&self) -> (i: usize)
        ensures
            i == self.spec_index(),
    {
        self.0
    }
}

impl GroupRef {
    pub closed spec fn spec_index(&self) -> usize {
        self.0
    }

    /// The handle of the layer at `index`.
    pub(crate) fn at(index: usize) -> (r: GroupRef)
        ensures
            r.spec_index() == index,
    {
        GroupRef(index)
    }

    /// Returns the underlying layer index.
    #[verifier::when_used_as_spec(spec_index)]
    pub fn index(&self) -> (i: usize)
        ensures
            i == self.spec_index(),
    {
        self.0
    }
}

// --- Data records ---

/// Raw pixel data buffer. RGBA = 4 bytes/pixel, Grayscale = 2, Indexed = 1.
#[derive(Clone, Debug, PartialEq)]
pub struct Pixels {
    pub data: Vec<u8>,
    pub width: u16,
    pub height: u16,
}

impl Pixels {
    /// Creates a pixel buffer, checking that `data.len()` is
    /// `width * height * color_mode.bytes_per_pixel()`.
    pub fn new(data: Vec<u8>, width: u16, height: u16, color_mode: ColorMode) -> (r: Result<
        Pixels,
        AsepriteError,
    >)
        requires
            width * height * color_mode.spec_bytes_per_pixel() <= usize::MAX,
        ensures
            (width * height * color_mode.spec_bytes_per_pixel() == data@.len()) ==> r == Ok::<
                Pixels,
                AsepriteError,
            >(Pixels { data, width, height }),
            (width * height * color_mode.spec_bytes_per_pixel() != data@.len()) ==> r == Err::<
                Pixels,
                AsepriteError,
            >(
                AsepriteError::PixelSizeMismatch {
                    expected: (width * height * color_mode.spec_bytes_per_pixel()) as usize,
                    actual: data@.len() as usize,
                },
            ),
    {
        let w = width as usize;
        let h = height as usize;
        let bpp = color_mode.bytes_per_pixel();
        assert(w * h <= w * h * bpp) by (nonlinear_arith)
            requires
                1 <= bpp,
        ;
        let wh = w * h;
        let expected = wh * bpp;
        if data.len() != expected {
            return Err(AsepriteError::PixelSizeMismatch { expected, actual: data.len() });
        }
        Ok(Pixels { data, width, height })
    }
}

/// An RGBA color with an optional name (used in palettes).
#[derive(Clone, Debug, PartialEq, Eq)]
pub struct Color {
    pub r: u8,
    pub g: u8,
    pub b: u8,
    pub a: u8,
    pub name: Option<String>,
}

/// Grid overlay settings.
#[derive(Clone, Debug, PartialEq)]
pub struct GridInfo {
    pub x: i16,
    pub y: i16,
    pub width: u16,
    pub height: u16,
}

impl Default for GridInfo {
    fn default() -> (g: GridInfo)
        ensures
            g == (GridInfo { x: 0, y: 0, width: 16, height: 16 }),
    {
        GridInfo { x: 0, y: 0, width: 16, height: 16 }
    }
}

/// A chunk that is kept as raw bytes for faithful rewriting.
#[derive(Clone, Debug)]
pub struct UnknownChunk {
    pub frame_index: usize,
    pub chunk_type: u16,
    pub data: Vec<u8>,
}

/// The position of a chunk in the order in which a file stored it.
#[derive(Copy, Clone, Debug)]
pub struct ChunkOrderEntry {
    pub frame_index: usize,
    pub chunk_type: u16,
    /// For cel chunks, the layer index that identifies the cel.
    pub layer_index: Option<usize>,
}

/// A layer in the file (normal, group, or tilemap).
#[derive(Clone, Debug, PartialEq)]
pub struct Layer {
    pub name: String,
    pub kind: LayerKind,
    pub parent: Option<usize>,
    pub opacity: u8,
    pub blend_mode: BlendMode,
    pub visible: bool,
    pub editable: bool,
    pub lock_movement: bool,
    pub background: bool,
    pub prefer_linked_cels: bool,
    pub collapsed: bool,
    pub reference_layer: bool,
    pub user_data: Option<UserData>,
}

/// Options for creating a new layer.
pub struct LayerOptions {
    pub opacity: u8,
    pub blend_mode: BlendMode,
    pub visible: bool,
    pub editable: bool,
    pub lock_movement: bool,
    pub background: bool,
    pub collapsed: bool,
    pub prefer_linked_cels: bool,
    pub reference_layer: bool,
}

impl LayerOptions {
    pub open spec fn spec_default() -> LayerOptions {
        LayerOptions {
            opacity: 255,
            blend_mode: BlendMode::Normal,
            visible: true,
            editable: true,
            lock_movement: false,
            background: false,
            collapsed: false,
            prefer_linked_cels: false,
            reference_layer: false,
        }
    }
}

impl Default for LayerOptions {
    fn default() -> (o: LayerOptions)
        ensures
            o == LayerOptions::spec_default(),
    {
        LayerOptions {
            opacity: 255,
            blend_mode: BlendMode::Normal,
            visible: true,
            editable: true,
            lock_movement: false,
            background: false,
            collapsed: false,
            prefer_linked_cels: false,
            reference_layer: false,
        }
    }
}

/// A single animation frame.
#[derive(Copy, Clone, Debug, PartialEq, Eq, Structural)]
pub struct Frame {
    pub duration_ms: u16,
}

/// An animation tag spanning a range of frames.
#[derive(Clone, Debug, PartialEq)]
pub struct Tag {
    pub name: String,
    pub from_frame: usize,
    pub to_frame: usize,
    pub direction: LoopDirection,
    pub repeat: u16,
    pub user_data: Option<UserData>,
}

/// A cel (the content of one layer in one frame).
#[derive(Clone, Debug, PartialEq)]
pub struct Cel {
    pub kind: CelKind,
    pub opacity: u8,
    pub z_index: i16,
    pub user_data: Option<UserData>,
    pub extra: Option<CelExtra>,
}

/// The type and data of a cel.
#[non_exhaustive]
#[derive(Clone, Debug, PartialEq)]
pub enum CelKind {
    /// Uncompressed pixel data.
    Raw { pixels: Pixels, x: i16, y: i16 },
    /// Zlib-compressed pixel data. `original_compressed` keeps the stored
    /// bytes for faithful rewriting; `None` for cels built in memory.
    Compressed { pixels: Pixels, x: i16, y: i16, original_compressed: Option<Vec<u8>> },
    /// References another frame's cel on the same layer.
    Linked { source_frame: usize, x: i16, y: i16 },
    /// Tilemap data referencing tiles by ID.
    Tilemap {
        width: u16,
        height: u16,
        bits_per_tile: u16,
        tile_id_bitmask: u32,
        x_flip_bitmask: u32,
        y_flip_bitmask: u32,
        d_flip_bitmask: u32,
        tiles: Vec<u32>,
        x: i16,
        y: i16,
        original_compressed: Option<Vec<u8>>,
    },
}

/// Options for creating a cel with non-default opacity, position, or z-index.
pub struct CelOptions {
    pub pixels: Pixels,
    pub x: i16,
    pub y: i16,
    pub opacity: u8,
    pub z_index: i16,
}

impl Default for CelOptions {
    fn default() -> (o: CelOptions)
        ensures
            o.pixels.data@.len() == 0,
            o.pixels.width == 0,
            o.pixels.height == 0,
            o.x == 0,
            o.y == 0,
            o.opacity == 255,
            o.z_index == 0,
    {
        CelOptions {
            pixels: Pixels { data: Vec::new(), width: 0, height: 0 },
            x: 0,
            y: 0,
            opacity: 255,
            z_index: 0,
        }
    }
}

/// User-defined metadata attached to layers, cels, tags, slices, or the sprite.
#[derive(Clone, Debug, PartialEq)]
pub struct UserData {
    pub text: Option<String>,
    pub color: Option<Color>,
    pub properties: Vec<PropertiesMap>,
}

impl Default for UserData {
    fn default() -> (u: UserData)
        ensures
            u.text is None,
            u.color is None,
            u.properties@.len() == 0,
    {
        UserData { text: None, color: None, properties: Vec::new() }
    }
}

/// A keyed map of typed properties within user data.
#[derive(Clone, Debug, PartialEq)]
pub struct PropertiesMap {
    pub key: u32,
    pub entries: Vec<(String, PropertyValue)>,
}

/// A typed value within a properties map. Floating-point values are held
/// as their IEEE-754 bit patterns (`f32::to_bits`, `f64::to_bits`).
#[non_exhaustive]
#[derive(Debug, PartialEq)]
pub enum PropertyValue {
    Bool(bool),
    Int8(i8),
    UInt8(u8),
    Int16(i16),
    UInt16(u16),
    Int32(i32),
    UInt32(u32),
    Int64(i64),
    UInt64(u64),
    Fixed(u32),
    Float(u32),
    Double(u64),
    String(String),
    Point(i32, i32),
    Size(i32, i32),
    Rect(i32, i32, i32, i32),
    Vector(Vec<PropertyValue>),
    Properties(Vec<(String, PropertyValue)>),
    Uuid([u8; 16]),
}

impl Clone for PropertyValue {
    fn clone(&self) -> (r: PropertyValue)
        ensures
            r@ == self@,
    {
        self.duplicate()
    }
}

/// A named rectangular region, optionally with nine-patch and pivot data.
#[derive(Clone, Debug, PartialEq)]
pub struct Slice {
    pub name: String,
    pub keys: Vec<SliceKey>,
    pub has_nine_patch: bool,
    pub has_pivot: bool,
    pub user_data: Option<UserData>,
}

/// A slice's bounds at a specific frame.
#[derive(Copy, Clone, Debug, PartialEq)]
pub struct SliceKey {
    pub frame: u32,
    pub x: i32,
    pub y: i32,
    pub width: u32,
    pub height: u32,
    pub nine_patch: Option<NinePatch>,
    pub pivot: Option<(i32, i32)>,
}

/// Nine-patch (9-slice) center region within a slice.
#[derive(Copy, Clone, Debug, PartialEq)]
pub struct NinePatch {
    pub center_x: i32,
    pub center_y: i32,
    pub center_width: u32,
    pub center_height: u32,
}

/// Extra precision bounds for a cel.
#[derive(Copy, Clone, Debug, PartialEq)]
pub struct CelExtra {
    pub precise_x: u32,
    pub precise_y: u32,
    pub width: u32,
    pub height: u32,
}

/// Bitflags for tileset properties.
#[derive(Copy, Clone, Debug, PartialEq, Eq, Structural)]
pub struct TilesetFlags(pub u32);

impl TilesetFlags {
    pub open spec fn spec_has_external_link(self) -> bool {
        self.0 & 1 != 0
    }

    pub open spec fn spec_has_embedded_tiles(self) -> bool {
        self.0 & 2 != 0
    }

    pub open spec fn spec_empty_tile_is_zero(self) -> bool {
        self.0 & 4 != 0
    }

    /// Returns whether the tileset references an external file.
    #[verifier::when_used_as_spec(spec_has_external_link)]
    pub fn has_external_link(self) -> (b: bool)
        ensures
            b == self.spec_has_external_link(),
    {
        self.0 & 1 != 0
    }

    /// Returns whether the tileset has embedded tile pixel data.
    #[verifier::when_used_as_spec(spec_has_embedded_tiles)]
    pub fn has_embedded_tiles(self) -> (b: bool)
        ensures
            b == self.spec_has_embedded_tiles(),
    {
        self.0 & 2 != 0
    }

    /// Returns whether tile ID 0 represents an empty tile.
    #[verifier::when_used_as_spec(spec_empty_tile_is_zero)]
    pub fn empty_tile_is_zero(self) -> (b: bool)
        ensures
            b == self.spec_empty_tile_is_zero(),
    {
        self.0 & 4 != 0
    }
}

/// A tileset definition.
#[derive(Clone, Debug, PartialEq)]
pub struct Tileset {
    pub id: u32,
    pub flags: TilesetFlags,
    pub name: String,
    pub tile_count: u32,
    pub tile_width: u16,
    pub tile_height: u16,
    pub base_index: i16,
    pub data: TilesetData,
    pub user_data: Option<UserData>,
    pub tile_user_data: Vec<Option<UserData>>,
}

/// The pixel data source for a tileset.
#[non_exhaustive]
#[derive(Clone, Debug, PartialEq)]
pub enum TilesetData {
    Embedded { pixels: Vec<u8>, original_compressed: Option<Vec<u8>> },
    External { external_file_id: u32, tileset_id_in_external: u32 },
    Empty,
}

/// A reference to an external file.
#[derive(Clone, Debug, PartialEq)]
pub struct ExternalFile {
    pub id: u32,
    pub file_type: ExternalFileType,
    pub name: String,
}

/// The type of an external file reference.
#[non_exhaustive]
#[derive(Copy, Clone, Debug, PartialEq, Eq, Structural)]
pub enum ExternalFileType {
    Palette,
    Tileset,
    ExtensionProps,
    ExtensionTileMgmt,
}

impl ExternalFileType {
    /// The external file type numbered `v`; unknown numbers mean `Palette`.
    pub open spec fn spec_from_u8(v: u8) -> ExternalFileType {
        if v == 1 {
            ExternalFileType::Tileset
        } else if v == 2 {
            ExternalFileType::ExtensionProps
        } else if v == 3 {
            ExternalFileType::ExtensionTileMgmt
        } else {
            ExternalFileType::Palette
        }
    }

    pub open spec fn spec_to_u8(self) -> u8 {
        match self {
            ExternalFileType::Palette => 0,
            ExternalFileType::Tileset => 1,
            ExternalFileType::ExtensionProps => 2,
            ExternalFileType::ExtensionTileMgmt => 3,
        }
    }

    #[verifier::when_used_as_spec(spec_from_u8)]
    pub(crate) fn from_u8(v: u8) -> (t: ExternalFileType)
        ensures
            t == Self::spec_from_u8(v),
    {
        match v {
            0 => ExternalFileType::Palette,
            1 => ExternalFileType::Tileset,
            2 => ExternalFileType::ExtensionProps,
            3 => ExternalFileType::ExtensionTileMgmt,
            _ => ExternalFileType::Palette,
        }
    }

    #[verifier::when_used_as_spec(spec_to_u8)]
    pub(crate) fn to_u8(self) -> (v: u8)
        ensures
            v == self.spec_to_u8(),
    {
        match self {
            ExternalFileType::Palette => 0,
            ExternalFileType::Tileset => 1,
            ExternalFileType::ExtensionProps => 2,
            ExternalFileType::ExtensionTileMgmt => 3,
        }
    }
}

/// An external file type's number names that type back.
pub proof fn lemma_external_file_type_roundtrip(t: ExternalFileType)
    ensures
        ExternalFileType::spec_from_u8(t.spec_to_u8()) == t,
{
}

/// A legacy mask chunk (deprecated in modern Aseprite, kept for rewriting).
#[derive(Clone, Debug, PartialEq)]
pub struct LegacyMask {
    pub x: i16,
    pub y: i16,
    pub width: u16,
    pub height: u16,
    pub name: String,
    pub bitmap: Vec<u8>,
}


/// Blend modes carry Aseprite's numbers: Normal 0, Multiply 1, Screen 2,
/// Overlay 3, Darken 4, Lighten 5, Color Dodge 6, Color Burn 7, Hard Light
/// 8, Soft Light 9, Difference 10, Exclusion 11, Hue 12, Saturation 13,
/// Color 14, Luminosity 15, Addition 16, Subtract 17, Divide 18. Reading a
/// number up to 18 gives the mode that carries it; any other number reads
/// as Normal.
pub proof fn lemma_blend_mode_numbers(m: BlendMode, v: u16)
    ensures
        m.spec_to_u16() == match m {
            BlendMode::Normal => 0u16,
            BlendMode::Multiply => 1u16,
            BlendMode::Screen => 2u16,
            BlendMode::Overlay => 3u16,
            BlendMode::Darken => 4u16,
            BlendMode::Lighten => 5u16,
            BlendMode::ColorDodge => 6u16,
            BlendMode::ColorBurn => 7u16,
            BlendMode::HardLight => 8u16,
            BlendMode::SoftLight => 9u16,
            BlendMode::Difference => 10u16,
            BlendMode::Exclusion => 11u16,
            BlendMode::Hue => 12u16,
            BlendMode::Saturation => 13u16,
            BlendMode::Color => 14u16,
            BlendMode::Luminosity => 15u16,
            BlendMode::Addition => 16u16,
            BlendMode::Subtract => 17u16,
            BlendMode::Divide => 18u16,
        },
        v <= 18 ==> BlendMode::spec_from_u16(v).spec_to_u16() == v,
        v > 18 ==> BlendMode::spec_from_u16(v) == BlendMode::Normal,
{
}

/// Tag directions carry the format's numbers: Forward 0, Reverse 1, Ping
/// Pong 2, Ping Pong Reverse 3. Reading a number up to 3 gives the direction
/// that carries it; any other number reads as Forward.
pub proof fn lemma_loop_direction_numbers(d: LoopDirection, v: u8)
    ensures
        d.spec_to_u8() == match d {
            LoopDirection::Forward => 0u8,
            LoopDirection::Reverse => 1u8,
            LoopDirection::PingPong => 2u8,
            LoopDirection::PingPongReverse => 3u8,
        },
        v <= 3 ==> LoopDirection::spec_from_u8(v).spec_to_u8() == v,
        v > 3 ==> LoopDirection::spec_from_u8(v) == LoopDirection::Forward,
{
}


/// Color modes are stored as their bits per pixel: RGBA 32, grayscale 16,
/// indexed 8, which is eight times the bytes a pixel takes; only those
/// three depths are read, each as the mode it belongs to.
pub proof fn lemma_color_mode_depths(m: ColorMode, v: u16)
    ensures
        m.spec_to_depth() == match m {
            ColorMode::Rgba => 32u16,
            ColorMode::Grayscale => 16u16,
            ColorMode::Indexed => 8u16,
        },
        m.spec_to_depth() == 8 * m.spec_bytes_per_pixel(),
        ColorMode::spec_from_depth(v) matches Some(x) ==> x.spec_to_depth() == v,
        ColorMode::spec_from_depth(v) is None <==> (v != 8 && v != 16 && v != 32),
{
}

} // verus!

verus! {

fn duplicate_string(s: &String) -> (r: String)
    ensures
        r == *s,
{
    s.clone()
}

impl PropertyValue {
    /// A deep copy of this value.
    pub fn duplicate(&self) -> (r: PropertyValue)
        ensures
            r@ == self@,
        decreases self,
    {
        match self {
            PropertyValue::Bool(v) => PropertyValue::Bool(*v),
            PropertyValue::Int8(v) => PropertyValue::Int8(*v),
            PropertyValue::UInt8(v) => PropertyValue::UInt8(*v),
            PropertyValue::Int16(v) => PropertyValue::Int16(*v),
            PropertyValue::UInt16(v) => PropertyValue::UInt16(*v),
            PropertyValue::Int32(v) => PropertyValue::Int32(*v),
            PropertyValue::UInt32(v) => PropertyValue::UInt32(*v),
            PropertyValue::Int64(v) => PropertyValue::Int64(*v),
            PropertyValue::UInt64(v) => PropertyValue::UInt64(*v),
            PropertyValue::Fixed(v) => PropertyValue::Fixed(*v),
            PropertyValue::Float(v) => PropertyValue::Float(*v),
            PropertyValue::Double(v) => PropertyValue::Double(*v),
            PropertyValue::String(s) => PropertyValue::String(duplicate_string(s)),
            PropertyValue::Point(a, b) => PropertyValue::Point(*a, *b),
            PropertyValue::Size(a, b) => PropertyValue::Size(*a, *b),
            PropertyValue::Rect(a, b, c, d) => PropertyValue::Rect(*a, *b, *c, *d),
            PropertyValue::Vector(elems) => {
                let mut out: Vec<PropertyValue> = Vec::new();
                let mut i: usize = 0;
                while i < elems.len()
                    invariant
                        i <= elems@.len(),
                        *self == PropertyValue::Vector(*elems),
                        crate::model::vec_view(out@) == crate::model::vec_view(elems@).take(i as int),
                    decreases elems@.len() - i,
                {
                    proof {
                        vstd::std_specs::vec::axiom_vec_index_decreases(*elems, i as int);
                        assert(decreases_to!(*self => (*self)->Vector_0));
                        assert(decreases_to!(*elems => elems[i as int]));
                        assert(decreases_to!(*self => elems[i as int]));
                    }
                    let x = elems[i].duplicate();
                    let ghost before = out@;
                    out.push(x);
                    proof {
                        assert(crate::model::vec_view(out@) =~= crate::model::vec_view(before).push(x@));
                        assert(crate::model::vec_view(elems@).take(i + 1) =~= crate::model::vec_view(elems@).take(
                            i as int,
                        ).push(elems@[i as int]@));
                    }
                    i = i + 1;
                }
                assert(crate::model::vec_view(elems@).take(elems@.len() as int) =~= crate::model::vec_view(elems@));
                PropertyValue::Vector(out)
            },
            PropertyValue::Properties(entries) => {
                let mut out: Vec<(String, PropertyValue)> = Vec::new();
                let mut i: usize = 0;
                while i < entries.len()
                    invariant
                        i <= entries@.len(),
                        *self == PropertyValue::Properties(*entries),
                        crate::model::entries_view(out@) == crate::model::entries_view(entries@).take(i as int),
                    decreases entries@.len() - i,
                {
                    let e = &entries[i];
                    proof {
                        vstd::std_specs::vec::axiom_vec_index_decreases(*entries, i as int);
                        assert(decreases_to!(*self => (*self)->Properties_0));
                        assert(decreases_to!(entries@[i as int] => entries@[i as int].1));
                    }
                    let name = duplicate_string(&e.0);
                    let x = e.1.duplicate();
                    let ghost before = out@;
                    out.push((name, x));
                    proof {
                        assert(crate::model::entries_view(out@) =~= crate::model::entries_view(before).push(
                            (e.0@, x@),
                        ));
                        assert(crate::model::entries_view(entries@).take(i + 1) =~= crate::model::entries_view(
                            entries@,
                        ).take(i as int).push((entries@[i as int].0@, entries@[i as int].1@)));
                    }
                    i = i + 1;
                }
                assert(crate::model::entries_view(entries@).take(entries@.len() as int) =~= crate::model::entries_view(
                    entries@,
                ));
                PropertyValue::Properties(out)
            },
            PropertyValue::Uuid(u) => PropertyValue::Uuid(*u),
        }
    }
}

} // verus!
