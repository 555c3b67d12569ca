//! Reading and writing of Aseprite `.ase`/`.aseprite` sprite files: all
//! color modes, normal, group and tilemap layers, linked cels, tags,
//! slices, user data with typed properties, tilesets, and the chunks kept
//! for faithful rewriting.

pub mod alpha;
pub mod bytes;
pub mod cel_chunk;
pub mod cels;
pub mod codec;
pub mod error;
pub mod file;
pub mod layer_chunk;
pub mod legacy_chunks;
pub mod list_chunks;
pub mod misc_chunks;
pub mod model;
pub mod props;
pub mod text;
pub mod tileset_chunk;
pub mod types;
pub mod user_data_chunk;
pub mod zlib;

pub use alpha::{premultiplied_to_straight, straight_to_premultiplied};
pub use error::AsepriteError;
pub use file::AsepriteFile;
pub use types::{
    BlendMode, Cel, CelExtra, CelKind, CelOptions, Color, ColorMode, ColorProfile, ExternalFile,
    ExternalFileType, Frame, GridInfo, GroupRef, Layer, LayerKind, LayerOptions, LayerRef,
    LegacyMask, LoopDirection, NinePatch, Pixels, PropertiesMap, PropertyValue, Slice, SliceKey, Tag,
    Tileset, TilesetData, TilesetFlags, UserData,
};
