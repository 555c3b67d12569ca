//! The layer chunk (type 0x2004).

use vstd::prelude::*;
use crate::bytes::{
    avail, le_u16, le_u32, lemma_at_prefix, lemma_at_suffix, lemma_le_u16, lemma_le_u32, write_word, write_dword, write_byte,
    write_zeros, read_word, read_dword, read_byte, skip, u16_at, u32_at, zeros,
};
use crate::error::AsepriteError;
use crate::model::LayerModel;
use crate::text::{enc_str, lemma_str_roundtrip, write_string, read_string, str_at, str_avail, str_fits, text_bytes};
use crate::types::{lemma_blend_mode_roundtrip, BlendMode, Layer, LayerKind};

verus! {

pub open spec fn bit16(b: bool, v: u16) -> u16 {
    if b { v } else { 0 }
}

/// The layer flag word: visible 1, editable 2, lock movement 4,
/// background 8, prefer linked cels 16, collapsed 32, reference layer 64.
pub open spec fn layer_flags(l: LayerModel) -> u16 {
    (bit16(l.visible, 1) + bit16(l.editable, 2) + bit16(l.lock_movement, 4) + bit16(l.background, 8)
        + bit16(l.prefer_linked_cels, 16) + bit16(l.collapsed, 32) + bit16(l.reference_layer, 64)) as u16
}

pub open spec fn layer_type_code(k: LayerKind) -> u16 {
    match k {
        LayerKind::Normal => 0,
        LayerKind::Group => 1,
        LayerKind::Tilemap { .. } => 2,
    }
}

pub open spec fn layer_tail(k: LayerKind) -> Seq<u8> {
    match k {
        LayerKind::Tilemap { tileset_index } => le_u32(tileset_index),
        _ => Seq::empty(),
    }
}

/// The fixed-size head of a layer chunk body.
pub open spec fn layer_head(l: LayerModel, child_level: u16) -> Seq<u8> {
    le_u16(layer_flags(l)) + le_u16(layer_type_code(l.kind)) + le_u16(child_level) + le_u16(0)
        + le_u16(0) + le_u16(l.blend_mode.spec_to_u16()) + seq![l.opacity] + zeros(3)
}

/// The body of a layer chunk for layer `l` at nesting depth `child_level`.
pub open spec fn enc_layer(l: LayerModel, child_level: u16) -> Seq<u8> {
    layer_head(l, child_level) + enc_str(l.name) + layer_tail(l.kind)
}

/// The layer that a layer chunk body describes (no parent, no user data),
/// with the nesting depth it states; `None` where the body is too short.
pub open spec fn dec_layer(b: Seq<u8>) -> Option<(LayerModel, u16)> {
    if !str_avail(b, 16) {
        None
    } else {
        let n = u16_at(b, 16) as int;
        let lt = u16_at(b, 2);
        if lt == 2 && !avail(b, 18 + n, 4) {
            None
        } else {
            let fl = u16_at(b, 0);
            Some(
                (
                    LayerModel {
                        name: str_at(b, 16),
                        kind: if lt == 1 {
                            LayerKind::Group
                        } else if lt == 2 {
                            LayerKind::Tilemap { tileset_index: u32_at(b, 18 + n) }
                        } else {
                            LayerKind::Normal
                        },
                        parent: None,
                        opacity: b[12],
                        blend_mode: BlendMode::spec_from_u16(u16_at(b, 10)),
                        visible: fl & 1 != 0,
                        editable: fl & 2 != 0,
                        lock_movement: fl & 4 != 0,
                        background: fl & 8 != 0,
                        prefer_linked_cels: fl & 16 != 0,
                        collapsed: fl & 32 != 0,
                        reference_layer: fl & 64 != 0,
                        user_data: None,
                    },
                    u16_at(b, 4),
                ),
            )
        }
    }
}

fn flag16(b: bool, v: u16) -> (r: u16)
    ensures
        r == bit16(b, v),
{
    if b { v } else { 0 }
}

#[verifier::spinoff_prover]
#[verifier::rlimit(40)]
pub fn encode_layer_chunk(layer: &Layer, child_level: u16) -> (buf: Vec<u8>)
    ensures
        buf@ == enc_layer(layer@, child_level),
{
    let mut buf: Vec<u8> = Vec::new();
    let flags: u16 = flag16(layer.visible, 1) + flag16(layer.editable, 2) + flag16(layer.lock_movement, 4)
        + flag16(layer.background, 8) + flag16(layer.prefer_linked_cels, 16) + flag16(layer.collapsed, 32)
        + flag16(layer.reference_layer, 64);
    write_word(&mut buf, flags);
    let layer_type: u16 = match layer.kind {
        LayerKind::Normal => 0,
        LayerKind::Group => 1,
        LayerKind::Tilemap { .. } => 2,
    };
    write_word(&mut buf, layer_type);
    write_word(&mut buf, child_level);
    write_word(&mut buf, 0);
    write_word(&mut buf, 0);
    write_word(&mut buf, layer.blend_mode.to_u16());
    write_byte(&mut buf, layer.opacity);
    write_zeros(&mut buf, 3);
    write_string(&mut buf, layer.name.as_str());
    assert(buf@ =~= layer_head(layer@, child_level) + enc_str(layer@.name));
    let ghost before_tail = buf@;
    if let LayerKind::Tilemap { tileset_index } = layer.kind {
        write_dword(&mut buf, tileset_index);
    }
    assert(buf@ =~= before_tail + layer_tail(layer.kind));
    assert(buf@ =~= enc_layer(layer@, child_level));
    buf
}

pub fn read_layer_chunk(b: &[u8]) -> (r: Result<(Layer, u16), AsepriteError>)
    ensures
        match r {
            Ok((l, cl)) => dec_layer(b@) == Some((l@, cl)),
            Err(e) => dec_layer(b@) is None && e is Io,
        },
{
    let mut pos: usize = 0;
    let flags_raw = read_word(b, &mut pos)?;
    let layer_type = read_word(b, &mut pos)?;
    let child_level = read_word(b, &mut pos)?;
    let _default_width = read_word(b, &mut pos)?;
    let _default_height = read_word(b, &mut pos)?;
    let blend_mode = BlendMode::from_u16(read_word(b, &mut pos)?);
    let opacity = read_byte(b, &mut pos)?;
    skip(b, &mut pos, 3)?;
    let name = read_string(b, &mut pos)?;
    let kind = if layer_type == 2 {
        let idx = read_dword(b, &mut pos)?;
        LayerKind::Tilemap { tileset_index: idx }
    } else if layer_type == 1 {
        LayerKind::Group
    } else {
        LayerKind::Normal
    };
    let layer = Layer {
        name,
        kind,
        parent: None,
        opacity,
        blend_mode,
        visible: flags_raw & 1 != 0,
        editable: flags_raw & 2 != 0,
        lock_movement: flags_raw & 4 != 0,
        background: flags_raw & 8 != 0,
        prefer_linked_cels: flags_raw & 16 != 0,
        collapsed: flags_raw & 32 != 0,
        reference_layer: flags_raw & 64 != 0,
        user_data: None,
    };
    Ok((layer, child_level))
}

proof fn lemma_layer_head(l: LayerModel, child_level: u16)
    ensures
        layer_head(l, child_level).len() == 16,
        u16_at(layer_head(l, child_level), 0) == layer_flags(l),
        u16_at(layer_head(l, child_level), 2) == layer_type_code(l.kind),
        u16_at(layer_head(l, child_level), 4) == child_level,
        u16_at(layer_head(l, child_level), 10) == l.blend_mode.spec_to_u16(),
        layer_head(l, child_level)[12] == l.opacity,
{
    let h = layer_head(l, child_level);
    lemma_le_u16(layer_flags(l));
    lemma_le_u16(layer_type_code(l.kind));
    lemma_le_u16(child_level);
    lemma_le_u16(l.blend_mode.spec_to_u16());
}

/// A layer chunk read back gives the layer written (its name fitting the
/// 16-bit length), less its parent and user data, and the depth written.
pub proof fn lemma_layer_roundtrip(l: LayerModel, child_level: u16)
    requires
        str_fits(l.name),
    ensures
        dec_layer(enc_layer(l, child_level)) == Some(
            (LayerModel { parent: None, user_data: None, ..l }, child_level),
        ),
{
    let h = layer_head(l, child_level);
    let st = enc_str(l.name);
    let t = layer_tail(l.kind);
    let b = enc_layer(l, child_level);
    let n = text_bytes(l.name).len() as int;
    lemma_layer_head(l, child_level);
    assert(b == h + (st + t)) by {
        assert(b =~= h + (st + t));
    }
    lemma_at_prefix(h, st + t, 0, 2);
    lemma_at_prefix(h, st + t, 2, 2);
    lemma_at_prefix(h, st + t, 4, 2);
    lemma_at_prefix(h, st + t, 10, 2);
    lemma_at_prefix(h, st + t, 12, 1);
    lemma_at_suffix(h, st + t, 0, st.len() as int);
    lemma_at_prefix(st, t, 0, st.len() as int);
    assert(st.subrange(0, st.len() as int) =~= st);
    lemma_str_roundtrip(l.name, b, 16);
    if let LayerKind::Tilemap { tileset_index } = l.kind {
        lemma_le_u32(tileset_index);
        lemma_at_suffix(h + st, t, 0, 4);
        assert(b == (h + st) + t) by {
            assert(b =~= (h + st) + t);
        }
    }
    lemma_blend_mode_roundtrip(l.blend_mode);
    lemma_flags_decode(
        l.visible,
        l.editable,
        l.lock_movement,
        l.background,
        l.prefer_linked_cels,
        l.collapsed,
        l.reference_layer,
    );
}

proof fn lemma_flags_decode(v: bool, e: bool, lm: bool, bg: bool, pl: bool, co: bool, rl: bool)
    ensures
        ({
            let fl = (bit16(v, 1) + bit16(e, 2) + bit16(lm, 4) + bit16(bg, 8) + bit16(pl, 16) + bit16(co, 32)
                + bit16(rl, 64)) as u16;
            &&& (fl & 1 != 0) == v
            &&& (fl & 2 != 0) == e
            &&& (fl & 4 != 0) == lm
            &&& (fl & 8 != 0) == bg
            &&& (fl & 16 != 0) == pl
            &&& (fl & 32 != 0) == co
            &&& (fl & 64 != 0) == rl
        }),
{
    let a: u16 = if v { 1 } else { 0 };
    let b: u16 = if e { 2 } else { 0 };
    let c: u16 = if lm { 4 } else { 0 };
    let d: u16 = if bg { 8 } else { 0 };
    let f: u16 = if pl { 16 } else { 0 };
    let g: u16 = if co { 32 } else { 0 };
    let h: u16 = if rl { 64 } else { 0 };
    assert((a == 0 || a == 1) && (b == 0 || b == 2) && (c == 0 || c == 4) && (d == 0 || d == 8) && (f == 0
        || f == 16) && (g == 0 || g == 32) && (h == 0 || h == 64) ==> {
        let fl = (a + b + c + d + f + g + h) as u16;
        &&& (fl & 1 != 0) == (a == 1)
        &&& (fl & 2 != 0) == (b == 2)
        &&& (fl & 4 != 0) == (c == 4)
        &&& (fl & 8 != 0) == (d == 8)
        &&& (fl & 16 != 0) == (f == 16)
        &&& (fl & 32 != 0) == (g == 32)
        &&& (fl & 64 != 0) == (h == 64)
    }) by (bit_vector);
}


/// Where a layer chunk keeps each field: the flag word first, with visible
/// as bit value 1, editable 2, lock movement 4, background 8, prefer
/// linked cels 16, collapsed 32 and reference layer 64; the layer type
/// (normal 0, group 1, tilemap 2) at byte 2; the nesting depth at byte 4;
/// the blend mode's number at byte 10; the opacity at byte 12. Reading
/// takes each field from the same place.
pub proof fn lemma_layer_chunk_fields(l: LayerModel, cl: u16, b: Seq<u8>)
    ensures
        ({
            let h = enc_layer(l, cl);
            let f = u16_at(h, 0);
            &&& h.len() >= 18
            &&& (f & 1 != 0) == l.visible
            &&& (f & 2 != 0) == l.editable
            &&& (f & 4 != 0) == l.lock_movement
            &&& (f & 8 != 0) == l.background
            &&& (f & 16 != 0) == l.prefer_linked_cels
            &&& (f & 32 != 0) == l.collapsed
            &&& (f & 64 != 0) == l.reference_layer
            &&& u16_at(h, 2) == match l.kind {
                LayerKind::Normal => 0u16,
                LayerKind::Group => 1u16,
                LayerKind::Tilemap { .. } => 2u16,
            }
            &&& u16_at(h, 4) == cl
            &&& u16_at(h, 10) == l.blend_mode.spec_to_u16()
            &&& h[12] == l.opacity
        }),
        dec_layer(b) matches Some((x, _)) ==> {
            let f = u16_at(b, 0);
            &&& x.visible == (f & 1 != 0)
            &&& x.editable == (f & 2 != 0)
            &&& x.lock_movement == (f & 4 != 0)
            &&& x.background == (f & 8 != 0)
            &&& x.prefer_linked_cels == (f & 16 != 0)
            &&& x.collapsed == (f & 32 != 0)
            &&& x.reference_layer == (f & 64 != 0)
            &&& x.blend_mode == BlendMode::spec_from_u16(u16_at(b, 10))
            &&& x.opacity == b[12]
            &&& (x.kind == LayerKind::Group) == (u16_at(b, 2) == 1)
            &&& (x.kind is Tilemap) == (u16_at(b, 2) == 2)
        },
        dec_layer(b) matches Some((_, cl2)) ==> cl2 == u16_at(b, 4),
{
    let h = enc_layer(l, cl);
    let fl = le_u16(layer_flags(l));
    let bl = le_u16(l.blend_mode.spec_to_u16());
    let tl = le_u16(layer_type_code(l.kind));
    let cw = le_u16(cl);
    lemma_le_u16(layer_flags(l));
    lemma_le_u16(l.blend_mode.spec_to_u16());
    lemma_le_u16(layer_type_code(l.kind));
    lemma_le_u16(cl);
    assert(h[0] == fl[0] && h[1] == fl[1]);
    assert(h[2] == tl[0] && h[3] == tl[1]);
    assert(h[4] == cw[0] && h[5] == cw[1]);
    assert(u16_at(h, 2) == u16_at(tl, 0));
    assert(u16_at(h, 4) == u16_at(cw, 0));
    assert(h[10] == bl[0] && h[11] == bl[1]);
    assert(u16_at(h, 0) == u16_at(fl, 0));
    assert(u16_at(h, 10) == u16_at(bl, 0));
    lemma_flags_decode(
        l.visible,
        l.editable,
        l.lock_movement,
        l.background,
        l.prefer_linked_cels,
        l.collapsed,
        l.reference_layer,
    );
}

} // verus!
