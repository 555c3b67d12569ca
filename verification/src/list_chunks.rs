//! The tags (0x2018), palette (0x2019) and slice (0x2022) chunks.

use vstd::prelude::*;
use crate::bytes::{
    avail, i32_at, le_i32, le_u16, le_u32, lemma_at_prefix, lemma_at_suffix, lemma_le_i32,
    lemma_le_u16, lemma_le_u32, lemma_read_i32_in, lemma_read_u16_in, lemma_read_u32_in, write_long, write_word, write_dword, write_byte, write_zeros, read_long,
    read_word, read_dword, read_byte, skip, u16_at, u32_at, zeros,
};
use crate::codec::{
    dec_list, elem_codec_ok, enc_list, lemma_dec_list_fails_after, lemma_enc_list_push,
    lemma_list_roundtrip,
};
use crate::error::AsepriteError;
use crate::model::{opt_string_view, ColorModel, SliceModel, TagModel};
use crate::text::{enc_str, lemma_read_str_in, lemma_str_roundtrip, write_string, read_string, str_at, str_avail, str_fits, text_bytes};
use crate::types::{lemma_loop_direction_roundtrip, Color, LoopDirection, NinePatch, Slice, SliceKey, Tag};

verus! {

// --- Tags ---

pub open spec fn enc_tag(t: TagModel) -> Seq<u8> {
    le_u16(t.from_frame as u16) + le_u16(t.to_frame as u16) + seq![t.direction.spec_to_u8()] + le_u16(
        t.repeat,
    ) + zeros(10) + enc_str(t.name)
}

pub open spec fn dec_tag(b: Seq<u8>, pos: int) -> Option<(TagModel, int)> {
    if !(avail(b, pos, 17) && str_avail(b, pos + 17)) {
        None
    } else {
        Some(
            (
                TagModel {
                    name: str_at(b, pos + 17),
                    from_frame: u16_at(b, pos) as usize,
                    to_frame: u16_at(b, pos + 2) as usize,
                    direction: LoopDirection::spec_from_u8(b[pos + 4]),
                    repeat: u16_at(b, pos + 5),
                    user_data: None,
                },
                pos + 19 + u16_at(b, pos + 17),
            ),
        )
    }
}

pub open spec fn tag_enc_fn() -> spec_fn(TagModel) -> Seq<u8> {
    |t: TagModel| enc_tag(t)
}

pub open spec fn tag_dec_fn() -> spec_fn(Seq<u8>, int) -> Option<(TagModel, int)> {
    |b: Seq<u8>, pos: int| dec_tag(b, pos)
}

pub open spec fn tag_views(s: Seq<Tag>) -> Seq<TagModel> {
    s.map_values(|t: Tag| t@)
}

pub open spec fn enc_tags(s: Seq<TagModel>) -> Seq<u8> {
    le_u16(s.len() as u16) + zeros(8) + enc_list(s, tag_enc_fn())
}

pub open spec fn dec_tags(b: Seq<u8>) -> Option<Seq<TagModel>> {
    if !avail(b, 0, 10) {
        None
    } else {
        match dec_list(b, 10, u16_at(b, 0) as nat, tag_dec_fn()) {
            Some((xs, _)) => Some(xs),
            None => None,
        }
    }
}

pub fn encode_tags_chunk(tags: &Vec<Tag>) -> (buf: Vec<u8>)
    ensures
        buf@ == enc_tags(tag_views(tags@)),
{
    let mut buf: Vec<u8> = Vec::new();
    write_word(&mut buf, tags.len() as u16);
    write_zeros(&mut buf, 8);
    let ghost head = buf@;
    let mut i: usize = 0;
    while i < tags.len()
        invariant
            i <= tags@.len(),
            buf@ == head + enc_list(tag_views(tags@).take(i as int), tag_enc_fn()),
        decreases tags@.len() - i,
    {
        let tag = &tags[i];
        write_word(&mut buf, tag.from_frame as u16);
        write_word(&mut buf, tag.to_frame as u16);
        write_byte(&mut buf, tag.direction.to_u8());
        write_word(&mut buf, tag.repeat);
        write_zeros(&mut buf, 6);
        write_zeros(&mut buf, 3);
        write_byte(&mut buf, 0);
        write_string(&mut buf, tag.name.as_str());
        proof {
            let vs = tag_views(tags@);
            assert(vs.take(i + 1) =~= vs.take(i as int).push(vs[i as int]));
            lemma_enc_list_push(vs.take(i as int), vs[i as int], tag_enc_fn());
            assert(zeros(6) + zeros(3) + seq![0u8] =~= zeros(10));
        }
        i = i + 1;
        assert(buf@ =~= head + enc_list(tag_views(tags@).take(i as int), tag_enc_fn()));
    }
    assert(tag_views(tags@).take(tags@.len() as int) =~= tag_views(tags@));
    buf
}

fn read_tag(b: &[u8], pos: &mut usize) -> (r: Result<Tag, AsepriteError>)
    ensures
        match r {
            Ok(t) => dec_tag(b@, *old(pos) as int) == Some((t@, *final(pos) as int)),
            Err(err) => dec_tag(b@, *old(pos) as int) is None && err is Io,
        },
{
    let from_frame = read_word(b, pos)? as usize;
    let to_frame = read_word(b, pos)? as usize;
    let direction = LoopDirection::from_u8(read_byte(b, pos)?);
    let repeat = read_word(b, pos)?;
    skip(b, pos, 10)?;
    let name = read_string(b, pos)?;
    Ok(Tag { name, from_frame, to_frame, direction, repeat, user_data: None })
}

pub fn read_tags_chunk(b: &[u8]) -> (r: Result<Vec<Tag>, AsepriteError>)
    ensures
        match r {
            Ok(v) => dec_tags(b@) == Some(tag_views(v@)),
            Err(e) => dec_tags(b@) is None && e is Io,
        },
{
    let mut pos: usize = 0;
    let num_tags = read_word(b, &mut pos)?;
    skip(b, &mut pos, 8)?;
    let mut out: Vec<Tag> = Vec::new();
    let mut i: u16 = 0;
    while i < num_tags
        invariant
            i <= num_tags,
            avail(b@, 0, 10),
            num_tags == u16_at(b@, 0),
            dec_list(b@, 10, i as nat, tag_dec_fn()) == Some((tag_views(out@), pos as int)),
        decreases num_tags - i,
    {
        let ghost before = out@;
        match read_tag(b, &mut pos) {
            Ok(t) => {
                out.push(t);
                assert(tag_views(out@) =~= tag_views(before).push(t@));
            },
            Err(err) => {
                proof {
                    lemma_dec_list_fails_after(b@, 10, i as nat, num_tags as nat, tag_dec_fn());
                }
                return Err(err);
            },
        }
        i = i + 1;
    }
    Ok(out)
}

proof fn lemma_tag_elem(t: TagModel)
    requires
        str_fits(t.name),
        t.from_frame <= u16::MAX,
        t.to_frame <= u16::MAX,
        t.user_data is None,
    ensures
        elem_codec_ok(tag_enc_fn(), tag_dec_fn(), t),
{
    assert forall|p: Seq<u8>, q: Seq<u8>|
        #[trigger] tag_dec_fn()(p + tag_enc_fn()(t) + q, p.len() as int) == Some(
            (t, (p.len() + tag_enc_fn()(t).len()) as int),
        ) by {
        let a = le_u16(t.from_frame as u16);
        let c = le_u16(t.to_frame as u16);
        let d = seq![t.direction.spec_to_u8()];
        let r = le_u16(t.repeat);
        let h = a + c + d + r + zeros(10);
        let st = enc_str(t.name);
        let b = p + enc_tag(t) + q;
        lemma_le_u16(t.from_frame as u16);
        lemma_le_u16(t.to_frame as u16);
        lemma_le_u16(t.repeat);
        assert(h.len() == 17);
        assert(b == p + (h + (st + q))) by {
            assert(b =~= p + (h + (st + q)));
        }
        lemma_at_suffix(p, h + (st + q), 0, 17);
        lemma_at_prefix(h, st + q, 0, 17);
        assert(h[0] == a[0] && h[1] == a[1] && h[2] == c[0] && h[3] == c[1] && h[4] == d[0] && h[5]
            == r[0] && h[6] == r[1]);
        assert(b == (p + h) + (st + q)) by {
            assert(b =~= (p + h) + (st + q));
        }
        lemma_at_suffix(p + h, st + q, 0, st.len() as int);
        lemma_at_prefix(st, q, 0, st.len() as int);
        assert(st.subrange(0, st.len() as int) =~= st);
        lemma_str_roundtrip(t.name, b, p.len() + 17int);
        lemma_loop_direction_roundtrip(t.direction);
    }
}

/// A tags chunk read back gives the tags written (at most 65535 of them,
/// frame indices below 65536, names fitting the 16-bit length), without
/// their user data, which other chunks carry.
pub proof fn lemma_tags_roundtrip(s: Seq<TagModel>)
    requires
        s.len() <= u16::MAX,
        forall|i: int|
            0 <= i < s.len() ==> {
                &&& str_fits(#[trigger] s[i].name)
                &&& s[i].from_frame <= u16::MAX
                &&& s[i].to_frame <= u16::MAX
                &&& s[i].user_data is None
            },
    ensures
        dec_tags(enc_tags(s)) == Some(s),
{
    let h = le_u16(s.len() as u16) + zeros(8);
    let body = enc_list(s, tag_enc_fn());
    lemma_le_u16(s.len() as u16);
    assert forall|i: int| 0 <= i < s.len() implies elem_codec_ok(tag_enc_fn(), tag_dec_fn(), #[trigger] s[i]) by {
        lemma_tag_elem(s[i]);
    }
    lemma_list_roundtrip(s, tag_enc_fn(), tag_dec_fn(), h, Seq::empty());
    assert(h + body + Seq::empty() =~= enc_tags(s));
    lemma_at_prefix(h, body, 0, 2);
    lemma_at_prefix(le_u16(s.len() as u16), zeros(8), 0, 2);
}

// --- Palette ---

pub open spec fn bit_name(c: ColorModel) -> u16 {
    if c.name is Some { 1 } else { 0 }
}

pub open spec fn enc_color(c: ColorModel) -> Seq<u8> {
    le_u16(bit_name(c)) + seq![c.r, c.g, c.b, c.a] + match c.name {
        Some(n) => enc_str(n),
        None => Seq::empty(),
    }
}

pub open spec fn dec_color(b: Seq<u8>, pos: int) -> Option<(ColorModel, int)> {
    if !avail(b, pos, 6) {
        None
    } else if u16_at(b, pos) & 1 != 0 {
        if str_avail(b, pos + 6) {
            Some(
                (
                    ColorModel {
                        r: b[pos + 2],
                        g: b[pos + 3],
                        b: b[pos + 4],
                        a: b[pos + 5],
                        name: Some(str_at(b, pos + 6)),
                    },
                    pos + 8 + u16_at(b, pos + 6),
                ),
            )
        } else {
            None
        }
    } else {
        Some((ColorModel { r: b[pos + 2], g: b[pos + 3], b: b[pos + 4], a: b[pos + 5], name: None }, pos + 6))
    }
}

pub open spec fn color_enc_fn() -> spec_fn(ColorModel) -> Seq<u8> {
    |c: ColorModel| enc_color(c)
}

pub open spec fn color_dec_fn() -> spec_fn(Seq<u8>, int) -> Option<(ColorModel, int)> {
    |b: Seq<u8>, pos: int| dec_color(b, pos)
}

pub open spec fn color_views(s: Seq<Color>) -> Seq<ColorModel> {
    s.map_values(|c: Color| c@)
}

pub open spec fn enc_palette(s: Seq<ColorModel>) -> Seq<u8> {
    le_u32(s.len() as u32) + le_u32(0) + le_u32((s.len() - 1) as u32) + zeros(8) + enc_list(
        s,
        color_enc_fn(),
    )
}

/// What a palette chunk states: the new palette size, the first and last
/// index it sets, and the colors for those indices.
pub struct PaletteRecord {
    pub new_size: u32,
    pub first: u32,
    pub last: u32,
    pub colors: Seq<ColorModel>,
}

pub open spec fn palette_count(first: u32, last: u32) -> nat {
    if first <= last { (last - first + 1) as nat } else { 0 }
}

pub open spec fn dec_palette(b: Seq<u8>) -> Option<PaletteRecord> {
    if !avail(b, 0, 20) {
        None
    } else {
        let first = u32_at(b, 4);
        let last = u32_at(b, 8);
        match dec_list(b, 20, palette_count(first, last), color_dec_fn()) {
            Some((xs, _)) => Some(PaletteRecord { new_size: u32_at(b, 0), first, last, colors: xs }),
            None => None,
        }
    }
}

pub fn encode_palette_chunk(palette: &Vec<Color>) -> (buf: Vec<u8>)
    requires
        palette@.len() > 0,
    ensures
        buf@ == enc_palette(color_views(palette@)),
{
    let mut buf: Vec<u8> = Vec::new();
    let count = palette.len() as u32;
    write_dword(&mut buf, count);
    write_dword(&mut buf, 0);
    write_dword(&mut buf, (palette.len() - 1) as u32);
    write_zeros(&mut buf, 8);
    let ghost head = buf@;
    let mut i: usize = 0;
    while i < palette.len()
        invariant
            i <= palette@.len(),
            buf@ == head + enc_list(color_views(palette@).take(i as int), color_enc_fn()),
        decreases palette@.len() - i,
    {
        let color = &palette[i];
        let ghost before = buf@;
        let has_name: u16 = if color.name.is_some() { 1 } else { 0 };
        write_word(&mut buf, has_name);
        write_byte(&mut buf, color.r);
        write_byte(&mut buf, color.g);
        write_byte(&mut buf, color.b);
        write_byte(&mut buf, color.a);
        if let Some(name) = &color.name {
            write_string(&mut buf, name.as_str());
        }
        proof {
            let vs = color_views(palette@);
            assert(buf@ =~= before + enc_color(vs[i as int]));
            assert(vs.take(i + 1) =~= vs.take(i as int).push(vs[i as int]));
            lemma_enc_list_push(vs.take(i as int), vs[i as int], color_enc_fn());
        }
        i = i + 1;
        assert(buf@ =~= head + enc_list(color_views(palette@).take(i as int), color_enc_fn()));
    }
    assert(color_views(palette@).take(palette@.len() as int) =~= color_views(palette@));
    buf
}

fn read_color(b: &[u8], pos: &mut usize) -> (r: Result<Color, AsepriteError>)
    ensures
        match r {
            Ok(c) => dec_color(b@, *old(pos) as int) == Some((c@, *final(pos) as int)),
            Err(err) => dec_color(b@, *old(pos) as int) is None && err is Io,
        },
{
    let entry_flags = read_word(b, pos)?;
    let red = read_byte(b, pos)?;
    let green = read_byte(b, pos)?;
    let blue = read_byte(b, pos)?;
    let alpha = read_byte(b, pos)?;
    let name = if entry_flags & 1 != 0 {
        Some(read_string(b, pos)?)
    } else {
        None
    };
    Ok(Color { r: red, g: green, b: blue, a: alpha, name })
}

/// The header of a palette chunk and its colors.
pub fn read_palette_chunk(b: &[u8]) -> (r: Result<(u32, u32, u32, Vec<Color>), AsepriteError>)
    ensures
        match r {
            Ok((n, f, l, v)) => dec_palette(b@) == Some(
                PaletteRecord { new_size: n, first: f, last: l, colors: color_views(v@) },
            ),
            Err(e) => dec_palette(b@) is None && e is Io,
        },
{
    let mut pos: usize = 0;
    let new_size = read_dword(b, &mut pos)?;
    let first = read_dword(b, &mut pos)?;
    let last = read_dword(b, &mut pos)?;
    skip(b, &mut pos, 8)?;
    let count: u64 = if first <= last { (last - first) as u64 + 1 } else { 0 };
    let mut out: Vec<Color> = Vec::new();
    let mut i: u64 = 0;
    while i < count
        invariant
            i <= count,
            count == palette_count(first, last),
            avail(b@, 0, 20),
            first == u32_at(b@, 4),
            last == u32_at(b@, 8),
            new_size == u32_at(b@, 0),
            dec_list(b@, 20, i as nat, color_dec_fn()) == Some((color_views(out@), pos as int)),
        decreases count - i,
    {
        let ghost before = out@;
        match read_color(b, &mut pos) {
            Ok(c) => {
                out.push(c);
                assert(color_views(out@) =~= color_views(before).push(c@));
            },
            Err(err) => {
                proof {
                    lemma_dec_list_fails_after(b@, 20, i as nat, count as nat, color_dec_fn());
                }
                return Err(err);
            },
        }
        i = i + 1;
    }
    Ok((new_size, first, last, out))
}

proof fn lemma_color_elem(c: ColorModel)
    requires
        c.name matches Some(n) ==> str_fits(n),
    ensures
        elem_codec_ok(color_enc_fn(), color_dec_fn(), c),
{
    assert forall|p: Seq<u8>, q: Seq<u8>|
        #[trigger] color_dec_fn()(p + color_enc_fn()(c) + q, p.len() as int) == Some(
            (c, (p.len() + color_enc_fn()(c).len()) as int),
        ) by {
        let h = le_u16(bit_name(c)) + seq![c.r, c.g, c.b, c.a];
        let st: Seq<u8> = match c.name {
            Some(n) => enc_str(n),
            None => Seq::empty(),
        };
        let b = p + enc_color(c) + q;
        lemma_le_u16(bit_name(c));
        assert(h.len() == 6);
        assert(b == p + (h + (st + q))) by {
            assert(b =~= p + (h + (st + q)));
        }
        lemma_at_suffix(p, h + (st + q), 0, 6);
        lemma_at_prefix(h, st + q, 0, 6);
        lemma_at_prefix(le_u16(bit_name(c)), seq![c.r, c.g, c.b, c.a], 0, 2);
        let v = bit_name(c);
        assert((v == 0 || v == 1) ==> ((v & 1 != 0) == (v == 1))) by (bit_vector);
        if let Some(n) = c.name {
            assert(b == (p + h) + (st + q)) by {
                assert(b =~= (p + h) + (st + q));
            }
            lemma_at_suffix(p + h, st + q, 0, st.len() as int);
            lemma_at_prefix(st, q, 0, st.len() as int);
            assert(st.subrange(0, st.len() as int) =~= st);
            lemma_str_roundtrip(n, b, p.len() + 6int);
        }
    }
}

/// A palette chunk read back states the palette written: its size, indices
/// `0..=len-1`, and every color (a non-empty palette of at most `u32::MAX`
/// colors whose names fit the 16-bit length).
pub proof fn lemma_palette_roundtrip(s: Seq<ColorModel>)
    requires
        0 < s.len() <= u32::MAX,
        forall|i: int| 0 <= i < s.len() ==> (#[trigger] s[i].name matches Some(n) ==> str_fits(n)),
    ensures
        dec_palette(enc_palette(s)) == Some(
            PaletteRecord { new_size: s.len() as u32, first: 0, last: (s.len() - 1) as u32, colors: s },
        ),
{
    let a = le_u32(s.len() as u32);
    let f = le_u32(0);
    let l = le_u32((s.len() - 1) as u32);
    let h = a + f + l + zeros(8);
    let body = enc_list(s, color_enc_fn());
    lemma_le_u32(s.len() as u32);
    lemma_le_u32(0);
    lemma_le_u32((s.len() - 1) as u32);
    assert forall|i: int| 0 <= i < s.len() implies elem_codec_ok(color_enc_fn(), color_dec_fn(), #[trigger] s[i]) by {
        lemma_color_elem(s[i]);
    }
    lemma_list_roundtrip(s, color_enc_fn(), color_dec_fn(), h, Seq::empty());
    assert(h + body + Seq::empty() =~= enc_palette(s));
    lemma_at_prefix(h, body, 0, 4);
    lemma_at_prefix(h, body, 4, 4);
    lemma_at_prefix(h, body, 8, 4);
    lemma_at_prefix(a + f + l, zeros(8), 0, 4);
    lemma_at_prefix(a + f + l, zeros(8), 4, 4);
    lemma_at_prefix(a + f + l, zeros(8), 8, 4);
    lemma_at_prefix(a + f, l, 0, 4);
    lemma_at_prefix(a + f, l, 4, 4);
    lemma_at_suffix(a + f, l, 0, 4);
    lemma_at_prefix(a, f, 0, 4);
    lemma_at_suffix(a, f, 0, 4);
}


// --- Slices ---

pub open spec fn bit32(b: bool, v: u32) -> u32 {
    if b { v } else { 0 }
}

pub open spec fn slice_flags(np: bool, pv: bool) -> u32 {
    (bit32(np, 1) + bit32(pv, 2)) as u32
}

pub open spec fn enc_nine_patch(n: Option<NinePatch>) -> Seq<u8> {
    match n {
        Some(np) => le_i32(np.center_x) + le_i32(np.center_y) + le_u32(np.center_width) + le_u32(
            np.center_height,
        ),
        None => Seq::empty(),
    }
}

pub open spec fn enc_pivot(p: Option<(i32, i32)>) -> Seq<u8> {
    match p {
        Some((px, py)) => le_i32(px) + le_i32(py),
        None => Seq::empty(),
    }
}

pub open spec fn enc_key_head(k: SliceKey) -> Seq<u8> {
    le_u32(k.frame) + le_i32(k.x) + le_i32(k.y) + le_u32(k.width) + le_u32(k.height)
}

pub open spec fn enc_key(k: SliceKey) -> Seq<u8> {
    enc_key_head(k) + enc_nine_patch(k.nine_patch) + enc_pivot(k.pivot)
}

pub open spec fn key_size(np: bool, pv: bool) -> int {
    20 + (if np { 16int } else { 0int }) + (if pv { 8int } else { 0int })
}

pub open spec fn dec_key(np: bool, pv: bool, b: Seq<u8>, pos: int) -> Option<(SliceKey, int)> {
    if !avail(b, pos, key_size(np, pv)) {
        None
    } else {
        let o = pos + 20 + (if np { 16int } else { 0int });
        Some(
            (
                SliceKey {
                    frame: u32_at(b, pos),
                    x: i32_at(b, pos + 4),
                    y: i32_at(b, pos + 8),
                    width: u32_at(b, pos + 12),
                    height: u32_at(b, pos + 16),
                    nine_patch: if np {
                        Some(
                            NinePatch {
                                center_x: i32_at(b, pos + 20),
                                center_y: i32_at(b, pos + 24),
                                center_width: u32_at(b, pos + 28),
                                center_height: u32_at(b, pos + 32),
                            },
                        )
                    } else {
                        None
                    },
                    pivot: if pv {
                        Some((i32_at(b, o), i32_at(b, o + 4)))
                    } else {
                        None
                    },
                },
                pos + key_size(np, pv),
            ),
        )
    }
}

pub open spec fn key_enc_fn() -> spec_fn(SliceKey) -> Seq<u8> {
    |k: SliceKey| enc_key(k)
}

pub open spec fn key_dec_fn(np: bool, pv: bool) -> spec_fn(Seq<u8>, int) -> Option<(SliceKey, int)> {
    |b: Seq<u8>, pos: int| dec_key(np, pv, b, pos)
}

pub open spec fn enc_slice(s: SliceModel) -> Seq<u8> {
    le_u32(s.keys.len() as u32) + le_u32(slice_flags(s.has_nine_patch, s.has_pivot)) + le_u32(0)
        + enc_str(s.name) + enc_list(s.keys, key_enc_fn())
}

pub open spec fn dec_slice(b: Seq<u8>) -> Option<SliceModel> {
    if !(avail(b, 0, 12) && str_avail(b, 12)) {
        None
    } else {
        let fl = u32_at(b, 4);
        let np = fl & 1 != 0;
        let pv = fl & 2 != 0;
        match dec_list(b, 14 + u16_at(b, 12), u32_at(b, 0) as nat, key_dec_fn(np, pv)) {
            Some((keys, _)) => Some(
                SliceModel { name: str_at(b, 12), keys, has_nine_patch: np, has_pivot: pv, user_data: None },
            ),
            None => None,
        }
    }
}

fn flag32(b: bool, v: u32) -> (r: u32)
    ensures
        r == bit32(b, v),
{
    if b { v } else { 0 }
}

fn push_slice_key(buf: &mut Vec<u8>, key: &SliceKey)
    ensures
        final(buf)@ == old(buf)@ + enc_key(*key),
{
    write_dword(buf, key.frame);
    write_long(buf, key.x);
    write_long(buf, key.y);
    write_dword(buf, key.width);
    write_dword(buf, key.height);
    let ghost mid = buf@;
    if let Some(np) = &key.nine_patch {
        write_long(buf, np.center_x);
        write_long(buf, np.center_y);
        write_dword(buf, np.center_width);
        write_dword(buf, np.center_height);
    }
    assert(buf@ =~= mid + enc_nine_patch(key.nine_patch));
    let ghost mid2 = buf@;
    if let Some((px, py)) = key.pivot {
        write_long(buf, px);
        write_long(buf, py);
    }
    assert(buf@ =~= mid2 + enc_pivot(key.pivot));
    assert(buf@ =~= old(buf)@ + enc_key(*key));
}

pub fn encode_slice_chunk(slice: &Slice) -> (buf: Vec<u8>)
    ensures
        buf@ == enc_slice(slice@),
{
    let mut buf: Vec<u8> = Vec::new();
    write_dword(&mut buf, slice.keys.len() as u32);
    write_dword(&mut buf, flag32(slice.has_nine_patch, 1) + flag32(slice.has_pivot, 2));
    write_dword(&mut buf, 0);
    write_string(&mut buf, slice.name.as_str());
    let ghost head = buf@;
    let mut i: usize = 0;
    while i < slice.keys.len()
        invariant
            i <= slice.keys@.len(),
            buf@ == head + enc_list(slice.keys@.take(i as int), key_enc_fn()),
        decreases slice.keys@.len() - i,
    {
        let key = &slice.keys[i];
        let ghost before = buf@;
        push_slice_key(&mut buf, key);
        proof {
            let ks = slice.keys@;
            assert(buf@ =~= before + enc_key(ks[i as int]));
            assert(ks.take(i + 1) =~= ks.take(i as int).push(ks[i as int]));
            lemma_enc_list_push(ks.take(i as int), ks[i as int], key_enc_fn());
        }
        i = i + 1;
        assert(buf@ =~= head + enc_list(slice.keys@.take(i as int), key_enc_fn()));
    }
    assert(slice.keys@.take(slice.keys@.len() as int) =~= slice.keys@);
    assert(buf@ =~= enc_slice(slice@));
    buf
}

fn read_slice_key(np: bool, pv: bool, b: &[u8], pos: &mut usize) -> (r: Result<SliceKey, AsepriteError>)
    ensures
        match r {
            Ok(k) => dec_key(np, pv, b@, *old(pos) as int) == Some((k, *final(pos) as int)),
            Err(err) => dec_key(np, pv, b@, *old(pos) as int) is None && err is Io,
        },
{
    let ghost p0 = *pos as int;
    let frame = read_dword(b, pos)?;
    let x = read_long(b, pos)?;
    let y = read_long(b, pos)?;
    let width = read_dword(b, pos)?;
    let height = read_dword(b, pos)?;
    let nine_patch = if np {
        let cx = read_long(b, pos)?;
        let cy = read_long(b, pos)?;
        let cw = read_dword(b, pos)?;
        let ch = read_dword(b, pos)?;
        Some(NinePatch { center_x: cx, center_y: cy, center_width: cw, center_height: ch })
    } else {
        None
    };
    let pivot = if pv {
        let px = read_long(b, pos)?;
        let py = read_long(b, pos)?;
        Some((px, py))
    } else {
        None
    };
    Ok(SliceKey { frame, x, y, width, height, nine_patch, pivot })
}

pub fn read_slice_chunk(b: &[u8]) -> (r: Result<Slice, AsepriteError>)
    ensures
        match r {
            Ok(s) => dec_slice(b@) == Some(s@),
            Err(e) => dec_slice(b@) is None && e is Io,
        },
{
    let mut pos: usize = 0;
    let num_keys = read_dword(b, &mut pos)?;
    let flags = read_dword(b, &mut pos)?;
    let _reserved = read_dword(b, &mut pos)?;
    let name = read_string(b, &mut pos)?;
    let has_nine_patch = flags & 1 != 0;
    let has_pivot = flags & 2 != 0;
    let ghost start = pos as int;
    let mut keys: Vec<SliceKey> = Vec::new();
    let mut i: u32 = 0;
    while i < num_keys
        invariant
            i <= num_keys,
            avail(b@, 0, 12),
            str_avail(b@, 12),
            start == 14 + u16_at(b@, 12),
            num_keys == u32_at(b@, 0),
            has_nine_patch == (u32_at(b@, 4) & 1 != 0),
            has_pivot == (u32_at(b@, 4) & 2 != 0),
            dec_list(b@, start, i as nat, key_dec_fn(has_nine_patch, has_pivot)) == Some((keys@, pos as int)),
        decreases num_keys - i,
    {
        let ghost before = keys@;
        match read_slice_key(has_nine_patch, has_pivot, b, &mut pos) {
            Ok(k) => {
                keys.push(k);
            },
            Err(err) => {
                proof {
                    lemma_dec_list_fails_after(b@, start, i as nat, num_keys as nat, key_dec_fn(has_nine_patch, has_pivot));
                }
                return Err(err);
            },
        }
        i = i + 1;
    }
    Ok(Slice { name, keys, has_nine_patch, has_pivot, user_data: None })
}


proof fn lemma_key_head_at(k: SliceKey, p: Seq<u8>, r: Seq<u8>)
    ensures
        ({
            let b = p + enc_key_head(k) + r;
            &&& b.len() == p.len() + 20 + r.len()
            &&& u32_at(b, p.len() as int) == k.frame
            &&& i32_at(b, p.len() + 4int) == k.x
            &&& i32_at(b, p.len() + 8int) == k.y
            &&& u32_at(b, p.len() + 12int) == k.width
            &&& u32_at(b, p.len() + 16int) == k.height
        }),
{
    let b = p + enc_key_head(k) + r;
    let f0 = le_u32(k.frame);
    let f1 = le_i32(k.x);
    let f2 = le_i32(k.y);
    let f3 = le_u32(k.width);
    let f4 = le_u32(k.height);
    lemma_le_u32(k.frame);
    lemma_le_i32(k.x);
    lemma_le_i32(k.y);
    lemma_le_u32(k.width);
    lemma_le_u32(k.height);
    assert(b =~= p + f0 + (f1 + f2 + f3 + f4 + r));
    lemma_read_u32_in(p, k.frame, f1 + f2 + f3 + f4 + r);
    assert(b =~= (p + f0) + f1 + (f2 + f3 + f4 + r));
    lemma_read_i32_in(p + f0, k.x, f2 + f3 + f4 + r);
    assert(b =~= (p + f0 + f1) + f2 + (f3 + f4 + r));
    lemma_read_i32_in(p + f0 + f1, k.y, f3 + f4 + r);
    assert(b =~= (p + f0 + f1 + f2) + f3 + (f4 + r));
    lemma_read_u32_in(p + f0 + f1 + f2, k.width, f4 + r);
    assert(b =~= (p + f0 + f1 + f2 + f3) + f4 + r);
    lemma_read_u32_in(p + f0 + f1 + f2 + f3, k.height, r);
}

proof fn lemma_nine_patch_at(n: NinePatch, a: Seq<u8>, r: Seq<u8>)
    ensures
        ({
            let b = a + enc_nine_patch(Some(n)) + r;
            &&& b.len() == a.len() + 16 + r.len()
            &&& i32_at(b, a.len() as int) == n.center_x
            &&& i32_at(b, a.len() + 4int) == n.center_y
            &&& u32_at(b, a.len() + 8int) == n.center_width
            &&& u32_at(b, a.len() + 12int) == n.center_height
        }),
{
    let b = a + enc_nine_patch(Some(n)) + r;
    let g0 = le_i32(n.center_x);
    let g1 = le_i32(n.center_y);
    let g2 = le_u32(n.center_width);
    let g3 = le_u32(n.center_height);
    lemma_le_i32(n.center_x);
    lemma_le_i32(n.center_y);
    lemma_le_u32(n.center_width);
    lemma_le_u32(n.center_height);
    assert(b =~= a + g0 + (g1 + g2 + g3 + r));
    lemma_read_i32_in(a, n.center_x, g1 + g2 + g3 + r);
    assert(b =~= (a + g0) + g1 + (g2 + g3 + r));
    lemma_read_i32_in(a + g0, n.center_y, g2 + g3 + r);
    assert(b =~= (a + g0 + g1) + g2 + (g3 + r));
    lemma_read_u32_in(a + g0 + g1, n.center_width, g3 + r);
    assert(b =~= (a + g0 + g1 + g2) + g3 + r);
    lemma_read_u32_in(a + g0 + g1 + g2, n.center_height, r);
}

proof fn lemma_pivot_at(px: i32, py: i32, a: Seq<u8>, r: Seq<u8>)
    ensures
        ({
            let b = a + enc_pivot(Some((px, py))) + r;
            &&& b.len() == a.len() + 8 + r.len()
            &&& i32_at(b, a.len() as int) == px
            &&& i32_at(b, a.len() + 4int) == py
        }),
{
    let b = a + enc_pivot(Some((px, py))) + r;
    lemma_le_i32(px);
    lemma_le_i32(py);
    assert(b =~= a + le_i32(px) + (le_i32(py) + r));
    lemma_read_i32_in(a, px, le_i32(py) + r);
    assert(b =~= (a + le_i32(px)) + le_i32(py) + r);
    lemma_read_i32_in(a + le_i32(px), py, r);
}

#[verifier::spinoff_prover]
#[verifier::rlimit(40)]
proof fn lemma_key_at(np: bool, pv: bool, k: SliceKey, p: Seq<u8>, q: Seq<u8>)
    requires
        (k.nine_patch is Some) == np,
        (k.pivot is Some) == pv,
    ensures
        dec_key(np, pv, p + enc_key(k) + q, p.len() as int) == Some((k, (p.len() + enc_key(k).len()) as int)),
{
    let b = p + enc_key(k) + q;
    let nn = enc_nine_patch(k.nine_patch);
    let pp = enc_pivot(k.pivot);
    lemma_key_sizes(k);
    assert(b =~= p + enc_key_head(k) + (nn + pp + q));
    lemma_key_head_at(k, p, nn + pp + q);
    let a = p + enc_key_head(k);
    if let Some(n) = k.nine_patch {
        assert(b =~= a + nn + (pp + q));
        lemma_nine_patch_at(n, a, pp + q);
    }
    if let Some((px, py)) = k.pivot {
        assert(b =~= (a + nn) + pp + q);
        lemma_pivot_at(px, py, a + nn, q);
    }
}

proof fn lemma_key_sizes(k: SliceKey)
    ensures
        enc_key_head(k).len() == 20,
        enc_nine_patch(k.nine_patch).len() == (if k.nine_patch is Some { 16int } else { 0int }),
        enc_pivot(k.pivot).len() == (if k.pivot is Some { 8int } else { 0int }),
        enc_key(k).len() == key_size(k.nine_patch is Some, k.pivot is Some),
{
    lemma_le_u32(0);
    lemma_le_i32(0);
}

proof fn lemma_key_elem(np: bool, pv: bool, k: SliceKey)
    requires
        (k.nine_patch is Some) == np,
        (k.pivot is Some) == pv,
    ensures
        elem_codec_ok(key_enc_fn(), key_dec_fn(np, pv), k),
{
    assert forall|p: Seq<u8>, q: Seq<u8>|
        #[trigger] key_dec_fn(np, pv)(p + key_enc_fn()(k) + q, p.len() as int) == Some(
            (k, (p.len() + key_enc_fn()(k).len()) as int),
        ) by {
        lemma_key_at(np, pv, k, p, q);
    }
}

proof fn lemma_slice_head(s: SliceModel)
    requires
        str_fits(s.name),
    ensures
        ({
            let b = enc_slice(s);
            &&& avail(b, 0, 12)
            &&& str_avail(b, 12)
            &&& u32_at(b, 0) == s.keys.len() as u32
            &&& u32_at(b, 4) == slice_flags(s.has_nine_patch, s.has_pivot)
            &&& u16_at(b, 12) == text_bytes(s.name).len()
            &&& str_at(b, 12) == s.name
            &&& b == le_u32(s.keys.len() as u32) + le_u32(slice_flags(s.has_nine_patch, s.has_pivot)) + le_u32(0) + enc_str(s.name) + enc_list(s.keys, key_enc_fn())
        }),
{
    let np = s.has_nine_patch;
    let pv = s.has_pivot;
    let f0 = le_u32(s.keys.len() as u32);
    let f1 = le_u32(slice_flags(np, pv));
    let f2 = le_u32(0);
    let st = enc_str(s.name);
    let body = enc_list(s.keys, key_enc_fn());
    let b = enc_slice(s);
    lemma_le_u32(s.keys.len() as u32);
    lemma_le_u32(slice_flags(np, pv));
    lemma_le_u32(0);
    assert(b =~= Seq::empty() + f0 + (f1 + f2 + st + body));
    lemma_read_u32_in(Seq::empty(), s.keys.len() as u32, f1 + f2 + st + body);
    assert(b =~= f0 + f1 + (f2 + st + body));
    lemma_read_u32_in(f0, slice_flags(np, pv), f2 + st + body);
    assert(b =~= (f0 + f1 + f2) + st + body);
    lemma_read_str_in(f0 + f1 + f2, s.name, body);
}

proof fn lemma_slice_flags(np: bool, pv: bool)
    ensures
        (slice_flags(np, pv) & 1 != 0) == np,
        (slice_flags(np, pv) & 2 != 0) == pv,
{
    let x = bit32(np, 1);
    let y = bit32(pv, 2);
    assert((x == 0 || x == 1) && (y == 0 || y == 2) ==> ((((x + y) as u32) & 1 != 0) == (x == 1) && (((x
        + y) as u32) & 2 != 0) == (y == 2))) by (bit_vector);
}

/// A slice chunk read back gives the slice written (at most `u32::MAX`
/// keys, each with nine-patch and pivot data exactly where the slice's
/// flags say, the name fitting the 16-bit length), without its user data.
pub proof fn lemma_slice_roundtrip(s: SliceModel)
    requires
        s.keys.len() <= u32::MAX,
        str_fits(s.name),
        s.user_data is None,
        forall|i: int|
            0 <= i < s.keys.len() ==> (#[trigger] s.keys[i].nine_patch is Some) == s.has_nine_patch
                && (s.keys[i].pivot is Some) == s.has_pivot,
    ensures
        dec_slice(enc_slice(s)) == Some(s),
{
    let np = s.has_nine_patch;
    let pv = s.has_pivot;
    let b = enc_slice(s);
    lemma_slice_head(s);
    lemma_slice_flags(np, pv);
    let h = le_u32(s.keys.len() as u32) + le_u32(slice_flags(np, pv)) + le_u32(0) + enc_str(s.name);
    assert(h.len() == 14 + text_bytes(s.name).len());
    assert forall|i: int| 0 <= i < s.keys.len() implies elem_codec_ok(key_enc_fn(), key_dec_fn(np, pv), #[trigger] s.keys[i]) by {
        lemma_key_elem(np, pv, s.keys[i]);
    }
    lemma_list_roundtrip(s.keys, key_enc_fn(), key_dec_fn(np, pv), h, Seq::empty());
    assert(h + enc_list(s.keys, key_enc_fn()) + Seq::empty() =~= b);
}


/// Where a tag entry keeps its direction: the byte after the two frame
/// words holds the direction's number, and reading takes the direction
/// from that byte.
pub proof fn lemma_tag_direction_byte(t: TagModel, b: Seq<u8>, pos: int)
    ensures
        enc_tag(t).len() > 4,
        enc_tag(t)[4] == t.direction.spec_to_u8(),
        dec_tag(b, pos) matches Some((x, _)) ==> x.direction == LoopDirection::spec_from_u8(b[pos + 4]),
{
}

/// Where a palette entry keeps its color: a flag word (bit value 1 where
/// the entry has a name), then the red, green, blue and alpha bytes in that
/// order; reading takes each component from the same byte.
pub proof fn lemma_palette_entry_bytes(c: ColorModel, b: Seq<u8>, pos: int)
    ensures
        ({
            let e = enc_color(c);
            &&& e.len() >= 6
            &&& (u16_at(e, 0) & 1 != 0) == (c.name is Some)
            &&& e[2] == c.r && e[3] == c.g && e[4] == c.b && e[5] == c.a
        }),
        dec_color(b, pos) matches Some((x, _)) ==> {
            &&& x.r == b[pos + 2] && x.g == b[pos + 3] && x.b == b[pos + 4] && x.a == b[pos + 5]
            &&& (x.name is Some) == (u16_at(b, pos) & 1 != 0)
        },
{
    let w = bit_name(c);
    lemma_le_u16(w);
    let e = enc_color(c);
    assert(e[0] == le_u16(w)[0] && e[1] == le_u16(w)[1]);
    assert(u16_at(e, 0) == w);
    assert(w & 1 != 0 <==> w == 1) by (bit_vector)
        requires
            w == 0 || w == 1,
    ;
}


/// A slice chunk's flag word, after its key count, has bit value 1 where
/// its keys carry nine-patch data and 2 where they carry a pivot; reading
/// takes both from that word.
pub proof fn lemma_slice_flag_bits(sl: SliceModel, b: Seq<u8>)
    ensures
        enc_slice(sl).len() >= 8,
        u32_at(enc_slice(sl), 4) == slice_flags(sl.has_nine_patch, sl.has_pivot),
        (slice_flags(sl.has_nine_patch, sl.has_pivot) & 1 != 0) == sl.has_nine_patch,
        (slice_flags(sl.has_nine_patch, sl.has_pivot) & 2 != 0) == sl.has_pivot,
        dec_slice(b) matches Some(x) ==> x.has_nine_patch == (u32_at(b, 4) & 1 != 0) && x.has_pivot == (u32_at(
            b,
            4,
        ) & 2 != 0),
{
    let n: u32 = if sl.has_nine_patch { 1 } else { 0 };
    let v: u32 = if sl.has_pivot { 2 } else { 0 };
    assert((n == 0 || n == 1) && (v == 0 || v == 2) ==> {
        let f = (n + v) as u32;
        &&& (f & 1 != 0) == (n == 1)
        &&& (f & 2 != 0) == (v == 2)
    }) by (bit_vector);
    let f = slice_flags(sl.has_nine_patch, sl.has_pivot);
    assert(f == (n + v) as u32);
    lemma_le_u32(f);
    let e = enc_slice(sl);
    let w = le_u32(f);
    assert(e[4] == w[0] && e[5] == w[1] && e[6] == w[2] && e[7] == w[3]);
    assert(u32_at(e, 4) == u32_at(w, 0));
}

} // verus!
