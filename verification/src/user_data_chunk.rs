//! The user-data chunk (0x2020).

use vstd::prelude::*;
use crate::bytes::{avail, le_u32, push_bytes, write_dword, write_byte, read_dword, read_byte, skip, u16_at, u32_at};
use crate::error::{AsepriteError, ErrorModel};
use crate::list_chunks::bit32;
use crate::model::{ColorModel, PropertiesMapModel, UserDataModel};
use crate::props::{
    dec_pmap, dec_pmaps, enc_pmap, enc_pmaps, encode_property_value, lemma_enc_pmaps_push,
    prepend_dec, property_value_type_id,
};
use crate::text::{enc_str, write_string, read_string, str_at, str_avail};
use crate::types::{Color, PropertiesMap, UserData};

verus! {

/// The user-data flag word: text 1, color 2, properties 4.
pub open spec fn ud_flags(u: UserDataModel) -> u32 {
    (bit32(u.text is Some, 1) + bit32(u.color is Some, 2) + bit32(u.properties.len() > 0, 4)) as u32
}

/// The properties block: its total size (counting its own two words), the
/// number of maps, the maps.
pub open spec fn enc_props_block(ps: Seq<PropertiesMapModel>) -> Seq<u8> {
    le_u32((8 + enc_pmaps(ps).len()) as u32) + le_u32(ps.len() as u32) + enc_pmaps(ps)
}

/// The text field: present only when there is text.
pub open spec fn enc_ud_text(t: Option<Seq<char>>) -> Seq<u8> {
    match t {
        Some(t) => enc_str(t),
        None => Seq::empty(),
    }
}

/// The color field: present only when there is a color.
pub open spec fn enc_ud_color(c: Option<ColorModel>) -> Seq<u8> {
    match c {
        Some(c) => seq![c.r, c.g, c.b, c.a],
        None => Seq::empty(),
    }
}

/// The properties field: present only when there are properties maps.
pub open spec fn enc_ud_props(ps: Seq<PropertiesMapModel>) -> Seq<u8> {
    if ps.len() > 0 {
        enc_props_block(ps)
    } else {
        Seq::empty()
    }
}

pub open spec fn enc_ud(u: UserDataModel) -> Seq<u8> {
    le_u32(ud_flags(u)) + enc_ud_text(u.text) + enc_ud_color(u.color) + enc_ud_props(u.properties)
}

/// The text field of a user-data body and the position after it.
pub open spec fn dec_ud_text(b: Seq<u8>, fl: u32) -> Option<(Option<Seq<char>>, int)> {
    if fl & 1 != 0 {
        if str_avail(b, 4) {
            Some((Some(str_at(b, 4)), 6 + u16_at(b, 4)))
        } else {
            None
        }
    } else {
        Some((None, 4))
    }
}

/// The color field at `p` and the position after it.
pub open spec fn dec_ud_color(b: Seq<u8>, p: int, fl: u32) -> Option<(Option<ColorModel>, int)> {
    if fl & 2 != 0 {
        if avail(b, p, 4) {
            Some((Some(ColorModel { r: b[p], g: b[p + 1], b: b[p + 2], a: b[p + 3], name: None }), p + 4))
        } else {
            None
        }
    } else {
        Some((None, p))
    }
}

/// The property maps of the block at `p`.
pub open spec fn dec_ud_props(b: Seq<u8>, p: int, fl: u32) -> Result<Seq<PropertiesMapModel>, ErrorModel> {
    if fl & 4 == 0 {
        Ok(Seq::empty())
    } else if !avail(b, p, 8) {
        Err(ErrorModel::Io)
    } else {
        let prop_size = u32_at(b, p);
        match dec_pmaps(b, p + 8, u32_at(b, p + 4) as nat) {
            Err(e) => Err(e),
            Ok((ms, p2)) => if p2 - p < prop_size && !avail(b, p2, prop_size - (p2 - p)) {
                Err(ErrorModel::Io)
            } else {
                Ok(ms)
            },
        }
    }
}

/// The user data that a user-data chunk body describes.
pub open spec fn dec_ud(b: Seq<u8>) -> Result<UserDataModel, ErrorModel> {
    if !avail(b, 0, 4) {
        Err(ErrorModel::Io)
    } else {
        let fl = u32_at(b, 0);
        match dec_ud_text(b, fl) {
            None => Err(ErrorModel::Io),
            Some((text, p1)) => match dec_ud_color(b, p1, fl) {
                None => Err(ErrorModel::Io),
                Some((color, p2)) => match dec_ud_props(b, p2, fl) {
                    Err(e) => Err(e),
                    Ok(ps) => Ok(UserDataModel { text, color, properties: ps }),
                },
            },
        }
    }
}

pub open spec fn pmap_views(s: Seq<PropertiesMap>) -> Seq<PropertiesMapModel> {
    s.map_values(|m: PropertiesMap| m@)
}

fn encode_properties_map(buf: &mut Vec<u8>, map: &PropertiesMap)
    ensures
        final(buf)@ == old(buf)@ + enc_pmap(map@),
{
    write_dword(buf, map.key);
    write_dword(buf, map.entries.len() as u32);
    let ghost head = buf@;
    let ghost es = crate::model::entries_view(map.entries@);
    let mut i: usize = 0;
    while i < map.entries.len()
        invariant
            i <= map.entries@.len(),
            es == crate::model::entries_view(map.entries@),
            buf@ == head + crate::props::enc_pv_entries(es.take(i as int)),
        decreases map.entries@.len() - i,
    {
        let e = &map.entries[i];
        write_string(buf, e.0.as_str());
        crate::bytes::write_word(buf, property_value_type_id(&e.1));
        encode_property_value(buf, &e.1);
        proof {
            assert(es.take(i + 1) =~= es.take(i as int).push(es[i as int]));
            crate::props::lemma_enc_pv_entries_push(es.take(i as int), es[i as int]);
        }
        i = i + 1;
        assert(buf@ =~= head + crate::props::enc_pv_entries(es.take(i as int)));
    }
    assert(es.take(map.entries@.len() as int) =~= es);
    assert(buf@ =~= old(buf)@ + enc_pmap(map@));
}

fn flag32(b: bool, v: u32) -> (r: u32)
    ensures
        r == bit32(b, v),
{
    if b { v } else { 0 }
}

/// The body of a user-data chunk.
pub fn encode_user_data_chunk(ud: &UserData) -> (buf: Vec<u8>)
    ensures
        buf@ == enc_ud(ud@),
{
    let mut buf: Vec<u8> = Vec::new();
    let flags = flag32(ud.text.is_some(), 1) + flag32(ud.color.is_some(), 2) + flag32(ud.properties.len() > 0, 4);
    write_dword(&mut buf, flags);
    let ghost a = buf@;
    if let Some(text) = &ud.text {
        write_string(&mut buf, text.as_str());
    }
    let ghost b2 = buf@;
    if let Some(color) = &ud.color {
        write_byte(&mut buf, color.r);
        write_byte(&mut buf, color.g);
        write_byte(&mut buf, color.b);
        write_byte(&mut buf, color.a);
    }
    let ghost c = buf@;
    if ud.properties.len() > 0 {
        let mut maps: Vec<u8> = Vec::new();
        let ghost ps = pmap_views(ud.properties@);
        let mut i: usize = 0;
        while i < ud.properties.len()
            invariant
                i <= ud.properties@.len(),
                ps == pmap_views(ud.properties@),
                maps@ == enc_pmaps(ps.take(i as int)),
            decreases ud.properties@.len() - i,
        {
            encode_properties_map(&mut maps, &ud.properties[i]);
            proof {
                assert(ps.take(i + 1) =~= ps.take(i as int).push(ps[i as int]));
                lemma_enc_pmaps_push(ps.take(i as int), ps[i as int]);
            }
            i = i + 1;
        }
        assert(ps.take(ud.properties@.len() as int) =~= ps);
        let ml = maps.len();
        let prop_size: u32 = (ml as u32).wrapping_add(8);
        assert(prop_size == (8 + ml) as u32) by (bit_vector)
            requires
                prop_size == (if (ml as u32) + 8 > u32::MAX { ((ml as u32) + 8 - 4294967296) as u32 } else { ((ml as u32) + 8) as u32 }),
        ;
        write_dword(&mut buf, prop_size);
        write_dword(&mut buf, ud.properties.len() as u32);
        push_bytes(&mut buf, maps.as_slice());
    }
    proof {
        let u = ud@;
        assert(a =~= le_u32(ud_flags(u)));
        assert(b2 =~= a + (match u.text {
            Some(t) => enc_str(t),
            None => Seq::empty(),
        }));
        assert(c =~= b2 + (match u.color {
            Some(cc) => seq![cc.r, cc.g, cc.b, cc.a],
            None => Seq::empty(),
        }));
        assert(u.properties == pmap_views(ud.properties@));
    }
    assert(buf@ =~= enc_ud(ud@));
    buf
}

fn read_properties_map(b: &[u8], pos: usize) -> (r: Result<(PropertiesMap, usize), AsepriteError>)
    requires
        pos <= b@.len(),
    ensures
        match r {
            Ok((m, p)) => dec_pmap(b@, pos as int) == Ok::<_, ErrorModel>((m@, p as int)) && pos <= p <= b@.len(),
            Err(e) => dec_pmap(b@, pos as int) == Err::<(PropertiesMapModel, int), _>(e@),
        },
{
    let mut p = pos;
    let key = read_dword(b, &mut p)?;
    let num_entries = read_dword(b, &mut p)?;
    let (entries, p2) = crate::props::read_entries(b, p, num_entries)?;
    Ok((PropertiesMap { key, entries }, p2))
}

fn read_properties_maps(b: &[u8], start: usize, count: u32) -> (r: Result<(Vec<PropertiesMap>, usize), AsepriteError>)
    requires
        start <= b@.len(),
    ensures
        match r {
            Ok((v, p)) => dec_pmaps(b@, start as int, count as nat) == Ok::<_, ErrorModel>((pmap_views(v@), p as int))
                && start <= p <= b@.len(),
            Err(e) => dec_pmaps(b@, start as int, count as nat) == Err::<(Seq<PropertiesMapModel>, int), _>(e@),
        },
{
    let mut out: Vec<PropertiesMap> = Vec::new();
    let mut p = start;
    let mut i: u32 = 0;
    while i < count
        invariant
            i <= count,
            start <= p <= b@.len(),
            dec_pmaps(b@, start as int, count as nat) == prepend_dec(
                pmap_views(out@),
                dec_pmaps(b@, p as int, (count - i) as nat),
            ),
        decreases count - i,
    {
        let (m, p2) = match read_properties_map(b, p) {
            Ok(mp) => mp,
            Err(e) => {
                return Err(e);
            },
        };
        let ghost before = out@;
        out.push(m);
        proof {
            assert(pmap_views(out@) =~= pmap_views(before).push(m@));
            match dec_pmaps(b@, p2 as int, (count - i - 1) as nat) {
                Ok((ys, q)) => {
                    assert(pmap_views(before) + (seq![m@] + ys) =~= pmap_views(out@) + ys);
                },
                Err(_) => {},
            }
        }
        p = p2;
        i = i + 1;
    }
    assert(pmap_views(out@) + Seq::<PropertiesMapModel>::empty() =~= pmap_views(out@));
    Ok((out, p))
}

pub fn read_user_data_chunk(b: &[u8]) -> (r: Result<UserData, AsepriteError>)
    ensures
        match r {
            Ok(u) => dec_ud(b@) == Ok::<_, ErrorModel>(u@),
            Err(e) => dec_ud(b@) == Err::<UserDataModel, _>(e@),
        },
{
    let mut pos: usize = 0;
    let flags = read_dword(b, &mut pos)?;
    let text = if flags & 1 != 0 {
        Some(read_string(b, &mut pos)?)
    } else {
        None
    };
    let ghost p1 = pos as int;
    let color = if flags & 2 != 0 {
        let cr = read_byte(b, &mut pos)?;
        let cg = read_byte(b, &mut pos)?;
        let cb = read_byte(b, &mut pos)?;
        let ca = read_byte(b, &mut pos)?;
        Some(Color { r: cr, g: cg, b: cb, a: ca, name: None })
    } else {
        None
    };
    let ghost p2 = pos as int;
    assert(dec_ud_text(b@, flags) == Some((crate::model::opt_string_view(text), p1)));
    assert(dec_ud_color(b@, p1, flags) == Some((crate::model::opt_color_view(color), p2)));
    let properties = if flags & 4 != 0 {
        let start = pos;
        let prop_size = read_dword(b, &mut pos)?;
        let num_maps = read_dword(b, &mut pos)?;
        let (maps, p3) = read_properties_maps(b, pos, num_maps)?;
        pos = p3;
        let prop_consumed = pos - start;
        if (prop_consumed as u64) < (prop_size as u64) {
            skip(b, &mut pos, (prop_size as u64 - prop_consumed as u64) as usize)?;
        }
        assert(dec_pmaps(b@, start + 8, num_maps as nat) == Ok::<_, ErrorModel>((pmap_views(maps@), p3 as int)));
        assert(u32_at(b@, start as int) == prop_size);
        assert(start == p2);
        maps
    } else {
        let v: Vec<PropertiesMap> = Vec::new();
        assert(pmap_views(v@) =~= Seq::<PropertiesMapModel>::empty());
        v
    };
    let u = UserData { text, color, properties };
    assert(u@.properties =~= pmap_views(properties@));
    assert(dec_ud_props(b@, p2, flags) == Ok::<_, ErrorModel>(pmap_views(properties@)));
    Ok(u)
}


/// Whether user data reads back from its chunk: the text fits its 16-bit
/// length, each properties map reads back, and the properties block fits
/// its 32-bit size.
pub open spec fn ud_codable(u: UserDataModel) -> bool {
    &&& (u.text matches Some(t) ==> crate::text::str_fits(t))
    &&& u.properties.len() <= u32::MAX
    &&& forall|i: int| 0 <= i < u.properties.len() ==> crate::props::pmap_codable(#[trigger] u.properties[i])
    &&& 8 + enc_pmaps(u.properties).len() <= u32::MAX
}

/// What a user-data chunk gives back: the same user data, with the color
/// carrying no name (the chunk stores none).
pub open spec fn ud_read_back(u: UserDataModel) -> UserDataModel {
    UserDataModel {
        text: u.text,
        color: match u.color {
            Some(c) => Some(ColorModel { r: c.r, g: c.g, b: c.b, a: c.a, name: None }),
            None => None,
        },
        properties: u.properties,
    }
}

proof fn lemma_ud_flags(u: UserDataModel)
    ensures
        (ud_flags(u) & 1 != 0) == (u.text is Some),
        (ud_flags(u) & 2 != 0) == (u.color is Some),
        (ud_flags(u) & 4 != 0) == (u.properties.len() > 0),
{
    let x = bit32(u.text is Some, 1);
    let y = bit32(u.color is Some, 2);
    let z = bit32(u.properties.len() > 0, 4);
    assert((x == 0 || x == 1) && (y == 0 || y == 2) && (z == 0 || z == 4) ==> {
        let f = (x + y + z) as u32;
        &&& (f & 1 != 0) == (x == 1)
        &&& (f & 2 != 0) == (y == 2)
        &&& (f & 4 != 0) == (z == 4)
    }) by (bit_vector);
}

proof fn lemma_ud_text_at(fl: u32, t: Option<Seq<char>>, r: Seq<u8>)
    requires
        (fl & 1 != 0) == (t is Some),
        t matches Some(x) ==> crate::text::str_fits(x),
    ensures
        dec_ud_text(le_u32(fl) + enc_ud_text(t) + r, fl) == Some((t, (4 + enc_ud_text(t).len()) as int)),
{
    match t {
        Some(x) => {
            crate::text::lemma_read_str_in(le_u32(fl), x, r);
        },
        None => {},
    }
}

proof fn lemma_ud_color_at(fl: u32, c: Option<ColorModel>, a: Seq<u8>, r: Seq<u8>)
    requires
        (fl & 2 != 0) == (c is Some),
    ensures
        dec_ud_color(a + enc_ud_color(c) + r, a.len() as int, fl) == Some(
            (ud_read_back(UserDataModel { text: None, color: c, properties: Seq::empty() }).color, (a.len()
                + enc_ud_color(c).len()) as int),
        ),
{
    let b = a + enc_ud_color(c) + r;
    let n = a.len() as int;
    match c {
        Some(cc) => {
            assert(b[n] == cc.r && b[n + 1] == cc.g && b[n + 2] == cc.b && b[n + 3] == cc.a);
        },
        None => {},
    }
}

#[verifier::spinoff_prover]
proof fn lemma_ud_props_at(fl: u32, ps: Seq<PropertiesMapModel>, a: Seq<u8>)
    requires
        (fl & 4 != 0) == (ps.len() > 0),
        ps.len() <= u32::MAX,
        forall|i: int| 0 <= i < ps.len() ==> crate::props::pmap_codable(#[trigger] ps[i]),
        8 + enc_pmaps(ps).len() <= u32::MAX,
    ensures
        dec_ud_props(a + enc_ud_props(ps), a.len() as int, fl) == Ok::<Seq<PropertiesMapModel>, ErrorModel>(ps),
{
    if ps.len() > 0 {
        let b = a + enc_ud_props(ps);
        let em = enc_pmaps(ps);
        let sz = (8 + em.len()) as u32;
        let cn = le_u32(ps.len() as u32);
        crate::bytes::lemma_read_u32_in(a, sz, cn + em);
        assert(b =~= a + le_u32(sz) + (cn + em));
        crate::bytes::lemma_read_u32_in(a + le_u32(sz), ps.len() as u32, em);
        assert(b =~= (a + le_u32(sz)) + cn + em);
        crate::props::lemma_pmaps_roundtrip(ps, a + le_u32(sz) + cn, Seq::empty());
        assert(b =~= (a + le_u32(sz) + cn) + em + Seq::<u8>::empty());
    } else {
        assert(ps =~= Seq::<PropertiesMapModel>::empty());
    }
}

/// User data read back from its chunk is the user data written, but for
/// the name of its color, which the chunk does not store.
pub proof fn lemma_ud_roundtrip(u: UserDataModel)
    requires
        ud_codable(u),
    ensures
        dec_ud(enc_ud(u)) == Ok::<UserDataModel, ErrorModel>(ud_read_back(u)),
{
    let fl = ud_flags(u);
    lemma_ud_flags(u);
    let f = le_u32(fl);
    let t = enc_ud_text(u.text);
    let c = enc_ud_color(u.color);
    let pr = enc_ud_props(u.properties);
    let b = enc_ud(u);
    crate::bytes::lemma_read_u32_in(Seq::empty(), fl, t + c + pr);
    assert(b =~= Seq::<u8>::empty() + f + (t + c + pr));
    lemma_ud_text_at(fl, u.text, c + pr);
    assert(b =~= f + t + (c + pr));
    lemma_ud_color_at(fl, u.color, f + t, pr);
    assert(b =~= (f + t) + c + pr);
    lemma_ud_props_at(fl, u.properties, f + t + c);
    assert(b =~= (f + t + c) + pr);
}


/// The user data flag word comes first, with bit value 1 where there is
/// text, 2 where there is a color and 4 where there are properties.
pub proof fn lemma_ud_flag_bits(u: UserDataModel)
    ensures
        enc_ud(u).len() >= 4,
        u32_at(enc_ud(u), 0) == ud_flags(u),
        (ud_flags(u) & 1 != 0) == (u.text is Some),
        (ud_flags(u) & 2 != 0) == (u.color is Some),
        (ud_flags(u) & 4 != 0) == (u.properties.len() > 0),
{
    let t: u32 = if u.text is Some { 1 } else { 0 };
    let c: u32 = if u.color is Some { 2 } else { 0 };
    let p: u32 = if u.properties.len() > 0 { 4 } else { 0 };
    assert((t == 0 || t == 1) && (c == 0 || c == 2) && (p == 0 || p == 4) ==> {
        let f = (t + c + p) as u32;
        &&& (f & 1 != 0) == (t == 1)
        &&& (f & 2 != 0) == (c == 2)
        &&& (f & 4 != 0) == (p == 4)
    }) by (bit_vector);
    assert(ud_flags(u) == (t + c + p) as u32);
    crate::bytes::lemma_le_u32(ud_flags(u));
    let e = enc_ud(u);
    let w = le_u32(ud_flags(u));
    assert(e[0] == w[0] && e[1] == w[1] && e[2] == w[2] && e[3] == w[3]);
    assert(u32_at(e, 0) == u32_at(w, 0));
}

} // verus!
