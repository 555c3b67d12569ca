//! The cel-extra (0x2006), color-profile (0x2007) and external-files
//! (0x2008) chunks.

use vstd::prelude::*;
use crate::bytes::{
    avail, le_u16, le_u32, lemma_at_prefix, lemma_at_suffix, lemma_le_u16, lemma_le_u32, push_bytes,
    write_word, write_dword, write_byte, write_zeros, read_bytes, read_word, read_dword, read_byte, skip, u16_at,
    u32_at, zeros,
};
use crate::codec::{
    dec_list, elem_codec_ok, enc_list, lemma_dec_list_fails_after, lemma_enc_list_push,
    lemma_list_roundtrip,
};
use crate::error::AsepriteError;
use crate::model::{ColorProfileModel, ExternalFileModel};
use crate::text::{enc_str, lemma_str_roundtrip, write_string, read_string, str_at, str_avail, str_fits, text_bytes};
use crate::types::{lemma_external_file_type_roundtrip, CelExtra, ColorProfile, ExternalFile, ExternalFileType};

verus! {

// --- Cel extra ---

pub open spec fn enc_cel_extra(x: CelExtra) -> Seq<u8> {
    le_u32(1) + le_u32(x.precise_x) + le_u32(x.precise_y) + le_u32(x.width) + le_u32(x.height) + zeros(16)
}

pub open spec fn dec_cel_extra(b: Seq<u8>) -> Option<CelExtra> {
    if avail(b, 0, 36) {
        Some(
            CelExtra {
                precise_x: u32_at(b, 4),
                precise_y: u32_at(b, 8),
                width: u32_at(b, 12),
                height: u32_at(b, 16),
            },
        )
    } else {
        None
    }
}

pub fn encode_cel_extra_chunk(extra: &CelExtra) -> (buf: Vec<u8>)
    ensures
        buf@ == enc_cel_extra(*extra),
{
    let mut buf: Vec<u8> = Vec::new();
    write_dword(&mut buf, 1);
    write_dword(&mut buf, extra.precise_x);
    write_dword(&mut buf, extra.precise_y);
    write_dword(&mut buf, extra.width);
    write_dword(&mut buf, extra.height);
    write_zeros(&mut buf, 16);
    assert(buf@ =~= enc_cel_extra(*extra));
    buf
}

pub fn read_cel_extra_chunk(b: &[u8]) -> (r: Result<CelExtra, AsepriteError>)
    ensures
        match r {
            Ok(x) => dec_cel_extra(b@) == Some(x),
            Err(e) => dec_cel_extra(b@) is None && e is Io,
        },
{
    let mut pos: usize = 0;
    let _flags = read_dword(b, &mut pos)?;
    let precise_x = read_dword(b, &mut pos)?;
    let precise_y = read_dword(b, &mut pos)?;
    let width = read_dword(b, &mut pos)?;
    let height = read_dword(b, &mut pos)?;
    skip(b, &mut pos, 16)?;
    Ok(CelExtra { precise_x, precise_y, width, height })
}

/// A cel-extra chunk read back gives the bounds written.
pub proof fn lemma_cel_extra_roundtrip(x: CelExtra)
    ensures
        dec_cel_extra(enc_cel_extra(x)) == Some(x),
{
    let a = le_u32(1);
    let p1 = le_u32(x.precise_x);
    let p2 = le_u32(x.precise_y);
    let p3 = le_u32(x.width);
    let p4 = le_u32(x.height);
    lemma_le_u32(1);
    lemma_le_u32(x.precise_x);
    lemma_le_u32(x.precise_y);
    lemma_le_u32(x.width);
    lemma_le_u32(x.height);
    let b = enc_cel_extra(x);
    assert(b == a + (p1 + (p2 + (p3 + (p4 + zeros(16)))))) by {
        assert(b =~= a + (p1 + (p2 + (p3 + (p4 + zeros(16))))));
    }
    lemma_at_suffix(a, p1 + (p2 + (p3 + (p4 + zeros(16)))), 0, 4);
    lemma_at_prefix(p1, p2 + (p3 + (p4 + zeros(16))), 0, 4);
    lemma_at_suffix(a + p1, p2 + (p3 + (p4 + zeros(16))), 0, 4);
    lemma_at_prefix(p2, p3 + (p4 + zeros(16)), 0, 4);
    lemma_at_suffix(a + p1 + p2, p3 + (p4 + zeros(16)), 0, 4);
    lemma_at_prefix(p3, p4 + zeros(16), 0, 4);
    lemma_at_suffix(a + p1 + p2 + p3, p4 + zeros(16), 0, 4);
    lemma_at_prefix(p4, zeros(16), 0, 4);
    assert(a + p1 + p2 + (p3 + (p4 + zeros(16))) =~= b);
    assert(a + p1 + (p2 + (p3 + (p4 + zeros(16)))) =~= b);
    assert(a + p1 + p2 + p3 + (p4 + zeros(16)) =~= b);
}

// --- Color profile ---

pub open spec fn enc_color_profile(p: ColorProfileModel) -> Seq<u8> {
    match p {
        ColorProfileModel::NoProfile => le_u16(0) + le_u16(0) + le_u32(0) + zeros(8),
        ColorProfileModel::SRgb { flags, gamma } => le_u16(1) + le_u16(flags) + le_u32(gamma) + zeros(8),
        ColorProfileModel::Icc { flags, gamma, data } => le_u16(2) + le_u16(flags) + le_u32(gamma)
            + zeros(8) + le_u32(data.len() as u32) + data,
    }
}

pub open spec fn dec_color_profile(b: Seq<u8>) -> Option<ColorProfileModel> {
    if !avail(b, 0, 16) {
        None
    } else {
        let t = u16_at(b, 0);
        let flags = u16_at(b, 2);
        let gamma = u32_at(b, 4);
        if t == 1 {
            Some(ColorProfileModel::SRgb { flags, gamma })
        } else if t == 2 {
            if avail(b, 16, 4) && avail(b, 20, u32_at(b, 16) as int) {
                Some(ColorProfileModel::Icc { flags, gamma, data: b.subrange(20, 20 + u32_at(b, 16)) })
            } else {
                None
            }
        } else {
            Some(ColorProfileModel::NoProfile)
        }
    }
}

pub fn encode_color_profile_chunk(profile: &ColorProfile) -> (buf: Vec<u8>)
    ensures
        buf@ == enc_color_profile(profile@),
{
    let mut buf: Vec<u8> = Vec::new();
    match profile {
        ColorProfile::NoProfile => {
            write_word(&mut buf, 0);
            write_word(&mut buf, 0);
            write_dword(&mut buf, 0);
            write_zeros(&mut buf, 8);
        },
        ColorProfile::SRgb { flags, gamma } => {
            write_word(&mut buf, 1);
            write_word(&mut buf, *flags);
            write_dword(&mut buf, *gamma);
            write_zeros(&mut buf, 8);
        },
        ColorProfile::Icc { flags, gamma, data } => {
            write_word(&mut buf, 2);
            write_word(&mut buf, *flags);
            write_dword(&mut buf, *gamma);
            write_zeros(&mut buf, 8);
            write_dword(&mut buf, data.len() as u32);
            push_bytes(&mut buf, data.as_slice());
        },
    }
    assert(buf@ =~= enc_color_profile(profile@));
    buf
}

pub fn read_color_profile_chunk(b: &[u8]) -> (r: Result<ColorProfile, AsepriteError>)
    ensures
        match r {
            Ok(p) => dec_color_profile(b@) == Some(p@),
            Err(e) => dec_color_profile(b@) is None && e is Io,
        },
{
    let mut pos: usize = 0;
    let profile_type = read_word(b, &mut pos)?;
    let flags = read_word(b, &mut pos)?;
    let gamma = read_dword(b, &mut pos)?;
    skip(b, &mut pos, 8)?;
    if profile_type == 1 {
        Ok(ColorProfile::SRgb { flags, gamma })
    } else if profile_type == 2 {
        let icc_length = read_dword(b, &mut pos)?;
        let data = read_bytes(b, &mut pos, icc_length as usize)?;
        Ok(ColorProfile::Icc { flags, gamma, data })
    } else {
        Ok(ColorProfile::NoProfile)
    }
}

/// A color-profile chunk read back gives the profile written (ICC data of
/// at most `u32::MAX` bytes).
pub proof fn lemma_color_profile_roundtrip(p: ColorProfileModel)
    requires
        p matches ColorProfileModel::Icc { data, .. } ==> data.len() <= u32::MAX,
    ensures
        dec_color_profile(enc_color_profile(p)) == Some(p),
{
    let b = enc_color_profile(p);
    let (t, flags, gamma): (u16, u16, u32) = match p {
        ColorProfileModel::NoProfile => (0, 0, 0),
        ColorProfileModel::SRgb { flags, gamma } => (1, flags, gamma),
        ColorProfileModel::Icc { flags, gamma, .. } => (2, flags, gamma),
    };
    let h = le_u16(t) + le_u16(flags) + le_u32(gamma) + zeros(8);
    lemma_le_u16(t);
    lemma_le_u16(flags);
    lemma_le_u32(gamma);
    assert(h.len() == 16);
    let tail = b.subrange(16, b.len() as int);
    assert(b == h + tail) by {
        assert(b =~= h + tail);
    }
    let a = le_u16(t);
    let c = le_u16(flags);
    let g = le_u32(gamma);
    lemma_at_prefix(a + c + g, zeros(8), 0, 8);
    lemma_at_prefix(a + c, g, 0, 4);
    lemma_at_prefix(a, c, 0, 2);
    lemma_at_suffix(a, c, 0, 2);
    lemma_at_suffix(a + c, g, 0, 4);
    assert(h == a + c + g + zeros(8));
    lemma_at_prefix(h, tail, 0, 2);
    lemma_at_prefix(h, tail, 2, 2);
    lemma_at_prefix(h, tail, 4, 4);
    lemma_at_prefix(a + c + g, zeros(8), 2, 2);
    lemma_at_prefix(a + c + g, zeros(8), 4, 4);
    lemma_at_prefix(a + c, g, 2, 2);
    if let ColorProfileModel::Icc { data, .. } = p {
        let n = le_u32(data.len() as u32);
        lemma_le_u32(data.len() as u32);
        assert(tail =~= n + data);
        lemma_at_suffix(h, tail, 0, 4);
        lemma_at_prefix(n, data, 0, 4);
        lemma_at_suffix(h, tail, 4, data.len() as int);
        lemma_at_suffix(n, data, 0, data.len() as int);
        assert(data.subrange(0, data.len() as int) =~= data);
    }
}

// --- External files ---

pub open spec fn enc_ext(e: ExternalFileModel) -> Seq<u8> {
    le_u32(e.id) + seq![e.file_type.spec_to_u8()] + zeros(7) + enc_str(e.name)
}

pub open spec fn dec_ext(b: Seq<u8>, pos: int) -> Option<(ExternalFileModel, int)> {
    if !(avail(b, pos, 12) && str_avail(b, pos + 12)) {
        None
    } else {
        Some(
            (
                ExternalFileModel {
                    id: u32_at(b, pos),
                    file_type: ExternalFileType::spec_from_u8(b[pos + 4]),
                    name: str_at(b, pos + 12),
                },
                pos + 14 + u16_at(b, pos + 12),
            ),
        )
    }
}

pub open spec fn ext_enc_fn() -> spec_fn(ExternalFileModel) -> Seq<u8> {
    |e: ExternalFileModel| enc_ext(e)
}

pub open spec fn ext_dec_fn() -> spec_fn(Seq<u8>, int) -> Option<(ExternalFileModel, int)> {
    |b: Seq<u8>, pos: int| dec_ext(b, pos)
}

pub open spec fn enc_ext_files(s: Seq<ExternalFileModel>) -> Seq<u8> {
    le_u32(s.len() as u32) + zeros(8) + enc_list(s, ext_enc_fn())
}

pub open spec fn dec_ext_files(b: Seq<u8>) -> Option<Seq<ExternalFileModel>> {
    if !avail(b, 0, 12) {
        None
    } else {
        match dec_list(b, 12, u32_at(b, 0) as nat, ext_dec_fn()) {
            Some((xs, _)) => Some(xs),
            None => None,
        }
    }
}

pub open spec fn ext_views(s: Seq<ExternalFile>) -> Seq<ExternalFileModel> {
    s.map_values(|e: ExternalFile| e@)
}

pub fn encode_external_files_chunk(files: &Vec<ExternalFile>) -> (buf: Vec<u8>)
    ensures
        buf@ == enc_ext_files(ext_views(files@)),
{
    let mut buf: Vec<u8> = Vec::new();
    write_dword(&mut buf, files.len() as u32);
    write_zeros(&mut buf, 8);
    let ghost head = buf@;
    let mut i: usize = 0;
    while i < files.len()
        invariant
            i <= files@.len(),
            buf@ == head + enc_list(ext_views(files@).take(i as int), ext_enc_fn()),
        decreases files@.len() - i,
    {
        let ef = &files[i];
        write_dword(&mut buf, ef.id);
        write_byte(&mut buf, ef.file_type.to_u8());
        write_zeros(&mut buf, 7);
        write_string(&mut buf, ef.name.as_str());
        proof {
            let vs = ext_views(files@);
            assert(vs.take(i + 1) =~= vs.take(i as int).push(vs[i as int]));
            lemma_enc_list_push(vs.take(i as int), vs[i as int], ext_enc_fn());
        }
        i = i + 1;
        assert(buf@ =~= head + enc_list(ext_views(files@).take(i as int), ext_enc_fn()));
    }
    assert(ext_views(files@).take(files@.len() as int) =~= ext_views(files@));
    buf
}

fn read_ext_entry(b: &[u8], pos: &mut usize) -> (r: Result<ExternalFile, AsepriteError>)
    ensures
        match r {
            Ok(e) => dec_ext(b@, *old(pos) as int) == Some((e@, *final(pos) as int)),
            Err(err) => dec_ext(b@, *old(pos) as int) is None && err is Io,
        },
{
    let ghost p0 = *pos as int;
    let id = read_dword(b, pos)?;
    let file_type = ExternalFileType::from_u8(read_byte(b, pos)?);
    skip(b, pos, 7)?;
    let name = read_string(b, pos)?;
    Ok(ExternalFile { id, file_type, name })
}

pub fn read_external_files_chunk(b: &[u8]) -> (r: Result<Vec<ExternalFile>, AsepriteError>)
    ensures
        match r {
            Ok(v) => dec_ext_files(b@) == Some(ext_views(v@)),
            Err(e) => dec_ext_files(b@) is None && e is Io,
        },
{
    let mut pos: usize = 0;
    let num_entries = read_dword(b, &mut pos)?;
    skip(b, &mut pos, 8)?;
    let mut out: Vec<ExternalFile> = Vec::new();
    let mut i: u32 = 0;
    while i < num_entries
        invariant
            i <= num_entries,
            avail(b@, 0, 12),
            num_entries == u32_at(b@, 0),
            dec_list(b@, 12, i as nat, ext_dec_fn()) == Some((ext_views(out@), pos as int)),
        decreases num_entries - i,
    {
        let ghost before = out@;
        match read_ext_entry(b, &mut pos) {
            Ok(e) => {
                out.push(e);
                assert(ext_views(out@) =~= ext_views(before).push(e@));
            },
            Err(err) => {
                proof {
                    lemma_dec_list_fails_after(b@, 12, i as nat, num_entries as nat, ext_dec_fn());
                }
                return Err(err);
            },
        }
        i = i + 1;
    }
    Ok(out)
}

proof fn lemma_ext_elem(e: ExternalFileModel)
    requires
        str_fits(e.name),
    ensures
        elem_codec_ok(ext_enc_fn(), ext_dec_fn(), e),
{
    assert forall|p: Seq<u8>, q: Seq<u8>|
        #[trigger] ext_dec_fn()(p + ext_enc_fn()(e) + q, p.len() as int) == Some(
            (e, (p.len() + ext_enc_fn()(e).len()) as int),
        ) by {
        let x = enc_ext(e);
        let h = le_u32(e.id) + seq![e.file_type.spec_to_u8()] + zeros(7);
        let st = enc_str(e.name);
        let b = p + x + q;
        lemma_le_u32(e.id);
        assert(h.len() == 12);
        assert(b == p + (h + (st + q))) by {
            assert(b =~= p + (h + (st + q)));
        }
        lemma_at_suffix(p, h + (st + q), 0, 12);
        lemma_at_prefix(h, st + q, 0, 4);
        lemma_at_prefix(h, st + q, 4, 1);
        lemma_at_prefix(le_u32(e.id), seq![e.file_type.spec_to_u8()] + zeros(7), 0, 4);
        assert(b == (p + h) + (st + q)) by {
            assert(b =~= (p + h) + (st + q));
        }
        lemma_at_suffix(p + h, st + q, 0, st.len() as int);
        lemma_at_prefix(st, q, 0, st.len() as int);
        assert(st.subrange(0, st.len() as int) =~= st);
        lemma_str_roundtrip(e.name, b, p.len() + 12int);
        lemma_external_file_type_roundtrip(e.file_type);
    }
}

/// An external-files chunk read back gives the references written (at most
/// `u32::MAX` of them, their names fitting the 16-bit length).
pub proof fn lemma_ext_files_roundtrip(s: Seq<ExternalFileModel>)
    requires
        s.len() <= u32::MAX,
        forall|i: int| 0 <= i < s.len() ==> str_fits(#[trigger] s[i].name),
    ensures
        dec_ext_files(enc_ext_files(s)) == Some(s),
{
    let h = le_u32(s.len() as u32) + zeros(8);
    let body = enc_list(s, ext_enc_fn());
    let b = enc_ext_files(s);
    lemma_le_u32(s.len() as u32);
    assert forall|i: int| 0 <= i < s.len() implies elem_codec_ok(ext_enc_fn(), ext_dec_fn(), #[trigger] s[i]) by {
        lemma_ext_elem(s[i]);
    }
    lemma_list_roundtrip(s, ext_enc_fn(), ext_dec_fn(), h, Seq::empty());
    assert(h + body + Seq::empty() =~= b);
    lemma_at_prefix(h, body, 0, 4);
    lemma_at_prefix(le_u32(s.len() as u32), zeros(8), 0, 4);
}

} // verus!
