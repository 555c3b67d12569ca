//! Typed property values and property maps, as user data stores them.

use vstd::prelude::*;
use crate::bytes::{
    avail, i16_at, i32_at, i64_at, le_i16, le_i32, le_i64, le_u16, le_u32, le_u64, push_bytes,
    write_short, write_long, write_long64, write_word, write_dword, write_qword, write_byte, read_bytes, read_short,
    read_long, read_long64, read_word, read_dword, read_qword, read_byte, u16_at, u32_at, u64_at,
};
use crate::error::{AsepriteError, ErrorModel};
use crate::model::{entries_view, pv_view, vec_view, PropertiesMapModel, PropertyValueModel};
use crate::text::{enc_str, write_string, read_string, str_at, str_avail};
use crate::types::{PropertiesMap, PropertyValue};

verus! {

broadcast use vstd::std_specs::vec::axiom_vec_decreases_to_view;

/// The type id that the file format gives each kind of value.
pub open spec fn pv_type(v: PropertyValueModel) -> u16 {
    match v {
        PropertyValueModel::Bool(_) => 0x0001,
        PropertyValueModel::Int8(_) => 0x0002,
        PropertyValueModel::UInt8(_) => 0x0003,
        PropertyValueModel::Int16(_) => 0x0004,
        PropertyValueModel::UInt16(_) => 0x0005,
        PropertyValueModel::Int32(_) => 0x0006,
        PropertyValueModel::UInt32(_) => 0x0007,
        PropertyValueModel::Int64(_) => 0x0008,
        PropertyValueModel::UInt64(_) => 0x0009,
        PropertyValueModel::Fixed(_) => 0x000A,
        PropertyValueModel::Float(_) => 0x000B,
        PropertyValueModel::Double(_) => 0x000C,
        PropertyValueModel::String(_) => 0x000D,
        PropertyValueModel::Point(_, _) => 0x000E,
        PropertyValueModel::Size(_, _) => 0x000F,
        PropertyValueModel::Rect(_, _, _, _) => 0x0010,
        PropertyValueModel::Vector(_) => 0x0011,
        PropertyValueModel::Properties(_) => 0x0012,
        PropertyValueModel::Uuid(_) => 0x0013,
    }
}

/// A non-empty vector whose elements all have the type of the first.
pub open spec fn vec_homogeneous(s: Seq<PropertyValueModel>) -> bool {
    s.len() > 0 && forall|i: int| 0 <= i < s.len() ==> pv_type(#[trigger] s[i]) == pv_type(s[0])
}

pub open spec fn u8_of_i8(v: i8) -> u8 {
    if v < 0 { (v + 256) as u8 } else { v as u8 }
}

pub open spec fn i8_of_u8(v: u8) -> i8 {
    if v >= 128 { (v - 256) as i8 } else { v as i8 }
}

/// The bytes of a value (its type id is stored apart).
pub open spec fn enc_pv(v: PropertyValueModel) -> Seq<u8>
    decreases v,
{
    match v {
        PropertyValueModel::Bool(x) => seq![if x { 1u8 } else { 0u8 }],
        PropertyValueModel::Int8(x) => seq![u8_of_i8(x)],
        PropertyValueModel::UInt8(x) => seq![x],
        PropertyValueModel::Int16(x) => le_i16(x),
        PropertyValueModel::UInt16(x) => le_u16(x),
        PropertyValueModel::Int32(x) => le_i32(x),
        PropertyValueModel::UInt32(x) => le_u32(x),
        PropertyValueModel::Int64(x) => le_i64(x),
        PropertyValueModel::UInt64(x) => le_u64(x),
        PropertyValueModel::Fixed(x) => le_u32(x),
        PropertyValueModel::Float(x) => le_u32(x),
        PropertyValueModel::Double(x) => le_u64(x),
        PropertyValueModel::String(s) => enc_str(s),
        PropertyValueModel::Point(x, y) => le_i32(x) + le_i32(y),
        PropertyValueModel::Size(x, y) => le_i32(x) + le_i32(y),
        PropertyValueModel::Rect(x, y, w, h) => le_i32(x) + le_i32(y) + le_i32(w) + le_i32(h),
        PropertyValueModel::Vector(e) => le_u32(e.len() as u32) + if vec_homogeneous(e) {
            le_u16(pv_type(e[0])) + enc_pv_seq(e, false)
        } else {
            le_u16(0) + enc_pv_seq(e, true)
        },
        PropertyValueModel::Properties(e) => le_u32(e.len() as u32) + enc_pv_entries(e),
        PropertyValueModel::Uuid(u) => u,
    }
}

/// Vector elements one after the other, each after its type id when `tagged`.
pub open spec fn enc_pv_seq(s: Seq<PropertyValueModel>, tagged: bool) -> Seq<u8>
    decreases s,
{
    if s.len() == 0 {
        Seq::empty()
    } else {
        (if tagged {
            le_u16(pv_type(s[0]))
        } else {
            Seq::empty()
        }) + enc_pv(s[0]) + enc_pv_seq(s.drop_first(), tagged)
    }
}

/// One vector element: its type id when `tagged`, then its bytes.
pub open spec fn enc_pv_elem(x: PropertyValueModel, tagged: bool) -> Seq<u8> {
    (if tagged {
        le_u16(pv_type(x))
    } else {
        Seq::empty()
    }) + enc_pv(x)
}

/// Named entries: name, type id, value, one after the other.
pub open spec fn enc_pv_entries(s: Seq<(Seq<char>, PropertyValueModel)>) -> Seq<u8>
    decreases s,
{
    if s.len() == 0 {
        Seq::empty()
    } else {
        enc_str(s[0].0) + le_u16(pv_type(s[0].1)) + enc_pv(s[0].1) + enc_pv_entries(s.drop_first())
    }
}

/// One named entry: name, type id, value.
pub open spec fn enc_pv_entry(e: (Seq<char>, PropertyValueModel)) -> Seq<u8> {
    enc_str(e.0) + le_u16(pv_type(e.1)) + enc_pv(e.1)
}

pub proof fn lemma_enc_pv_seq_push(s: Seq<PropertyValueModel>, x: PropertyValueModel, tagged: bool)
    ensures
        enc_pv_seq(s.push(x), tagged) == enc_pv_seq(s, tagged) + enc_pv_elem(x, tagged),
    decreases s.len(),
{
    if s.len() == 0 {
        assert(s.push(x).drop_first() =~= Seq::<PropertyValueModel>::empty());
        assert(s.push(x)[0] == x);
        assert(enc_pv_seq(Seq::<PropertyValueModel>::empty(), tagged) == Seq::<u8>::empty());
        assert(enc_pv_seq(s, tagged) == Seq::<u8>::empty());
        assert(enc_pv_seq(s.push(x), tagged) =~= enc_pv_seq(s, tagged) + enc_pv_elem(x, tagged));
    } else {
        lemma_enc_pv_seq_push(s.drop_first(), x, tagged);
        assert(s.push(x).drop_first() =~= s.drop_first().push(x));
        assert(enc_pv_seq(s.push(x), tagged) =~= enc_pv_seq(s, tagged) + enc_pv_elem(x, tagged));
    }
}

pub proof fn lemma_enc_pv_entries_push(s: Seq<(Seq<char>, PropertyValueModel)>, e: (Seq<char>, PropertyValueModel))
    ensures
        enc_pv_entries(s.push(e)) == enc_pv_entries(s) + enc_pv_entry(e),
    decreases s.len(),
{
    if s.len() == 0 {
        assert(s.push(e).drop_first() =~= Seq::<(Seq<char>, PropertyValueModel)>::empty());
        assert(s.push(e)[0] == e);
        assert(enc_pv_entries(Seq::<(Seq<char>, PropertyValueModel)>::empty()) == Seq::<u8>::empty());
        assert(enc_pv_entries(s.push(e)) =~= enc_pv_entries(s) + enc_pv_entry(e));
    } else {
        lemma_enc_pv_entries_push(s.drop_first(), e);
        assert(s.push(e).drop_first() =~= s.drop_first().push(e));
        assert(enc_pv_entries(s.push(e)) =~= enc_pv_entries(s) + enc_pv_entry(e));
    }
}

/// The value of type `t` stored at `pos`, and the position after it.
pub open spec fn dec_pv(b: Seq<u8>, pos: int, t: u16) -> Result<(PropertyValueModel, int), ErrorModel>
    decreases b.len() - pos, 0int,
{
    if !(0 <= pos <= b.len()) {
        Err(ErrorModel::Io)
    } else if t == 0x0011 {
        if avail(b, pos, 6) {
            match dec_pv_seq(b, pos + 6, u32_at(b, pos) as nat, u16_at(b, pos + 4)) {
                Ok((xs, p)) => Ok((PropertyValueModel::Vector(xs), p)),
                Err(e) => Err(e),
            }
        } else {
            Err(ErrorModel::Io)
        }
    } else if t == 0x0012 {
        if avail(b, pos, 4) {
            match dec_pv_entries(b, pos + 4, u32_at(b, pos) as nat) {
                Ok((es, p)) => Ok((PropertyValueModel::Properties(es), p)),
                Err(e) => Err(e),
            }
        } else {
            Err(ErrorModel::Io)
        }
    } else {
        dec_scalar(b, pos, t)
    }
}

/// The value of a type other than vector and properties stored at `pos`.
#[verifier::opaque]
pub open spec fn dec_scalar(b: Seq<u8>, pos: int, t: u16) -> Result<(PropertyValueModel, int), ErrorModel> {
    if t == 0x0001 {
        if avail(b, pos, 1) { Ok((PropertyValueModel::Bool(b[pos] != 0), pos + 1)) } else { Err(ErrorModel::Io) }
    } else if t == 0x0002 {
        if avail(b, pos, 1) { Ok((PropertyValueModel::Int8(i8_of_u8(b[pos])), pos + 1)) } else { Err(ErrorModel::Io) }
    } else if t == 0x0003 {
        if avail(b, pos, 1) { Ok((PropertyValueModel::UInt8(b[pos]), pos + 1)) } else { Err(ErrorModel::Io) }
    } else if t == 0x0004 {
        if avail(b, pos, 2) { Ok((PropertyValueModel::Int16(i16_at(b, pos)), pos + 2)) } else { Err(ErrorModel::Io) }
    } else if t == 0x0005 {
        if avail(b, pos, 2) { Ok((PropertyValueModel::UInt16(u16_at(b, pos)), pos + 2)) } else { Err(ErrorModel::Io) }
    } else if t == 0x0006 {
        if avail(b, pos, 4) { Ok((PropertyValueModel::Int32(i32_at(b, pos)), pos + 4)) } else { Err(ErrorModel::Io) }
    } else if t == 0x0007 {
        if avail(b, pos, 4) { Ok((PropertyValueModel::UInt32(u32_at(b, pos)), pos + 4)) } else { Err(ErrorModel::Io) }
    } else if t == 0x0008 {
        if avail(b, pos, 8) { Ok((PropertyValueModel::Int64(i64_at(b, pos)), pos + 8)) } else { Err(ErrorModel::Io) }
    } else if t == 0x0009 {
        if avail(b, pos, 8) { Ok((PropertyValueModel::UInt64(u64_at(b, pos)), pos + 8)) } else { Err(ErrorModel::Io) }
    } else if t == 0x000A {
        if avail(b, pos, 4) { Ok((PropertyValueModel::Fixed(u32_at(b, pos)), pos + 4)) } else { Err(ErrorModel::Io) }
    } else if t == 0x000B {
        if avail(b, pos, 4) { Ok((PropertyValueModel::Float(u32_at(b, pos)), pos + 4)) } else { Err(ErrorModel::Io) }
    } else if t == 0x000C {
        if avail(b, pos, 8) { Ok((PropertyValueModel::Double(u64_at(b, pos)), pos + 8)) } else { Err(ErrorModel::Io) }
    } else if t == 0x000D {
        if str_avail(b, pos) {
            Ok((PropertyValueModel::String(str_at(b, pos)), pos + 2 + u16_at(b, pos)))
        } else {
            Err(ErrorModel::Io)
        }
    } else if t == 0x000E {
        if avail(b, pos, 8) {
            Ok((PropertyValueModel::Point(i32_at(b, pos), i32_at(b, pos + 4)), pos + 8))
        } else {
            Err(ErrorModel::Io)
        }
    } else if t == 0x000F {
        if avail(b, pos, 8) {
            Ok((PropertyValueModel::Size(i32_at(b, pos), i32_at(b, pos + 4)), pos + 8))
        } else {
            Err(ErrorModel::Io)
        }
    } else if t == 0x0010 {
        if avail(b, pos, 16) {
            Ok(
                (
                    PropertyValueModel::Rect(
                        i32_at(b, pos),
                        i32_at(b, pos + 4),
                        i32_at(b, pos + 8),
                        i32_at(b, pos + 12),
                    ),
                    pos + 16,
                ),
            )
        } else {
            Err(ErrorModel::Io)
        }
    } else if t == 0x0013 {
        if avail(b, pos, 16) {
            Ok((PropertyValueModel::Uuid(b.subrange(pos, pos + 16)), pos + 16))
        } else {
            Err(ErrorModel::Io)
        }
    } else {
        Err(ErrorModel::UnsupportedChunkType(t))
    }
}

/// `k` vector elements from `p`: of type `et`, or each after its own type
/// id where `et` is 0.
pub open spec fn dec_pv_seq(b: Seq<u8>, p: int, k: nat, et: u16) -> Result<(Seq<PropertyValueModel>, int), ErrorModel>
    decreases b.len() - p, 1int,
{
    if !(0 <= p <= b.len()) {
        Err(ErrorModel::Io)
    } else if k == 0 {
        Ok((Seq::empty(), p))
    } else {
        let first = if et == 0 {
            if avail(b, p, 2) {
                dec_pv(b, p + 2, u16_at(b, p))
            } else {
                Err(ErrorModel::Io)
            }
        } else {
            dec_pv(b, p, et)
        };
        match first {
            Err(e) => Err(e),
            Ok((x, p2)) => if p2 <= p || p2 > b.len() {
                Err(ErrorModel::Io)
            } else {
                match dec_pv_seq(b, p2, (k - 1) as nat, et) {
                    Ok((xs, p3)) => Ok((seq![x] + xs, p3)),
                    Err(e) => Err(e),
                }
            },
        }
    }
}

/// `k` named entries from `p`.
pub open spec fn dec_pv_entries(b: Seq<u8>, p: int, k: nat) -> Result<(Seq<(Seq<char>, PropertyValueModel)>, int), ErrorModel>
    decreases b.len() - p, 1int,
{
    if !(0 <= p <= b.len()) {
        Err(ErrorModel::Io)
    } else if k == 0 {
        Ok((Seq::empty(), p))
    } else if !(str_avail(b, p) && avail(b, p + 2 + u16_at(b, p), 2)) {
        Err(ErrorModel::Io)
    } else {
        let q = p + 2 + u16_at(b, p);
        match dec_pv(b, q + 2, u16_at(b, q)) {
            Err(e) => Err(e),
            Ok((v, p2)) => if p2 <= p || p2 > b.len() {
                Err(ErrorModel::Io)
            } else {
                match dec_pv_entries(b, p2, (k - 1) as nat) {
                    Ok((es, p3)) => Ok((seq![(str_at(b, p), v)] + es, p3)),
                    Err(e) => Err(e),
                }
            },
        }
    }
}

// --- Maps ---

pub open spec fn enc_pmap(m: PropertiesMapModel) -> Seq<u8> {
    le_u32(m.key) + le_u32(m.entries.len() as u32) + enc_pv_entries(m.entries)
}

pub open spec fn enc_pmaps(s: Seq<PropertiesMapModel>) -> Seq<u8>
    decreases s.len(),
{
    if s.len() == 0 {
        Seq::empty()
    } else {
        enc_pmap(s[0]) + enc_pmaps(s.drop_first())
    }
}

pub proof fn lemma_enc_pmaps_push(s: Seq<PropertiesMapModel>, m: PropertiesMapModel)
    ensures
        enc_pmaps(s.push(m)) == enc_pmaps(s) + enc_pmap(m),
    decreases s.len(),
{
    if s.len() == 0 {
        assert(s.push(m).drop_first() =~= Seq::<PropertiesMapModel>::empty());
        assert(s.push(m)[0] == m);
        assert(enc_pmaps(Seq::<PropertiesMapModel>::empty()) == Seq::<u8>::empty());
        assert(enc_pmaps(s.push(m)) =~= enc_pmaps(s) + enc_pmap(m));
    } else {
        lemma_enc_pmaps_push(s.drop_first(), m);
        assert(s.push(m).drop_first() =~= s.drop_first().push(m));
        assert(enc_pmaps(s.push(m)) =~= enc_pmaps(s) + enc_pmap(m));
    }
}

pub open spec fn dec_pmap(b: Seq<u8>, p: int) -> Result<(PropertiesMapModel, int), ErrorModel> {
    if !avail(b, p, 8) {
        Err(ErrorModel::Io)
    } else {
        match dec_pv_entries(b, p + 8, u32_at(b, p + 4) as nat) {
            Ok((es, p2)) => Ok((PropertiesMapModel { key: u32_at(b, p), entries: es }, p2)),
            Err(e) => Err(e),
        }
    }
}

pub open spec fn dec_pmaps(b: Seq<u8>, p: int, k: nat) -> Result<(Seq<PropertiesMapModel>, int), ErrorModel>
    decreases k,
{
    if k == 0 {
        Ok((Seq::empty(), p))
    } else {
        match dec_pmap(b, p) {
            Err(e) => Err(e),
            Ok((m, p2)) => match dec_pmaps(b, p2, (k - 1) as nat) {
                Ok((ms, p3)) => Ok((seq![m] + ms, p3)),
                Err(e) => Err(e),
            },
        }
    }
}

// --- Exec encoders ---

pub open spec fn pv_type_of(v: PropertyValue) -> u16 {
    pv_type(pv_view(v))
}

pub fn property_value_type_id(value: &PropertyValue) -> (t: u16)
    ensures
        t == pv_type(value@),
{
    match value {
        PropertyValue::Bool(_) => 0x0001,
        PropertyValue::Int8(_) => 0x0002,
        PropertyValue::UInt8(_) => 0x0003,
        PropertyValue::Int16(_) => 0x0004,
        PropertyValue::UInt16(_) => 0x0005,
        PropertyValue::Int32(_) => 0x0006,
        PropertyValue::UInt32(_) => 0x0007,
        PropertyValue::Int64(_) => 0x0008,
        PropertyValue::UInt64(_) => 0x0009,
        PropertyValue::Fixed(_) => 0x000A,
        PropertyValue::Float(_) => 0x000B,
        PropertyValue::Double(_) => 0x000C,
        PropertyValue::String(_) => 0x000D,
        PropertyValue::Point(_, _) => 0x000E,
        PropertyValue::Size(_, _) => 0x000F,
        PropertyValue::Rect(_, _, _, _) => 0x0010,
        PropertyValue::Vector(_) => 0x0011,
        PropertyValue::Properties(_) => 0x0012,
        PropertyValue::Uuid(_) => 0x0013,
    }
}


/// The type id shared by all elements of a non-empty vector, if one is.
fn homogeneous_type(elems: &Vec<PropertyValue>) -> (r: Option<u16>)
    ensures
        match r {
            Some(t) => vec_homogeneous(vec_view(elems@)) && t == pv_type(vec_view(elems@)[0]),
            None => !vec_homogeneous(vec_view(elems@)),
        },
{
    if elems.len() == 0 {
        return None;
    }
    let first_type = property_value_type_id(&elems[0]);
    let mut i: usize = 1;
    while i < elems.len()
        invariant
            1 <= i <= elems@.len(),
            first_type == pv_type(vec_view(elems@)[0]),
            forall|j: int| 0 <= j < i ==> pv_type(#[trigger] vec_view(elems@)[j]) == first_type,
        decreases elems@.len() - i,
    {
        if property_value_type_id(&elems[i]) != first_type {
            assert(pv_type(vec_view(elems@)[i as int]) != pv_type(vec_view(elems@)[0]));
            return None;
        }
        i = i + 1;
    }
    Some(first_type)
}

pub fn encode_property_value(buf: &mut Vec<u8>, value: &PropertyValue)
    ensures
        final(buf)@ == old(buf)@ + enc_pv(value@),
    decreases value, 1nat,
{
    match value {
        PropertyValue::Bool(v) => write_byte(buf, if *v { 1 } else { 0 }),
        PropertyValue::Int8(v) => {
            let u: u8 = if *v < 0 { (*v as i16 + 256) as u8 } else { *v as u8 };
            write_byte(buf, u);
        },
        PropertyValue::UInt8(v) => write_byte(buf, *v),
        PropertyValue::Int16(v) => write_short(buf, *v),
        PropertyValue::UInt16(v) => write_word(buf, *v),
        PropertyValue::Int32(v) => write_long(buf, *v),
        PropertyValue::UInt32(v) => write_dword(buf, *v),
        PropertyValue::Int64(v) => write_long64(buf, *v),
        PropertyValue::UInt64(v) => write_qword(buf, *v),
        PropertyValue::Fixed(v) => write_dword(buf, *v),
        PropertyValue::Float(v) => write_dword(buf, *v),
        PropertyValue::Double(v) => write_qword(buf, *v),
        PropertyValue::String(s) => write_string(buf, s.as_str()),
        PropertyValue::Point(x, y) => {
            write_long(buf, *x);
            write_long(buf, *y);
        },
        PropertyValue::Size(w, h) => {
            write_long(buf, *w);
            write_long(buf, *h);
        },
        PropertyValue::Rect(x, y, w, h) => {
            write_long(buf, *x);
            write_long(buf, *y);
            write_long(buf, *w);
            write_long(buf, *h);
        },
        PropertyValue::Vector(elements) => {
            encode_vector(buf, elements, Ghost(value));
        },
        PropertyValue::Properties(entries) => {
            write_dword(buf, entries.len() as u32);
            encode_entries(buf, entries, Ghost(value));
        },
        PropertyValue::Uuid(bytes) => {
            push_bytes(buf, bytes.as_slice());
        },
    }
}

fn encode_vector(buf: &mut Vec<u8>, elements: &Vec<PropertyValue>, Ghost(value): Ghost<&PropertyValue>)
    requires
        *value == PropertyValue::Vector(*elements),
    ensures
        final(buf)@ == old(buf)@ + enc_pv(value@),
    decreases value, 0nat,
{
    write_dword(buf, elements.len() as u32);
    let homogeneous = homogeneous_type(elements);
    let tagged = homogeneous.is_none();
    match homogeneous {
        Some(elem_type) => write_word(buf, elem_type),
        None => write_word(buf, 0),
    }
    let ghost head = buf@;
    let ghost vs = vec_view(elements@);
    let mut i: usize = 0;
    while i < elements.len()
        invariant
            i <= elements@.len(),
            vs == vec_view(elements@),
            *value == PropertyValue::Vector(*elements),
            buf@ == head + enc_pv_seq(vs.take(i as int), tagged),
        decreases elements@.len() - i,
    {
        if tagged {
            write_word(buf, property_value_type_id(&elements[i]));
        }
        proof {
            vstd::std_specs::vec::axiom_vec_index_decreases(*elements, i as int);
            assert(decreases_to!(*value => (*value)->Vector_0));
        }
        encode_property_value(buf, &elements[i]);
        proof {
            assert(vs.take(i + 1) =~= vs.take(i as int).push(vs[i as int]));
            lemma_enc_pv_seq_push(vs.take(i as int), vs[i as int], tagged);
        }
        i = i + 1;
        assert(buf@ =~= head + enc_pv_seq(vs.take(i as int), tagged));
    }
    assert(vs.take(elements@.len() as int) =~= vs);
    assert(value@ == PropertyValueModel::Vector(vs));
    assert(buf@ =~= old(buf)@ + enc_pv(value@));
}

fn encode_entries(buf: &mut Vec<u8>, entries: &Vec<(String, PropertyValue)>, Ghost(whole): Ghost<&PropertyValue>)
    requires
        *whole == PropertyValue::Properties(*entries),
    ensures
        final(buf)@ == old(buf)@ + enc_pv_entries(entries_view(entries@)),
    decreases whole, 0nat,
{
    let ghost es = entries_view(entries@);
    let mut i: usize = 0;
    while i < entries.len()
        invariant
            i <= entries@.len(),
            es == entries_view(entries@),
            *whole == PropertyValue::Properties(*entries),
            buf@ == old(buf)@ + enc_pv_entries(es.take(i as int)),
        decreases entries@.len() - i,
    {
        let e = &entries[i];
        write_string(buf, e.0.as_str());
        write_word(buf, property_value_type_id(&e.1));
        proof {
            vstd::std_specs::vec::axiom_vec_index_decreases(*entries, i as int);
            assert(decreases_to!(*whole => (*whole)->Properties_0));
            assert(decreases_to!(entries@[i as int] => entries@[i as int].1));
        }
        encode_property_value(buf, &e.1);
        proof {
            assert(es.take(i + 1) =~= es.take(i as int).push(es[i as int]));
            lemma_enc_pv_entries_push(es.take(i as int), es[i as int]);
        }
        i = i + 1;
        assert(buf@ =~= old(buf)@ + enc_pv_entries(es.take(i as int)));
    }
    assert(es.take(entries@.len() as int) =~= es);
}


// --- Exec decoders ---

/// Prepends decoded items to the items decoded after them.
pub open spec fn prepend_dec<T>(xs: Seq<T>, r: Result<(Seq<T>, int), ErrorModel>) -> Result<(Seq<T>, int), ErrorModel> {
    match r {
        Ok((ys, q)) => Ok((xs + ys, q)),
        Err(e) => Err(e),
    }
}

fn read_uuid(b: &[u8], pos: usize) -> (r: Result<([u8; 16], usize), AsepriteError>)
    ensures
        match r {
            Ok((u, p)) => avail(b@, pos as int, 16) && u@ == b@.subrange(pos as int, pos + 16) && p == pos + 16,
            Err(e) => !avail(b@, pos as int, 16) && e is Io,
        },
{
    let mut p = pos;
    let bytes = read_bytes(b, &mut p, 16)?;
    let u: [u8; 16] = [
        bytes[0], bytes[1], bytes[2], bytes[3], bytes[4], bytes[5], bytes[6], bytes[7], bytes[8],
        bytes[9], bytes[10], bytes[11], bytes[12], bytes[13], bytes[14], bytes[15],
    ];
    assert(u@ =~= bytes@);
    Ok((u, p))
}

#[verifier::rlimit(60)]
fn read_scalar_value(b: &[u8], pos: usize, type_id: u16) -> (r: Result<(PropertyValue, usize), AsepriteError>)
    requires
        pos <= b@.len(),
    ensures
        match r {
            Ok((v, p)) => dec_scalar(b@, pos as int, type_id) == Ok::<_, ErrorModel>((v@, p as int)) && pos < p <= b@.len(),
            Err(e) => dec_scalar(b@, pos as int, type_id) == Err::<(PropertyValueModel, int), _>(e@),
        },
{
    reveal(dec_scalar);
    let mut p = pos;
    if type_id == 0x0001 {
        let v = read_byte(b, &mut p)?;
        Ok((PropertyValue::Bool(v != 0), p))
    } else if type_id == 0x0002 {
        let v = read_byte(b, &mut p)?;
        let s: i8 = if v >= 128 { (v as i16 - 256) as i8 } else { v as i8 };
        Ok((PropertyValue::Int8(s), p))
    } else if type_id == 0x0003 {
        let v = read_byte(b, &mut p)?;
        Ok((PropertyValue::UInt8(v), p))
    } else if type_id == 0x0004 {
        let v = read_short(b, &mut p)?;
        Ok((PropertyValue::Int16(v), p))
    } else if type_id == 0x0005 {
        let v = read_word(b, &mut p)?;
        Ok((PropertyValue::UInt16(v), p))
    } else if type_id == 0x0006 {
        let v = read_long(b, &mut p)?;
        Ok((PropertyValue::Int32(v), p))
    } else if type_id == 0x0007 {
        let v = read_dword(b, &mut p)?;
        Ok((PropertyValue::UInt32(v), p))
    } else if type_id == 0x0008 {
        let v = read_long64(b, &mut p)?;
        Ok((PropertyValue::Int64(v), p))
    } else if type_id == 0x0009 {
        let v = read_qword(b, &mut p)?;
        Ok((PropertyValue::UInt64(v), p))
    } else if type_id == 0x000A {
        let v = read_dword(b, &mut p)?;
        Ok((PropertyValue::Fixed(v), p))
    } else if type_id == 0x000B {
        let v = read_dword(b, &mut p)?;
        Ok((PropertyValue::Float(v), p))
    } else if type_id == 0x000C {
        let v = read_qword(b, &mut p)?;
        Ok((PropertyValue::Double(v), p))
    } else if type_id == 0x000D {
        let s = read_string(b, &mut p)?;
        Ok((PropertyValue::String(s), p))
    } else if type_id == 0x000E {
        let x = read_long(b, &mut p)?;
        let y = read_long(b, &mut p)?;
        Ok((PropertyValue::Point(x, y), p))
    } else if type_id == 0x000F {
        let w = read_long(b, &mut p)?;
        let h = read_long(b, &mut p)?;
        Ok((PropertyValue::Size(w, h), p))
    } else if type_id == 0x0010 {
        let x = read_long(b, &mut p)?;
        let y = read_long(b, &mut p)?;
        let w = read_long(b, &mut p)?;
        let h = read_long(b, &mut p)?;
        Ok((PropertyValue::Rect(x, y, w, h), p))
    } else if type_id == 0x0013 {
        let (u, p2) = read_uuid(b, p)?;
        Ok((PropertyValue::Uuid(u), p2))
    } else {
        Err(AsepriteError::UnsupportedChunkType(type_id))
    }
}

/// Reads a value of type `type_id` at `pos`.
pub fn read_property_value(b: &[u8], pos: usize, type_id: u16) -> (r: Result<(PropertyValue, usize), AsepriteError>)
    requires
        pos <= b@.len(),
    ensures
        match r {
            Ok((v, p)) => dec_pv(b@, pos as int, type_id) == Ok::<_, ErrorModel>((v@, p as int)) && pos < p <= b@.len(),
            Err(e) => dec_pv(b@, pos as int, type_id) == Err::<(PropertyValueModel, int), _>(e@),
        },
    decreases b@.len() - pos, 0int,
{
    let mut p = pos;
    if type_id == 0x0011 {
        let count = read_dword(b, &mut p)?;
        let elem_type = read_word(b, &mut p)?;
        let (elements, p2) = read_vector_elements(b, p, count, elem_type)?;
        assert(PropertyValue::Vector(elements)@ == PropertyValueModel::Vector(vec_view(elements@)));
        Ok((PropertyValue::Vector(elements), p2))
    } else if type_id == 0x0012 {
        let count = read_dword(b, &mut p)?;
        let (entries, p2) = read_entries(b, p, count)?;
        assert(PropertyValue::Properties(entries)@ == PropertyValueModel::Properties(entries_view(entries@)));
        Ok((PropertyValue::Properties(entries), p2))
    } else {
        read_scalar_value(b, pos, type_id)
    }
}

fn read_vector_elements(b: &[u8], start: usize, count: u32, elem_type: u16) -> (r: Result<(Vec<PropertyValue>, usize), AsepriteError>)
    requires
        6 <= start <= b@.len(),
    ensures
        match r {
            Ok((v, p)) => dec_pv_seq(b@, start as int, count as nat, elem_type) == Ok::<_, ErrorModel>((vec_view(v@), p as int))
                && start <= p <= b@.len(),
            Err(e) => dec_pv_seq(b@, start as int, count as nat, elem_type) == Err::<(Seq<PropertyValueModel>, int), _>(e@),
        },
    decreases b@.len() - start, 1int,
{
    let mut out: Vec<PropertyValue> = Vec::new();
    let mut p = start;
    let mut i: u32 = 0;
    while i < count
        invariant
            i <= count,
            start <= p <= b@.len(),
            dec_pv_seq(b@, start as int, count as nat, elem_type) == prepend_dec(
                vec_view(out@),
                dec_pv_seq(b@, p as int, (count - i) as nat, elem_type),
            ),
        decreases count - i,
    {
        let ghost rest = dec_pv_seq(b@, p as int, (count - i) as nat, elem_type);
        let (x, p2) = if elem_type == 0 {
            let mut q = p;
            let t = match read_word(b, &mut q) {
                Ok(t) => t,
                Err(e) => {
                    return Err(e);
                },
            };
            match read_property_value(b, q, t) {
                Ok(xp) => xp,
                Err(e) => {
                    return Err(e);
                },
            }
        } else {
            match read_property_value(b, p, elem_type) {
                Ok(xp) => xp,
                Err(e) => {
                    return Err(e);
                },
            }
        };
        let ghost before = out@;
        out.push(x);
        proof {
            assert(vec_view(out@) =~= vec_view(before).push(x@));
            match dec_pv_seq(b@, p2 as int, (count - i - 1) as nat, elem_type) {
                Ok((ys, q)) => {
                    assert(vec_view(before) + (seq![x@] + ys) =~= vec_view(out@) + ys);
                },
                Err(_) => {},
            }
        }
        p = p2;
        i = i + 1;
    }
    assert(vec_view(out@) + Seq::<PropertyValueModel>::empty() =~= vec_view(out@));
    Ok((out, p))
}

pub fn read_entries(b: &[u8], start: usize, count: u32) -> (r: Result<(Vec<(String, PropertyValue)>, usize), AsepriteError>)
    requires
        4 <= start <= b@.len(),
    ensures
        match r {
            Ok((v, p)) => dec_pv_entries(b@, start as int, count as nat) == Ok::<_, ErrorModel>((entries_view(v@), p as int))
                && start <= p <= b@.len(),
            Err(e) => dec_pv_entries(b@, start as int, count as nat) == Err::<(Seq<(Seq<char>, PropertyValueModel)>, int), _>(e@),
        },
    decreases b@.len() - start, 1int,
{
    let mut out: Vec<(String, PropertyValue)> = Vec::new();
    let mut p = start;
    let mut i: u32 = 0;
    while i < count
        invariant
            i <= count,
            start <= p <= b@.len(),
            dec_pv_entries(b@, start as int, count as nat) == prepend_dec(
                entries_view(out@),
                dec_pv_entries(b@, p as int, (count - i) as nat),
            ),
        decreases count - i,
    {
        let mut q = p;
        let name = match read_string(b, &mut q) {
            Ok(s) => s,
            Err(e) => {
                return Err(e);
            },
        };
        let t = match read_word(b, &mut q) {
            Ok(t) => t,
            Err(e) => {
                return Err(e);
            },
        };
        let (v, p2) = match read_property_value(b, q, t) {
            Ok(vp) => vp,
            Err(e) => {
                return Err(e);
            },
        };
        let ghost before = out@;
        let ghost nm = name@;
        out.push((name, v));
        proof {
            assert(entries_view(out@) =~= entries_view(before).push((nm, v@)));
            match dec_pv_entries(b@, p2 as int, (count - i - 1) as nat) {
                Ok((ys, q2)) => {
                    assert(entries_view(before) + (seq![(nm, v@)] + ys) =~= entries_view(out@) + ys);
                },
                Err(_) => {},
            }
        }
        p = p2;
        i = i + 1;
    }
    assert(entries_view(out@) + Seq::<(Seq<char>, PropertyValueModel)>::empty() =~= entries_view(out@));
    Ok((out, p))
}


// --- Reading back what was written ---

/// Whether a value reads back from its bytes: strings fit their 16-bit
/// length, a UUID has 16 bytes, and vectors and nested maps have at most
/// `u32::MAX` elements, each reading back.
pub open spec fn pv_codable(v: PropertyValueModel) -> bool
    decreases v,
{
    match v {
        PropertyValueModel::String(s) => crate::text::str_fits(s),
        PropertyValueModel::Uuid(u) => u.len() == 16,
        PropertyValueModel::Vector(e) => e.len() <= u32::MAX && forall|i: int|
            0 <= i < e.len() ==> pv_codable(#[trigger] e[i]),
        PropertyValueModel::Properties(es) => es.len() <= u32::MAX && forall|i: int|
            0 <= i < es.len() ==> crate::text::str_fits(#[trigger] es[i].0) && pv_codable(es[i].1),
        _ => true,
    }
}

proof fn lemma_i8_roundtrip(x: i8)
    ensures
        i8_of_u8(u8_of_i8(x)) == x,
{
}

#[verifier::spinoff_prover]
#[verifier::rlimit(80)]
proof fn lemma_scalar_roundtrip(v: PropertyValueModel, p: Seq<u8>, q: Seq<u8>)
    requires
        pv_codable(v),
        !(v is Vector),
        !(v is Properties),
    ensures
        dec_scalar(p + enc_pv(v) + q, p.len() as int, pv_type(v)) == Ok::<(PropertyValueModel, int), ErrorModel>(
            (v, (p.len() + enc_pv(v).len()) as int),
        ),
        enc_pv(v).len() >= 1,
{
    reveal(dec_scalar);
    let b = p + enc_pv(v) + q;
    let n = p.len() as int;
    match v {
        PropertyValueModel::Bool(x) => {
            crate::bytes::lemma_read_u8_in(p, if x { 1u8 } else { 0u8 }, q);
        },
        PropertyValueModel::Int8(x) => {
            crate::bytes::lemma_read_u8_in(p, u8_of_i8(x), q);
            lemma_i8_roundtrip(x);
        },
        PropertyValueModel::UInt8(x) => {
            crate::bytes::lemma_read_u8_in(p, x, q);
        },
        PropertyValueModel::Int16(x) => {
            crate::bytes::lemma_read_i16_in(p, x, q);
        },
        PropertyValueModel::UInt16(x) => {
            crate::bytes::lemma_read_u16_in(p, x, q);
        },
        PropertyValueModel::Int32(x) => {
            crate::bytes::lemma_read_i32_in(p, x, q);
        },
        PropertyValueModel::UInt32(x) => {
            crate::bytes::lemma_read_u32_in(p, x, q);
        },
        PropertyValueModel::Int64(x) => {
            crate::bytes::lemma_read_i64_in(p, x, q);
        },
        PropertyValueModel::UInt64(x) => {
            crate::bytes::lemma_read_u64_in(p, x, q);
        },
        PropertyValueModel::Fixed(x) => {
            crate::bytes::lemma_read_u32_in(p, x, q);
        },
        PropertyValueModel::Float(x) => {
            crate::bytes::lemma_read_u32_in(p, x, q);
        },
        PropertyValueModel::Double(x) => {
            crate::bytes::lemma_read_u64_in(p, x, q);
        },
        PropertyValueModel::String(st) => {
            crate::text::lemma_read_str_in(p, st, q);
        },
        PropertyValueModel::Point(x, y) => {
            crate::bytes::lemma_read_i32_in(p, x, le_i32(y) + q);
            assert(b =~= p + le_i32(x) + (le_i32(y) + q));
            crate::bytes::lemma_read_i32_in(p + le_i32(x), y, q);
            assert(b =~= (p + le_i32(x)) + le_i32(y) + q);
        },
        PropertyValueModel::Size(x, y) => {
            crate::bytes::lemma_read_i32_in(p, x, le_i32(y) + q);
            assert(b =~= p + le_i32(x) + (le_i32(y) + q));
            crate::bytes::lemma_read_i32_in(p + le_i32(x), y, q);
            assert(b =~= (p + le_i32(x)) + le_i32(y) + q);
        },
        PropertyValueModel::Rect(x, y, w, h) => {
            let a = le_i32(x);
            let c = le_i32(y);
            let d = le_i32(w);
            let e = le_i32(h);
            crate::bytes::lemma_read_i32_in(p, x, c + d + e + q);
            assert(b =~= p + a + (c + d + e + q));
            crate::bytes::lemma_read_i32_in(p + a, y, d + e + q);
            assert(b =~= (p + a) + c + (d + e + q));
            crate::bytes::lemma_read_i32_in(p + a + c, w, e + q);
            assert(b =~= (p + a + c) + d + (e + q));
            crate::bytes::lemma_read_i32_in(p + a + c + d, h, q);
            assert(b =~= (p + a + c + d) + e + q);
        },
        PropertyValueModel::Uuid(u) => {
            crate::bytes::lemma_read_bytes_in(p, u, q);
        },
        _ => {},
    }
}

/// A value read back from its bytes, whatever surrounds them, is the value
/// written, and its bytes are not empty.
#[verifier::spinoff_prover]
#[verifier::rlimit(80)]
pub proof fn lemma_pv_roundtrip(v: PropertyValueModel, p: Seq<u8>, q: Seq<u8>)
    requires
        pv_codable(v),
    ensures
        dec_pv(p + enc_pv(v) + q, p.len() as int, pv_type(v)) == Ok::<(PropertyValueModel, int), ErrorModel>(
            (v, (p.len() + enc_pv(v).len()) as int),
        ),
        enc_pv(v).len() >= 1,
    decreases v, 1int,
{
    let b = p + enc_pv(v) + q;
    let n = p.len() as int;
    match v {
        PropertyValueModel::Vector(e) => {
            let tagged = !vec_homogeneous(e);
            let et: u16 = if tagged { 0 } else { pv_type(e[0]) };
            let sq = enc_pv_seq(e, tagged);
            assert(enc_pv(v) == le_u32(e.len() as u32) + le_u16(et) + sq);
            crate::bytes::lemma_read_u32_in(p, e.len() as u32, le_u16(et) + sq + q);
            assert(b =~= p + le_u32(e.len() as u32) + (le_u16(et) + sq + q));
            crate::bytes::lemma_read_u16_in(p + le_u32(e.len() as u32), et, sq + q);
            assert(b =~= (p + le_u32(e.len() as u32)) + le_u16(et) + (sq + q));
            let p2 = p + le_u32(e.len() as u32) + le_u16(et);
            assert(b =~= p2 + sq + q);
            assert forall|i: int| 0 <= i < e.len() implies pv_codable(#[trigger] e[i]) && (!tagged ==> pv_type(e[i])
                == et) by {}
            assert(decreases_to!(v => e));
            lemma_pv_seq_roundtrip(e, tagged, et, p2, q);
        },
        PropertyValueModel::Properties(es) => {
            let en = enc_pv_entries(es);
            crate::bytes::lemma_read_u32_in(p, es.len() as u32, en + q);
            assert(b =~= p + le_u32(es.len() as u32) + (en + q));
            let p2 = p + le_u32(es.len() as u32);
            assert(b =~= p2 + en + q);
            assert(decreases_to!(v => es));
            lemma_pv_entries_roundtrip(es, p2, q);
        },
        _ => {
            lemma_scalar_roundtrip(v, p, q);
        },
    }
}

/// Vector elements read back from their bytes.
#[verifier::spinoff_prover]
#[verifier::rlimit(80)]
pub proof fn lemma_pv_seq_roundtrip(s: Seq<PropertyValueModel>, tagged: bool, et: u16, p: Seq<u8>, q: Seq<u8>)
    requires
        forall|i: int| 0 <= i < s.len() ==> pv_codable(#[trigger] s[i]) && (!tagged ==> pv_type(s[i]) == et),
        tagged ==> et == 0,
    ensures
        dec_pv_seq(p + enc_pv_seq(s, tagged) + q, p.len() as int, s.len(), et) == Ok::<
            (Seq<PropertyValueModel>, int),
            ErrorModel,
        >((s, (p.len() + enc_pv_seq(s, tagged).len()) as int)),
    decreases s, 0int,
{
    let b = p + enc_pv_seq(s, tagged) + q;
    if s.len() > 0 {
        let x = s[0];
        let rest = s.drop_first();
        let tag: Seq<u8> = if tagged { le_u16(pv_type(x)) } else { Seq::empty() };
        let ex = enc_pv(x);
        let er = enc_pv_seq(rest, tagged);
        assert(enc_pv_seq(s, tagged) == tag + ex + er);
        assert(decreases_to!(s => s[0]));
        assert(pv_codable(s[0]));
        if tagged {
            crate::bytes::lemma_read_u16_in(p, pv_type(x), ex + er + q);
            assert(b =~= p + tag + (ex + er + q));
            lemma_pv_roundtrip(x, p + tag, er + q);
            assert(b =~= (p + tag) + ex + (er + q));
        } else {
            lemma_pv_roundtrip(x, p, er + q);
            assert(b =~= p + ex + (er + q));
        }
        let p2 = p + tag + ex;
        assert(b =~= p2 + er + q);
        assert forall|i: int| 0 <= i < rest.len() implies pv_codable(#[trigger] rest[i]) && (!tagged ==> pv_type(
            rest[i],
        ) == et) by {
            assert(rest[i] == s[i + 1]);
        }
        assert(decreases_to!(s => s.subrange(1, s.len() as int)));
        assert(rest == s.subrange(1, s.len() as int));
        lemma_pv_seq_roundtrip(rest, tagged, et, p2, q);
        let n = p.len() as int;
        let first = if et == 0 {
            if avail(b, n, 2) {
                dec_pv(b, n + 2, u16_at(b, n))
            } else {
                Err(ErrorModel::Io)
            }
        } else {
            dec_pv(b, n, et)
        };
        assert(first == Ok::<(PropertyValueModel, int), ErrorModel>((x, p2.len() as int)));
        assert(p2.len() > n && p2.len() <= b.len());
        assert(dec_pv_seq(b, p2.len() as int, (s.len() - 1) as nat, et) == Ok::<(Seq<PropertyValueModel>, int), ErrorModel>((rest, (p2.len() + er.len()) as int)));
        assert(seq![x] + rest =~= s);
    } else {
        assert(s =~= Seq::<PropertyValueModel>::empty());
        assert(b =~= p + q);
    }
}

/// Named entries read back from their bytes.
#[verifier::spinoff_prover]
#[verifier::rlimit(80)]
pub proof fn lemma_pv_entries_roundtrip(s: Seq<(Seq<char>, PropertyValueModel)>, p: Seq<u8>, q: Seq<u8>)
    requires
        forall|i: int| 0 <= i < s.len() ==> crate::text::str_fits(#[trigger] s[i].0) && pv_codable(s[i].1),
    ensures
        dec_pv_entries(p + enc_pv_entries(s) + q, p.len() as int, s.len()) == Ok::<
            (Seq<(Seq<char>, PropertyValueModel)>, int),
            ErrorModel,
        >((s, (p.len() + enc_pv_entries(s).len()) as int)),
    decreases s, 0int,
{
    let b = p + enc_pv_entries(s) + q;
    if s.len() > 0 {
        let e = s[0];
        let rest = s.drop_first();
        let sn = enc_str(e.0);
        let ty = le_u16(pv_type(e.1));
        let ev = enc_pv(e.1);
        let er = enc_pv_entries(rest);
        assert(enc_pv_entries(s) == sn + ty + ev + er);
        assert(crate::text::str_fits(s[0].0) && pv_codable(s[0].1));
        crate::text::lemma_read_str_in(p, e.0, ty + ev + er + q);
        assert(b =~= p + sn + (ty + ev + er + q));
        crate::bytes::lemma_read_u16_in(p + sn, pv_type(e.1), ev + er + q);
        assert(b =~= (p + sn) + ty + (ev + er + q));
        assert(decreases_to!(s => s[0]));
        assert(decreases_to!(s[0] => s[0].1));
        lemma_pv_roundtrip(e.1, p + sn + ty, er + q);
        assert(b =~= (p + sn + ty) + ev + (er + q));
        let p2 = p + sn + ty + ev;
        assert(b =~= p2 + er + q);
        assert forall|i: int| 0 <= i < rest.len() implies crate::text::str_fits(#[trigger] rest[i].0) && pv_codable(
            rest[i].1,
        ) by {
            assert(rest[i] == s[i + 1]);
        }
        assert(decreases_to!(s => s.subrange(1, s.len() as int)));
        assert(rest == s.subrange(1, s.len() as int));
        lemma_pv_entries_roundtrip(rest, p2, q);
        assert(seq![(e.0, e.1)] + rest =~= s);
    } else {
        assert(s =~= Seq::<(Seq<char>, PropertyValueModel)>::empty());
        assert(b =~= p + q);
    }
}



/// Whether a properties map reads back: at most `u32::MAX` entries, each
/// name fitting its 16-bit length, each value reading back.
pub open spec fn pmap_codable(m: PropertiesMapModel) -> bool {
    m.entries.len() <= u32::MAX && forall|i: int|
        0 <= i < m.entries.len() ==> crate::text::str_fits(#[trigger] m.entries[i].0) && pv_codable(
            m.entries[i].1,
        )
}

/// A properties map read back from its bytes is the map written.
pub proof fn lemma_pmap_roundtrip(m: PropertiesMapModel, p: Seq<u8>, q: Seq<u8>)
    requires
        pmap_codable(m),
    ensures
        dec_pmap(p + enc_pmap(m) + q, p.len() as int) == Ok::<(PropertiesMapModel, int), ErrorModel>(
            (m, (p.len() + enc_pmap(m).len()) as int),
        ),
{
    let b = p + enc_pmap(m) + q;
    let k = le_u32(m.key);
    let c = le_u32(m.entries.len() as u32);
    let en = enc_pv_entries(m.entries);
    crate::bytes::lemma_read_u32_in(p, m.key, c + en + q);
    assert(b =~= p + k + (c + en + q));
    crate::bytes::lemma_read_u32_in(p + k, m.entries.len() as u32, en + q);
    assert(b =~= (p + k) + c + (en + q));
    lemma_pv_entries_roundtrip(m.entries, p + k + c, q);
    assert(b =~= (p + k + c) + en + q);
}

/// A list of properties maps read back from its bytes is the list written.
pub proof fn lemma_pmaps_roundtrip(s: Seq<PropertiesMapModel>, p: Seq<u8>, q: Seq<u8>)
    requires
        forall|i: int| 0 <= i < s.len() ==> pmap_codable(#[trigger] s[i]),
    ensures
        dec_pmaps(p + enc_pmaps(s) + q, p.len() as int, s.len()) == Ok::<(Seq<PropertiesMapModel>, int), ErrorModel>(
            (s, (p.len() + enc_pmaps(s).len()) as int),
        ),
    decreases s.len(),
{
    let b = p + enc_pmaps(s) + q;
    if s.len() > 0 {
        let m = s[0];
        let rest = s.drop_first();
        let em = enc_pmap(m);
        let er = enc_pmaps(rest);
        assert(pmap_codable(s[0]));
        lemma_pmap_roundtrip(m, p, er + q);
        assert(b =~= p + em + (er + q));
        assert forall|i: int| 0 <= i < rest.len() implies pmap_codable(#[trigger] rest[i]) by {
            assert(rest[i] == s[i + 1]);
        }
        lemma_pmaps_roundtrip(rest, p + em, q);
        assert(b =~= (p + em) + er + q);
        assert(seq![m] + rest =~= s);
    } else {
        assert(s =~= Seq::<PropertiesMapModel>::empty());
    }
}


/// Property values carry the format's type numbers: bool 1, int8 2, uint8
/// 3, int16 4, uint16 5, int32 6, uint32 7, int64 8, uint64 9, fixed 10,
/// float 11, double 12, string 13, point 14, size 15, rect 16, vector 17,
/// properties 18, UUID 19. Reading a value of a type number gives a value
/// of that type; a number outside 1 to 19 is refused as unsupported.
pub proof fn lemma_property_type_numbers(v: PropertyValueModel, b: Seq<u8>, pos: int, t: u16)
    ensures
        pv_type(v) == match v {
            PropertyValueModel::Bool(_) => 1u16,
            PropertyValueModel::Int8(_) => 2u16,
            PropertyValueModel::UInt8(_) => 3u16,
            PropertyValueModel::Int16(_) => 4u16,
            PropertyValueModel::UInt16(_) => 5u16,
            PropertyValueModel::Int32(_) => 6u16,
            PropertyValueModel::UInt32(_) => 7u16,
            PropertyValueModel::Int64(_) => 8u16,
            PropertyValueModel::UInt64(_) => 9u16,
            PropertyValueModel::Fixed(_) => 10u16,
            PropertyValueModel::Float(_) => 11u16,
            PropertyValueModel::Double(_) => 12u16,
            PropertyValueModel::String(_) => 13u16,
            PropertyValueModel::Point(_, _) => 14u16,
            PropertyValueModel::Size(_, _) => 15u16,
            PropertyValueModel::Rect(_, _, _, _) => 16u16,
            PropertyValueModel::Vector(_) => 17u16,
            PropertyValueModel::Properties(_) => 18u16,
            PropertyValueModel::Uuid(_) => 19u16,
        },
        dec_pv(b, pos, t) matches Ok((x, _)) ==> pv_type(x) == t,
        0 <= pos <= b.len() && (t == 0 || t > 19) ==> dec_pv(b, pos, t) == Err::<(PropertyValueModel, int), ErrorModel>(
            ErrorModel::UnsupportedChunkType(t),
        ),
{
    reveal(dec_scalar);
}

} // verus!
