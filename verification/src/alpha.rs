//! Conversions between premultiplied and straight alpha for RGBA bytes.

use vstd::prelude::*;

verus! {

/// A color component premultiplied by alpha `a` (0 < a < 255) made
/// straight again, rounded to nearest and capped at 255.
pub open spec fn unpremultiply(c: u8, a: u8) -> u8 {
    let v = (c * 255 + a / 2) / (a as int);
    if v > 255 { 255 } else { v as u8 }
}

/// A straight color component multiplied by alpha `a`, rounded to nearest.
pub open spec fn premultiply(c: u8, a: u8) -> u8 {
    ((c * a + 127) / 255) as u8
}

/// Byte `i` of `d` after converting each whole RGBA pixel with `f`: a
/// pixel with alpha 0 becomes black, one with alpha 255 stays, others have
/// their color components converted; alpha bytes and a trailing partial
/// pixel stay.
pub open spec fn converted_byte(d: Seq<u8>, i: int, to_straight: bool) -> u8 {
    let base = i - i % 4;
    if base + 4 > d.len() || i % 4 == 3 {
        d[i]
    } else {
        let a = d[base + 3];
        if a == 0 {
            0
        } else if a < 255 {
            if to_straight {
                unpremultiply(d[i], a)
            } else {
                premultiply(d[i], a)
            }
        } else {
            d[i]
        }
    }
}

/// The bytes after converting every whole pixel.
pub open spec fn converted(d: Seq<u8>, to_straight: bool) -> Seq<u8> {
    Seq::new(d.len(), |i: int| converted_byte(d, i, to_straight))
}

fn unpremultiply_exec(c: u8, a: u8) -> (r: u8)
    requires
        0 < a < 255,
    ensures
        r == unpremultiply(c, a),
{
    assert(c * 255 + a / 2 <= 255 * 255 + 127) by (nonlinear_arith)
        requires
            c <= 255,
            a <= 255,
    ;
    let v: u16 = (c as u16 * 255 + a as u16 / 2) / a as u16;
    if v > 255 {
        255
    } else {
        v as u8
    }
}

fn premultiply_exec(c: u8, a: u8) -> (r: u8)
    ensures
        r == premultiply(c, a),
{
    assert(c * a + 127 <= 255 * 255 + 127) by (nonlinear_arith)
        requires
            c <= 255,
            a <= 255,
    ;
    assert((c * a + 127) / 255 <= 255) by (nonlinear_arith)
        requires
            c * a + 127 <= 255 * 255 + 127,
    ;
    ((c as u16 * a as u16 + 127) / 255) as u8
}

fn convert(data: &mut Vec<u8>, to_straight: bool)
    ensures
        final(data)@ == converted(old(data)@, to_straight),
{
    let ghost d = data@;
    let n = data.len();
    let mut i: usize = 0;
    while i <= n && n - i >= 4
        invariant
            n == d.len(),
            data@.len() == n,
            i % 4 == 0,
            i <= n,
            forall|k: int| 0 <= k < i ==> data@[k] == converted_byte(d, k, to_straight),
            forall|k: int| i <= k < n ==> data@[k] == d[k],
        decreases n - i,
    {
        let a = data[i + 3];
        if a == 0 {
            data.set(i, 0);
            data.set(i + 1, 0);
            data.set(i + 2, 0);
        } else if a < 255 {
            let c0 = data[i];
            let c1 = data[i + 1];
            let c2 = data[i + 2];
            if to_straight {
                data.set(i, unpremultiply_exec(c0, a));
                data.set(i + 1, unpremultiply_exec(c1, a));
                data.set(i + 2, unpremultiply_exec(c2, a));
            } else {
                data.set(i, premultiply_exec(c0, a));
                data.set(i + 1, premultiply_exec(c1, a));
                data.set(i + 2, premultiply_exec(c2, a));
            }
        }
        proof {
            assert forall|k: int| i <= k < i + 4 implies data@[k] == converted_byte(d, k, to_straight) by {
                assert(k - k % 4 == i);
            }
        }
        i = i + 4;
    }
    proof {
        assert forall|k: int| i <= k < n implies data@[k] == converted_byte(d, k, to_straight) by {
            assert(k - k % 4 + 4 > n);
        }
    }
    assert(data@ =~= converted(d, to_straight));
}

/// Premultiplying sets each color byte of a whole pixel to the color times
/// the pixel's alpha over 255, rounded to nearest, for every alpha (so a
/// pixel with alpha 0 becomes black and one with alpha 255 keeps its
/// color), which is never above the alpha; making straight sets it to the
/// color times 255 over the alpha, rounded to nearest and capped at 255,
/// and a pixel with alpha 0 to black. Alpha bytes and the bytes of a
/// trailing partial pixel stay as they are.
pub proof fn lemma_conversion_values(d: Seq<u8>, i: int)
    requires
        0 <= i < d.len(),
    ensures
        ({
            let base = i - i % 4;
            let a = d[base + 3] as int;
            let c = d[i] as int;
            &&& converted(d, false).len() == d.len() && converted(d, true).len() == d.len()
            &&& base + 4 > d.len() || i % 4 == 3 ==> converted(d, false)[i] == d[i] && converted(d, true)[i] == d[i]
            &&& base + 4 <= d.len() && i % 4 != 3 ==> {
                &&& converted(d, false)[i] == (c * a + 127) / 255
                &&& converted(d, false)[i] <= converted(d, false)[base + 3]
                &&& a == 0 ==> converted(d, true)[i] == 0
                &&& a > 0 ==> converted(d, true)[i] == if (c * 255 + a / 2) / a > 255 {
                    255
                } else {
                    (c * 255 + a / 2) / a
                }
            }
        }),
{
    let base = i - i % 4;
    if base + 4 <= d.len() && i % 4 != 3 {
        let a = d[base + 3] as int;
        let c = d[i] as int;
        assert((base + 3) - (base + 3) % 4 == base);
        assert(converted(d, false)[base + 3] == d[base + 3]);
        assert(0 <= (c * a + 127) / 255 <= a) by (nonlinear_arith)
            requires
                0 <= c <= 255,
                0 <= a <= 255,
        ;
        if a == 255 {
            vstd::arithmetic::div_mod::lemma_fundamental_div_mod_converse(c * a + 127, 255, c, 127);
        }
        if a == 0 {
            assert(c * a == 0) by (nonlinear_arith)
                requires
                    a == 0,
            ;
        }
    }
}

/// A component no greater than its alpha (0 < a < 255), made straight and
/// premultiplied again, comes back unchanged.
pub proof fn lemma_premultiply_unpremultiply(c: u8, a: u8)
    requires
        0 < a < 255,
        c <= a,
    ensures
        premultiply(unpremultiply(c, a), a) == c,
{
    let h: int = (a / 2) as int;
    let n: int = c * 255 + h;
    let ai: int = a as int;
    let v: int = n / ai;
    let r: int = n % ai;
    vstd::arithmetic::div_mod::lemma_fundamental_div_mod(n, ai);
    assert(0 <= r < ai);
    assert(ai * v < ai * 256 && ai * v > ai * -1);
    assert(0 <= v <= 255) by (nonlinear_arith)
        requires
            ai * v < ai * 256,
            ai * v > ai * -1,
            0 < ai,
    ;
    assert(unpremultiply(c, a) == v);
    let u: u8 = v as u8;
    assert(u * ai + 127 == c * 255 + (h - r + 127)) by (nonlinear_arith)
        requires
            u == v,
            n == ai * v + r,
            n == c * 255 + h,
    ;
    assert(0 <= h - r + 127 < 255);
    vstd::arithmetic::div_mod::lemma_fundamental_div_mod_converse(u * ai + 127, 255, c as int, h - r + 127);
}

/// Valid premultiplied data (no color component of a whole pixel above
/// its alpha) made straight and premultiplied again comes back unchanged.
pub proof fn lemma_premultiplied_round_trip(d: Seq<u8>)
    requires
        forall|i: int|
            0 <= i && i - i % 4 + 4 <= d.len() && i % 4 != 3 ==> #[trigger] d[i] <= d[i - i % 4 + 3],
    ensures
        converted(converted(d, true), false) == d,
{
    let s = converted(d, true);
    assert forall|i: int| 0 <= i < d.len() implies #[trigger] converted(s, false)[i] == d[i] by {
        let base = i - i % 4;
        if base + 4 <= d.len() && i % 4 != 3 {
            assert((base + 3) - (base + 3) % 4 == base);
            assert(s[base + 3] == d[base + 3]);
            let a = d[base + 3];
            assert(d[i] <= a);
            if 0 < a < 255 {
                lemma_premultiply_unpremultiply(d[i], a);
            }
        }
    }
    assert(converted(s, false) =~= d);
}

/// Converts premultiplied-alpha RGBA to straight-alpha RGBA, in place.
pub fn premultiplied_to_straight(data: &mut Vec<u8>)
    ensures
        final(data)@ == converted(old(data)@, true),
{
    convert(data, true)
}

/// Converts straight-alpha RGBA to premultiplied-alpha RGBA, in place.
pub fn straight_to_premultiplied(data: &mut Vec<u8>)
    ensures
        final(data)@ == converted(old(data)@, false),
{
    convert(data, false)
}

} // verus!
