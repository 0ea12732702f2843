//! The region, size and rotation parameters of Image API requests: their
//! grammar, their text, and how they resolve against image dimensions.
//! Fractional values (percentages, angles) are exact decimals; scaling
//! rounds the exact quotient half away from zero and saturates into `u32`.
use vstd::prelude::*;

use crate::decimal::{
    decimal_text, isqrt, is_isqrt, lemma_mul_le, parse_decimal, parse_decimal_exec, push_decimal_text,
    round_div, sat_u32, scaled_round, Decimal,
};
use crate::error::IiifError;
use crate::text::{
    concat2, decimal, decimal_string, parse_unsigned, parse_unsigned_exec, pow10, push_decimal,
    slice_chars, split_chars, split_on, starts_with, starts_with_chars, str_chars, str_eq,
    string_from_chars,
};

verus! {

/// Whether `e` is a `BadRequest` with message `m`.
pub open spec fn is_bad_request(e: IiifError, m: Seq<char>) -> bool {
    e == IiifError::BadRequest(e->BadRequest_0) && e->BadRequest_0@ == m
}

/// Whether an outcome is the value, or the `BadRequest` with the message,
/// that `s` describes.
pub open spec fn outcome_is<T>(r: Result<T, IiifError>, s: Result<T, Seq<char>>) -> bool {
    match s {
        Ok(v) => r == Ok::<T, IiifError>(v),
        Err(m) => r matches Err(e) && is_bad_request(e, m),
    }
}

/// The `u32` a text stands for, with the grammar of `u32::from_str`.
pub open spec fn u32_of(s: Seq<char>) -> Option<u32> {
    match parse_unsigned(s, u32::MAX as nat) {
        Some(v) => Some(v as u32),
        None => None,
    }
}

fn bad_request(parts: &[&str]) -> (e: IiifError)
    ensures
        is_bad_request(e, concat_all(parts@)),
{
    let mut m = String::new();
    let mut i: usize = 0;
    while i < parts.len()
        invariant
            i <= parts@.len(),
            m@ == concat_all(parts@.take(i as int)),
        decreases parts@.len() - i,
    {
        assert(parts@.take(i + 1).drop_last() =~= parts@.take(i as int));
        m.append(parts[i]);
        i = i + 1;
    }
    assert(parts@.take(parts@.len() as int) =~= parts@);
    IiifError::BadRequest(m)
}

/// The texts of some string slices, one after the other.
pub open spec fn concat_all(parts: Seq<&str>) -> Seq<char>
    decreases parts.len(),
{
    if parts.len() == 0 {
        Seq::empty()
    } else {
        concat_all(parts.drop_last()) + parts.last()@
    }
}

/// Parses a `u32` field of a region: `Invalid integer for {field}: {s}` on
/// failure.
pub fn parse_u32(s: &str, field: &str) -> (r: Result<u32, IiifError>)
    ensures
        outcome_is(
            r,
            match u32_of(s@) {
                Some(v) => Ok(v),
                None => Err("Invalid integer for "@ + field@ + ": "@ + s@),
            },
        ),
{
    let cs = str_chars(s);
    match parse_unsigned_exec(cs.as_slice(), 0xffff_ffff) {
        Some(v) => Ok(v as u32),
        None => {
            let e = bad_request(&["Invalid integer for ", field, ": ", s]);
            proof {
                reveal_strlit("Invalid integer for ");
                reveal_strlit(": ");
                assert(concat_all(seq!["Invalid integer for ", field, ": ", s]) =~= "Invalid integer for "@
                    + field@ + ": "@ + s@) by {
                    reveal_with_fuel(concat_all, 5);
                }
            }
            Err(e)
        },
    }
}

/// Parses a fractional field of a region: `Invalid number for {field}: {s}`
/// on failure.
pub fn parse_float(s: &str, field: &str) -> (r: Result<Decimal, IiifError>)
    ensures
        outcome_is(
            r,
            match parse_decimal(s@) {
                Some(d) => Ok(d),
                None => Err("Invalid number for "@ + field@ + ": "@ + s@),
            },
        ),
        r matches Ok(d) ==> d.wf(),
{
    let cs = str_chars(s);
    match parse_decimal_exec(cs.as_slice()) {
        Some(d) => Ok(d),
        None => {
            let e = bad_request(&["Invalid number for ", field, ": ", s]);
            proof {
                assert(concat_all(seq!["Invalid number for ", field, ": ", s]) =~= "Invalid number for "@
                    + field@ + ": "@ + s@) by {
                    reveal_with_fuel(concat_all, 5);
                }
            }
            Err(e)
        },
    }
}

/// Image API region parameter: which area of the full image to extract.
#[derive(Debug, Clone, Copy, PartialEq, Eq)]
pub enum Region {
    /// The full image, no cropping.
    Full,
    /// A square region centered on the shorter dimension.
    Square,
    /// Absolute pixel coordinates.
    Absolute { x: u32, y: u32, w: u32, h: u32 },
    /// Percentage coordinates.
    Percent { x: Decimal, y: Decimal, w: Decimal, h: Decimal },
}

/// The region a parameter stands for, or the message refusing it.
pub open spec fn region_spec(s: Seq<char>) -> Result<Region, Seq<char>> {
    if s == "full"@ {
        Ok(Region::Full)
    } else if s == "square"@ {
        Ok(Region::Square)
    } else if starts_with(s, "pct:"@) {
        let p = split_on(s.skip(4), ',');
        if p.len() != 4 {
            Err("Percent region requires exactly 4 values, got "@ + decimal(p.len()))
        } else if parse_decimal(p[0]) is None {
            Err("Invalid number for region x: "@ + p[0])
        } else if parse_decimal(p[1]) is None {
            Err("Invalid number for region y: "@ + p[1])
        } else if parse_decimal(p[2]) is None {
            Err("Invalid number for region w: "@ + p[2])
        } else if parse_decimal(p[3]) is None {
            Err("Invalid number for region h: "@ + p[3])
        } else {
            let x = parse_decimal(p[0])->0;
            let y = parse_decimal(p[1])->0;
            let w = parse_decimal(p[2])->0;
            let h = parse_decimal(p[3])->0;
            if x.is_below_zero() || y.is_below_zero() || w.is_below_zero() || h.is_below_zero() {
                Err("Region percentage values must be non-negative"@)
            } else {
                Ok(Region::Percent { x, y, w, h })
            }
        }
    } else {
        let p = split_on(s, ',');
        if p.len() != 4 {
            Err("Absolute region requires exactly 4 values, got "@ + decimal(p.len()))
        } else if u32_of(p[0]) is None {
            Err("Invalid integer for region x: "@ + p[0])
        } else if u32_of(p[1]) is None {
            Err("Invalid integer for region y: "@ + p[1])
        } else if u32_of(p[2]) is None {
            Err("Invalid integer for region w: "@ + p[2])
        } else if u32_of(p[3]) is None {
            Err("Invalid integer for region h: "@ + p[3])
        } else {
            Ok(
                Region::Absolute {
                    x: u32_of(p[0])->0,
                    y: u32_of(p[1])->0,
                    w: u32_of(p[2])->0,
                    h: u32_of(p[3])->0,
                },
            )
        }
    }
}

/// What a region resolves to against an image: `(x, y, width, height)`
/// within the image, or the message refusing it.
pub open spec fn region_box(r: Region, iw: u32, ih: u32) -> Result<(u32, u32, u32, u32), Seq<char>> {
    match r {
        Region::Full => Ok((0, 0, iw, ih)),
        Region::Square => {
            let side = if iw <= ih {
                iw
            } else {
                ih
            };
            Ok((((iw - side) / 2) as u32, ((ih - side) / 2) as u32, side, side))
        },
        Region::Absolute { x, y, w, h } => {
            if w == 0 || h == 0 {
                Err("Region width and height must be greater than zero"@)
            } else if x >= iw || y >= ih {
                Err("Region is entirely outside image bounds"@)
            } else {
                Ok((x, y, min_u32(w, (iw - x) as u32), min_u32(h, (ih - y) as u32)))
            }
        },
        Region::Percent { x, y, w, h } => {
            if w.num() <= 0 || h.num() <= 0 {
                Err("Region percentage width and height must be greater than zero"@)
            } else {
                let ax = scaled_round(x, iw as nat, 100);
                let ay = scaled_round(y, ih as nat, 100);
                let aw = scaled_round(w, iw as nat, 100);
                let ah = scaled_round(h, ih as nat, 100);
                if ax >= iw || ay >= ih {
                    Err("Region is entirely outside image bounds"@)
                } else {
                    Ok(
                        (
                            ax,
                            ay,
                            max_u32(min_u32(aw, (iw - ax) as u32), 1),
                            max_u32(min_u32(ah, (ih - ay) as u32), 1),
                        ),
                    )
                }
            }
        },
    }
}

pub open spec fn min_u32(a: u32, b: u32) -> u32 {
    if a <= b {
        a
    } else {
        b
    }
}

pub open spec fn max_u32(a: u32, b: u32) -> u32 {
    if a >= b {
        a
    } else {
        b
    }
}

/// The decimal of each region value is well formed.
pub open spec fn region_wf(r: Region) -> bool {
    match r {
        Region::Percent { x, y, w, h } => x.wf() && y.wf() && w.wf() && h.wf(),
        _ => true,
    }
}

fn four_parts(parts: &Vec<Vec<char>>) -> (r: [String; 4])
    requires
        parts@.len() == 4,
    ensures
        r[0]@ == parts@[0]@,
        r[1]@ == parts@[1]@,
        r[2]@ == parts@[2]@,
        r[3]@ == parts@[3]@,
{
    [
        string_from_chars(&parts[0]),
        string_from_chars(&parts[1]),
        string_from_chars(&parts[2]),
        string_from_chars(&parts[3]),
    ]
}

proof fn lemma_field_messages()
    ensures
        "Invalid number for "@ + "region x"@ + ": "@ == "Invalid number for region x: "@,
        "Invalid number for "@ + "region y"@ + ": "@ == "Invalid number for region y: "@,
        "Invalid number for "@ + "region w"@ + ": "@ == "Invalid number for region w: "@,
        "Invalid number for "@ + "region h"@ + ": "@ == "Invalid number for region h: "@,
        "Invalid integer for "@ + "region x"@ + ": "@ == "Invalid integer for region x: "@,
        "Invalid integer for "@ + "region y"@ + ": "@ == "Invalid integer for region y: "@,
        "Invalid integer for "@ + "region w"@ + ": "@ == "Invalid integer for region w: "@,
        "Invalid integer for "@ + "region h"@ + ": "@ == "Invalid integer for region h: "@,
{
    reveal_strlit("Invalid number for ");
    reveal_strlit("Invalid integer for ");
    reveal_strlit(": ");
    reveal_strlit("region x");
    reveal_strlit("region y");
    reveal_strlit("region w");
    reveal_strlit("region h");
    reveal_strlit("Invalid number for region x: ");
    reveal_strlit("Invalid number for region y: ");
    reveal_strlit("Invalid number for region w: ");
    reveal_strlit("Invalid number for region h: ");
    reveal_strlit("Invalid integer for region x: ");
    reveal_strlit("Invalid integer for region y: ");
    reveal_strlit("Invalid integer for region w: ");
    reveal_strlit("Invalid integer for region h: ");
    assert("Invalid number for "@ + "region x"@ + ": "@ =~= "Invalid number for region x: "@);
    assert("Invalid number for "@ + "region y"@ + ": "@ =~= "Invalid number for region y: "@);
    assert("Invalid number for "@ + "region w"@ + ": "@ =~= "Invalid number for region w: "@);
    assert("Invalid number for "@ + "region h"@ + ": "@ =~= "Invalid number for region h: "@);
    assert("Invalid integer for "@ + "region x"@ + ": "@ =~= "Invalid integer for region x: "@);
    assert("Invalid integer for "@ + "region y"@ + ": "@ =~= "Invalid integer for region y: "@);
    assert("Invalid integer for "@ + "region w"@ + ": "@ =~= "Invalid integer for region w: "@);
    assert("Invalid integer for "@ + "region h"@ + ": "@ =~= "Invalid integer for region h: "@);
}

/// A resolved region lies within the image, and is at least one pixel wide
/// and high whenever the image is.
pub proof fn lemma_region_within_image(r: Region, iw: u32, ih: u32)
    requires
        region_box(r, iw, ih) is Ok,
    ensures
        ({
            let (x, y, w, h) = region_box(r, iw, ih)->Ok_0;
            &&& x + w <= iw
            &&& y + h <= ih
            &&& (iw > 0 && ih > 0 ==> w >= 1 && h >= 1)
        }),
{
}

impl Region {
    /// Parses a region parameter: `full`, `square`, `pct:x,y,w,h` or
    /// `x,y,w,h`; every refusal is a `BadRequest`.
    pub fn parse(s: &str) -> (r: Result<Region, IiifError>)
        ensures
            outcome_is(r, region_spec(s@)),
            r matches Ok(reg) ==> region_wf(reg),
    {
        proof {
            reveal_strlit("full");
            reveal_strlit("square");
            reveal_strlit("pct:");
            lemma_field_messages();
        }
        if str_eq(s, "full") {
            return Ok(Region::Full);
        }
        if str_eq(s, "square") {
            return Ok(Region::Square);
        }
        let cs = str_chars(s);
        let pct = str_chars("pct:");
        if starts_with_chars(cs.as_slice(), pct.as_slice()) {
            let coords = slice_chars(&cs, 4, cs.len());
            assert(coords@ == s@.skip(4));
            let parts = split_chars(&coords, ',');
            if parts.len() != 4 {
                let n = decimal_string(parts.len() as u64);
                return Err(
                    IiifError::BadRequest(
                        concat2("Percent region requires exactly 4 values, got ", n.as_str()),
                    ),
                );
            }
            let p = four_parts(&parts);
            let x = match parse_float(p[0].as_str(), "region x") {
                Ok(val) => val,
                Err(e) => {
                    return Err(e);
                },
            };
            let y = match parse_float(p[1].as_str(), "region y") {
                Ok(val) => val,
                Err(e) => {
                    return Err(e);
                },
            };
            let w = match parse_float(p[2].as_str(), "region w") {
                Ok(val) => val,
                Err(e) => {
                    return Err(e);
                },
            };
            let h = match parse_float(p[3].as_str(), "region h") {
                Ok(val) => val,
                Err(e) => {
                    return Err(e);
                },
            };
            if x.below_zero() || y.below_zero() || w.below_zero() || h.below_zero() {
                return Err(
                    IiifError::BadRequest(
                        String::from_str("Region percentage values must be non-negative"),
                    ),
                );
            }
            Ok(Region::Percent { x, y, w, h })
        } else {
            let parts = split_chars(&cs, ',');
            if parts.len() != 4 {
                let n = decimal_string(parts.len() as u64);
                return Err(
                    IiifError::BadRequest(
                        concat2("Absolute region requires exactly 4 values, got ", n.as_str()),
                    ),
                );
            }
            let p = four_parts(&parts);
            let x = match parse_u32(p[0].as_str(), "region x") {
                Ok(val) => val,
                Err(e) => {
                    return Err(e);
                },
            };
            let y = match parse_u32(p[1].as_str(), "region y") {
                Ok(val) => val,
                Err(e) => {
                    return Err(e);
                },
            };
            let w = match parse_u32(p[2].as_str(), "region w") {
                Ok(val) => val,
                Err(e) => {
                    return Err(e);
                },
            };
            let h = match parse_u32(p[3].as_str(), "region h") {
                Ok(val) => val,
                Err(e) => {
                    return Err(e);
                },
            };
            Ok(Region::Absolute { x, y, w, h })
        }
    }

    /// Resolves the region to `(x, y, width, height)` within an image of
    /// the given size.
    pub fn resolve(&self, img_width: u32, img_height: u32) -> (r: Result<(u32, u32, u32, u32), IiifError>)
        requires
            region_wf(*self),
        ensures
            outcome_is(r, region_box(*self, img_width, img_height)),
    {
        match self {
            Region::Full => Ok((0, 0, img_width, img_height)),
            Region::Square => {
                let side = if img_width <= img_height {
                    img_width
                } else {
                    img_height
                };
                Ok(((img_width - side) / 2, (img_height - side) / 2, side, side))
            },
            Region::Absolute { x, y, w, h } => {
                if *w == 0 || *h == 0 {
                    return Err(
                        IiifError::BadRequest(
                            String::from_str("Region width and height must be greater than zero"),
                        ),
                    );
                }
                if *x >= img_width || *y >= img_height {
                    return Err(
                        IiifError::BadRequest(String::from_str("Region is entirely outside image bounds")),
                    );
                }
                let cw = if *w <= img_width - *x {
                    *w
                } else {
                    img_width - *x
                };
                let ch = if *h <= img_height - *y {
                    *h
                } else {
                    img_height - *y
                };
                Ok((*x, *y, cw, ch))
            },
            Region::Percent { x, y, w, h } => {
                if w.at_most_zero() || h.at_most_zero() {
                    return Err(
                        IiifError::BadRequest(
                            String::from_str(
                                "Region percentage width and height must be greater than zero",
                            ),
                        ),
                    );
                }
                let ax = x.scaled_round(img_width, 100);
                let ay = y.scaled_round(img_height, 100);
                let aw = w.scaled_round(img_width, 100);
                let ah = h.scaled_round(img_height, 100);
                if ax >= img_width || ay >= img_height {
                    return Err(
                        IiifError::BadRequest(String::from_str("Region is entirely outside image bounds")),
                    );
                }
                let cw0 = if aw <= img_width - ax {
                    aw
                } else {
                    img_width - ax
                };
                let ch0 = if ah <= img_height - ay {
                    ah
                } else {
                    img_height - ay
                };
                let cw = if cw0 >= 1 {
                    cw0
                } else {
                    1
                };
                let ch = if ch0 >= 1 {
                    ch0
                } else {
                    1
                };
                Ok((ax, ay, cw, ch))
            },
        }
    }
}


/// `value * target / reference` rounded, at least 1, saturated into `u32`;
/// 1 when the reference is zero.
pub open spec fn scaled(value: u32, target: u32, reference: u32) -> u32 {
    if reference == 0 {
        1
    } else {
        let q = round_div((value * target) as nat, reference as nat);
        sat_u32(if q >= 1 {
            q
        } else {
            1
        })
    }
}

/// Scale `value` proportionally: `value * target / reference`.
pub fn scale_dimension(value: u32, target: u32, reference: u32) -> (r: u32)
    ensures
        r == scaled(value, target, reference),
{
    if reference == 0 {
        return 1;
    }
    proof {
        lemma_mul_le(value as nat, target as nat, 0xffff_ffff, 0xffff_ffff);
    }
    let a: u128 = (value as u128) * (target as u128);
    let b: u128 = reference as u128;
    let q: u128 = (2 * a + b) / (2 * b);
    let q1: u128 = if q >= 1 {
        q
    } else {
        1
    };
    if q1 > 0xffff_ffff {
        0xffff_ffff
    } else {
        q1 as u32
    }
}

/// `round(v * num / den)`, at least 1, saturated into `u32`.
pub open spec fn rounded_at_least_one(v: nat, num: nat, den: nat) -> u32 {
    let q = round_div(v * num, den);
    sat_u32(if q >= 1 {
        q
    } else {
        1
    })
}

/// The largest size with the aspect ratio of `src_w × src_h` that fits in
/// `max_w × max_h`, each side at least 1.
pub open spec fn fitted(src_w: u32, src_h: u32, max_w: u32, max_h: u32) -> (u32, u32) {
    if src_w == 0 && src_h == 0 {
        (1, 1)
    } else if src_w == 0 {
        (1, max_u32(max_h, 1))
    } else if src_h == 0 {
        (max_u32(max_w, 1), 1)
    } else if max_w * src_h <= max_h * src_w {
        (max_u32(max_w, 1), rounded_at_least_one(src_h as nat, max_w as nat, src_w as nat))
    } else {
        (rounded_at_least_one(src_w as nat, max_h as nat, src_h as nat), max_u32(max_h, 1))
    }
}

fn round_scaled(v: u32, num: u32, den: u32) -> (r: u32)
    requires
        den > 0,
    ensures
        r == rounded_at_least_one(v as nat, num as nat, den as nat),
{
    proof {
        lemma_mul_le(v as nat, num as nat, 0xffff_ffff, 0xffff_ffff);
    }
    let a: u128 = (v as u128) * (num as u128);
    let b: u128 = den as u128;
    let q: u128 = (2 * a + b) / (2 * b);
    let q1: u128 = if q >= 1 {
        q
    } else {
        1
    };
    if q1 > 0xffff_ffff {
        0xffff_ffff
    } else {
        q1 as u32
    }
}

/// Dimensions that fit within `max_w × max_h` while keeping the aspect
/// ratio of `src_w × src_h`.
pub fn fit_within(src_w: u32, src_h: u32, max_w: u32, max_h: u32) -> (r: (u32, u32))
    ensures
        r == fitted(src_w, src_h, max_w, max_h),
{
    let mw1 = if max_w >= 1 {
        max_w
    } else {
        1
    };
    let mh1 = if max_h >= 1 {
        max_h
    } else {
        1
    };
    proof {
        lemma_mul_le(max_w as nat, src_h as nat, 0xffff_ffff, 0xffff_ffff);
        lemma_mul_le(max_h as nat, src_w as nat, 0xffff_ffff, 0xffff_ffff);
    }
    let width_bound = (max_w as u64) * (src_h as u64) <= (max_h as u64) * (src_w as u64);
    if src_w == 0 && src_h == 0 {
        (1, 1)
    } else if src_w == 0 {
        (1, mh1)
    } else if src_h == 0 {
        (mw1, 1)
    } else if width_bound {
        (mw1, round_scaled(src_h, max_w, src_w))
    } else {
        (round_scaled(src_w, max_h, src_h), mh1)
    }
}

/// The `w,h` pair a text stands for, or the message refusing it.
pub open spec fn wh_spec(s: Seq<char>) -> Result<(u32, u32), Seq<char>> {
    let p = split_on(s, ',');
    if p.len() != 2 {
        Err("Expected w,h but got: "@ + s)
    } else if u32_of(p[0]) is None {
        Err("Invalid width: "@ + p[0])
    } else if u32_of(p[1]) is None {
        Err("Invalid height: "@ + p[1])
    } else if u32_of(p[0])->0 == 0 || u32_of(p[1])->0 == 0 {
        Err("Width and height must be greater than zero"@)
    } else {
        Ok((u32_of(p[0])->0, u32_of(p[1])->0))
    }
}

/// Parses `w,h`, both positive.
pub fn parse_wh(s: &str) -> (r: Result<(u32, u32), IiifError>)
    ensures
        outcome_is(r, wh_spec(s@)),
{
    let cs = str_chars(s);
    let parts = split_chars(&cs, ',');
    if parts.len() != 2 {
        return Err(IiifError::BadRequest(concat2("Expected w,h but got: ", s)));
    }
    let w = match parse_unsigned_exec(parts[0].as_slice(), 0xffff_ffff) {
        Some(v) => v as u32,
        None => {
            let t = string_from_chars(&parts[0]);
            return Err(IiifError::BadRequest(concat2("Invalid width: ", t.as_str())));
        },
    };
    let h = match parse_unsigned_exec(parts[1].as_slice(), 0xffff_ffff) {
        Some(v) => v as u32,
        None => {
            let t = string_from_chars(&parts[1]);
            return Err(IiifError::BadRequest(concat2("Invalid height: ", t.as_str())));
        },
    };
    if w == 0 || h == 0 {
        return Err(
            IiifError::BadRequest(String::from_str("Width and height must be greater than zero")),
        );
    }
    Ok((w, h))
}

/// How a size is given.
#[derive(Debug, Clone, Copy, PartialEq, Eq)]
pub enum SizeMode {
    /// As large as the region, within server limits.
    Max,
    /// A width, keeping the aspect ratio.
    Width(u32),
    /// A height, keeping the aspect ratio.
    Height(u32),
    /// A percentage of the region.
    Percent(Decimal),
    /// Exact width and height (may distort).
    Exact { w: u32, h: u32 },
    /// The largest size within a box, keeping the aspect ratio.
    BestFit { w: u32, h: u32 },
}

/// Image API size parameter.
#[derive(Debug, Clone, Copy, PartialEq, Eq)]
pub struct Size {
    pub mode: SizeMode,
    /// Whether upscaling beyond the region is allowed (`^` prefix).
    pub upscale: bool,
}

/// Whether a character sequence holds `c`.
pub open spec fn holds_char(s: Seq<char>, c: char) -> bool {
    s.contains(c)
}

/// The size a parameter stands for, or the message refusing it.
pub open spec fn size_spec(s: Seq<char>) -> Result<Size, Seq<char>> {
    let upscale = s.len() > 0 && s[0] == '^';
    let input = if upscale {
        s.drop_first()
    } else {
        s
    };
    let mode: Result<SizeMode, Seq<char>> = if input == "max"@ {
        Ok(SizeMode::Max)
    } else if starts_with(input, "pct:"@) {
        let rest = input.skip(4);
        match parse_decimal(rest) {
            Some(d) => Ok(SizeMode::Percent(d)),
            None => Err("Invalid percentage value: "@ + rest),
        }
    } else if input.len() > 0 && input[0] == '!' {
        match wh_spec(input.drop_first()) {
            Ok((w, h)) => Ok(SizeMode::BestFit { w, h }),
            Err(m) => Err(m),
        }
    } else if input.len() > 0 && input.last() == ',' {
        let w = input.drop_last();
        match u32_of(w) {
            Some(v) => Ok(SizeMode::Width(v)),
            None => Err("Invalid width value: "@ + w),
        }
    } else if input.len() > 0 && input[0] == ',' {
        let h = input.drop_first();
        match u32_of(h) {
            Some(v) => Ok(SizeMode::Height(v)),
            None => Err("Invalid height value: "@ + h),
        }
    } else if holds_char(input, ',') {
        match wh_spec(input) {
            Ok((w, h)) => Ok(SizeMode::Exact { w, h }),
            Err(m) => Err(m),
        }
    } else {
        Err("Invalid size parameter: "@ + s)
    };
    match mode {
        Ok(m) => Ok(Size { mode: m, upscale }),
        Err(e) => Err(e),
    }
}

/// The size a request asks for before server limits, or the message
/// refusing it.
pub open spec fn requested_size(size: Size, rw: u32, rh: u32) -> Result<(u32, u32), Seq<char>> {
    match size.mode {
        SizeMode::Max => Ok((rw, rh)),
        SizeMode::Width(tw) => if !size.upscale && tw > rw {
            Err("Requested width exceeds region width and upscaling is not enabled"@)
        } else {
            Ok((tw, scaled(rh, tw, rw)))
        },
        SizeMode::Height(th) => if !size.upscale && th > rh {
            Err("Requested height exceeds region height and upscaling is not enabled"@)
        } else {
            Ok((scaled(rw, th, rh), th))
        },
        SizeMode::Percent(p) => if !size.upscale && p.num() > 100 * p.den() {
            Err("Percentage exceeds 100% and upscaling is not enabled"@)
        } else if p.num() <= 0 {
            Err("Percentage must be greater than zero"@)
        } else {
            (Ok((max_u32(scaled_round(p, rw as nat, 100), 1), max_u32(scaled_round(p, rh as nat, 100), 1))))
        },
        SizeMode::Exact { w, h } => if !size.upscale && (w > rw || h > rh) {
            Err("Requested dimensions exceed region and upscaling is not enabled"@)
        } else {
            Ok((w, h))
        },
        SizeMode::BestFit { w, h } => if !size.upscale && (w > rw || h > rh) {
            Err("Requested bounding box exceeds region and upscaling is not enabled"@)
        } else {
            Ok(fitted(rw, rh, w, h))
        },
    }
}

/// The integer square root.
pub open spec fn int_sqrt(x: nat) -> nat {
    choose|r: nat| is_isqrt(x, r)
}

proof fn lemma_isqrt_unique(x: nat, a: nat, b: nat)
    requires
        is_isqrt(x, a),
        is_isqrt(x, b),
    ensures
        a == b,
{
    if a < b {
        assert((a + 1) * (a + 1) <= b * b) by (nonlinear_arith)
            requires
                a + 1 <= b,
        ;
    } else if b < a {
        assert((b + 1) * (b + 1) <= a * a) by (nonlinear_arith)
            requires
                b + 1 <= a,
        ;
    }
}

/// A size cut down to the server's limits: width, then height, then area
/// (both sides scaled by the square root of the area ratio, rounded down).
pub open spec fn limited_size(
    w: u32,
    h: u32,
    max_width: Option<u32>,
    max_height: Option<u32>,
    max_area: Option<u64>,
) -> (u32, u32) {
    let (w1, h1) = match max_width {
        Some(mw) => if w > mw {
            (mw, scaled(h, mw, w))
        } else {
            (w, h)
        },
        None => (w, h),
    };
    let (w2, h2) = match max_height {
        Some(mh) => if h1 > mh {
            (scaled(w1, mh, h1), mh)
        } else {
            (w1, h1)
        },
        None => (w1, h1),
    };
    match max_area {
        Some(ma) => if w2 * h2 > ma {
            (int_sqrt((w2 as nat) * (ma as nat) / (h2 as nat)) as u32, int_sqrt((h2 as nat) * (ma as nat) / (w2 as nat)) as u32)
        } else {
            (w2, h2)
        },
        None => (w2, h2),
    }
}

/// What a size resolves to against a region and server limits: at least
/// 1×1, or the message refusing it.
pub open spec fn size_box(
    size: Size,
    rw: u32,
    rh: u32,
    max_width: Option<u32>,
    max_height: Option<u32>,
    max_area: Option<u64>,
) -> Result<(u32, u32), Seq<char>> {
    match requested_size(size, rw, rh) {
        Ok((w, h)) => {
            let (lw, lh) = limited_size(w, h, max_width, max_height, max_area);
            Ok((max_u32(lw, 1), max_u32(lh, 1)))
        },
        Err(m) => Err(m),
    }
}

/// Rounding `a / b` to the nearest integer (halves up) gives the `q` with
/// `2bq <= 2a + b < 2b(q + 1)`.
proof fn lemma_round_div_bounds(a: nat, b: nat)
    requires
        b > 0,
    ensures
        2 * b * round_div(a, b) <= 2 * a + b,
        2 * a + b < 2 * b * (round_div(a, b) + 1),
{
    let n = 2 * a + b;
    let d = 2 * b;
    assert(d * (n / d) <= n && n < d * (n / d + 1)) by (nonlinear_arith)
        requires
            d > 0,
    ;
    assert(round_div(a, b) == n / d);
}

/// The rounded proportional side: `target * value / reference` rounded to
/// the nearest pixel, kept within `1 ..= u32::MAX`.
proof fn lemma_scaled_nearest(value: u32, target: u32, reference: u32)
    requires
        reference > 0,
    ensures
        scaled(value, target, reference) >= 1,
        scaled(value, target, reference) > 1 ==> 2 * scaled(value, target, reference) * reference
            <= 2 * value * target + reference,
        scaled(value, target, reference) < u32::MAX ==> 2 * value * target + reference < 2 * (
        scaled(value, target, reference) + 1) * reference,
{
    let a = (value * target) as nat;
    let b = reference as nat;
    lemma_round_div_bounds(a, b);
    let q = round_div(a, b);
    let w = scaled(value, target, reference);
    assert(value * target >= 0) by (nonlinear_arith);
    assert(a == value * target);
    if q == 0 {
        assert(w == 1);
        assert(2 * value * target + reference < 2 * (w + 1) * reference) by (nonlinear_arith)
            requires
                w == 1,
                q == 0,
                2 * a + b < 2 * b * (q + 1),
                a == value * target,
                b == reference,
        ;
    } else if q > u32::MAX {
        assert(w == u32::MAX);
        assert(2 * w * reference <= 2 * value * target + reference) by (nonlinear_arith)
            requires
                w < q,
                2 * b * q <= 2 * a + b,
                a == value * target,
                b == reference,
        ;
    } else {
        assert(w == q);
        assert(2 * w * reference <= 2 * value * target + reference) by (nonlinear_arith)
            requires
                w == q,
                2 * b * q <= 2 * a + b,
                a == value * target,
                b == reference,
        ;
        assert(2 * value * target + reference < 2 * (w + 1) * reference) by (nonlinear_arith)
            requires
                w == q,
                2 * a + b < 2 * b * (q + 1),
                a == value * target,
                b == reference,
        ;
    }
}

/// A `,h` size keeps the region's aspect ratio: with no server limits, the
/// height is the one asked for (at least 1), and the width is the region
/// width scaled by the same factor, rounded to the nearest pixel, at least 1
/// (and at most `u32::MAX`).
pub proof fn lemma_height_size_keeps_aspect(rw: u32, rh: u32, th: u32, upscale: bool)
    requires
        rh > 0,
        upscale || th <= rh,
    ensures
        size_box(Size { mode: SizeMode::Height(th), upscale }, rw, rh, None, None, None) matches Ok((w, h))
            && h == (if th == 0 {
            1
        } else {
            th
        }) && w >= 1 && (w > 1 ==> 2 * w * rh <= 2 * rw * th + rh) && (w < u32::MAX ==> 2 * rw * th + rh
            < 2 * (w + 1) * rh),
{
    lemma_scaled_nearest(rw, th, rh);
}

/// With no server limits, `max` gives the whole region and `w,h` gives the
/// size asked for (each side at least 1), whenever upscaling is allowed or
/// the size fits the region.
pub proof fn lemma_max_and_exact_sizes(rw: u32, rh: u32, w: u32, h: u32, upscale: bool)
    ensures
        size_box(Size { mode: SizeMode::Max, upscale }, rw, rh, None, None, None) == Ok::<(u32, u32), Seq<char>>(
            (max_u32(rw, 1), max_u32(rh, 1)),
        ),
        upscale || (w <= rw && h <= rh) ==> size_box(
            Size { mode: SizeMode::Exact { w, h }, upscale },
            rw,
            rh,
            None,
            None,
            None,
        ) == Ok::<(u32, u32), Seq<char>>((max_u32(w, 1), max_u32(h, 1))),
        !upscale && (w > rw || h > rh) ==> size_box(
            Size { mode: SizeMode::Exact { w, h }, upscale },
            rw,
            rh,
            None,
            None,
            None,
        ) is Err,
{
}

/// A `w,` size keeps the region's aspect ratio: with no server limits, the
/// width is the one asked for (at least 1), and the height is the region
/// height scaled by the same factor, rounded to the nearest pixel, at least
/// 1 (and at most `u32::MAX`).
pub proof fn lemma_width_size_keeps_aspect(rw: u32, rh: u32, tw: u32, upscale: bool)
    requires
        rw > 0,
        upscale || tw <= rw,
    ensures
        size_box(Size { mode: SizeMode::Width(tw), upscale }, rw, rh, None, None, None) matches Ok((w, h))
            && w == (if tw == 0 {
            1
        } else {
            tw
        }) && h >= 1 && (h > 1 ==> 2 * h * rw <= 2 * rh * tw + rw) && (h < u32::MAX ==> 2 * rh * tw + rw
            < 2 * (h + 1) * rw),
{
    lemma_scaled_nearest(rh, tw, rw);
}

/// The decimal of a percentage size is well formed.
pub open spec fn size_wf(s: Size) -> bool {
    match s.mode {
        SizeMode::Percent(p) => p.wf(),
        _ => true,
    }
}

fn area_side(a: u32, ma: u64, b: u32) -> (r: u32)
    requires
        b > 0,
        (a as nat) * (b as nat) > ma,
    ensures
        r == int_sqrt((a as nat) * (ma as nat) / (b as nat)) as u32,
        r <= a,
{
    proof {
        lemma_mul_le(a as nat, ma as nat, 0xffff_ffff, 0xffff_ffff_ffff_ffff);
    }
    let num: u128 = (a as u128) * (ma as u128);
    let q: u128 = num / (b as u128);
    let r = isqrt(q);
    proof {
        assert(is_isqrt(q as nat, r as nat));
        let c = int_sqrt(q as nat);
        assert(exists|x: nat| is_isqrt(q as nat, x));
        assert(is_isqrt(q as nat, c));
        lemma_isqrt_unique(q as nat, r as nat, c);
        assert(q * b <= num) by (nonlinear_arith)
            requires
                q == num / (b as u128),
                b > 0,
        ;
        assert(r * r <= q);
        assert(r <= a) by (nonlinear_arith)
            requires
                r * r <= q,
                q * b <= a * ma,
                a * b > ma,
                b > 0,
        {
            if r > a {
                assert(r * r >= (a + 1) * (a + 1));
                assert(q >= (a + 1) * (a + 1));
                assert(q * b >= (a + 1) * (a + 1) * b);
                assert(a * ma < a * (a * b) + 1 || a == 0);
            }
        }
    }
    r as u32
}

/// `round(v * t / r)` is at most `v` when `t <= r`.
proof fn lemma_round_div_le(v: nat, t: nat, r: nat)
    requires
        r > 0,
        t <= r,
    ensures
        round_div(v * t, r) <= v,
{
    assert(2 * (v * t) + r < (2 * r) * (v + 1)) by (nonlinear_arith)
        requires
            t <= r,
            r > 0,
    ;
    assert((2 * (v * t) + r) / (2 * r) < v + 1) by (nonlinear_arith)
        requires
            2 * (v * t) + r < (2 * r) * (v + 1),
            r > 0,
    ;
}

/// Scaling a side by a ratio of at most one keeps it at most the side (or 1).
proof fn lemma_scaled_le(v: u32, t: u32, r: u32)
    requires
        t <= r,
    ensures
        scaled(v, t, r) <= max_u32(v, 1),
{
    if r > 0 {
        lemma_round_div_le(v as nat, t as nat, r as nat);
    }
}

/// A percentage of at most 100 of a side is at most the side.
proof fn lemma_percent_le(p: Decimal, side: u32)
    requires
        !p.is_below_zero(),
        p.num() <= 100 * p.den(),
        p.den() > 0,
    ensures
        scaled_round(p, side as nat, 100) <= side,
{
    let m = p.mantissa as nat;
    let d = p.den();
    let sv = side as nat;
    assert(m <= 100 * d) by {
        if p.negative {
            assert(p.mantissa == 0);
        }
    }
    assert(2 * (m * sv) + 100 * d < (2 * (100 * d)) * (sv + 1)) by (nonlinear_arith)
        requires
            m <= 100 * d,
            d > 0,
    ;
    assert((2 * (m * sv) + 100 * d) / (2 * (100 * d)) < sv + 1) by (nonlinear_arith)
        requires
            2 * (m * sv) + 100 * d < (2 * (100 * d)) * (sv + 1),
            d > 0,
    ;
}

/// Fitting into a box no larger than the source keeps within the source.
proof fn lemma_fitted_le(sw: u32, sh: u32, bw: u32, bh: u32)
    requires
        bw <= sw,
        bh <= sh,
    ensures
        fitted(sw, sh, bw, bh).0 <= max_u32(sw, 1),
        fitted(sw, sh, bw, bh).1 <= max_u32(sh, 1),
{
    if sw > 0 && sh > 0 {
        if bw * sh <= bh * sw {
            lemma_round_div_le(sh as nat, bw as nat, sw as nat);
        } else {
            lemma_round_div_le(sw as nat, bh as nat, sh as nat);
        }
    }
}

/// The server limits never enlarge a size (beyond a side of 1).
proof fn lemma_limited_le(w: u32, h: u32, max_width: Option<u32>, max_height: Option<u32>, max_area: Option<u64>)
    ensures
        limited_size(w, h, max_width, max_height, max_area).0 <= max_u32(w, 1),
        limited_size(w, h, max_width, max_height, max_area).1 <= max_u32(h, 1),
        match max_width {
            Some(mw) => mw >= 1 ==> limited_size(w, h, max_width, max_height, max_area).0 <= mw,
            None => true,
        },
        match max_height {
            Some(mh) => mh >= 1 ==> limited_size(w, h, max_width, max_height, max_area).1 <= mh,
            None => true,
        },
{
    let (w1, h1) = match max_width {
        Some(mw) => if w > mw {
            (mw, scaled(h, mw, w))
        } else {
            (w, h)
        },
        None => (w, h),
    };
    match max_width {
        Some(mw) => if w > mw {
            lemma_scaled_le(h, mw, w);
        },
        None => {},
    }
    let (w2, h2) = match max_height {
        Some(mh) => if h1 > mh {
            (scaled(w1, mh, h1), mh)
        } else {
            (w1, h1)
        },
        None => (w1, h1),
    };
    match max_height {
        Some(mh) => if h1 > mh {
            lemma_scaled_le(w1, mh, h1);
        },
        None => {},
    }
    match max_area {
        Some(ma) => if w2 * h2 > ma {
            lemma_area_side_le(w2, ma, h2);
            lemma_area_side_le(h2, ma, w2);
        },
        None => {},
    }
}

/// The side the area limit leaves is at most the side it shrinks.
proof fn lemma_area_side_le(a: u32, ma: u64, b: u32)
    requires
        (a as nat) * (b as nat) > ma,
    ensures
        int_sqrt((a as nat) * (ma as nat) / (b as nat)) <= a,
{
    let q = (a as nat) * (ma as nat) / (b as nat);
    assert(b > 0) by (nonlinear_arith)
        requires
            (a as nat) * (b as nat) > ma,
    ;
    assert(exists|x: nat| is_isqrt(q, x)) by {
        crate::decimal::lemma_isqrt_exists(q);
    }
    let c = int_sqrt(q);
    assert(is_isqrt(q, c));
    assert(q * b <= a * ma) by (nonlinear_arith)
        requires
            q == (a as nat) * (ma as nat) / (b as nat),
            b > 0,
    ;
    assert(c <= a) by (nonlinear_arith)
        requires
            c * c <= q,
            q * b <= a * ma,
            a * b > ma,
            b > 0,
    {
        if c > a {
            assert(c * c > a * a);
            assert(a * a * b <= q * b);
            assert(a * (a * b) > a * ma);
        }
    }
}

/// Without `^`, a resolved size never exceeds its region (beyond a side of
/// 1), and with server width or height limits it stays within them.
pub proof fn lemma_size_within_region(
    size: Size,
    rw: u32,
    rh: u32,
    max_width: Option<u32>,
    max_height: Option<u32>,
    max_area: Option<u64>,
)
    requires
        size_wf(size),
        size_box(size, rw, rh, max_width, max_height, max_area) is Ok,
    ensures
        ({
            let (w, h) = size_box(size, rw, rh, max_width, max_height, max_area)->Ok_0;
            &&& !size.upscale ==> w <= max_u32(rw, 1) && h <= max_u32(rh, 1)
            &&& match max_width {
                Some(mw) => mw >= 1 ==> w <= mw,
                None => true,
            }
            &&& match max_height {
                Some(mh) => mh >= 1 ==> h <= mh,
                None => true,
            }
        }),
{
    let (w0, h0) = requested_size(size, rw, rh)->Ok_0;
    lemma_limited_le(w0, h0, max_width, max_height, max_area);
    if !size.upscale {
        match size.mode {
            SizeMode::Width(tw) => {
                lemma_scaled_le(rh, tw, rw);
            },
            SizeMode::Height(th) => {
                lemma_scaled_le(rw, th, rh);
            },
            SizeMode::Percent(p) => {
                crate::decimal::lemma_pow10_monotone(p.scale as nat, p.scale as nat);
                lemma_percent_le(p, rw);
                lemma_percent_le(p, rh);
            },
            SizeMode::BestFit { w, h } => {
                lemma_fitted_le(rw, rh, w, h);
            },
            _ => {},
        }
    }
}

impl Size {
    /// Parses a size parameter: `[^]max`, `[^]pct:n`, `[^]w,`, `[^],h`,
    /// `[^]w,h` or `[^]!w,h`; every refusal is a `BadRequest`.
    pub fn parse(s: &str) -> (r: Result<Size, IiifError>)
        ensures
            outcome_is(r, size_spec(s@)),
            r matches Ok(z) ==> size_wf(z),
    {
        proof {
            reveal_strlit("max");
            reveal_strlit("pct:");
        }
        let all = str_chars(s);
        let upscale = all.len() > 0 && all[0] == '^';
        let input = if upscale {
            slice_chars(&all, 1, all.len())
        } else {
            slice_chars(&all, 0, all.len())
        };
        assert(input@ == (if upscale {
            s@.drop_first()
        } else {
            s@
        }));
        let text = string_from_chars(&input);
        let pct = str_chars("pct:");
        let mode = if str_eq(text.as_str(), "max") {
            SizeMode::Max
        } else if starts_with_chars(input.as_slice(), pct.as_slice()) {
            let rest = slice_chars(&input, 4, input.len());
            assert(rest@ == input@.skip(4));
            match parse_decimal_exec(rest.as_slice()) {
                Some(d) => SizeMode::Percent(d),
                None => {
                    let t = string_from_chars(&rest);
                    return Err(IiifError::BadRequest(concat2("Invalid percentage value: ", t.as_str())));
                },
            }
        } else if input.len() > 0 && input[0] == '!' {
            let rest = slice_chars(&input, 1, input.len());
            let t = string_from_chars(&rest);
            assert(t@ == input@.drop_first());
            match parse_wh(t.as_str()) {
                Ok((w, h)) => SizeMode::BestFit { w, h },
                Err(e) => {
                    return Err(e);
                },
            }
        } else if input.len() > 0 && input[input.len() - 1] == ',' {
            let w = slice_chars(&input, 0, input.len() - 1);
            assert(w@ == input@.drop_last());
            match parse_unsigned_exec(w.as_slice(), 0xffff_ffff) {
                Some(v) => SizeMode::Width(v as u32),
                None => {
                    let t = string_from_chars(&w);
                    return Err(IiifError::BadRequest(concat2("Invalid width value: ", t.as_str())));
                },
            }
        } else if input.len() > 0 && input[0] == ',' {
            let h = slice_chars(&input, 1, input.len());
            assert(h@ == input@.drop_first());
            match parse_unsigned_exec(h.as_slice(), 0xffff_ffff) {
                Some(v) => SizeMode::Height(v as u32),
                None => {
                    let t = string_from_chars(&h);
                    return Err(IiifError::BadRequest(concat2("Invalid height value: ", t.as_str())));
                },
            }
        } else if contains_comma(&input) {
            match parse_wh(text.as_str()) {
                Ok((w, h)) => SizeMode::Exact { w, h },
                Err(e) => {
                    return Err(e);
                },
            }
        } else {
            return Err(IiifError::BadRequest(concat2("Invalid size parameter: ", s)));
        };
        Ok(Size { mode, upscale })
    }

    /// Resolves to the final `(width, height)` for a region of
    /// `region_w × region_h` under the server's limits.
    pub fn resolve(
        &self,
        region_w: u32,
        region_h: u32,
        max_width: Option<u32>,
        max_height: Option<u32>,
        max_area: Option<u64>,
    ) -> (r: Result<(u32, u32), IiifError>)
        requires
            size_wf(*self),
        ensures
            outcome_is(r, size_box(*self, region_w, region_h, max_width, max_height, max_area)),
    {
        match self.requested(region_w, region_h) {
            Ok((w0, h0)) => {
                let (w, h) = apply_limits(w0, h0, max_width, max_height, max_area);
                Ok((
                    if w >= 1 {
                        w
                    } else {
                        1
                    },
                    if h >= 1 {
                        h
                    } else {
                        1
                    },
                ))
            },
            Err(e) => Err(e),
        }
    }

    /// The size asked for, before server limits.
    fn requested(&self, region_w: u32, region_h: u32) -> (r: Result<(u32, u32), IiifError>)
        requires
            size_wf(*self),
        ensures
            outcome_is(r, requested_size(*self, region_w, region_h)),
    {
        let r: (u32, u32) = match self.mode {
            SizeMode::Max => (region_w, region_h),
            SizeMode::Width(tw) => {
                if !self.upscale && tw > region_w {
                    return Err(
                        IiifError::BadRequest(
                            String::from_str(
                                "Requested width exceeds region width and upscaling is not enabled",
                            ),
                        ),
                    );
                }
                (tw, scale_dimension(region_h, tw, region_w))
            },
            SizeMode::Height(th) => {
                if !self.upscale && th > region_h {
                    return Err(
                        IiifError::BadRequest(
                            String::from_str(
                                "Requested height exceeds region height and upscaling is not enabled",
                            ),
                        ),
                    );
                }
                (scale_dimension(region_w, th, region_h), th)
            },
            SizeMode::Percent(p) => {
                if !self.upscale && p.greater_than(100) {
                    return Err(
                        IiifError::BadRequest(
                            String::from_str("Percentage exceeds 100% and upscaling is not enabled"),
                        ),
                    );
                }
                if p.at_most_zero() {
                    return Err(
                        IiifError::BadRequest(String::from_str("Percentage must be greater than zero")),
                    );
                }
                let tw = p.scaled_round(region_w, 100);
                let th = p.scaled_round(region_h, 100);
                (
                    if tw >= 1 {
                        tw
                    } else {
                        1
                    },
                    if th >= 1 {
                        th
                    } else {
                        1
                    },
                )
            },
            SizeMode::Exact { w: tw, h: th } => {
                if !self.upscale && (tw > region_w || th > region_h) {
                    return Err(
                        IiifError::BadRequest(
                            String::from_str(
                                "Requested dimensions exceed region and upscaling is not enabled",
                            ),
                        ),
                    );
                }
                (tw, th)
            },
            SizeMode::BestFit { w: bw, h: bh } => {
                if !self.upscale && (bw > region_w || bh > region_h) {
                    return Err(
                        IiifError::BadRequest(
                            String::from_str(
                                "Requested bounding box exceeds region and upscaling is not enabled",
                            ),
                        ),
                    );
                }
                fit_within(region_w, region_h, bw, bh)
            },
        };
        Ok(r)
    }
}

/// Cuts a size down to the server's limits.
fn apply_limits(
    w0: u32,
    h0: u32,
    max_width: Option<u32>,
    max_height: Option<u32>,
    max_area: Option<u64>,
) -> (r: (u32, u32))
    ensures
        r == limited_size(w0, h0, max_width, max_height, max_area),
{
    let mut w = w0;
    let mut h = h0;
    match max_width {
        Some(mw) => {
            if w > mw {
                h = scale_dimension(h, mw, w);
                w = mw;
            }
        },
        None => {},
    }
    match max_height {
        Some(mh) => {
            if h > mh {
                w = scale_dimension(w, mh, h);
                h = mh;
            }
        },
        None => {},
    }
    match max_area {
        Some(ma) => {
            proof {
                lemma_mul_le(w as nat, h as nat, 0xffff_ffff, 0xffff_ffff);
            }
            let area: u64 = (w as u64) * (h as u64);
            if area > ma {
                let nw = area_side(w, ma, h);
                let nh = area_side(h, ma, w);
                w = nw;
                h = nh;
            }
        },
        None => {},
    }
    (w, h)
}

fn contains_comma(s: &Vec<char>) -> (r: bool)
    ensures
        r == holds_char(s@, ','),
{
    let mut i: usize = 0;
    while i < s.len()
        invariant
            i <= s@.len(),
            forall|j: int| 0 <= j < i ==> s@[j] != ',',
        decreases s@.len() - i,
    {
        if s[i] == ',' {
            assert(s@[i as int] == ',');
            return true;
        }
        i = i + 1;
    }
    false
}

/// Image API rotation parameter: an optional mirror, then a clockwise
/// rotation in degrees.
#[derive(Debug, Clone, Copy, PartialEq, Eq)]
pub struct Rotation {
    /// Whether to mirror the image along the vertical axis before rotating.
    pub mirror: bool,
    /// Clockwise rotation in degrees.
    pub degrees: Decimal,
}

/// The rotation a parameter stands for, or the message refusing it.
pub open spec fn rotation_spec(s: Seq<char>) -> Result<Rotation, Seq<char>> {
    let mirror = s.len() > 0 && s[0] == '!';
    let input = if mirror {
        s.drop_first()
    } else {
        s
    };
    if input.len() == 0 {
        Err("Rotation value must not be empty"@)
    } else {
        match parse_decimal(input) {
            None => Err("Invalid rotation value: "@ + input),
            Some(d) => if d.is_below_zero() || d.num() > 360 * d.den() {
                Err("Rotation must be between 0 and 360, got "@ + decimal_text(d))
            } else {
                Ok(Rotation { mirror, degrees: d })
            },
        }
    }
}

/// The text of a rotation: `!` when mirrored, then the whole number of
/// degrees when the angle is whole, else the angle itself.
pub open spec fn rotation_text(r: Rotation) -> Seq<char> {
    let prefix: Seq<char> = if r.mirror {
        "!"@
    } else {
        Seq::empty()
    };
    let d = r.degrees;
    if (d.mantissa as nat) % d.den() == 0 {
        let whole: nat = if d.negative {
            0
        } else {
            sat_u32((d.mantissa as nat) / d.den()) as nat
        };
        prefix + decimal(whole)
    } else {
        prefix + decimal_text(d)
    }
}

impl Rotation {
    /// Parses a rotation parameter: `[!]degrees` with degrees from 0 to
    /// 360; every refusal is a `BadRequest`.
    pub fn parse(s: &str) -> (r: Result<Rotation, IiifError>)
        ensures
            outcome_is(r, rotation_spec(s@)),
            r matches Ok(rot) ==> rot.degrees.wf(),
    {
        let all = str_chars(s);
        let mirror = all.len() > 0 && all[0] == '!';
        let input = if mirror {
            slice_chars(&all, 1, all.len())
        } else {
            slice_chars(&all, 0, all.len())
        };
        assert(input@ == (if mirror {
            s@.drop_first()
        } else {
            s@
        }));
        if input.len() == 0 {
            return Err(IiifError::BadRequest(String::from_str("Rotation value must not be empty")));
        }
        match parse_decimal_exec(input.as_slice()) {
            None => {
                let t = string_from_chars(&input);
                Err(IiifError::BadRequest(concat2("Invalid rotation value: ", t.as_str())))
            },
            Some(d) => {
                if d.below_zero() || d.greater_than(360) {
                    let mut m = String::from_str("Rotation must be between 0 and 360, got ");
                    push_decimal_text(&mut m, &d);
                    Err(IiifError::BadRequest(m))
                } else {
                    Ok(Rotation { mirror, degrees: d })
                }
            },
        }
    }

    /// Whether the rotation changes nothing: no mirror, and 0 or 360 degrees.
    pub fn is_noop(&self) -> (r: bool)
        requires
            self.degrees.wf(),
        ensures
            r == (!self.mirror && (self.degrees.num() == 0 || self.degrees.num() == 360
                * self.degrees.den())),
    {
        !self.mirror && (self.degrees.equals_int(0) || self.degrees.equals_int(360))
    }

    /// Whether the angle is a multiple of 90 degrees.
    pub fn is_orthogonal(&self) -> (r: bool)
        requires
            self.degrees.wf(),
        ensures
            r == ((self.degrees.mantissa as nat) % (90 * self.degrees.den()) == 0),
    {
        let p = crate::decimal::pow10_exec(self.degrees.scale);
        let m: u128 = 90u128 * (p as u128);
        (self.degrees.mantissa as u128) % m == 0
    }

    /// The rotation as written in a request path.
    pub fn to_text(&self) -> (r: String)
        requires
            self.degrees.wf(),
        ensures
            r@ == rotation_text(*self),
    {
        let mut out = String::new();
        if self.mirror {
            out.append("!");
        }
        let p = crate::decimal::pow10_exec(self.degrees.scale);
        let d = self.degrees;
        if d.mantissa % p == 0 {
            let ip = d.mantissa / p;
            let whole: u64 = if d.negative {
                0
            } else if ip > 0xffff_ffff {
                0xffff_ffff
            } else {
                ip
            };
            push_decimal(&mut out, whole);
        } else {
            push_decimal_text(&mut out, &d);
        }
        proof {
            reveal_strlit("!");
        }
        out
    }
}

} // verus!
