use vstd::prelude::*;
use vstd::string::StringSliceAdditionalSpecFns;
use crate::tags::{Tags, parse_int, opt_int, parse_i32, is_digit, digits_value, lemma_digits_grow};

verus! {

/// Run-wide settings of the synthesis.
pub struct Args {
    /// Horizontal/vertical scale in thousandths (1000 is a scale of 1.0).
    pub scale_milli: u32,
    /// Whether roofs get a layer of snow.
    pub winter: bool,
}

/// `v` scaled by `m` thousandths, rounded half up, never below 3.
pub open spec fn story_height(v: int, m: int) -> int {
    if v * m <= 0 {
        3
    } else if (2 * v * m + 1000) / 2000 < 3 {
        3
    } else {
        (2 * v * m + 1000) / 2000
    }
}

/// The integer that the tag `k` holds, if it holds one.
pub open spec fn tag_int(tags: Tags, k: Seq<char>) -> Option<int> {
    match tags.get_spec(k) {
        Some(v) => parse_int(vstd::utf8::encode_utf8(v)),
        None => None,
    }
}

/// Lowest level of the building; 0 when absent or unreadable.
pub open spec fn min_level_spec(tags: Tags) -> int {
    match tag_int(tags, "building:min_level"@) {
        Some(v) => v,
        None => 0,
    }
}

/// Features below ground (a negative `layer` or `level`) are not built.
pub open spec fn rejected_spec(tags: Tags) -> bool {
    (tag_int(tags, "layer"@) matches Some(v) && v < 0)
    || (tag_int(tags, "level"@) matches Some(v) && v < 0)
}

pub open spec fn is_space(b: u8) -> bool {
    b == 32u8 || b == 9u8 || b == 10u8 || b == 11u8 || b == 13u8 || b == 12u8
}

pub open spec fn strip_unit(s: Seq<u8>) -> Seq<u8>
    decreases s.len(),
{
    if s.len() > 0 && s.last() == 109u8 {
        strip_unit(s.drop_last())
    } else {
        s
    }
}

pub open spec fn trim_end(s: Seq<u8>) -> Seq<u8>
    decreases s.len(),
{
    if s.len() > 0 && is_space(s.last()) {
        trim_end(s.drop_last())
    } else {
        s
    }
}

pub open spec fn trim_start(s: Seq<u8>) -> Seq<u8>
    decreases s.len(),
{
    if s.len() > 0 && is_space(s[0]) {
        trim_start(s.drop_first())
    } else {
        s
    }
}

/// Number of leading decimal digits of `s`.
pub open spec fn lead_digits(s: Seq<u8>) -> int
    decreases s.len(),
{
    if s.len() > 0 && is_digit(s[0]) {
        1 + lead_digits(s.drop_first())
    } else {
        0
    }
}

/// The first three digits of a fraction, in thousandths.
pub open spec fn fraction_milli(f: Seq<u8>) -> int {
    if f.len() >= 3 {
        digits_value(f.subrange(0, 3))
    } else if f.len() == 2 {
        digits_value(f) * 10
    } else if f.len() == 1 {
        digits_value(f) * 100
    } else {
        0
    }
}

/// An unsigned decimal number (digits, optionally a point and more digits, at least one
/// digit in all, whole part below 2^31) in thousandths; fraction digits past the third
/// are dropped.
pub open spec fn unsigned_milli(b: Seq<u8>) -> Option<int> {
    let d = lead_digits(b);
    let whole = digits_value(b.subrange(0, d));
    let rest = b.subrange(d, b.len() as int);
    if whole > i32::MAX {
        None
    } else if rest.len() == 0 {
        if d > 0 { Some(whole * 1000) } else { None }
    } else if rest[0] == 46u8 && (forall|i: int| 1 <= i < rest.len() ==> is_digit(#[trigger] rest[i]))
        && (d > 0 || rest.len() > 1) {
        Some(whole * 1000 + fraction_milli(rest.drop_first()))
    } else {
        None
    }
}

/// A signed decimal number in thousandths.
pub open spec fn decimal_milli(s: Seq<u8>) -> Option<int> {
    let neg = s.len() > 0 && s[0] == 45u8;
    let signed = s.len() > 0 && (s[0] == 45u8 || s[0] == 43u8);
    let body = if signed { s.drop_first() } else { s };
    match unsigned_milli(body) {
        Some(v) => Some(if neg { -v } else { v }),
        None => None,
    }
}

/// The number in a `height` value, in thousandths: trailing `m` units and surrounding
/// blanks removed.
pub open spec fn height_number(s: Seq<u8>) -> Option<int> {
    decimal_milli(trim_start(trim_end(strip_unit(s))))
}

/// `v` thousandths scaled by `m` thousandths, rounded half up, never below 3.
pub open spec fn milli_height(v: int, m: int) -> int {
    if v * m <= 0 {
        3
    } else if (2 * v * m + 1000000) / 2000000 < 3 {
        3
    } else {
        (2 * v * m + 1000000) / 2000000
    }
}

/// The height that the tags and the relation give, before any rule of the structure kind.
pub open spec fn resolved_height(tags: Tags, m: int, relation_levels: Option<int>) -> int {
    let default = story_height(6, m);
    let min = min_level_spec(tags);
    let from_levels = match tag_int(tags, "building:levels"@) {
        Some(l) if l - min >= 1 => story_height((l - min) * 4 + 2, m),
        _ => default,
    };
    let from_height = match tags.get_spec("height"@) {
        Some(h) => match height_number(vstd::utf8::encode_utf8(h)) {
            Some(v) => milli_height(v, m),
            None => from_levels,
        },
        None => from_levels,
    };
    match relation_levels {
        Some(r) => story_height(r * 4 + 2, m),
        None => from_height,
    }
}

/// `v` scaled by `m` thousandths, rounded half up, never below 3.
pub fn scaled_height(v: i64, m: u32) -> (r: i64)
    requires
        -0x4_0000_0000 <= v <= 0x4_0000_0000,
    ensures
        r == story_height(v as int, m as int),
        3 <= r <= 0x200_0000_0000_0000,
{
    proof {
        assert(v * m <= 0x4_0000_0000 * 0x1_0000_0000) by (nonlinear_arith)
            requires v <= 0x4_0000_0000, 0 <= m < 0x1_0000_0000;
        assert(v * m >= -0x4_0000_0000 * 0x1_0000_0000) by (nonlinear_arith)
            requires v >= -0x4_0000_0000, 0 <= m < 0x1_0000_0000;
    }
    let p: i128 = v as i128 * m as i128;
    if p <= 0 {
        return 3;
    }
    assert(p == v * m);
    assert(2 * v * m == 2 * (v * m)) by (nonlinear_arith);
    let q: i128 = (2 * p + 1000) / 2000;
    assert(q <= 0x200_0000_0000_0000) by (nonlinear_arith)
        requires q == (2 * p + 1000) / 2000, p <= 0x4_0000_0000 * 0x1_0000_0000, p > 0;
    if q < 3 {
        3
    } else {
        q as i64
    }
}

pub open spec fn opt_i64(r: Option<i64>) -> Option<int> {
    match r {
        Some(v) => Some(v as int),
        None => None,
    }
}

/// `v` thousandths scaled by `m` thousandths, rounded half up, never below 3.
pub fn scaled_milli_height(v: i64, m: u32) -> (r: i64)
    requires
        -0x200_0000_0000 <= v <= 0x200_0000_0000,
    ensures
        r == milli_height(v as int, m as int),
        3 <= r <= 0x200_0000_0000_0000,
{
    proof {
        assert(v * m <= 0x200_0000_0000 * 0x1_0000_0000) by (nonlinear_arith)
            requires v <= 0x200_0000_0000, 0 <= m < 0x1_0000_0000;
        assert(v * m >= -0x200_0000_0000 * 0x1_0000_0000) by (nonlinear_arith)
            requires v >= -0x200_0000_0000, 0 <= m < 0x1_0000_0000;
    }
    let p: i128 = v as i128 * m as i128;
    if p <= 0 {
        return 3;
    }
    assert(p == v * m);
    assert(2 * v * m == 2 * (v * m)) by (nonlinear_arith);
    let q: i128 = (2 * p + 1000000) / 2000000;
    assert(q <= 0x200_0000_0000_0000) by (nonlinear_arith)
        requires q == (2 * p + 1000000) / 2000000, p <= 0x200_0000_0000 * 0x1_0000_0000, p > 0;
    if q < 3 {
        3
    } else {
        q as i64
    }
}

proof fn lemma_lead(b: Seq<u8>, i: int)
    requires
        0 <= i <= b.len(),
        forall|j: int| 0 <= j < i ==> is_digit(#[trigger] b[j]),
        i == b.len() || !is_digit(b[i]),
    ensures
        lead_digits(b) == i,
    decreases i,
{
    if i > 0 {
        assert forall|j: int| 0 <= j < i - 1 implies is_digit(#[trigger] b.drop_first()[j]) by {
            assert(b.drop_first()[j] == b[j + 1]);
        }
        lemma_lead(b.drop_first(), i - 1);
    }
}

proof fn lemma_lead_facts(b: Seq<u8>)
    ensures
        0 <= lead_digits(b) <= b.len(),
        forall|j: int| 0 <= j < lead_digits(b) ==> is_digit(#[trigger] b[j]),
    decreases b.len(),
{
    if b.len() > 0 && is_digit(b[0]) {
        lemma_lead_facts(b.drop_first());
        assert forall|j: int| 0 <= j < lead_digits(b) implies is_digit(#[trigger] b[j]) by {
            if j > 0 {
                assert(b[j] == b.drop_first()[j - 1]);
            }
        }
    }
}

proof fn lemma_lead_ge(b: Seq<u8>, k: int)
    requires
        0 <= k <= b.len(),
        forall|j: int| 0 <= j < k ==> is_digit(#[trigger] b[j]),
    ensures
        k <= lead_digits(b),
    decreases k,
{
    if k > 0 {
        assert(is_digit(b[0]));
        assert(lead_digits(b) == 1 + lead_digits(b.drop_first()));
        assert forall|j: int| 0 <= j < k - 1 implies is_digit(#[trigger] b.drop_first()[j]) by {
            assert(b.drop_first()[j] == b[j + 1]);
        }
        lemma_lead_ge(b.drop_first(), k - 1);
    } else {
        lemma_lead_facts(b);
    }
}

/// Reads a signed decimal number from `b[lo..hi]`, in thousandths.
pub fn parse_decimal_range(b: &[u8], lo: usize, hi: usize) -> (r: Option<i64>)
    requires
        lo <= hi <= b@.len(),
    ensures
        opt_i64(r) == decimal_milli(b@.subrange(lo as int, hi as int)),
        r matches Some(v) ==> -0x200_0000_0000 <= v <= 0x200_0000_0000,
{
    let ghost s = b@.subrange(lo as int, hi as int);
    let neg: bool = hi > lo && b[lo] == 45u8;
    let signed: bool = hi > lo && (b[lo] == 45u8 || b[lo] == 43u8);
    let start: usize = if signed { lo + 1 } else { lo };
    let ghost body = if signed { s.drop_first() } else { s };
    assert(body =~= b@.subrange(start as int, hi as int));
    let mut whole: i64 = 0;
    let mut i: usize = start;
    while i < hi && b[i] >= 48u8 && b[i] <= 57u8
        invariant
            start <= i <= hi <= b@.len(),
            s == b@.subrange(lo as int, hi as int),
            signed == (s.len() > 0 && (s[0] == 45u8 || s[0] == 43u8)),
            neg == (s.len() > 0 && s[0] == 45u8),
            body == (if signed { s.drop_first() } else { s }),
            body == b@.subrange(start as int, hi as int),
            forall|j: int| 0 <= j < i - start ==> is_digit(#[trigger] body[j]),
            whole == digits_value(body.subrange(0, i - start)),
            0 <= whole <= 2147483647,
        decreases hi - i,
    {
        proof {
            assert(body.subrange(0, i + 1 - start).drop_last() =~= body.subrange(0, i - start));
        }
        whole = whole * 10 + (b[i] - 48u8) as i64;
        i = i + 1;
        if whole > 2147483647 {
            proof {
                let k = (i - start) as int;
                lemma_lead_ge(body, k);
                lemma_lead_facts(body);
                let d = lead_digits(body);
                let w = body.subrange(0, d);
                assert(w.subrange(0, k) =~= body.subrange(0, k));
                lemma_digits_grow(w, k);
                assert(unsigned_milli(body) is None);
            }
            return None;
        }
    }
    let d: usize = i - start;
    proof {
        lemma_lead(body, d as int);
    }
    let ghost rest = body.subrange(d as int, body.len() as int);
    let v: i64 = if i == hi {
        if d == 0 {
            return None;
        }
        whole * 1000
    } else {
        if b[i] != 46u8 {
            assert(rest[0] == b@[i as int]);
            return None;
        }
        let ghost f = rest.drop_first();
        assert(rest =~= b@.subrange(i as int, hi as int));
        assert(f =~= b@.subrange(i + 1, hi as int));
        let mut j: usize = i + 1;
        let mut fv: i64 = 0;
        let mut cnt: usize = 0;
        while j < hi
            invariant
                i < j <= hi <= b@.len(),
                f == b@.subrange(i + 1, hi as int),
                s == b@.subrange(lo as int, hi as int),
                signed == (s.len() > 0 && (s[0] == 45u8 || s[0] == 43u8)),
                neg == (s.len() > 0 && s[0] == 45u8),
                body == (if signed { s.drop_first() } else { s }),
                rest == b@.subrange(i as int, hi as int),
                rest == body.subrange(d as int, body.len() as int),
                lead_digits(body) == d,
                d == i - start,
                whole == digits_value(body.subrange(0, d as int)),
                0 <= whole <= 2147483647,
                f == rest.drop_first(),
                forall|q: int| 0 <= q < j - i - 1 ==> is_digit(#[trigger] f[q]),
                cnt == if j - i - 1 < 3 { j - i - 1 } else { 3 },
                fv == digits_value(f.subrange(0, cnt as int)),
                0 <= fv < (if cnt == 0 { 1int } else if cnt == 1 { 10int } else if cnt == 2 { 100int } else { 1000int }),
            decreases hi - j,
        {
            if b[j] < 48u8 || b[j] > 57u8 {
                proof {
                    assert(!is_digit(f[j - i - 1]));
                    assert(!is_digit(rest[j - i]));
                }
                return None;
            }
            if cnt < 3 {
                proof {
                    assert(f.subrange(0, cnt + 1).drop_last() =~= f.subrange(0, cnt as int));
                }
                fv = fv * 10 + (b[j] - 48u8) as i64;
                cnt = cnt + 1;
            }
            j = j + 1;
        }
        if d == 0 && hi == i + 1 {
            return None;
        }
        proof {
            assert forall|q: int| 1 <= q < rest.len() implies is_digit(#[trigger] rest[q]) by {
                assert(rest[q] == f[q - 1]);
            }
            if f.len() <= 3 {
                assert(f.subrange(0, cnt as int) =~= f);
            }
        }
        let frac: i64 = if cnt == 3 { fv } else if cnt == 2 { fv * 10 } else if cnt == 1 { fv * 100 } else { 0 };
        assert(frac == fraction_milli(f));
        whole * 1000 + frac
    };
    assert(unsigned_milli(body) == Some(v as int));
    if neg {
        Some(-v)
    } else {
        Some(v)
    }
}

/// Lowest level of the building; 0 when absent or unreadable.
pub fn min_level(tags: &Tags) -> (r: i32)
    ensures
        r == min_level_spec(*tags),
{
    match tags.get("building:min_level") {
        Some(s) => match parse_i32(s.as_str()) {
            Some(v) => v,
            None => 0,
        },
        None => 0,
    }
}

/// The integer that the tag `key` holds, if it holds one.
pub fn tag_i32(tags: &Tags, key: &str) -> (r: Option<i32>)
    ensures
        opt_int(r) == tag_int(*tags, key@),
{
    match tags.get(key) {
        Some(s) => parse_i32(s.as_str()),
        None => None,
    }
}

/// Whether a negative `layer` or `level` places the feature below ground.
pub fn is_underground(tags: &Tags) -> (r: bool)
    ensures
        r == rejected_spec(*tags),
{
    let a: bool = match tag_i32(tags, "layer") {
        Some(v) => v < 0,
        None => false,
    };
    let b: bool = match tag_i32(tags, "level") {
        Some(v) => v < 0,
        None => false,
    };
    a || b
}

/// Reads the number in a `height` value such as `12`, `12m` or ` 12 m`.
pub fn parse_height(text: &str) -> (r: Option<i64>)
    ensures
        opt_i64(r) == height_number(text.spec_bytes()),
        r matches Some(v) ==> -0x200_0000_0000 <= v <= 0x200_0000_0000,
{
    let b: &[u8] = text.as_bytes();
    let ghost s = b@;
    let mut hi: usize = b.len();
    proof {
        assert(s.subrange(0, hi as int) =~= s);
    }
    while hi > 0 && b[hi - 1] == 109u8
        invariant
            hi <= s.len(),
            b@ == s,
            strip_unit(s) == strip_unit(s.subrange(0, hi as int)),
        decreases hi,
    {
        assert(s.subrange(0, hi as int).drop_last() =~= s.subrange(0, hi - 1));
        hi = hi - 1;
    }
    let ghost u = s.subrange(0, hi as int);
    assert(strip_unit(s) == u);
    while hi > 0 && (b[hi - 1] == 32u8 || b[hi - 1] == 9u8 || b[hi - 1] == 10u8 || b[hi - 1] == 13u8 || b[hi - 1] == 12u8 || b[hi - 1] == 11u8)
        invariant
            hi <= u.len(),
            u.len() <= s.len(),
            u == s.subrange(0, u.len() as int),
            b@ == s,
            trim_end(u) == trim_end(s.subrange(0, hi as int)),
        decreases hi,
    {
        assert(s.subrange(0, hi as int).drop_last() =~= s.subrange(0, hi - 1));
        hi = hi - 1;
    }
    let ghost e = s.subrange(0, hi as int);
    assert(trim_end(u) == e);
    let mut lo: usize = 0;
    proof {
        assert(s.subrange(0, hi as int) =~= s.subrange(lo as int, hi as int));
    }
    while lo < hi && (b[lo] == 32u8 || b[lo] == 9u8 || b[lo] == 10u8 || b[lo] == 13u8 || b[lo] == 12u8 || b[lo] == 11u8)
        invariant
            lo <= hi <= s.len(),
            b@ == s,
            e == s.subrange(0, hi as int),
            trim_start(e) == trim_start(s.subrange(lo as int, hi as int)),
        decreases hi - lo,
    {
        assert(s.subrange(lo as int, hi as int).drop_first() =~= s.subrange(lo + 1, hi as int));
        lo = lo + 1;
    }
    assert(trim_start(e) == s.subrange(lo as int, hi as int));
    parse_decimal_range(b, lo, hi)
}

/// The height that the tags and the relation give, before any rule of the structure kind.
pub fn building_height(tags: &Tags, scale_milli: u32, relation_levels: Option<i32>) -> (r: i64)
    ensures
        r == resolved_height(*tags, scale_milli as int, opt_int(relation_levels)),
        3 <= r <= 0x200_0000_0000_0000,
{
    let min: i32 = min_level(tags);
    let mut h: i64 = scaled_height(6, scale_milli);
    match tag_i32(tags, "building:levels") {
        Some(l) => {
            let lev: i64 = l as i64 - min as i64;
            if lev >= 1 {
                h = scaled_height(lev * 4 + 2, scale_milli);
            }
        },
        None => {},
    }
    match tags.get("height") {
        Some(s) => match parse_height(s.as_str()) {
            Some(v) => {
                h = scaled_milli_height(v, scale_milli);
            },
            None => {},
        },
        None => {},
    }
    match relation_levels {
        Some(r) => {
            h = scaled_height(r as i64 * 4 + 2, scale_milli);
        },
        None => {},
    }
    h
}

} // verus!
