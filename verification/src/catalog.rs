//! Catalog of the watermark geometries that the image generator stamps.
//!
//! Generated images come in a discrete set of official sizes, and the mark is
//! stamped at a fixed `{size, margin_right, margin_bottom}` for each. Rather
//! than scanning the corners blindly, detection validates a short ordered list
//! of known anchors for the image's dimensions: `search_configs`.
//!
//! Each `WmConfig` is a bottom-right anchor: the `size`×`size` tile sits at
//! `(w - margin_right - size, h - margin_bottom - size)`.
use vstd::prelude::*;

verus! {

/// One candidate watermark geometry (bottom-right anchored).
#[derive(Clone, Copy, PartialEq, Eq, Debug, Structural)]
pub struct WmConfig {
    pub size: usize,
    pub margin_right: usize,
    pub margin_bottom: usize,
}

/// The tile of `c` lies inside a `w`×`h` image.
pub open spec fn fits(c: WmConfig, w: int, h: int) -> bool {
    &&& c.size + c.margin_right <= w
    &&& c.size + c.margin_bottom <= h
}

/// The inputs on which `origin` computes without leaving the `i64` range.
pub open spec fn origin_in_range(c: WmConfig, w: int, h: int) -> bool {
    &&& 0 <= w <= i64::MAX
    &&& 0 <= h <= i64::MAX
    &&& c.size <= i64::MAX
    &&& c.margin_right <= i64::MAX
    &&& c.margin_bottom <= i64::MAX
    &&& w - c.margin_right - c.size >= i64::MIN
    &&& h - c.margin_bottom - c.size >= i64::MIN
}

impl WmConfig {
    /// A geometry from its tile size and its right and bottom margins.
    fn new(size: usize, margin_right: usize, margin_bottom: usize) -> (r: WmConfig)
        ensures
            r == (WmConfig { size, margin_right, margin_bottom }),
    {
        WmConfig { size, margin_right, margin_bottom }
    }

    /// Top-left origin of the tile in an image of the given dimensions, if it fits.
    pub fn origin(&self, w: usize, h: usize) -> (r: Option<(i64, i64)>)
        requires
            origin_in_range(*self, w as int, h as int),
        ensures
            r is Some <==> fits(*self, w as int, h as int),
            r matches Some(p) ==> p.0 == w - self.margin_right - self.size && p.1 == h
                - self.margin_bottom - self.size,
    {
        let x = w as i64 - self.margin_right as i64 - self.size as i64;
        let y = h as i64 - self.margin_bottom as i64 - self.size as i64;
        if x >= 0 && y >= 0 {
            Some((x, y))
        } else {
            None
        }
    }
}

/// 48px mark at a 32px margin (the current small-tier stamp).
#[verifier::allow_in_spec]
pub fn current_48() -> WmConfig
    returns
        (WmConfig { size: 48, margin_right: 32, margin_bottom: 32 }),
{
    WmConfig::new(48, 32, 32)
}

/// 96px mark at a 64px margin (older 1k outputs, and the 2k/4k tiers).
#[verifier::allow_in_spec]
pub fn legacy_96() -> WmConfig
    returns
        (WmConfig { size: 96, margin_right: 64, margin_bottom: 64 }),
{
    WmConfig::new(96, 64, 64)
}

/// 96px mark at a 192px margin (the large-margin variant).
#[verifier::allow_in_spec]
pub fn new_margin_96() -> WmConfig
    returns
        (WmConfig { size: 96, margin_right: 192, margin_bottom: 192 }),
{
    WmConfig::new(96, 192, 192)
}

/// 48px mark at a 96px margin (the current 1k large-margin variant).
#[verifier::allow_in_spec]
pub fn large_margin_48() -> WmConfig
    returns
        (WmConfig { size: 48, margin_right: 96, margin_bottom: 96 }),
{
    WmConfig::new(48, 96, 96)
}

/// Model family: only matters for disambiguating the 1k tier.
#[derive(Clone, Copy, PartialEq, Eq, Debug, Structural)]
pub enum Family {
    G3x,
    G25Flash,
}

/// Output-size tier of an official size.
#[derive(Clone, Copy, PartialEq, Eq, Debug, Structural)]
pub enum Tier {
    T05,
    T1,
    T2,
    T2NewMargin,
    T4,
}

/// One row of the official-size table.
#[derive(Clone, Copy, PartialEq, Eq, Debug, Structural)]
pub struct Official {
    pub w: u32,
    pub h: u32,
    pub family: Family,
    pub tier: Tier,
}

pub open spec fn row(w: u32, h: u32, family: Family, tier: Tier) -> Official {
    Official { w, h, family, tier }
}

fn o(w: u32, h: u32, family: Family, tier: Tier) -> (r: Official)
    ensures
        r == row(w, h, family, tier),
{
    Official { w, h, family, tier }
}

/// The number of official sizes.
pub open spec fn official_count() -> int {
    68
}

/// The discrete set of official output sizes, in catalog order.
#[verifier::opaque]
pub open spec fn official_rows() -> Seq<Official> {
    seq![
        row(512, 512, Family::G3x, Tier::T05),
        row(256, 1024, Family::G3x, Tier::T05),
        row(192, 1536, Family::G3x, Tier::T05),
        row(424, 632, Family::G3x, Tier::T05),
        row(632, 424, Family::G3x, Tier::T05),
        row(448, 600, Family::G3x, Tier::T05),
        row(1024, 256, Family::G3x, Tier::T05),
        row(600, 448, Family::G3x, Tier::T05),
        row(464, 576, Family::G3x, Tier::T05),
        row(576, 464, Family::G3x, Tier::T05),
        row(1536, 192, Family::G3x, Tier::T05),
        row(384, 688, Family::G3x, Tier::T05),
        row(688, 384, Family::G3x, Tier::T05),
        row(792, 168, Family::G3x, Tier::T05),
        row(1024, 1024, Family::G3x, Tier::T1),
        row(512, 2048, Family::G3x, Tier::T1),
        row(384, 3072, Family::G3x, Tier::T1),
        row(848, 1264, Family::G3x, Tier::T1),
        row(1264, 848, Family::G3x, Tier::T1),
        row(896, 1200, Family::G3x, Tier::T1),
        row(2048, 512, Family::G3x, Tier::T1),
        row(1200, 896, Family::G3x, Tier::T1),
        row(928, 1152, Family::G3x, Tier::T1),
        row(1152, 928, Family::G3x, Tier::T1),
        row(3072, 384, Family::G3x, Tier::T1),
        row(768, 1376, Family::G3x, Tier::T1),
        row(1376, 768, Family::G3x, Tier::T1),
        row(1408, 768, Family::G3x, Tier::T1),
        row(1584, 672, Family::G3x, Tier::T1),
        row(2048, 2048, Family::G3x, Tier::T2),
        row(1024, 4096, Family::G3x, Tier::T2),
        row(768, 6144, Family::G3x, Tier::T2),
        row(1696, 2528, Family::G3x, Tier::T2),
        row(2528, 1696, Family::G3x, Tier::T2),
        row(1792, 2400, Family::G3x, Tier::T2),
        row(4096, 1024, Family::G3x, Tier::T2),
        row(2400, 1792, Family::G3x, Tier::T2),
        row(1856, 2304, Family::G3x, Tier::T2),
        row(2304, 1856, Family::G3x, Tier::T2),
        row(6144, 768, Family::G3x, Tier::T2),
        row(1536, 2752, Family::G3x, Tier::T2),
        row(2752, 1536, Family::G3x, Tier::T2),
        row(3168, 1344, Family::G3x, Tier::T2),
        row(2816, 1536, Family::G3x, Tier::T2NewMargin),
        row(4096, 4096, Family::G3x, Tier::T4),
        row(2048, 8192, Family::G3x, Tier::T4),
        row(1536, 12288, Family::G3x, Tier::T4),
        row(3392, 5056, Family::G3x, Tier::T4),
        row(5056, 3392, Family::G3x, Tier::T4),
        row(3584, 4800, Family::G3x, Tier::T4),
        row(8192, 2048, Family::G3x, Tier::T4),
        row(4800, 3584, Family::G3x, Tier::T4),
        row(3712, 4608, Family::G3x, Tier::T4),
        row(4608, 3712, Family::G3x, Tier::T4),
        row(12288, 1536, Family::G3x, Tier::T4),
        row(3072, 5504, Family::G3x, Tier::T4),
        row(5504, 3072, Family::G3x, Tier::T4),
        row(6336, 2688, Family::G3x, Tier::T4),
        row(1024, 1024, Family::G25Flash, Tier::T1),
        row(832, 1248, Family::G25Flash, Tier::T1),
        row(1248, 832, Family::G25Flash, Tier::T1),
        row(864, 1184, Family::G25Flash, Tier::T1),
        row(1184, 864, Family::G25Flash, Tier::T1),
        row(896, 1152, Family::G25Flash, Tier::T1),
        row(1152, 896, Family::G25Flash, Tier::T1),
        row(768, 1344, Family::G25Flash, Tier::T1),
        row(1344, 768, Family::G25Flash, Tier::T1),
        row(1536, 672, Family::G25Flash, Tier::T1)
    ]
}

/// Row `i` of the official table.
pub open spec fn orow(i: int) -> Official {
    official_rows()[i]
}

/// The table's length, and the bounds of its dimensions.
pub proof fn lemma_official_rows()
    ensures
        official_rows().len() == official_count(),
        forall|i: int|
            0 <= i < official_count() ==> 168 <= #[trigger] orow(i).w <= 12288 && 168 <= orow(
                i,
            ).h <= 12288,
{
    reveal(official_rows);
}

fn official_table() -> (t: Vec<Official>)
    ensures
        t@ == official_rows(),
{
    let t = vec![
        o(512, 512, Family::G3x, Tier::T05),
        o(256, 1024, Family::G3x, Tier::T05),
        o(192, 1536, Family::G3x, Tier::T05),
        o(424, 632, Family::G3x, Tier::T05),
        o(632, 424, Family::G3x, Tier::T05),
        o(448, 600, Family::G3x, Tier::T05),
        o(1024, 256, Family::G3x, Tier::T05),
        o(600, 448, Family::G3x, Tier::T05),
        o(464, 576, Family::G3x, Tier::T05),
        o(576, 464, Family::G3x, Tier::T05),
        o(1536, 192, Family::G3x, Tier::T05),
        o(384, 688, Family::G3x, Tier::T05),
        o(688, 384, Family::G3x, Tier::T05),
        o(792, 168, Family::G3x, Tier::T05),
        o(1024, 1024, Family::G3x, Tier::T1),
        o(512, 2048, Family::G3x, Tier::T1),
        o(384, 3072, Family::G3x, Tier::T1),
        o(848, 1264, Family::G3x, Tier::T1),
        o(1264, 848, Family::G3x, Tier::T1),
        o(896, 1200, Family::G3x, Tier::T1),
        o(2048, 512, Family::G3x, Tier::T1),
        o(1200, 896, Family::G3x, Tier::T1),
        o(928, 1152, Family::G3x, Tier::T1),
        o(1152, 928, Family::G3x, Tier::T1),
        o(3072, 384, Family::G3x, Tier::T1),
        o(768, 1376, Family::G3x, Tier::T1),
        o(1376, 768, Family::G3x, Tier::T1),
        o(1408, 768, Family::G3x, Tier::T1),
        o(1584, 672, Family::G3x, Tier::T1),
        o(2048, 2048, Family::G3x, Tier::T2),
        o(1024, 4096, Family::G3x, Tier::T2),
        o(768, 6144, Family::G3x, Tier::T2),
        o(1696, 2528, Family::G3x, Tier::T2),
        o(2528, 1696, Family::G3x, Tier::T2),
        o(1792, 2400, Family::G3x, Tier::T2),
        o(4096, 1024, Family::G3x, Tier::T2),
        o(2400, 1792, Family::G3x, Tier::T2),
        o(1856, 2304, Family::G3x, Tier::T2),
        o(2304, 1856, Family::G3x, Tier::T2),
        o(6144, 768, Family::G3x, Tier::T2),
        o(1536, 2752, Family::G3x, Tier::T2),
        o(2752, 1536, Family::G3x, Tier::T2),
        o(3168, 1344, Family::G3x, Tier::T2),
        o(2816, 1536, Family::G3x, Tier::T2NewMargin),
        o(4096, 4096, Family::G3x, Tier::T4),
        o(2048, 8192, Family::G3x, Tier::T4),
        o(1536, 12288, Family::G3x, Tier::T4),
        o(3392, 5056, Family::G3x, Tier::T4),
        o(5056, 3392, Family::G3x, Tier::T4),
        o(3584, 4800, Family::G3x, Tier::T4),
        o(8192, 2048, Family::G3x, Tier::T4),
        o(4800, 3584, Family::G3x, Tier::T4),
        o(3712, 4608, Family::G3x, Tier::T4),
        o(4608, 3712, Family::G3x, Tier::T4),
        o(12288, 1536, Family::G3x, Tier::T4),
        o(3072, 5504, Family::G3x, Tier::T4),
        o(5504, 3072, Family::G3x, Tier::T4),
        o(6336, 2688, Family::G3x, Tier::T4),
        o(1024, 1024, Family::G25Flash, Tier::T1),
        o(832, 1248, Family::G25Flash, Tier::T1),
        o(1248, 832, Family::G25Flash, Tier::T1),
        o(864, 1184, Family::G25Flash, Tier::T1),
        o(1184, 864, Family::G25Flash, Tier::T1),
        o(896, 1152, Family::G25Flash, Tier::T1),
        o(1152, 896, Family::G25Flash, Tier::T1),
        o(768, 1344, Family::G25Flash, Tier::T1),
        o(1344, 768, Family::G25Flash, Tier::T1),
        o(1536, 672, Family::G25Flash, Tier::T1)
    ];
    proof {
        reveal(official_rows);
    }
    assert(t@ =~= official_rows());
    t
}

/// Primary and secondary configs of an official entry. The 3.x 1k tier now
/// stamps the 48px mark but older outputs of the same size used the 96px mark,
/// so both are offered.
pub open spec fn entry_configs_spec(e: Official) -> Seq<WmConfig> {
    match (e.family, e.tier) {
        (_, Tier::T05) => seq![current_48()],
        (Family::G3x, Tier::T1) => seq![current_48(), legacy_96(), large_margin_48()],
        (Family::G25Flash, Tier::T1) => seq![legacy_96()],
        (_, Tier::T2) => seq![legacy_96()],
        (_, Tier::T4) => seq![legacy_96()],
        (_, Tier::T2NewMargin) => seq![new_margin_96()],
    }
}

fn entry_configs(e: &Official) -> (v: Vec<WmConfig>)
    ensures
        v@ == entry_configs_spec(*e),
{
    let mut v: Vec<WmConfig> = Vec::new();
    match (e.family, e.tier) {
        (_, Tier::T05) => {
            v.push(current_48());
        },
        (Family::G3x, Tier::T1) => {
            v.push(current_48());
            v.push(legacy_96());
            v.push(large_margin_48());
        },
        (Family::G25Flash, Tier::T1) => {
            v.push(legacy_96());
        },
        (_, Tier::T2) => {
            v.push(legacy_96());
        },
        (_, Tier::T4) => {
            v.push(legacy_96());
        },
        (_, Tier::T2NewMargin) => {
            v.push(new_margin_96());
        },
    }
    assert(v@ =~= entry_configs_spec(*e));
    v
}

/// The tier default: the 96px mark when both sides are at least 1024px, else
/// the 48px mark.
pub open spec fn default_by_tier_spec(w: int, h: int) -> WmConfig {
    if w >= 1024 && h >= 1024 {
        legacy_96()
    } else {
        current_48()
    }
}

fn default_by_tier(w: usize, h: usize) -> (c: WmConfig)
    ensures
        c == default_by_tier_spec(w as int, h as int),
{
    let m = if w < h {
        w
    } else {
        h
    };
    if m >= 1024 {
        legacy_96()
    } else {
        current_48()
    }
}

// ---------------------------------------------------------------------------
// Near-official sizes
//
// For an official entry `e` of size `ew`×`eh`, an image of size `w`×`h` has
// scale factors `sx = w/ew`, `sy = h/eh`. With `p = w·eh` and `q = h·ew`:
//   aspect-ratio deviation  |w/h − ew/eh| / (ew/eh) = |p − q| / q
//   scale mismatch          |sx − sy| / max(sx, sy)  = |p − q| / max(p, q)
// All comparisons below are made exactly on these rationals.
// ---------------------------------------------------------------------------

pub open spec fn p_of(w: int, h: int, e: Official) -> int {
    w * e.h
}

pub open spec fn q_of(w: int, h: int, e: Official) -> int {
    h * e.w
}

pub open spec fn abs_diff(a: int, b: int) -> int {
    if a >= b {
        a - b
    } else {
        b - a
    }
}

pub open spec fn max_int(a: int, b: int) -> int {
    if a >= b {
        a
    } else {
        b
    }
}

/// `w`×`h` is a near-official projection of `e`: aspect-ratio deviation at most
/// 2% and scale mismatch at most 12%. The bounds, the ranking score and the
/// projection are taken exactly on rationals; a computation in binary floating
/// point rounds them, and can fall on the other side of a bound or of a
/// rounding half (at 980×1000 a rounded deviation just passes 2%).
pub open spec fn near_official(w: int, h: int, e: Official) -> bool {
    let p = p_of(w, h, e);
    let q = q_of(w, h, e);
    &&& 50 * abs_diff(p, q) <= q
    &&& 25 * abs_diff(p, q) <= 3 * max_int(p, q)
}

/// Numerator of the ranking score `100·(aspect deviation) + 20·(scale mismatch)`.
pub open spec fn score_num(w: int, h: int, e: Official) -> int {
    let p = p_of(w, h, e);
    let q = q_of(w, h, e);
    if p >= q {
        (p - q) * (100 * p + 20 * q)
    } else {
        120 * (q - p)
    }
}

/// Denominator of the ranking score.
pub open spec fn score_den(w: int, h: int, e: Official) -> int {
    let p = p_of(w, h, e);
    let q = q_of(w, h, e);
    if p >= q {
        p * q
    } else {
        q
    }
}

/// `a` ranks strictly better (lower score) than `b` for a `w`×`h` image.
pub open spec fn score_lt(w: int, h: int, a: Official, b: Official) -> bool {
    score_num(w, h, a) * score_den(w, h, b) < score_num(w, h, b) * score_den(w, h, a)
}

pub open spec fn dims_ok(w: int, h: int) -> bool {
    &&& 0 <= w <= u32::MAX
    &&& 0 <= h <= u32::MAX
    &&& (w > 0 || h > 0)
}

pub open spec fn row_ok(e: Official) -> bool {
    &&& 168 <= e.w <= 12288
    &&& 168 <= e.h <= 12288
}

proof fn lemma_near_positive(w: int, h: int, e: Official)
    requires
        dims_ok(w, h),
        row_ok(e),
        near_official(w, h, e),
    ensures
        p_of(w, h, e) > 0,
        q_of(w, h, e) > 0,
        score_den(w, h, e) > 0,
        score_num(w, h, e) >= 0,
{
    let p = p_of(w, h, e);
    let q = q_of(w, h, e);
    assert(w > 0 ==> p > 0) by (nonlinear_arith)
        requires
            p == w * e.h,
            e.h >= 168,
    ;
    assert(h > 0 ==> q > 0) by (nonlinear_arith)
        requires
            q == h * e.w,
            e.w >= 168,
    ;
    assert(w >= 0 ==> p >= 0) by (nonlinear_arith)
        requires
            p == w * e.h,
            e.h >= 168,
    ;
    assert(h >= 0 ==> q >= 0) by (nonlinear_arith)
        requires
            q == h * e.w,
            e.w >= 168,
    ;
    assert(p > 0 && q > 0);
    if p >= q {
        assert(p * q > 0) by (nonlinear_arith)
            requires
                p > 0,
                q > 0,
        ;
        assert((p - q) * (100 * p + 20 * q) >= 0) by (nonlinear_arith)
            requires
                p >= q,
                q > 0,
        ;
    }
}

/// `a/b < c/d`, decided by comparing integer parts and recursing on the
/// reciprocals of the remainders, so no intermediate product leaves `u128`.
fn frac_lt(a: u128, b: u128, c: u128, d: u128) -> (r: bool)
    requires
        b > 0,
        d > 0,
    ensures
        r == (a * d < c * b),
    decreases b + d,
{
    let q1 = a / b;
    let q2 = c / d;
    let r1 = a % b;
    let r2 = c % d;
    proof {
        lemma_frac_parts(a as int, b as int, c as int, d as int, q1 as int, r1 as int, q2 as int, r2 as int);
    }
    if q1 < q2 {
        return true;
    }
    if q2 < q1 {
        return false;
    }
    if r2 == 0 {
        assert(0 <= (r1 as int) * (d as int) && (r2 as int) * (b as int) == 0) by (nonlinear_arith)
            requires
                r1 >= 0,
                d > 0,
                r2 == 0,
        ;
        return false;
    }
    if r1 == 0 {
        assert(0 < (r2 as int) * (b as int) && (r1 as int) * (d as int) == 0) by (nonlinear_arith)
            requires
                r2 > 0,
                b > 0,
                r1 == 0,
        ;
        return true;
    }
    frac_lt(d, r2, b, r1)
}

proof fn lemma_frac_parts(a: int, b: int, c: int, d: int, q1: int, r1: int, q2: int, r2: int)
    requires
        a >= 0,
        c >= 0,
        b > 0,
        d > 0,
        q1 == a / b,
        r1 == a % b,
        q2 == c / d,
        r2 == c % d,
    ensures
        q1 < q2 ==> a * d < c * b,
        q2 < q1 ==> !(a * d < c * b),
        q1 == q2 ==> (a * d < c * b <==> r1 * d < r2 * b),
{
    vstd::arithmetic::div_mod::lemma_fundamental_div_mod(a, b);
    vstd::arithmetic::div_mod::lemma_fundamental_div_mod(c, d);
    assert(0 <= r1 < b && 0 <= r2 < d) by {
        vstd::arithmetic::div_mod::lemma_mod_bound(a, b);
        vstd::arithmetic::div_mod::lemma_mod_bound(c, d);
    }
    assert(a * d == q1 * b * d + r1 * d) by (nonlinear_arith)
        requires
            a == b * q1 + r1,
    ;
    assert(c * b == q2 * d * b + r2 * b) by (nonlinear_arith)
        requires
            c == d * q2 + r2,
    ;
    if q1 < q2 {
        assert(a * d < c * b) by (nonlinear_arith)
            requires
                a * d == q1 * b * d + r1 * d,
                c * b == q2 * d * b + r2 * b,
                q1 < q2,
                0 <= r1 < b,
                0 <= r2,
                b > 0,
                d > 0,
        ;
    }
    if q2 < q1 {
        assert(c * b < a * d) by (nonlinear_arith)
            requires
                a * d == q1 * b * d + r1 * d,
                c * b == q2 * d * b + r2 * b,
                q2 < q1,
                0 <= r2 < d,
                0 <= r1,
                b > 0,
                d > 0,
        ;
    }
    if q1 == q2 {
        assert(q1 * b * d == q2 * d * b) by (nonlinear_arith)
            requires
                q1 == q2,
        ;
    }
}

/// Exact `(near_official, score_num, score_den)` of row `e` for a `w`×`h` image.
fn score_parts(w: usize, h: usize, e: &Official) -> (r: (bool, u128, u128))
    requires
        dims_ok(w as int, h as int),
        row_ok(*e),
    ensures
        r.0 == near_official(w as int, h as int, *e),
        r.1 == score_num(w as int, h as int, *e),
        r.2 == score_den(w as int, h as int, *e),
{
    let wi = w as u128;
    let hi = h as u128;
    let ew = e.w as u128;
    let eh = e.h as u128;
    assert(wi * eh <= 0x1_0000_0000 * 12288 && hi * ew <= 0x1_0000_0000 * 12288) by (nonlinear_arith)
        requires
            wi <= 0x1_0000_0000,
            hi <= 0x1_0000_0000,
            eh <= 12288,
            ew <= 12288,
    ;
    let p = wi * eh;
    let q = hi * ew;
    let d = if p >= q {
        p - q
    } else {
        q - p
    };
    let m = if p >= q {
        p
    } else {
        q
    };
    let near = 50 * d <= q && 25 * d <= 3 * m;
    if p >= q {
        assert((p - q) * (100 * p + 20 * q) <= 0x1_0000_0000_0000 * 0x80_0000_0000_0000)
            by (nonlinear_arith)
            requires
                p - q <= 0x1_0000_0000_0000,
                100 * p + 20 * q <= 0x80_0000_0000_0000,
        ;
        assert(p * q <= 0x1_0000_0000_0000 * 0x1_0000_0000_0000) by (nonlinear_arith)
            requires
                p <= 0x1_0000_0000_0000,
                q <= 0x1_0000_0000_0000,
        ;
        (near, (p - q) * (100 * p + 20 * q), p * q)
    } else {
        (near, 120 * (q - p), q)
    }
}

/// Inserts index `i` into `s` after every entry whose score is not worse than
/// that of row `i` (a stable insertion).
pub open spec fn insert_ranked(w: int, h: int, s: Seq<usize>, i: usize) -> Seq<usize>
    decreases s.len(),
{
    if s.len() == 0 {
        seq![i]
    } else if score_lt(w, h, orow(i as int), orow(s.last() as int)) {
        insert_ranked(w, h, s.drop_last(), i).push(s.last())
    } else {
        s.push(i)
    }
}

/// Indices of the near-official rows among the first `n`, stably sorted by
/// ascending score.
pub open spec fn ranked(w: int, h: int, n: int) -> Seq<usize>
    decreases n,
{
    if n <= 0 {
        seq![]
    } else if near_official(w, h, orow(n - 1)) {
        insert_ranked(w, h, ranked(w, h, n - 1), (n - 1) as usize)
    } else {
        ranked(w, h, n - 1)
    }
}

/// The (at most three) best-ranked near-official rows.
pub open spec fn top_ranked(w: int, h: int) -> Seq<usize> {
    let r = ranked(w, h, official_count());
    r.subrange(0, if r.len() < 3 { r.len() as int } else { 3 })
}

/// Every member of `s` is a near-official index below `n`.
pub open spec fn ranked_members_ok(w: int, h: int, s: Seq<usize>, n: int) -> bool {
    forall|j: int|
        0 <= j < s.len() ==> #[trigger] s[j] < n && near_official(w, h, orow(s[j] as int))
}

fn rank_near_official(table: &Vec<Official>, w: usize, h: usize) -> (r: Vec<usize>)
    requires
        table@ == official_rows(),
        dims_ok(w as int, h as int),
    ensures
        r@ == ranked(w as int, h as int, official_count()),
        ranked_members_ok(w as int, h as int, r@, official_count()),
{
    proof {
        lemma_official_rows();
    }
    let mut ranked_v: Vec<usize> = Vec::new();
    let mut i: usize = 0;
    while i < table.len()
        invariant
            table@ == official_rows(),
            table@.len() == official_count(),
            dims_ok(w as int, h as int),
            forall|k: int| 0 <= k < official_count() ==> row_ok(#[trigger] orow(k)),
            0 <= i <= table@.len(),
            ranked_v@ == ranked(w as int, h as int, i as int),
            ranked_members_ok(w as int, h as int, ranked_v@, i as int),
        decreases table@.len() - i,
    {
        let e = table[i];
        assert(e == orow(i as int));
        let (near, num, den) = score_parts(w, h, &e);
        if near {
            proof {
                lemma_near_positive(w as int, h as int, e);
            }
            let ghost s = ranked_v@;
            let mut pos: usize = ranked_v.len();
            assert(s.subrange(0, s.len() as int) =~= s);
            assert(insert_ranked(w as int, h as int, s, i) + s.subrange(s.len() as int, s.len() as int)
                =~= insert_ranked(w as int, h as int, s, i));
            while pos > 0
                invariant
                    table@ == official_rows(),
                    table@.len() == official_count(),
                    dims_ok(w as int, h as int),
                    forall|k: int| 0 <= k < official_count() ==> row_ok(#[trigger] orow(k)),
                    i < table@.len(),
                    ranked_v@ == s,
                    ranked_members_ok(w as int, h as int, s, i as int),
                    0 <= pos <= s.len(),
                    num == score_num(w as int, h as int, orow(i as int)),
                    den == score_den(w as int, h as int, orow(i as int)),
                    den > 0,
                    insert_ranked(w as int, h as int, s, i) == insert_ranked(
                        w as int,
                        h as int,
                        s.subrange(0, pos as int),
                        i,
                    ) + s.subrange(pos as int, s.len() as int),
                ensures
                    0 <= pos <= s.len(),
                    insert_ranked(w as int, h as int, s, i) == insert_ranked(
                        w as int,
                        h as int,
                        s.subrange(0, pos as int),
                        i,
                    ) + s.subrange(pos as int, s.len() as int),
                    pos == 0 || !score_lt(
                        w as int,
                        h as int,
                        orow(i as int),
                        orow(s[pos - 1] as int),
                    ),
                decreases pos,
            {
                let k = ranked_v[pos - 1];
                assert(k < i && near_official(w as int, h as int, orow(k as int)));
                let ek = table[k];
                proof {
                    lemma_near_positive(w as int, h as int, ek);
                }
                let (_, kn, kd) = score_parts(w, h, &ek);
                if !frac_lt(num, den, kn, kd) {
                    break;
                }
                let ghost pre = s.subrange(0, pos as int);
                assert(pre.drop_last() =~= s.subrange(0, pos - 1));
                assert(insert_ranked(w as int, h as int, s.subrange(0, pos - 1), i).push(k)
                    + s.subrange(pos as int, s.len() as int) =~= insert_ranked(
                    w as int,
                    h as int,
                    s.subrange(0, pos - 1),
                    i,
                ) + s.subrange(pos - 1, s.len() as int));
                pos = pos - 1;
            }
            proof {
                let pre = s.subrange(0, pos as int);
                if pos > 0 {
                    assert(pre.last() == s[pos - 1]);
                }
                assert(insert_ranked(w as int, h as int, pre, i) =~= pre.push(i));
                assert(pre.push(i) + s.subrange(pos as int, s.len() as int) =~= s.insert(
                    pos as int,
                    i,
                ));
            }
            ranked_v.insert(pos, i);
            assert(ranked_members_ok(w as int, h as int, ranked_v@, i + 1));
        }
        assert(ranked_members_ok(w as int, h as int, ranked_v@, i + 1));
        i = i + 1;
    }
    ranked_v
}

/// `n / d` rounded to the nearest integer, halves rounding up (`n >= 0`, `d > 0`).
pub open spec fn round_div(n: int, d: int) -> int {
    (2 * n + d) / (2 * d)
}

pub open spec fn clamp_int(v: int, lo: int, hi: int) -> int {
    if v < lo {
        lo
    } else if v > hi {
        hi
    } else {
        v
    }
}

/// The anchor `base` of official entry `e`, projected onto a `w`×`h` image
/// (scale factors `sx = w/ew`, `sy = h/eh`): the size scales by the mean
/// factor, rounded and kept within 24..=192; each margin scales by its own
/// axis' factor, rounded and at least 8.
pub open spec fn project_spec(base: WmConfig, w: int, h: int, e: Official) -> WmConfig {
    let ew = e.w as int;
    let eh = e.h as int;
    WmConfig {
        size: clamp_int(round_div(base.size * (w * eh + h * ew), 2 * (ew * eh)), 24, 192) as usize,
        margin_right: max_int(round_div(base.margin_right * w, ew), 8) as usize,
        margin_bottom: max_int(round_div(base.margin_bottom * h, eh), 8) as usize,
    }
}

/// Field bounds that keep `origin` within `i64` for any image up to `u32::MAX`.
pub open spec fn bounded(c: WmConfig) -> bool {
    &&& c.size <= 0x1_0000_0000_0000
    &&& c.margin_right <= 0x1_0000_0000_0000
    &&& c.margin_bottom <= 0x1_0000_0000_0000
}

pub open spec fn small_config(c: WmConfig) -> bool {
    &&& c.size <= 192
    &&& c.margin_right <= 192
    &&& c.margin_bottom <= 192
}

proof fn lemma_usize_cast_bounded(v: int)
    requires
        0 <= v <= 0x1000_0000_0000,
    ensures
        (v as usize) <= 0x1_0000_0000_0000,
{
    if v <= usize::MAX {
        assert((v as usize) == v);
    } else {
        assert(usize::MAX == 0xffff_ffff);
    }
}

fn project(base: WmConfig, w: usize, h: usize, e: &Official) -> (c: WmConfig)
    requires
        small_config(base),
        dims_ok(w as int, h as int),
        row_ok(*e),
    ensures
        c == project_spec(base, w as int, h as int, *e),
        bounded(c),
{
    let ew = e.w as u128;
    let eh = e.h as u128;
    let wi = w as u128;
    let hi = h as u128;
    assert(wi * eh <= 0x1_0000_0000 * 12288 && hi * ew <= 0x1_0000_0000 * 12288) by (nonlinear_arith)
        requires
            wi <= 0x1_0000_0000,
            hi <= 0x1_0000_0000,
            eh <= 12288,
            ew <= 12288,
    ;
    let cross = wi * eh + hi * ew;
    assert((base.size as u128) * cross <= 192 * 0x2_0000_0000 * 12288) by (nonlinear_arith)
        requires
            base.size <= 192,
            cross <= 0x2_0000_0000 * 12288,
    ;
    let num = (base.size as u128) * cross;
    assert(ew * eh >= 1 && ew * eh <= 12288 * 12288) by (nonlinear_arith)
        requires
            168 <= ew <= 12288,
            168 <= eh <= 12288,
    ;
    let den = 2 * (ew * eh);
    let s = (2 * num + den) / (2 * den);
    let size: usize = if s < 24 {
        24
    } else if s > 192 {
        192
    } else {
        s as usize
    };
    assert((base.margin_right as u128) * wi <= 192 * 0x1_0000_0000 && (base.margin_bottom as u128)
        * hi <= 192 * 0x1_0000_0000) by (nonlinear_arith)
        requires
            base.margin_right <= 192,
            base.margin_bottom <= 192,
            wi <= 0x1_0000_0000,
            hi <= 0x1_0000_0000,
    ;
    let mr = (2 * ((base.margin_right as u128) * wi) + ew) / (2 * ew);
    let mb = (2 * ((base.margin_bottom as u128) * hi) + eh) / (2 * eh);
    assert(mr <= 0x1000_0000_0000 && mb <= 0x1000_0000_0000) by {
        assert((2 * ((base.margin_right as u128) * wi) + ew) / (2 * ew) <= 2 * ((
        base.margin_right as u128) * wi) + ew) by (nonlinear_arith)
            requires
                ew >= 1,
        ;
        assert((2 * ((base.margin_bottom as u128) * hi) + eh) / (2 * eh) <= 2 * ((
        base.margin_bottom as u128) * hi) + eh) by (nonlinear_arith)
            requires
                eh >= 1,
        ;
    }
    let mr = if mr < 8 {
        8u128
    } else {
        mr
    };
    let mb = if mb < 8 {
        8u128
    } else {
        mb
    };
    proof {
        lemma_usize_cast_bounded(mr as int);
        lemma_usize_cast_bounded(mb as int);
    }
    WmConfig {
        size,
        margin_right: #[verifier::truncate] (mr as usize),
        margin_bottom: #[verifier::truncate] (mb as usize),
    }
}

/// Projections of the best-ranked near-official rows, best first.
pub open spec fn projections_spec(w: int, h: int) -> Seq<WmConfig> {
    top_ranked(w, h).map_values(
        |i: usize| project_spec(entry_configs_spec(orow(i as int))[0], w, h, orow(i as int)),
    )
}

fn projections(table: &Vec<Official>, w: usize, h: usize) -> (v: Vec<WmConfig>)
    requires
        table@ == official_rows(),
        dims_ok(w as int, h as int),
    ensures
        v@ == projections_spec(w as int, h as int),
        forall|k: int| 0 <= k < v@.len() ==> bounded(#[trigger] v@[k]),
{
    proof {
        lemma_official_rows();
    }
    let r = rank_near_official(table, w, h);
    let n = if r.len() < 3 {
        r.len()
    } else {
        3
    };
    let ghost top = top_ranked(w as int, h as int);
    assert(top =~= r@.subrange(0, n as int));
    assert(projections_spec(w as int, h as int).len() == n);
    let mut v: Vec<WmConfig> = Vec::new();
    let mut j: usize = 0;
    while j < n
        invariant
            table@ == official_rows(),
            table@.len() == official_count(),
            forall|k: int| 0 <= k < official_count() ==> row_ok(#[trigger] orow(k)),
            dims_ok(w as int, h as int),
            n <= r@.len(),
            top == r@.subrange(0, n as int),
            top == top_ranked(w as int, h as int),
            projections_spec(w as int, h as int).len() == n,
            ranked_members_ok(w as int, h as int, r@, official_count()),
            0 <= j <= n,
            v@ =~= projections_spec(w as int, h as int).subrange(0, j as int),
            forall|k: int| 0 <= k < v@.len() ==> bounded(#[trigger] v@[k]),
        decreases n - j,
    {
        let idx = r[j];
        assert(idx < official_count());
        let e = table[idx];
        assert(e == orow(idx as int));
        let cs = entry_configs(&e);
        assert(cs@.len() > 0);
        let base = cs[0];
        assert(small_config(base));
        let c = project(base, w, h, &e);
        assert(top[j as int] == idx);
        assert(projections_spec(w as int, h as int)[j as int] == c);
        v.push(c);
        j = j + 1;
    }
    v
}

/// Row `i` has exactly the dimensions `w`×`h`.
pub open spec fn matches_official(w: int, h: int, i: int) -> bool {
    orow(i).w == w && orow(i).h == h
}

pub open spec fn is_first_official(w: int, h: int, i: int) -> bool {
    &&& 0 <= i < official_count()
    &&& matches_official(w, h, i)
    &&& forall|k: int| 0 <= k < i ==> !matches_official(w, h, k)
}

/// The first row of the table with exactly the dimensions `w`×`h`, if any.
pub open spec fn exact_official(w: int, h: int) -> Option<int> {
    if exists|i: int| is_first_official(w, h, i) {
        Some(choose|i: int| is_first_official(w, h, i))
    } else {
        None
    }
}

proof fn lemma_first_official_unique(w: int, h: int, i: int, j: int)
    requires
        is_first_official(w, h, i),
        is_first_official(w, h, j),
    ensures
        i == j,
{
    if i < j {
        assert(!matches_official(w, h, i));
    }
    if j < i {
        assert(!matches_official(w, h, j));
    }
}

fn find_exact(table: &Vec<Official>, w: usize, h: usize) -> (r: Option<usize>)
    requires
        table@ == official_rows(),
    ensures
        match r {
            Some(i) => exact_official(w as int, h as int) == Some(i as int),
            None => exact_official(w as int, h as int) is None,
        },
{
    proof {
        lemma_official_rows();
    }
    let mut i: usize = 0;
    while i < table.len()
        invariant
            table@ == official_rows(),
            table@.len() == official_count(),
            0 <= i <= table@.len(),
            forall|k: int| 0 <= k < i ==> !matches_official(w as int, h as int, k),
        decreases table@.len() - i,
    {
        let e = &table[i];
        if e.w as usize == w && e.h as usize == h {
            assert(is_first_official(w as int, h as int, i as int));
            proof {
                let c = choose|k: int| is_first_official(w as int, h as int, k);
                lemma_first_official_unique(w as int, h as int, c, i as int);
            }
            return Some(i);
        }
        i = i + 1;
    }
    proof {
        if exists|k: int| is_first_official(w as int, h as int, k) {
            let k = choose|k: int| is_first_official(w as int, h as int, k);
            assert(!matches_official(w as int, h as int, k));
        }
    }
    None
}

/// The primary candidates: the known configs of an exact official size, else
/// the tier default followed by the near-official projections.
pub open spec fn primary_spec(w: int, h: int) -> Seq<WmConfig> {
    match exact_official(w, h) {
        Some(i) => entry_configs_spec(orow(i)),
        None => seq![default_by_tier_spec(w, h)] + tier_projections(w, h),
    }
}

/// `c` belongs to the tile tier of a `w`×`h` image: on an image with both
/// sides at least 1024px only tiles of at least 96px do, so that a smaller
/// window cannot win on part of a 96px mark.
pub open spec fn in_tier(c: WmConfig, w: int, h: int) -> bool {
    !(w >= 1024 && h >= 1024) || c.size >= 96
}

/// The configs of `s` that belong to the image's tile tier, in order.
pub open spec fn tier_filter(s: Seq<WmConfig>, w: int, h: int) -> Seq<WmConfig>
    decreases s.len(),
{
    if s.len() == 0 {
        s
    } else if in_tier(s.last(), w, h) {
        tier_filter(s.drop_last(), w, h).push(s.last())
    } else {
        tier_filter(s.drop_last(), w, h)
    }
}

/// The near-official projections that belong to the image's tile tier.
pub open spec fn tier_projections(w: int, h: int) -> Seq<WmConfig> {
    tier_filter(projections_spec(w, h), w, h)
}

proof fn lemma_tier_filter(s: Seq<WmConfig>, w: int, h: int)
    ensures
        forall|c: WmConfig|
            #[trigger] tier_filter(s, w, h).contains(c) ==> in_tier(c, w, h) && s.contains(c),
    decreases s.len(),
{
    if s.len() > 0 {
        let t = tier_filter(s.drop_last(), w, h);
        lemma_tier_filter(s.drop_last(), w, h);
        assert forall|c: WmConfig| #[trigger] tier_filter(s, w, h).contains(c) implies in_tier(
            c,
            w,
            h,
        ) && s.contains(c) by {
            let r = tier_filter(s, w, h);
            let k = choose|k: int| 0 <= k < r.len() && r[k] == c;
            if k < t.len() {
                assert(t[k] == c);
                assert(t.contains(c));
                let j = choose|j: int| 0 <= j < s.drop_last().len() && s.drop_last()[j] == c;
                assert(s[j] == c);
            } else {
                assert(c == s.last());
                assert(s[s.len() - 1] == c);
            }
        }
    }
}

/// The tier-appropriate fallback variants.
pub open spec fn fallback_spec(w: int, h: int) -> Seq<WmConfig> {
    if w >= 1024 && h >= 1024 {
        seq![legacy_96(), new_margin_96()]
    } else {
        seq![current_48(), large_margin_48(), legacy_96()]
    }
}

/// Every candidate, in priority order, before filtering.
pub open spec fn candidates_spec(w: int, h: int) -> Seq<WmConfig> {
    primary_spec(w, h) + fallback_spec(w, h)
}

/// Appends `c` if it fits and is not already present.
pub open spec fn add_candidate(out: Seq<WmConfig>, c: WmConfig, w: int, h: int) -> Seq<WmConfig> {
    if fits(c, w, h) && !out.contains(c) {
        out.push(c)
    } else {
        out
    }
}

/// Adds each of `cs` in order, as `add_candidate` does.
pub open spec fn add_candidates(out: Seq<WmConfig>, cs: Seq<WmConfig>, w: int, h: int) -> Seq<
    WmConfig,
>
    decreases cs.len(),
{
    if cs.len() == 0 {
        out
    } else {
        add_candidate(add_candidates(out, cs.drop_last(), w, h), cs.last(), w, h)
    }
}

/// The ordered candidate list for a `w`×`h` image.
pub open spec fn search_spec(w: int, h: int) -> Seq<WmConfig> {
    add_candidates(seq![], candidates_spec(w, h), w, h)
}

fn contains_config(out: &Vec<WmConfig>, c: WmConfig) -> (r: bool)
    ensures
        r == out@.contains(c),
{
    let mut i: usize = 0;
    while i < out.len()
        invariant
            0 <= i <= out@.len(),
            forall|k: int| 0 <= k < i ==> out@[k] != c,
        decreases out@.len() - i,
    {
        if out[i] == c {
            assert(out@[i as int] == c);
            return true;
        }
        i = i + 1;
    }
    false
}

fn push_candidates(out: &mut Vec<WmConfig>, cs: &Vec<WmConfig>, w: usize, h: usize)
    requires
        dims_ok(w as int, h as int),
        forall|k: int| 0 <= k < cs@.len() ==> bounded(#[trigger] cs@[k]),
    ensures
        final(out)@ == add_candidates(old(out)@, cs@, w as int, h as int),
{
    let ghost start = out@;
    let mut i: usize = 0;
    assert(cs@.subrange(0, 0) =~= Seq::<WmConfig>::empty());
    while i < cs.len()
        invariant
            dims_ok(w as int, h as int),
            forall|k: int| 0 <= k < cs@.len() ==> bounded(#[trigger] cs@[k]),
            0 <= i <= cs@.len(),
            out@ == add_candidates(start, cs@.subrange(0, i as int), w as int, h as int),
        decreases cs@.len() - i,
    {
        let c = cs[i];
        assert(bounded(c));
        let fit = c.origin(w, h).is_some();
        if fit && !contains_config(out, c) {
            out.push(c);
        }
        assert(cs@.subrange(0, i + 1).drop_last() =~= cs@.subrange(0, i as int));
        i = i + 1;
    }
    assert(cs@.subrange(0, cs@.len() as int) =~= cs@);
}

/// Ordered list of candidate watermark geometries for a `w`×`h` image, most
/// likely first:
/// 1. an exact official size gives its known config(s);
/// 2. otherwise the dimension-tier default (96 at 64 when both sides are at
///    least 1024px, else 48 at 32), then the projections of up to three
///    near-official sizes that belong to the image's tile tier (on a ≥1024px
///    image only tiles of at least 96px);
/// 3. then the tier's fallback variants (192px margin, 48px large margin, the
///    other tile size).
/// Candidates that do not fit the image, and repeats, are dropped.
///
/// The sides are bounded by `u32::MAX`, the range of the decoder's image
/// dimensions: the exact ranking compares products that need it to stay within
/// `u128`.
pub fn search_configs(w: usize, h: usize) -> (out: Vec<WmConfig>)
    requires
        w <= u32::MAX,
        h <= u32::MAX,
        w > 0 || h > 0,
    ensures
        out@ == search_spec(w as int, h as int),
{
    let table = official_table();
    proof {
        lemma_official_rows();
    }
    let mut cands: Vec<WmConfig> = Vec::new();
    match find_exact(&table, w, h) {
        Some(i) => {
            cands = entry_configs(&table[i]);
        },
        None => {
            cands.push(default_by_tier(w, h));
            let proj = projections(&table, w, h);
            let large_image = w >= 1024 && h >= 1024;
            let ghost before = cands@;
            let mut j: usize = 0;
            assert(proj@.subrange(0, 0) =~= Seq::<WmConfig>::empty());
            while j < proj.len()
                invariant
                    0 <= j <= proj@.len(),
                    large_image == (w >= 1024 && h >= 1024),
                    forall|k: int| 0 <= k < proj@.len() ==> bounded(#[trigger] proj@[k]),
                    forall|k: int| 0 <= k < cands@.len() ==> bounded(#[trigger] cands@[k]),
                    cands@ == before + tier_filter(proj@.subrange(0, j as int), w as int, h as int),
                decreases proj@.len() - j,
            {
                let c = proj[j];
                assert(proj@.subrange(0, j + 1).drop_last() =~= proj@.subrange(0, j as int));
                assert(proj@.subrange(0, j + 1).last() == c);
                if !large_image || c.size >= 96 {
                    cands.push(c);
                }
                assert(cands@ =~= before + tier_filter(
                    proj@.subrange(0, j + 1),
                    w as int,
                    h as int,
                ));
                j = j + 1;
            }
            assert(proj@.subrange(0, proj@.len() as int) =~= proj@);
        },
    }
    let large = w >= 1024 && h >= 1024;
    if large {
        cands.push(legacy_96());
        cands.push(new_margin_96());
    } else {
        cands.push(current_48());
        cands.push(large_margin_48());
        cands.push(legacy_96());
    }
    assert(cands@ =~= candidates_spec(w as int, h as int));
    let mut out: Vec<WmConfig> = Vec::new();
    push_candidates(&mut out, &cands, w, h);
    out
}

// ---------------------------------------------------------------------------
// Laws of the candidate list
// ---------------------------------------------------------------------------

/// No config occurs twice in `s`.
pub open spec fn no_repeats(s: Seq<WmConfig>) -> bool {
    forall|a: int, b: int| 0 <= a < b < s.len() ==> s[a] != s[b]
}

/// Every config of `s` fits a `w`×`h` image.
pub open spec fn all_fit(s: Seq<WmConfig>, w: int, h: int) -> bool {
    forall|k: int| 0 <= k < s.len() ==> fits(#[trigger] s[k], w, h)
}

proof fn lemma_add_candidates(out: Seq<WmConfig>, cs: Seq<WmConfig>, w: int, h: int)
    requires
        no_repeats(out),
        all_fit(out, w, h),
    ensures
        no_repeats(add_candidates(out, cs, w, h)),
        all_fit(add_candidates(out, cs, w, h), w, h),
        add_candidates(out, cs, w, h).len() >= out.len(),
        forall|k: int| 0 <= k < out.len() ==> add_candidates(out, cs, w, h)[k] == out[k],
        forall|c: WmConfig|
            add_candidates(out, cs, w, h).contains(c) <==> (out.contains(c) || (cs.contains(c)
                && fits(c, w, h))),
    decreases cs.len(),
{
    if cs.len() > 0 {
        let prev = add_candidates(out, cs.drop_last(), w, h);
        lemma_add_candidates(out, cs.drop_last(), w, h);
        let c = cs.last();
        assert forall|x: WmConfig| cs.contains(x) <==> (cs.drop_last().contains(x) || x == c) by {
            if cs.contains(x) {
                let k = choose|k: int| 0 <= k < cs.len() && cs[k] == x;
                if k < cs.len() - 1 {
                    assert(cs.drop_last()[k] == x);
                }
            }
            if cs.drop_last().contains(x) {
                let k = choose|k: int| 0 <= k < cs.drop_last().len() && cs.drop_last()[k] == x;
                assert(cs[k] == x);
            }
            if x == c {
                assert(cs[cs.len() - 1] == x);
            }
        }
        if fits(c, w, h) && !prev.contains(c) {
            let next = prev.push(c);
            assert forall|x: WmConfig| next.contains(x) <==> (prev.contains(x) || x == c) by {
                if next.contains(x) {
                    let k = choose|k: int| 0 <= k < next.len() && next[k] == x;
                    if k < prev.len() {
                        assert(prev[k] == x);
                    }
                }
                if prev.contains(x) {
                    let k = choose|k: int| 0 <= k < prev.len() && prev[k] == x;
                    assert(next[k] == x);
                }
                if x == c {
                    assert(next[prev.len() as int] == x);
                }
            }
            assert forall|a: int, b: int| 0 <= a < b < next.len() implies next[a] != next[b] by {
                if b == prev.len() {
                    assert(prev[a] == next[a]);
                }
            }
        }
    }
}

/// Every candidate in the list fits the image, so `origin` gives its position.
pub proof fn lemma_search_configs_fit(w: int, h: int)
    ensures
        all_fit(search_spec(w, h), w, h),
{
    lemma_add_candidates(seq![], candidates_spec(w, h), w, h);
}

/// No geometry is offered twice.
pub proof fn lemma_search_configs_no_repeats(w: int, h: int)
    ensures
        no_repeats(search_spec(w, h)),
{
    lemma_add_candidates(seq![], candidates_spec(w, h), w, h);
}

/// A geometry is offered exactly when it is one of the primary or fallback
/// candidates and it fits the image.
pub proof fn lemma_search_configs_members(w: int, h: int, c: WmConfig)
    ensures
        search_spec(w, h).contains(c) <==> candidates_spec(w, h).contains(c) && fits(c, w, h),
{
    lemma_add_candidates(seq![], candidates_spec(w, h), w, h);
}

/// When the first candidate fits, it heads the list.
pub proof fn lemma_search_configs_first(w: int, h: int)
    requires
        fits(candidates_spec(w, h)[0], w, h),
    ensures
        search_spec(w, h).len() > 0,
        search_spec(w, h)[0] == candidates_spec(w, h)[0],
{
    let cs = candidates_spec(w, h);
    lemma_first_kept(cs, w, h);
}

proof fn lemma_first_kept(cs: Seq<WmConfig>, w: int, h: int)
    requires
        cs.len() > 0,
        fits(cs[0], w, h),
    ensures
        add_candidates(seq![], cs, w, h).len() > 0,
        add_candidates(seq![], cs, w, h)[0] == cs[0],
    decreases cs.len(),
{
    if cs.len() == 1 {
        assert(cs.drop_last() =~= Seq::<WmConfig>::empty());
        assert(add_candidates(seq![], cs.drop_last(), w, h) =~= Seq::<WmConfig>::empty());
    } else {
        assert(cs.drop_last()[0] == cs[0]);
        lemma_first_kept(cs.drop_last(), w, h);
        lemma_add_candidates(seq![], cs.drop_last(), w, h);
    }
}

proof fn lemma_rows_new_margin()
    ensures
        forall|i: int|
            0 <= i < official_count() && (#[trigger] orow(i)).tier == Tier::T2NewMargin ==> orow(
                i,
            ).w >= 288 && orow(i).h >= 288,
{
    reveal(official_rows);
}

/// An image of an official size is offered its entry's primary config first.
pub proof fn lemma_search_configs_exact(w: int, h: int)
    requires
        exact_official(w, h) is Some,
    ensures
        search_spec(w, h).len() > 0,
        search_spec(w, h)[0] == entry_configs_spec(orow(exact_official(w, h)->0))[0],
{
    let i = exact_official(w, h)->0;
    assert(is_first_official(w, h, i));
    lemma_official_rows();
    lemma_rows_new_margin();
    assert(fits(candidates_spec(w, h)[0], w, h));
    lemma_search_configs_first(w, h);
}

/// An image that is not of an official size is offered the tier default first:
/// the 96px/64px mark when both sides are at least 1024px, the 48px/32px mark
/// on a smaller image that it fits.
pub proof fn lemma_search_configs_tier_default(w: int, h: int)
    requires
        exact_official(w, h) is None,
        fits(default_by_tier_spec(w, h), w, h),
    ensures
        search_spec(w, h).len() > 0,
        search_spec(w, h)[0] == default_by_tier_spec(w, h),
        w >= 1024 && h >= 1024 ==> search_spec(w, h)[0] == legacy_96(),
        !(w >= 1024 && h >= 1024) ==> search_spec(w, h)[0] == current_48(),
{
    lemma_search_configs_first(w, h);
}

/// Every image of at least 80×80 pixels gets at least one candidate: the
/// tier's own fallback always fits it.
pub proof fn lemma_search_configs_nonempty(w: int, h: int)
    requires
        w >= 80,
        h >= 80,
    ensures
        search_spec(w, h).len() > 0,
{
    let c = if w >= 1024 && h >= 1024 {
        legacy_96()
    } else {
        current_48()
    };
    let fb = fallback_spec(w, h);
    assert(fb[0] == c);
    let cs = candidates_spec(w, h);
    assert(cs[primary_spec(w, h).len() as int] == c);
    lemma_search_configs_members(w, h, c);
}

/// Candidates stay within the image's tile tier: on an image with both sides
/// at least 1024px that is not of an official size, every candidate is a tile
/// of at least 96px. On a smaller such image every candidate other than a
/// near-official projection is a 48px tile or the 96px/64px fallback.
pub proof fn lemma_search_configs_tier(w: int, h: int, c: WmConfig)
    requires
        exact_official(w, h) is None,
        search_spec(w, h).contains(c),
    ensures
        w >= 1024 && h >= 1024 ==> c.size >= 96,
        !(w >= 1024 && h >= 1024) && !projections_spec(w, h).contains(c) ==> c.size == 48 || c
            == legacy_96(),
{
    lemma_search_configs_members(w, h, c);
    let cs = candidates_spec(w, h);
    let pr = tier_projections(w, h);
    let k = choose|k: int| 0 <= k < cs.len() && cs[k] == c;
    assert(cs == seq![default_by_tier_spec(w, h)] + pr + fallback_spec(w, h));
    if 1 <= k < 1 + pr.len() {
        assert(pr[k - 1] == c);
        assert(pr.contains(c));
        lemma_tier_filter(projections_spec(w, h), w, h);
    }
}

/// An image of an official 2k or 4k size is offered the 96px mark at a 64px
/// margin first.
pub proof fn lemma_search_configs_official_2k_4k(w: int, h: int)
    requires
        exact_official(w, h) matches Some(i) && (orow(i).tier == Tier::T2 || orow(i).tier
            == Tier::T4),
    ensures
        search_spec(w, h).len() > 0,
        search_spec(w, h)[0] == (WmConfig { size: 96, margin_right: 64, margin_bottom: 64 }),
{
    lemma_search_configs_exact(w, h);
}

/// The mark each official size is stamped with first: the 48px mark at 32px
/// on the 0.5k sizes and on the 3.x 1k sizes, the 96px mark at 64px on the
/// 2.5 Flash 1k sizes and on the 2k and 4k sizes, and the 96px mark at 192px
/// on the 2k large-margin size.
pub proof fn lemma_search_configs_official_first(w: int, h: int)
    requires
        exact_official(w, h) is Some,
    ensures
        search_spec(w, h).len() > 0,
        ({
            let e = orow(exact_official(w, h)->0);
            let first = search_spec(w, h)[0];
            &&& e.tier == Tier::T05 ==> first == (WmConfig { size: 48, margin_right: 32, margin_bottom: 32 })
            &&& (e.tier == Tier::T1 && e.family == Family::G3x) ==> first == (WmConfig {
                size: 48,
                margin_right: 32,
                margin_bottom: 32,
            })
            &&& (e.tier == Tier::T1 && e.family == Family::G25Flash) ==> first == (WmConfig {
                size: 96,
                margin_right: 64,
                margin_bottom: 64,
            })
            &&& (e.tier == Tier::T2 || e.tier == Tier::T4) ==> first == (WmConfig {
                size: 96,
                margin_right: 64,
                margin_bottom: 64,
            })
            &&& e.tier == Tier::T2NewMargin ==> first == (WmConfig {
                size: 96,
                margin_right: 192,
                margin_bottom: 192,
            })
        }),
{
    lemma_search_configs_exact(w, h);
}

/// The fallback variants are always offered when they fit: on an image with
/// both sides at least 1024px the 96px mark at 64px and at 192px, otherwise
/// the 48px mark at 32px and at 96px and the 96px mark at 64px.
pub proof fn lemma_search_configs_fallbacks(w: int, h: int, c: WmConfig)
    requires
        fits(c, w, h),
        w >= 1024 && h >= 1024 ==> (c == (WmConfig { size: 96, margin_right: 64, margin_bottom: 64 })
            || c == (WmConfig { size: 96, margin_right: 192, margin_bottom: 192 })),
        !(w >= 1024 && h >= 1024) ==> (c == (WmConfig { size: 48, margin_right: 32, margin_bottom: 32 })
            || c == (WmConfig { size: 48, margin_right: 96, margin_bottom: 96 }) || c == (WmConfig {
            size: 96,
            margin_right: 64,
            margin_bottom: 64,
        })),
    ensures
        search_spec(w, h).contains(c),
{
    let cs = candidates_spec(w, h);
    let p = primary_spec(w, h);
    let f = fallback_spec(w, h);
    assert(cs == p + f);
    let k: int = if w >= 1024 && h >= 1024 {
        if c == legacy_96() { 0 } else { 1 }
    } else {
        if c == current_48() { 0 } else if c == large_margin_48() { 1 } else { 2 }
    };
    assert(f[k] == c);
    assert(cs[p.len() + k] == c);
    lemma_search_configs_members(w, h, c);
}

/// On an image with both sides at least 1024px every candidate is a tile of at
/// least 96px, except on the official 1k sizes, whose own configs start with
/// the 48px mark.
pub proof fn lemma_search_configs_large_tile_tier(w: int, h: int, c: WmConfig)
    requires
        w >= 1024,
        h >= 1024,
        !(exact_official(w, h) matches Some(i) && orow(i).tier == Tier::T1),
        search_spec(w, h).contains(c),
    ensures
        c.size >= 96,
{
    if exact_official(w, h) is None {
        lemma_search_configs_tier(w, h, c);
    } else {
        let i = exact_official(w, h)->0;
        assert(is_first_official(w, h, i));
        lemma_official_rows();
        lemma_search_configs_members(w, h, c);
        let cs = candidates_spec(w, h);
        let k = choose|k: int| 0 <= k < cs.len() && cs[k] == c;
        assert(cs == entry_configs_spec(orow(i)) + fallback_spec(w, h));
        // an official size with both sides at least 1024px is not of the 0.5k tier
        assert(orow(i).tier != Tier::T05) by {
            reveal(official_rows);
        }
    }
}

// ---------------------------------------------------------------------------
// Laws of the near-official ranking
// ---------------------------------------------------------------------------

/// Row `a` scores no worse than row `b`.
pub open spec fn score_le(w: int, h: int, a: Official, b: Official) -> bool {
    !score_lt(w, h, b, a)
}

/// `s` is sorted by ascending score, and indices of equal score keep their
/// catalog order.
pub open spec fn sorted_stably(w: int, h: int, s: Seq<usize>) -> bool {
    forall|a: int, b: int|
        0 <= a < b < s.len() ==> score_le(w, h, orow(s[a] as int), orow(s[b] as int)) && (
        score_le(w, h, orow(s[b] as int), orow(s[a] as int)) ==> s[a] < s[b])
}

proof fn lemma_score_le_trans(w: int, h: int, a: Official, b: Official, c: Official)
    requires
        score_den(w, h, a) > 0,
        score_den(w, h, b) > 0,
        score_den(w, h, c) > 0,
        score_le(w, h, a, b),
        score_le(w, h, b, c),
    ensures
        score_le(w, h, a, c),
{
    let (na, da) = (score_num(w, h, a), score_den(w, h, a));
    let (nb, db) = (score_num(w, h, b), score_den(w, h, b));
    let (nc, dc) = (score_num(w, h, c), score_den(w, h, c));
    assert(na * dc <= nc * da) by (nonlinear_arith)
        requires
            na * db <= nb * da,
            nb * dc <= nc * db,
            da > 0,
            db > 0,
            dc > 0,
    {
        assert(na * db * dc <= nb * da * dc);
        assert(nb * dc * da <= nc * db * da);
        assert(na * dc * db <= nc * da * db);
    }
}

proof fn lemma_score_total(w: int, h: int, a: Official, b: Official)
    ensures
        score_lt(w, h, a, b) ==> score_le(w, h, a, b),
        !score_lt(w, h, a, b) ==> score_le(w, h, b, a),
{
}

proof fn lemma_drop_last_contains(s: Seq<usize>)
    requires
        s.len() > 0,
    ensures
        forall|x: usize| #[trigger] s.contains(x) <==> (s.drop_last().contains(x) || x == s.last()),
{
    let t = s.drop_last();
    assert forall|x: usize| #[trigger] s.contains(x) <==> (t.contains(x) || x == s.last()) by {
        if s.contains(x) {
            let k = choose|k: int| 0 <= k < s.len() && s[k] == x;
            if k < s.len() - 1 {
                assert(t[k] == x);
            }
        }
        if t.contains(x) {
            let k = choose|k: int| 0 <= k < t.len() && t[k] == x;
            assert(s[k] == x);
        }
        if x == s.last() {
            assert(s[s.len() - 1] == x);
        }
    }
}

proof fn lemma_push_contains(s: Seq<usize>, v: usize)
    ensures
        forall|x: usize| #[trigger] s.push(v).contains(x) <==> (s.contains(x) || x == v),
{
    lemma_drop_last_contains(s.push(v));
    assert(s.push(v).drop_last() =~= s);
}

/// Insertion adds exactly `i` to the sequence.
proof fn lemma_insert_ranked_contents(w: int, h: int, s: Seq<usize>, i: usize)
    ensures
        insert_ranked(w, h, s, i).len() == s.len() + 1,
        forall|x: usize| #[trigger]
            insert_ranked(w, h, s, i).contains(x) <==> (s.contains(x) || x == i),
    decreases s.len(),
{
    let r = insert_ranked(w, h, s, i);
    if s.len() == 0 {
        lemma_push_contains(s, i);
        assert(r =~= s.push(i));
    } else if score_lt(w, h, orow(i as int), orow(s.last() as int)) {
        let t = s.drop_last();
        lemma_insert_ranked_contents(w, h, t, i);
        let u = insert_ranked(w, h, t, i);
        lemma_push_contains(u, s.last());
        lemma_drop_last_contains(s);
    } else {
        lemma_push_contains(s, i);
    }
}

proof fn lemma_insert_ranked(w: int, h: int, s: Seq<usize>, i: usize)
    requires
        dims_ok(w, h),
        forall|k: int| 0 <= k < official_count() ==> row_ok(#[trigger] orow(k)),
        ranked_members_ok(w, h, s, i as int),
        i < official_count(),
        near_official(w, h, orow(i as int)),
        sorted_stably(w, h, s),
    ensures
        sorted_stably(w, h, insert_ranked(w, h, s, i)),
        ranked_members_ok(w, h, insert_ranked(w, h, s, i), i + 1),
    decreases s.len(),
{
    lemma_near_positive(w, h, orow(i as int));
    lemma_insert_ranked_contents(w, h, s, i);
    let r = insert_ranked(w, h, s, i);
    if s.len() == 0 {
        assert(r[0] == i);
    } else {
        let last = s.last();
        assert(s[s.len() - 1] == last);
        lemma_near_positive(w, h, orow(last as int));
        let t = s.drop_last();
        lemma_drop_last_contains(s);
        if score_lt(w, h, orow(i as int), orow(last as int)) {
            assert(sorted_stably(w, h, t));
            assert(ranked_members_ok(w, h, t, i as int));
            lemma_insert_ranked(w, h, t, i);
            lemma_insert_ranked_contents(w, h, t, i);
            let u = insert_ranked(w, h, t, i);
            assert(r == u.push(last));
            // every member of `u` scores no worse than `last`, and strictly
            // better or earlier
            assert forall|a: int| 0 <= a < u.len() implies score_le(
                w,
                h,
                orow(u[a] as int),
                orow(last as int),
            ) && (score_le(w, h, orow(last as int), orow(u[a] as int)) ==> u[a] < last) by {
                assert(u.contains(u[a]));
                if u[a] == i {
                    lemma_score_total(w, h, orow(i as int), orow(last as int));
                } else {
                    assert(t.contains(u[a]));
                    let k = choose|k: int| 0 <= k < t.len() && t[k] == u[a];
                    assert(s[k] == u[a]);
                }
            }
            assert forall|a: int, b: int| 0 <= a < b < r.len() implies score_le(
                w,
                h,
                orow(r[a] as int),
                orow(r[b] as int),
            ) && (score_le(w, h, orow(r[b] as int), orow(r[a] as int)) ==> r[a] < r[b]) by {
                if b == u.len() {
                    assert(r[a] == u[a]);
                    assert(r[b] == last);
                } else {
                    assert(r[a] == u[a]);
                    assert(r[b] == u[b]);
                }
            }
            assert forall|j: int| 0 <= j < r.len() implies #[trigger] r[j] < i + 1
                && near_official(w, h, orow(r[j] as int)) by {
                if j == u.len() {
                    assert(r[j] == last);
                } else {
                    assert(r[j] == u[j]);
                }
            }
        } else {
            assert(r == s.push(i));
            lemma_score_total(w, h, orow(i as int), orow(last as int));
            assert forall|a: int, b: int| 0 <= a < b < r.len() implies score_le(
                w,
                h,
                orow(r[a] as int),
                orow(r[b] as int),
            ) && (score_le(w, h, orow(r[b] as int), orow(r[a] as int)) ==> r[a] < r[b]) by {
                if b == s.len() {
                    assert(r[a] == s[a]);
                    assert(r[b] == i);
                    lemma_near_positive(w, h, orow(s[a] as int));
                    if a < s.len() - 1 {
                        lemma_score_le_trans(
                            w,
                            h,
                            orow(s[a] as int),
                            orow(last as int),
                            orow(i as int),
                        );
                    }
                } else {
                    assert(r[a] == s[a]);
                    assert(r[b] == s[b]);
                }
            }
            assert forall|j: int| 0 <= j < r.len() implies #[trigger] r[j] < i + 1
                && near_official(w, h, orow(r[j] as int)) by {
                if j == s.len() {
                    assert(r[j] == i);
                } else {
                    assert(r[j] == s[j]);
                }
            }
        }
    }
}

/// The ranking is a stable sort of the near-official rows by ascending score:
/// it holds each near-official row below `n` once, and nothing else.
pub proof fn lemma_ranked(w: int, h: int, n: int)
    requires
        dims_ok(w, h),
        0 <= n <= official_count(),
    ensures
        sorted_stably(w, h, ranked(w, h, n)),
        ranked_members_ok(w, h, ranked(w, h, n), n),
        forall|k: usize|
            ranked(w, h, n).contains(k) <==> (k < n && near_official(w, h, orow(k as int))),
        forall|a: int, b: int|
            0 <= a < b < ranked(w, h, n).len() ==> ranked(w, h, n)[a] != ranked(w, h, n)[b],
    decreases n,
{
    lemma_official_rows();
    if n > 0 {
        lemma_ranked(w, h, n - 1);
        let prev = ranked(w, h, n - 1);
        if near_official(w, h, orow(n - 1)) {
            lemma_insert_ranked(w, h, prev, (n - 1) as usize);
            lemma_insert_ranked_contents(w, h, prev, (n - 1) as usize);
            assert forall|k: usize|
                ranked(w, h, n).contains(k) <==> (k < n && near_official(
                    w,
                    h,
                    orow(k as int),
                )) by {
                assert(ranked(w, h, n) == insert_ranked(w, h, prev, (n - 1) as usize));
                assert(insert_ranked(w, h, prev, (n - 1) as usize).contains(k) <==> (prev.contains(
                    k,
                ) || k == (n - 1) as usize));
                assert(prev.contains(k) <==> (k < n - 1 && near_official(w, h, orow(k as int))));
            }
        } else {
            assert forall|k: usize|
                ranked(w, h, n).contains(k) <==> (k < n && near_official(
                    w,
                    h,
                    orow(k as int),
                )) by {
                if k == n - 1 {
                    if prev.contains(k) {
                        let j = choose|j: int| 0 <= j < prev.len() && prev[j] == k;
                        assert(prev[j] < n - 1);
                    }
                }
            }
        }
    }
    let r = ranked(w, h, n);
    assert forall|a: int, b: int| 0 <= a < b < r.len() implies r[a] != r[b] by {
        if r[a] == r[b] {
            assert(score_le(w, h, orow(r[b] as int), orow(r[a] as int)));
        }
    }
}

/// The projections come from the (at most three) best-scoring near-official
/// rows, in ascending score order with ties in catalog order; no
/// near-official row left out scores better than one taken.
pub proof fn lemma_top_ranked(w: int, h: int)
    requires
        dims_ok(w, h),
    ensures
        top_ranked(w, h).len() <= 3,
        sorted_stably(w, h, top_ranked(w, h)),
        forall|j: int|
            0 <= j < top_ranked(w, h).len() ==> near_official(
                w,
                h,
                orow(#[trigger] top_ranked(w, h)[j] as int),
            ),
        forall|k: usize, j: int|
            #![trigger top_ranked(w, h)[j], near_official(w, h, orow(k as int))]
            k < official_count() && near_official(w, h, orow(k as int)) && !top_ranked(
                w,
                h,
            ).contains(k) && 0 <= j < top_ranked(w, h).len() ==> score_le(
                w,
                h,
                orow(top_ranked(w, h)[j] as int),
                orow(k as int),
            ),
        projections_spec(w, h).len() == top_ranked(w, h).len(),
{
    lemma_ranked(w, h, official_count());
    let r = ranked(w, h, official_count());
    let t = top_ranked(w, h);
    assert forall|k: usize, j: int|
        #![trigger t[j], near_official(w, h, orow(k as int))]
        k < official_count() && near_official(w, h, orow(k as int)) && !t.contains(k) && 0 <= j
            < t.len() implies score_le(w, h, orow(t[j] as int), orow(k as int)) by {
        assert(r.contains(k));
        let b = choose|b: int| 0 <= b < r.len() && r[b] == k;
        if b < t.len() {
            assert(t[b] == k);
        }
        assert(t[j] == r[j]);
    }
    assert forall|a: int, b: int| 0 <= a < b < t.len() implies score_le(
        w,
        h,
        orow(t[a] as int),
        orow(t[b] as int),
    ) && (score_le(w, h, orow(t[b] as int), orow(t[a] as int)) ==> t[a] < t[b]) by {
        assert(t[a] == r[a] && t[b] == r[b]);
    }
}
} // verus!
