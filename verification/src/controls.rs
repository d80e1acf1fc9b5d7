//! Decisions behind the remover's controls: the manual corner anchor, position
//! nudges, colour entry, the stored calibration, and output file naming.
use vstd::prelude::*;
use vstd::string::StrSliceExecFns;
use vstd::utf8::encode_utf8;

verus! {

/// Where the user says the mark sits.
#[derive(Clone, Copy, PartialEq, Eq, Debug, Structural)]
pub enum CornerSel {
    Auto,
    Br,
    Bl,
    Tr,
    Tl,
}

impl CornerSel {
    /// The short code of the corner ("auto", "br", "bl", "tr", "tl").
    pub fn code(self) -> (s: &'static str)
        ensures
            s@ == match self {
                CornerSel::Auto => "auto"@,
                CornerSel::Br => "br"@,
                CornerSel::Bl => "bl"@,
                CornerSel::Tr => "tr"@,
                CornerSel::Tl => "tl"@,
            },
    {
        match self {
            CornerSel::Auto => "auto",
            CornerSel::Br => "br",
            CornerSel::Bl => "bl",
            CornerSel::Tr => "tr",
            CornerSel::Tl => "tl",
        }
    }
}

/// Margin of a manually placed tile: 64px when both sides are at least 1024px,
/// else 32px.
pub open spec fn manual_margin(w: int, h: int) -> int {
    if w >= 1024 && h >= 1024 {
        64
    } else {
        32
    }
}

/// A hand-placed tile sits 64px from the edges exactly when both sides of the
/// image are at least 1024px, and 32px otherwise: the margin of the catalog's
/// tier default for that image.
pub proof fn lemma_manual_margin(w: int, h: int)
    ensures
        w < 1024 || h < 1024 ==> manual_margin(w, h) == 32,
        w >= 1024 && h >= 1024 ==> manual_margin(w, h) == 64,
        manual_margin(w, h) == crate::catalog::default_by_tier_spec(w, h).margin_right,
        manual_margin(w, h) == crate::catalog::default_by_tier_spec(w, h).margin_bottom,
{
}

/// Top-left origin of a `size`-pixel tile placed by hand in the chosen corner
/// of a `w`×`h` image, at the tier's margin from both adjacent edges; `None`
/// for automatic placement.
pub open spec fn manual_origin_spec(corner: CornerSel, w: int, h: int, size: int) -> Option<
    (int, int),
> {
    let m = manual_margin(w, h);
    match corner {
        CornerSel::Auto => None,
        CornerSel::Br => Some((w - size - m, h - size - m)),
        CornerSel::Bl => Some((m, h - size - m)),
        CornerSel::Tr => Some((w - size - m, m)),
        CornerSel::Tl => Some((m, m)),
    }
}

/// Where a hand-placed tile goes: 32px from the two edges of its corner (64px
/// when both sides of the image are at least 1024px): the left-hand corners
/// share the column `margin`, the right-hand ones the column
/// `w - size - margin`, the top ones the row `margin` and the bottom ones the
/// row `h - size - margin`.
pub proof fn lemma_manual_origin_placement(w: int, h: int, size: int)
    ensures
        ({
            let m: int = if w >= 1024 && h >= 1024 { 64 } else { 32 };
            let tl = manual_origin_spec(CornerSel::Tl, w, h, size);
            let br = manual_origin_spec(CornerSel::Br, w, h, size);
            let bl = manual_origin_spec(CornerSel::Bl, w, h, size);
            let tr = manual_origin_spec(CornerSel::Tr, w, h, size);
            &&& manual_origin_spec(CornerSel::Auto, w, h, size) is None
            &&& tl == Some((m, m))
            &&& br == Some((w - size - m, h - size - m))
            &&& bl == Some((m, h - size - m))
            &&& tr == Some((w - size - m, m))
        }),
{
}

/// The top-left origin of a tile placed by hand (`manual_origin_spec`).
pub fn manual_origin(corner: CornerSel, w: usize, h: usize, size: usize) -> (r: Option<(i64, i64)>)
    requires
        w <= i64::MAX,
        h <= i64::MAX,
        size <= i64::MAX,
        w - size - manual_margin(w as int, h as int) >= i64::MIN,
        h - size - manual_margin(w as int, h as int) >= i64::MIN,
    ensures
        ({
            let m = manual_margin(w as int, h as int);
            let right = w - size - m;
            let bottom = h - size - m;
            match corner {
                CornerSel::Auto => r is None,
                CornerSel::Br => r == Some((right as i64, bottom as i64)),
                CornerSel::Bl => r == Some((m as i64, bottom as i64)),
                CornerSel::Tr => r == Some((right as i64, m as i64)),
                CornerSel::Tl => r == Some((m as i64, m as i64)),
            }
        }),
        (w < 1024 || h < 1024) && corner == CornerSel::Tl ==> r == Some((32i64, 32i64)),
        w >= 1024 && h >= 1024 && corner == CornerSel::Tl ==> r == Some((64i64, 64i64)),
        manual_origin_spec(corner, w as int, h as int, size as int) == match r {
            Some(p) => Some((p.0 as int, p.1 as int)),
            None => None::<(int, int)>,
        },
{
    proof {
        lemma_manual_margin(w as int, h as int);
    }
    let t = size as i64;
    let m: i64 = if w >= 1024 && h >= 1024 {
        64
    } else {
        32
    };
    let wi = w as i64;
    let hi = h as i64;
    match corner {
        CornerSel::Auto => None,
        CornerSel::Br => Some((wi - t - m, hi - t - m)),
        CornerSel::Bl => Some((m, hi - t - m)),
        CornerSel::Tr => Some((wi - t - m, m)),
        CornerSel::Tl => Some((m, m)),
    }
}

// ---------------------------------------------------------------------------
// Colour entry
// ---------------------------------------------------------------------------

/// `char::is_whitespace`: the character has the Unicode White_Space property
/// (U+0009 to U+000D, U+0020, U+0085, U+00A0, U+1680, U+2000 to U+200A,
/// U+2028, U+2029, U+202F, U+205F and U+3000).
pub open spec fn white_space(c: char) -> bool {
    let v = c as u32;
    ||| 0x09 <= v <= 0x0d
    ||| v == 0x20
    ||| v == 0x85
    ||| v == 0xa0
    ||| v == 0x1680
    ||| 0x2000 <= v <= 0x200a
    ||| v == 0x2028
    ||| v == 0x2029
    ||| v == 0x202f
    ||| v == 0x205f
    ||| v == 0x3000
}

fn is_white_space(c: char) -> (r: bool)
    ensures
        r == white_space(c),
{
    let v = c as u32;
    (0x09 <= v && v <= 0x0d) || v == 0x20 || v == 0x85 || v == 0xa0 || v == 0x1680 || (0x2000 <= v
        && v <= 0x200a) || v == 0x2028 || v == 0x2029 || v == 0x202f || v == 0x205f || v == 0x3000
}

/// `s` without its leading whitespace.
pub open spec fn trim_start_ws(s: Seq<char>) -> Seq<char>
    decreases s.len(),
{
    if s.len() > 0 && white_space(s[0]) {
        trim_start_ws(s.drop_first())
    } else {
        s
    }
}

/// `s` without its trailing whitespace.
pub open spec fn trim_end_ws(s: Seq<char>) -> Seq<char>
    decreases s.len(),
{
    if s.len() > 0 && white_space(s.last()) {
        trim_end_ws(s.drop_last())
    } else {
        s
    }
}

/// `s` without leading and trailing whitespace.
pub open spec fn trimmed(s: Seq<char>) -> Seq<char> {
    trim_end_ws(trim_start_ws(s))
}

/// `s` without leading and trailing whitespace, as `str::trim` gives it.
fn trim(s: &str) -> (r: &str)
    ensures
        r@ == trimmed(s@),
{
    let n = s.unicode_len();
    let mut i: usize = 0;
    assert(s@.subrange(0, n as int) =~= s@);
    while i < n && is_white_space(s.get_char(i))
        invariant
            n == s@.len(),
            0 <= i <= n,
            trim_start_ws(s@) == trim_start_ws(s@.subrange(i as int, n as int)),
        decreases n - i,
    {
        assert(s@.subrange(i as int, n as int).drop_first() =~= s@.subrange(i + 1, n as int));
        i = i + 1;
    }
    // `s[i..]` is empty or starts with a non-whitespace character
    assert(trim_start_ws(s@) == s@.subrange(i as int, n as int));
    let ghost t = s@.subrange(i as int, n as int);
    let mut j: usize = n;
    assert(s@.subrange(i as int, j as int) =~= t);
    while j > i && is_white_space(s.get_char(j - 1))
        invariant
            n == s@.len(),
            0 <= i <= j <= n,
            t == s@.subrange(i as int, n as int),
            trim_end_ws(t) == trim_end_ws(s@.subrange(i as int, j as int)),
        decreases j,
    {
        assert(s@.subrange(i as int, j as int).drop_last() =~= s@.subrange(i as int, j - 1));
        j = j - 1;
    }
    assert(trim_end_ws(t) == s@.subrange(i as int, j as int));
    s.substring_char(i, j)
}

/// Value of an ASCII hexadecimal digit.
pub open spec fn hex_digit(b: u8) -> Option<u8> {
    if 0x30 <= b <= 0x39 {
        Some((b - 0x30) as u8)
    } else if 0x61 <= b <= 0x66 {
        Some((b - 0x61 + 10) as u8)
    } else if 0x41 <= b <= 0x46 {
        Some((b - 0x41 + 10) as u8)
    } else {
        None
    }
}

/// A two-byte field read as a base-16 `u8` the way `u8::from_str_radix` reads
/// it: two hex digits, or a '+' sign and one hex digit.
pub open spec fn hex_pair(a: u8, b: u8) -> Option<u8> {
    if a == 0x2b {
        hex_digit(b)
    } else {
        match (hex_digit(a), hex_digit(b)) {
            (Some(x), Some(y)) => Some((16 * x + y) as u8),
            _ => None,
        }
    }
}

/// `b` without its leading '#' bytes.
pub open spec fn strip_hashes(b: Seq<u8>) -> Seq<u8>
    decreases b.len(),
{
    if b.len() > 0 && b[0] == 0x23 {
        strip_hashes(b.drop_first())
    } else {
        b
    }
}

/// The UTF-8 bytes that hold the colour: the entry trimmed of whitespace, then
/// of leading '#'.
pub open spec fn hex_field(s: Seq<char>) -> Seq<u8> {
    strip_hashes(encode_utf8(trimmed(s)))
}

/// A UTF-8 continuation byte: not the start of a character.
pub open spec fn continuation(b: u8) -> bool {
    0x80 <= b < 0xc0
}

/// The entries on which reading the colour cuts a character in two: the field
/// is six bytes long and its byte 2, or (once the first pair has been read) its
/// byte 4, falls inside a character.
pub open spec fn hex_cuts_char(s: Seq<char>) -> bool {
    let f = hex_field(s);
    f.len() == 6 && (continuation(f[2]) || (hex_pair(f[0], f[1]) is Some && continuation(f[4])))
}

/// The colour that `parse_hex` reads from `s`.
pub open spec fn parse_hex_spec(s: Seq<char>) -> Option<[u8; 3]> {
    let f = hex_field(s);
    if f.len() != 6 {
        None
    } else {
        match (hex_pair(f[0], f[1]), hex_pair(f[2], f[3]), hex_pair(f[4], f[5])) {
            (Some(r), Some(g), Some(b)) => Some([r, g, b]),
            _ => None,
        }
    }
}

/// The lowercase hex digit (ASCII) for `d` < 16.
pub open spec fn lower_hex_char(d: u8) -> u8 {
    if d < 10 {
        (0x30 + d) as u8
    } else {
        (0x61 + d - 10) as u8
    }
}

/// The uppercase hex digit (ASCII) for `d` < 16.
pub open spec fn upper_hex_char(d: u8) -> u8 {
    if d < 10 {
        (0x30 + d) as u8
    } else {
        (0x41 + d - 10) as u8
    }
}

/// Every byte written as two hex digits, in lower or in upper case, reads back
/// as itself.
pub proof fn lemma_hex_pair_round_trip(v: u8)
    ensures
        hex_pair(lower_hex_char(v / 16), lower_hex_char(v % 16)) == Some(v),
        hex_pair(upper_hex_char(v / 16), upper_hex_char(v % 16)) == Some(v),
{
    assert(16 * (v / 16) + v % 16 == v);
}

/// A colour field of six hex digits reads as the colour whose bytes they
/// spell, each digit `0`-`9` worth its face value and `a`-`f`/`A`-`F` worth 10
/// to 15.
pub proof fn lemma_parse_hex_reads_digits(s: Seq<char>, rgb: [u8; 3], upper: bool)
    requires
        hex_field(s) == (if upper {
            seq![
                upper_hex_char(rgb[0] / 16), upper_hex_char(rgb[0] % 16),
                upper_hex_char(rgb[1] / 16), upper_hex_char(rgb[1] % 16),
                upper_hex_char(rgb[2] / 16), upper_hex_char(rgb[2] % 16),
            ]
        } else {
            seq![
                lower_hex_char(rgb[0] / 16), lower_hex_char(rgb[0] % 16),
                lower_hex_char(rgb[1] / 16), lower_hex_char(rgb[1] % 16),
                lower_hex_char(rgb[2] / 16), lower_hex_char(rgb[2] % 16),
            ]
        }),
    ensures
        !hex_cuts_char(s),
        parse_hex_spec(s) == Some(rgb),
{
    lemma_hex_pair_round_trip(rgb[0]);
    lemma_hex_pair_round_trip(rgb[1]);
    lemma_hex_pair_round_trip(rgb[2]);
    let c = parse_hex_spec(s)->0;
    assert(c@ =~= rgb@);
}

fn hex_digit_exec(b: u8) -> (r: Option<u8>)
    ensures
        r == hex_digit(b),
{
    if 0x30 <= b && b <= 0x39 {
        Some(b - 0x30)
    } else if 0x61 <= b && b <= 0x66 {
        Some(b - 0x61 + 10)
    } else if 0x41 <= b && b <= 0x46 {
        Some(b - 0x41 + 10)
    } else {
        None
    }
}

fn hex_pair_exec(a: u8, b: u8) -> (r: Option<u8>)
    ensures
        r == hex_pair(a, b),
{
    if a == 0x2b {
        hex_digit_exec(b)
    } else {
        match (hex_digit_exec(a), hex_digit_exec(b)) {
            (Some(x), Some(y)) => Some(16 * x + y),
            _ => None,
        }
    }
}

/// The bytes of the colour field of `s`: `b[k..]` is `hex_field(s@)`.
fn hex_field_exec(s: &str) -> (r: (&[u8], usize))
    ensures
        r.1 <= r.0@.len(),
        hex_field(s@) == r.0@.subrange(r.1 as int, r.0@.len() as int),
{
    let t = trim(s);
    let b = t.as_bytes();
    let ghost all = b@;
    assert(all == encode_utf8(trimmed(s@)));
    let mut k: usize = 0;
    assert(all.subrange(0, all.len() as int) =~= all);
    while k < b.len() && b[k] == 0x23
        invariant
            0 <= k <= b@.len(),
            b@ == all,
            strip_hashes(all) == strip_hashes(all.subrange(k as int, all.len() as int)),
        decreases b@.len() - k,
    {
        assert(all.subrange(k as int, all.len() as int).drop_first() =~= all.subrange(
            k + 1,
            all.len() as int,
        ));
        k = k + 1;
    }
    assert(strip_hashes(all) == all.subrange(k as int, all.len() as int));
    (b, k)
}

/// Reads a colour written as six hex digits, optionally after '#' signs and
/// surrounded by whitespace ("#ffffff", " 3b82f6 ").
pub fn parse_hex(s: &str) -> (r: Option<[u8; 3]>)
    requires
        !hex_cuts_char(s@),
    ensures
        r == parse_hex_spec(s@),
{
    let (b, k) = hex_field_exec(s);
    if b.len() - k != 6 {
        return None;
    }
    let f0 = b[k];
    let f1 = b[k + 1];
    let f2 = b[k + 2];
    let f3 = b[k + 3];
    let f4 = b[k + 4];
    let f5 = b[k + 5];
    let red = match hex_pair_exec(f0, f1) {
        Some(v) => v,
        None => return None,
    };
    let green = match hex_pair_exec(f2, f3) {
        Some(v) => v,
        None => return None,
    };
    let blue = match hex_pair_exec(f4, f5) {
        Some(v) => v,
        None => return None,
    };
    Some([red, green, blue])
}

/// A colour entry that cannot be read: its two-byte fields would cut a
/// character in two.
#[derive(Clone, Copy, PartialEq, Eq, Debug, Structural)]
pub enum ColourError {
    SplitsChar,
}

/// Reads a colour entry on any input: `Err` exactly for the entries whose
/// two-byte fields would cut a character in two, else what `parse_hex` reads.
pub fn read_colour(s: &str) -> (r: Result<Option<[u8; 3]>, ColourError>)
    ensures
        r is Err <==> hex_cuts_char(s@),
        !hex_cuts_char(s@) ==> r == Ok::<Option<[u8; 3]>, ColourError>(parse_hex_spec(s@)),
{
    let (b, k) = hex_field_exec(s);
    if b.len() - k == 6 {
        let f2 = b[k + 2];
        let f4 = b[k + 4];
        let first_read = hex_pair_exec(b[k], b[k + 1]).is_some();
        if (0x80 <= f2 && f2 < 0xc0) || (first_read && 0x80 <= f4 && f4 < 0xc0) {
            return Err(ColourError::SplitsChar);
        }
    }
    Ok(parse_hex(s))
}

// ---------------------------------------------------------------------------
// Integer entries: position nudges, the stored calibration, profile keys
// ---------------------------------------------------------------------------

/// Every character of `d` is an ASCII decimal digit.
pub open spec fn all_digits(d: Seq<char>) -> bool {
    forall|i: int| 0 <= i < d.len() ==> '0' <= #[trigger] d[i] <= '9'
}

/// Value of the decimal digits `d`, most significant first.
pub open spec fn decimal_value(d: Seq<char>) -> int
    decreases d.len(),
{
    if d.len() == 0 {
        0
    } else {
        10 * decimal_value(d.drop_last()) + (d.last() as int - '0' as int)
    }
}

/// What `str::parse::<i64>` reads from `s`: an optional '+' or '-' sign and
/// then one or more ASCII digits, whose value must lie in the `i64` range.
pub open spec fn parse_i64_spec(s: Seq<char>) -> Option<i64> {
    let signed = s.len() > 0 && (s[0] == '+' || s[0] == '-');
    let d = if signed {
        s.drop_first()
    } else {
        s
    };
    let v = if signed && s[0] == '-' {
        -decimal_value(d)
    } else {
        decimal_value(d)
    };
    if d.len() == 0 || !all_digits(d) || v < i64::MIN || v > i64::MAX {
        None
    } else {
        Some(v as i64)
    }
}

/// The offset a nudge entry asks for: the entry, trimmed of whitespace, read
/// as an `i64`; 0 when it does not read as one.
pub open spec fn nudge_spec(s: Seq<char>) -> i64 {
    match parse_i64_spec(trimmed(s)) {
        Some(v) => v,
        None => 0,
    }
}

proof fn lemma_decimal_value_step(d: Seq<char>, c: char)
    ensures
        decimal_value(d.push(c)) == 10 * decimal_value(d) + (c as int - '0' as int),
{
    assert(d.push(c).drop_last() =~= d);
}

proof fn lemma_decimal_value_nonneg(d: Seq<char>)
    requires
        all_digits(d),
    ensures
        decimal_value(d) >= 0,
    decreases d.len(),
{
    if d.len() > 0 {
        assert(all_digits(d.drop_last())) by {
            assert forall|i: int| 0 <= i < d.drop_last().len() implies '0' <= #[trigger] d.drop_last()[i]
                <= '9' by {
                assert(d.drop_last()[i] == d[i]);
            }
        }
        lemma_decimal_value_nonneg(d.drop_last());
        assert('0' <= d[d.len() - 1] <= '9');
    }
}

/// Reads `s` as `str::parse::<i64>` does.
fn parse_i64(s: &str) -> (r: Option<i64>)
    ensures
        r == parse_i64_spec(s@),
{
    let n = s.unicode_len();
    if n == 0 {
        return None;
    }
    let first = s.get_char(0);
    let signed = first == '+' || first == '-';
    let neg = first == '-';
    let start: usize = if signed {
        1
    } else {
        0
    };
    let ghost d = if signed {
        s@.drop_first()
    } else {
        s@
    };
    assert(d =~= s@.subrange(start as int, n as int));
    if start == n {
        return None;
    }
    // magnitude read so far; the magnitude of an `i64` is at most 2^63
    let mut acc: u64 = 0;
    let mut i: usize = start;
    assert(s@.subrange(start as int, start as int) =~= Seq::<char>::empty());
    while i < n
        invariant
            n == s@.len(),
            start <= i <= n,
            d == s@.subrange(start as int, n as int),
            d == (if s@.len() > 0 && (s@[0] == '+' || s@[0] == '-') {
                s@.drop_first()
            } else {
                s@
            }),
            all_digits(s@.subrange(start as int, i as int)),
            acc as int == decimal_value(s@.subrange(start as int, i as int)),
            acc <= 0x8000_0000_0000_0000,
        decreases n - i,
    {
        let c = s.get_char(i);
        let ghost pre = s@.subrange(start as int, i as int);
        let ghost next = s@.subrange(start as int, i + 1);
        assert(next =~= pre.push(c));
        if c < '0' || c > '9' {
            assert(d[i - start] == c);
            assert(!all_digits(d));
            assert(parse_i64_spec(s@) is None);
            return None;
        }
        proof {
            lemma_decimal_value_step(pre, c);
            assert(all_digits(next)) by {
                assert forall|k: int| 0 <= k < next.len() implies '0' <= #[trigger] next[k] <= '9' by {
                    if k < pre.len() {
                        assert(next[k] == pre[k]);
                    }
                }
            }
        }
        let digit = (c as u32 - '0' as u32) as u64;
        if acc > (0x8000_0000_0000_0000u64 - digit) / 10 {
            // the magnitude already exceeds 2^63, and digits only add to it
            assert(decimal_value(next) > 0x8000_0000_0000_0000);
            proof {
                assert(d.subrange(0, i + 1 - start) =~= next);
                lemma_decimal_value_tail(d, (i + 1 - start) as int);
            }
            assert(parse_i64_spec(s@) is None);
            return None;
        }
        acc = acc * 10 + digit;
        i = i + 1;
    }
    assert(s@.subrange(start as int, n as int) == d);
    if neg {
        if acc == 0x8000_0000_0000_0000u64 {
            Some(i64::MIN)
        } else {
            Some(-(acc as i64))
        }
    } else if acc > 0x7fff_ffff_ffff_ffffu64 {
        None
    } else {
        Some(acc as i64)
    }
}

/// Appending digits never lowers the value: the value of `d` is at least that
/// of any prefix of it made of digits.
proof fn lemma_decimal_value_tail(d: Seq<char>, k: int)
    requires
        0 <= k <= d.len(),
        all_digits(d.subrange(0, k)),
    ensures
        all_digits(d) ==> decimal_value(d) >= decimal_value(d.subrange(0, k)),
    decreases d.len() - k,
{
    if all_digits(d) && k < d.len() {
        let pre = d.subrange(0, k);
        let next = d.subrange(0, k + 1);
        assert(next =~= pre.push(d[k]));
        lemma_decimal_value_step(pre, d[k]);
        lemma_decimal_value_nonneg(pre);
        assert(all_digits(next)) by {
            assert forall|j: int| 0 <= j < next.len() implies '0' <= #[trigger] next[j] <= '9' by {
                assert(next[j] == d[j]);
            }
        }
        lemma_decimal_value_tail(d, k + 1);
    }
    if all_digits(d) && k == d.len() {
        assert(d.subrange(0, k) =~= d);
    }
}

/// What `str::parse::<usize>` reads from `s`: an optional '+' sign and then
/// one or more ASCII digits, whose value must fit in `usize`.
pub open spec fn parse_usize_spec(s: Seq<char>) -> Option<usize> {
    let d = if s.len() > 0 && s[0] == '+' {
        s.drop_first()
    } else {
        s
    };
    if d.len() == 0 || !all_digits(d) || decimal_value(d) > usize::MAX {
        None
    } else {
        Some(decimal_value(d) as usize)
    }
}

/// Reads `s` as `str::parse::<usize>` does.
pub fn parse_usize(s: &str) -> (r: Option<usize>)
    ensures
        r == parse_usize_spec(s@),
{
    let n = s.unicode_len();
    if n == 0 {
        return None;
    }
    let start: usize = if s.get_char(0) == '+' {
        1
    } else {
        0
    };
    let ghost d = if s@[0] == '+' {
        s@.drop_first()
    } else {
        s@
    };
    assert(d =~= s@.subrange(start as int, n as int));
    if start == n {
        return None;
    }
    let mut acc: usize = 0;
    let mut i: usize = start;
    assert(s@.subrange(start as int, start as int) =~= Seq::<char>::empty());
    while i < n
        invariant
            n == s@.len(),
            start <= i <= n,
            d == s@.subrange(start as int, n as int),
            d == (if s@.len() > 0 && s@[0] == '+' {
                s@.drop_first()
            } else {
                s@
            }),
            all_digits(s@.subrange(start as int, i as int)),
            acc as int == decimal_value(s@.subrange(start as int, i as int)),
        decreases n - i,
    {
        let c = s.get_char(i);
        let ghost pre = s@.subrange(start as int, i as int);
        let ghost next = s@.subrange(start as int, i + 1);
        assert(next =~= pre.push(c));
        if c < '0' || c > '9' {
            assert(d[i - start] == c);
            assert(!all_digits(d));
            return None;
        }
        proof {
            lemma_decimal_value_step(pre, c);
            assert(all_digits(next)) by {
                assert forall|k: int| 0 <= k < next.len() implies '0' <= #[trigger] next[k] <= '9' by {
                    if k < pre.len() {
                        assert(next[k] == pre[k]);
                    }
                }
            }
        }
        let digit = (c as u32 - '0' as u32) as usize;
        if acc > (usize::MAX - digit) / 10 {
            // the value already exceeds `usize::MAX`, and digits only add to it
            assert(decimal_value(next) > usize::MAX);
            proof {
                assert(d.subrange(0, i + 1 - start) =~= next);
                lemma_decimal_value_tail(d, (i + 1 - start) as int);
            }
            return None;
        }
        acc = acc * 10 + digit;
        i = i + 1;
    }
    assert(s@.subrange(start as int, n as int) == d);
    Some(acc)
}

/// The offset typed into a nudge entry: the entry read as an `i64` once
/// trimmed of whitespace, or 0 when it does not read as one.
pub fn nudge_offset(entry: &str) -> (r: i64)
    ensures
        r == nudge_spec(entry@),
{
    match parse_i64(trim(entry)) {
        Some(v) => v,
        None => 0,
    }
}

/// The opacity calibration read back from its stored text: the text, trimmed
/// of whitespace, read as an `i32` the way `str::parse::<i32>` reads it.
pub open spec fn strength_spec(s: Seq<char>) -> Option<i32> {
    match parse_i64_spec(trimmed(s)) {
        Some(v) => if i32::MIN <= v <= i32::MAX {
            Some(v as i32)
        } else {
            None
        },
        None => None,
    }
}

/// Reads a stored opacity calibration (percent); `None` when the text does not
/// hold an `i32`.
pub fn parse_strength(text: &str) -> (r: Option<i32>)
    ensures
        r == strength_spec(text@),
{
    match parse_i64(trim(text)) {
        Some(v) => if i32::MIN as i64 <= v && v <= i32::MAX as i64 {
            Some(v as i32)
        } else {
            None
        },
        None => None,
    }
}

// ---------------------------------------------------------------------------
// Output file naming
// ---------------------------------------------------------------------------

/// Index of the last '.' in `s`, if any.
pub open spec fn last_dot(s: Seq<char>) -> Option<int>
    decreases s.len(),
{
    if s.len() == 0 {
        None
    } else if s.last() == '.' {
        Some(s.len() - 1)
    } else {
        last_dot(s.drop_last())
    }
}

/// `name` without its extension: everything before the last '.', or the whole
/// name when it has none.
pub fn strip_ext(name: &str) -> (r: String)
    ensures
        r@ == match last_dot(name@) {
            Some(i) => name@.subrange(0, i),
            None => name@,
        },
{
    let n = name.unicode_len();
    let mut i: usize = n;
    assert(name@.subrange(0, n as int) =~= name@);
    while i > 0
        invariant
            0 <= i <= name@.len(),
            n == name@.len(),
            last_dot(name@) == last_dot(name@.subrange(0, i as int)),
        decreases i,
    {
        let c = name.get_char(i - 1);
        let ghost pre = name@.subrange(0, i as int);
        assert(pre.last() == c);
        if c == '.' {
            return name.substring_char(0, i - 1).to_owned();
        }
        assert(pre.drop_last() =~= name@.subrange(0, i - 1));
        i = i - 1;
    }
    name.to_owned()
}

} // verus!
