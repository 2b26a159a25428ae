//! Parsing of the loosely-typed parameters that agents send: colors (hex or a
//! name), alignment, flip axis, resampling filter, redact mode and diff view.
//!
//! Text is read as its UTF-8 bytes. Trimming removes leading and trailing
//! Unicode `White_Space` characters, recognized by their UTF-8 encodings.

use vstd::prelude::*;

use crate::color::Rgba8;
use vstd::string::StringSliceAdditionalSpecFns;
use crate::pipeline::{AlignX, AlignY, Filter, FlipAxis, FloatBits, RedactMode};

verus! {

/// A parameter value that was not understood.
#[derive(Debug, Clone, Copy, PartialEq, Eq, Structural)]
pub enum ParamError {
    /// Not `#RGB`, `#RGBA`, `#RRGGBB`, `#RRGGBBAA` or a known color name.
    BadColor,
    /// `align_x` is not left|center|right.
    BadAlignX,
    /// `align_y` is not top|middle|bottom|baseline.
    BadAlignY,
    /// The flip axis is not horizontal|vertical.
    BadAxis,
    /// The resampling filter is not nearest|bilinear|catmull_rom|lanczos3.
    UnknownFilter,
    /// The redact mode is not pixelate|blur|fill.
    BadRedactMode,
    /// The diff view is not heatmap|difference|side_by_side.
    BadDiffView,
}

/// How two images are compared.
#[derive(Debug, Clone, Copy, PartialEq, Eq, Hash, Structural)]
pub enum DiffView {
    Heatmap,
    Difference,
    SideBySide,
}

// ── whitespace and case ──────────────────────────────────────────────────────

/// Third byte of a three-byte `White_Space` encoding after `a b`:
/// U+1680, U+2000–U+200A, U+2028, U+2029, U+202F, U+205F, U+3000.
pub open spec fn is_ws3(a: u8, b: u8, c: u8) -> bool {
    ||| a == 0xE1 && b == 0x9A && c == 0x80
    ||| a == 0xE2 && b == 0x80 && (0x80 <= c <= 0x8A || c == 0xA8 || c == 0xA9 || c == 0xAF)
    ||| a == 0xE2 && b == 0x81 && c == 0x9F
    ||| a == 0xE3 && b == 0x80 && c == 0x80
}

/// U+0009–U+000D and U+0020.
pub open spec fn is_ws1(a: u8) -> bool {
    9 <= a <= 13 || a == 32
}

/// U+0085 and U+00A0.
pub open spec fn is_ws2(a: u8, b: u8) -> bool {
    a == 0xC2 && (b == 0x85 || b == 0xA0)
}

/// Byte length of the whitespace character that `b` starts with (0 if none).
pub open spec fn ws_lead(b: Seq<u8>) -> nat {
    if b.len() >= 1 && is_ws1(b[0]) {
        1
    } else if b.len() >= 2 && is_ws2(b[0], b[1]) {
        2
    } else if b.len() >= 3 && is_ws3(b[0], b[1], b[2]) {
        3
    } else {
        0
    }
}

/// Byte length of the whitespace character that `b` ends with (0 if none).
pub open spec fn ws_trail(b: Seq<u8>) -> nat {
    let n = b.len() as int;
    if n >= 1 && is_ws1(b[n - 1]) {
        1
    } else if n >= 2 && is_ws2(b[n - 2], b[n - 1]) {
        2
    } else if n >= 3 && is_ws3(b[n - 3], b[n - 2], b[n - 1]) {
        3
    } else {
        0
    }
}

pub open spec fn trim_start(b: Seq<u8>) -> Seq<u8>
    decreases b.len(),
{
    if ws_lead(b) > 0 {
        trim_start(b.skip(ws_lead(b) as int))
    } else {
        b
    }
}

pub open spec fn trim_end(b: Seq<u8>) -> Seq<u8>
    decreases b.len(),
{
    if ws_trail(b) > 0 {
        trim_end(b.take(b.len() - ws_trail(b)))
    } else {
        b
    }
}

/// `str::trim`: leading and trailing whitespace removed.
pub open spec fn trim(b: Seq<u8>) -> Seq<u8> {
    trim_end(trim_start(b))
}

/// `to_ascii_lowercase`: `A`–`Z` lowered, every other byte kept.
pub open spec fn ascii_lower(b: Seq<u8>) -> Seq<u8> {
    b.map_values(|c: u8| if 65 <= c <= 90 { (c + 32) as u8 } else { c })
}

fn ws_lead_at(b: &[u8], lo: usize, hi: usize) -> (n: usize)
    requires
        lo <= hi <= b@.len(),
    ensures
        n == ws_lead(b@.subrange(lo as int, hi as int)),
{
    let len = hi - lo;
    if len >= 1 && ((9 <= b[lo] && b[lo] <= 13) || b[lo] == 32) {
        1
    } else if len >= 2 && b[lo] == 0xC2 && (b[lo + 1] == 0x85 || b[lo + 1] == 0xA0) {
        2
    } else if len >= 3 && ws3(b[lo], b[lo + 1], b[lo + 2]) {
        3
    } else {
        0
    }
}

fn ws_trail_at(b: &[u8], lo: usize, hi: usize) -> (n: usize)
    requires
        lo <= hi <= b@.len(),
    ensures
        n == ws_trail(b@.subrange(lo as int, hi as int)),
{
    let len = hi - lo;
    if len >= 1 && ((9 <= b[hi - 1] && b[hi - 1] <= 13) || b[hi - 1] == 32) {
        1
    } else if len >= 2 && b[hi - 2] == 0xC2 && (b[hi - 1] == 0x85 || b[hi - 1] == 0xA0) {
        2
    } else if len >= 3 && ws3(b[hi - 3], b[hi - 2], b[hi - 1]) {
        3
    } else {
        0
    }
}

fn ws3(a: u8, b: u8, c: u8) -> (r: bool)
    ensures
        r == is_ws3(a, b, c),
{
    (a == 0xE1 && b == 0x9A && c == 0x80) || (a == 0xE2 && b == 0x80 && ((0x80 <= c && c <= 0x8A)
        || c == 0xA8 || c == 0xA9 || c == 0xAF)) || (a == 0xE2 && b == 0x81 && c == 0x9F) || (a
        == 0xE3 && b == 0x80 && c == 0x80)
}

/// Byte range of `b` left after trimming.
fn trim_range(b: &[u8]) -> (r: (usize, usize))
    ensures
        r.0 <= r.1 <= b@.len(),
        b@.subrange(r.0 as int, r.1 as int) == trim(b@),
{
    let n = b.len();
    let mut lo: usize = 0;
    proof {
        assert(b@.subrange(0, n as int) =~= b@);
    }
    while lo < n && ws_lead_at(b, lo, n) > 0
        invariant
            lo <= n,
            n == b@.len(),
            trim_start(b@) == trim_start(b@.subrange(lo as int, n as int)),
        decreases n - lo,
    {
        let k = ws_lead_at(b, lo, n);
        proof {
            let sub = b@.subrange(lo as int, n as int);
            assert(sub.skip(k as int) =~= b@.subrange(lo + k, n as int));
        }
        lo = lo + k;
    }
    proof {
        let sub = b@.subrange(lo as int, n as int);
        if lo == n {
            assert(ws_lead(sub) == 0);
        }
        assert(trim_start(b@) == sub);
    }
    let mut hi: usize = n;
    while hi > lo && ws_trail_at(b, lo, hi) > 0
        invariant
            lo <= hi <= n,
            n == b@.len(),
            trim(b@) == trim_end(b@.subrange(lo as int, hi as int)),
        decreases hi - lo,
    {
        let k = ws_trail_at(b, lo, hi);
        proof {
            let sub = b@.subrange(lo as int, hi as int);
            assert(sub.take(sub.len() - k) =~= b@.subrange(lo as int, hi - k));
        }
        hi = hi - k;
    }
    proof {
        let sub = b@.subrange(lo as int, hi as int);
        if hi == lo {
            assert(ws_trail(sub) == 0);
        }
    }
    (lo, hi)
}

/// `b[lo..hi]`, ASCII-lowercased, equals `word`.
pub(crate) fn lower_eq(b: &[u8], lo: usize, hi: usize, word: &[u8]) -> (r: bool)
    requires
        lo <= hi <= b@.len(),
    ensures
        r == (ascii_lower(b@.subrange(lo as int, hi as int)) == word@),
{
    let ghost sub = b@.subrange(lo as int, hi as int);
    if hi - lo != word.len() {
        proof {
            assert(ascii_lower(sub).len() == sub.len());
        }
        return false;
    }
    let mut i: usize = 0;
    while i < word.len()
        invariant
            0 <= i <= word@.len(),
            lo <= hi <= b@.len(),
            hi - lo == word@.len(),
            sub == b@.subrange(lo as int, hi as int),
            forall|j: int| 0 <= j < i ==> ascii_lower(sub)[j] == word@[j],
        decreases word@.len() - i,
    {
        let c = b[lo + i];
        let l = if 65 <= c && c <= 90 {
            c + 32
        } else {
            c
        };
        if l != word[i] {
            proof {
                assert(ascii_lower(sub)[i as int] == l);
            }
            return false;
        }
        i = i + 1;
    }
    proof {
        assert(ascii_lower(sub) =~= word@);
    }
    true
}

/// `b[lo..hi]` equals `word` exactly.
fn range_eq(b: &[u8], lo: usize, hi: usize, word: &[u8]) -> (r: bool)
    requires
        lo <= hi <= b@.len(),
    ensures
        r == (b@.subrange(lo as int, hi as int) == word@),
{
    if hi - lo != word.len() {
        return false;
    }
    let mut i: usize = 0;
    while i < word.len()
        invariant
            0 <= i <= word@.len(),
            lo <= hi <= b@.len(),
            hi - lo == word@.len(),
            forall|j: int| 0 <= j < i ==> b@[lo + j] == word@[j],
        decreases word@.len() - i,
    {
        if b[lo + i] != word[i] {
            proof {
                assert(b@.subrange(lo as int, hi as int)[i as int] != word@[i as int]);
            }
            return false;
        }
        i = i + 1;
    }
    proof {
        assert(b@.subrange(lo as int, hi as int) =~= word@);
    }
    true
}

// ── colors ───────────────────────────────────────────────────────────────────

/// Value of a hex digit (`char::to_digit(16)` of the byte read as a char).
pub open spec fn hex_val(c: u8) -> Option<u8> {
    if 48 <= c <= 57 {
        Some((c - 48) as u8)
    } else if 97 <= c <= 102 {
        Some((c - 87) as u8)
    } else if 65 <= c <= 70 {
        Some((c - 55) as u8)
    } else {
        None
    }
}

/// The byte written by two hex digits, high digit first.
pub open spec fn pair_val(a: u8, b: u8) -> Option<u8> {
    match (hex_val(a), hex_val(b)) {
        (Some(x), Some(y)) => Some((x * 16 + y) as u8),
        _ => None,
    }
}

/// A short-hex digit widened to a byte: `0xF` → `0xFF`.
pub open spec fn dup(v: u8) -> u8 {
    (v * 17) as u8
}

pub open spec fn parse_hex(h: Seq<u8>) -> Option<Rgba8> {
    if h.len() == 3 {
        match (hex_val(h[0]), hex_val(h[1]), hex_val(h[2])) {
            (Some(r), Some(g), Some(b)) => Some(Rgba8 { r: dup(r), g: dup(g), b: dup(b), a: 255 }),
            _ => None,
        }
    } else if h.len() == 4 {
        match (hex_val(h[0]), hex_val(h[1]), hex_val(h[2]), hex_val(h[3])) {
            (Some(r), Some(g), Some(b), Some(a)) => Some(
                Rgba8 { r: dup(r), g: dup(g), b: dup(b), a: dup(a) },
            ),
            _ => None,
        }
    } else if h.len() == 6 || h.len() == 8 {
        let a = if h.len() == 8 {
            pair_val(h[6], h[7])
        } else {
            Some(255u8)
        };
        match (pair_val(h[0], h[1]), pair_val(h[2], h[3]), pair_val(h[4], h[5]), a) {
            (Some(r), Some(g), Some(b), Some(a)) => Some(Rgba8 { r, g, b, a }),
            _ => None,
        }
    } else {
        None
    }
}

/// The named colors, by their lowercase ASCII bytes.
pub open spec fn named_color(l: Seq<u8>) -> Option<Rgba8> {
    if l == seq![114u8, 101, 100] {
        // red
        Some(Rgba8 { r: 255, g: 0, b: 0, a: 255 })
    } else if l == seq![103u8, 114, 101, 101, 110] {
        // green
        Some(Rgba8 { r: 0, g: 176, b: 0, a: 255 })
    } else if l == seq![98u8, 108, 117, 101] {
        // blue
        Some(Rgba8 { r: 0, g: 90, b: 255, a: 255 })
    } else if l == seq![121u8, 101, 108, 108, 111, 119] {
        // yellow
        Some(Rgba8 { r: 255, g: 210, b: 0, a: 255 })
    } else if l == seq![111u8, 114, 97, 110, 103, 101] {
        // orange
        Some(Rgba8 { r: 255, g: 140, b: 0, a: 255 })
    } else if l == seq![119u8, 104, 105, 116, 101] {
        // white
        Some(Rgba8 { r: 255, g: 255, b: 255, a: 255 })
    } else if l == seq![98u8, 108, 97, 99, 107] {
        // black
        Some(Rgba8 { r: 0, g: 0, b: 0, a: 255 })
    } else if l == seq![103u8, 114, 97, 121] || l == seq![103u8, 114, 101, 121] {
        // gray, grey
        Some(Rgba8 { r: 128, g: 128, b: 128, a: 255 })
    } else if l == seq![99u8, 121, 97, 110] {
        // cyan
        Some(Rgba8 { r: 0, g: 200, b: 220, a: 255 })
    } else if l == seq![109u8, 97, 103, 101, 110, 116, 97] {
        // magenta
        Some(Rgba8 { r: 230, g: 0, b: 200, a: 255 })
    } else if l == seq![116u8, 114, 97, 110, 115, 112, 97, 114, 101, 110, 116] {
        // transparent
        Some(Rgba8 { r: 0, g: 0, b: 0, a: 0 })
    } else {
        None
    }
}

/// The color that the text with UTF-8 bytes `b` denotes, if any.
pub open spec fn spec_parse_color(b: Seq<u8>) -> Option<Rgba8> {
    let t = trim(b);
    if t.len() > 0 && t[0] == 35 {
        parse_hex(t.skip(1))
    } else {
        named_color(ascii_lower(t))
    }
}

/// The lowercase hex digit that writes `v` (for `v` below 16).
pub open spec fn hex_char(v: u8) -> u8 {
    if v < 10 {
        (48 + v) as u8
    } else {
        (87 + v) as u8
    }
}

/// A byte as two lowercase hex digits, high digit first.
pub open spec fn hex_byte(v: u8) -> Seq<u8> {
    seq![hex_char(v / 16), hex_char(v % 16)]
}

/// `#rrggbbaa` for a color.
pub open spec fn hex_rgba(c: Rgba8) -> Seq<u8> {
    seq![35u8] + hex_byte(c.r) + hex_byte(c.g) + hex_byte(c.b) + hex_byte(c.a)
}

/// `#rrggbb` for a color's red, green and blue.
pub open spec fn hex_rgb(c: Rgba8) -> Seq<u8> {
    seq![35u8] + hex_byte(c.r) + hex_byte(c.g) + hex_byte(c.b)
}

proof fn lemma_hex_byte_reads_back(v: u8)
    ensures
        pair_val(hex_byte(v)[0], hex_byte(v)[1]) == Some(v),
        48 <= hex_byte(v)[0] <= 102 && 48 <= hex_byte(v)[1] <= 102,
{
    let hi: u8 = v / 16;
    let lo: u8 = v % 16;
    assert(hi < 16 && lo < 16 && hi * 16 + lo == v) by (nonlinear_arith)
        requires
            hi == v / 16,
            lo == v % 16,
    ;
    assert(hex_val(hex_char(hi)) == Some(hi));
    assert(hex_val(hex_char(lo)) == Some(lo));
}

/// Reading a color back from the hex text that writes it gives that color: `#rrggbbaa`
/// gives all four channels, `#rrggbb` the three with full opacity. Each pair of digits is
/// one channel, high digit first, in the order red, green, blue, alpha.
pub proof fn lemma_hex_color_reads_back(c: Rgba8)
    ensures
        spec_parse_color(hex_rgba(c)) == Some(c),
        spec_parse_color(hex_rgb(c)) == Some(Rgba8 { r: c.r, g: c.g, b: c.b, a: 255 }),
{
    lemma_hex_byte_reads_back(c.r);
    lemma_hex_byte_reads_back(c.g);
    lemma_hex_byte_reads_back(c.b);
    lemma_hex_byte_reads_back(c.a);
    let s = hex_rgba(c);
    let t = hex_rgb(c);
    assert(s.len() == 9 && t.len() == 7);
    assert(ws_lead(s) == 0 && ws_lead(t) == 0);
    assert(trim_start(s) == s && trim_start(t) == t);
    assert(s[8] == hex_byte(c.a)[1] && t[6] == hex_byte(c.b)[1]);
    assert(ws_trail(s) == 0 && ws_trail(t) == 0);
    assert(trim(s) == s && trim(t) == t);
    let hs = s.skip(1);
    let ht = t.skip(1);
    assert(hs =~= hex_byte(c.r) + hex_byte(c.g) + hex_byte(c.b) + hex_byte(c.a));
    assert(ht =~= hex_byte(c.r) + hex_byte(c.g) + hex_byte(c.b));
    assert(hs[0] == hex_byte(c.r)[0] && hs[1] == hex_byte(c.r)[1]);
    assert(hs[2] == hex_byte(c.g)[0] && hs[3] == hex_byte(c.g)[1]);
    assert(hs[4] == hex_byte(c.b)[0] && hs[5] == hex_byte(c.b)[1]);
    assert(hs[6] == hex_byte(c.a)[0] && hs[7] == hex_byte(c.a)[1]);
    assert(ht[0] == hex_byte(c.r)[0] && ht[1] == hex_byte(c.r)[1]);
    assert(ht[2] == hex_byte(c.g)[0] && ht[3] == hex_byte(c.g)[1]);
    assert(ht[4] == hex_byte(c.b)[0] && ht[5] == hex_byte(c.b)[1]);
}

/// Color names ignore case and surrounding space, and each names its fixed color:
/// red, green, blue, yellow, orange, white, black, gray or grey, cyan and magenta are
/// opaque, and transparent is fully clear black.
pub proof fn lemma_named_colors(s: Seq<u8>)
    ensures
        ascii_lower(trim(s)) == seq![114u8, 101, 100] ==> spec_parse_color(s) == Some(
            Rgba8 { r: 255, g: 0, b: 0, a: 255 },
        ),
        ascii_lower(trim(s)) == seq![103u8, 114, 101, 101, 110] ==> spec_parse_color(s) == Some(
            Rgba8 { r: 0, g: 176, b: 0, a: 255 },
        ),
        ascii_lower(trim(s)) == seq![98u8, 108, 117, 101] ==> spec_parse_color(s) == Some(
            Rgba8 { r: 0, g: 90, b: 255, a: 255 },
        ),
        ascii_lower(trim(s)) == seq![121u8, 101, 108, 108, 111, 119] ==> spec_parse_color(s) == Some(
            Rgba8 { r: 255, g: 210, b: 0, a: 255 },
        ),
        ascii_lower(trim(s)) == seq![111u8, 114, 97, 110, 103, 101] ==> spec_parse_color(s) == Some(
            Rgba8 { r: 255, g: 140, b: 0, a: 255 },
        ),
        ascii_lower(trim(s)) == seq![119u8, 104, 105, 116, 101] ==> spec_parse_color(s) == Some(
            Rgba8 { r: 255, g: 255, b: 255, a: 255 },
        ),
        ascii_lower(trim(s)) == seq![98u8, 108, 97, 99, 107] ==> spec_parse_color(s) == Some(
            Rgba8 { r: 0, g: 0, b: 0, a: 255 },
        ),
        ascii_lower(trim(s)) == seq![103u8, 114, 97, 121] || ascii_lower(trim(s)) == seq![
            103u8,
            114,
            101,
            121,
        ] ==> spec_parse_color(s) == Some(Rgba8 { r: 128, g: 128, b: 128, a: 255 }),
        ascii_lower(trim(s)) == seq![99u8, 121, 97, 110] ==> spec_parse_color(s) == Some(
            Rgba8 { r: 0, g: 200, b: 220, a: 255 },
        ),
        ascii_lower(trim(s)) == seq![109u8, 97, 103, 101, 110, 116, 97] ==> spec_parse_color(s)
            == Some(Rgba8 { r: 230, g: 0, b: 200, a: 255 }),
        ascii_lower(trim(s)) == seq![116u8, 114, 97, 110, 115, 112, 97, 114, 101, 110, 116]
            ==> spec_parse_color(s) == Some(Rgba8 { r: 0, g: 0, b: 0, a: 0 }),
{
    let t = trim(s);
    let l = ascii_lower(t);
    if t.len() > 0 && t[0] == 35 {
        assert(l[0] == 35);
    }
    if l.len() == 4 && l[0] == 98 {
        assert(l != seq![103u8, 114, 97, 121] && l != seq![103u8, 114, 101, 121]);
    }
    if l.len() == 5 && l[0] == 98 {
        assert(l != seq![103u8, 114, 101, 101, 110] && l != seq![119u8, 104, 105, 116, 101]);
    }
    if l.len() == 4 && l[0] == 103 {
        assert(l != seq![98u8, 108, 117, 101] && l != seq![99u8, 121, 97, 110]);
    }
    if l.len() == 4 && l[0] == 99 {
        assert(l != seq![98u8, 108, 117, 101]);
        assert(l != seq![103u8, 114, 97, 121] && l != seq![103u8, 114, 101, 121]);
    }
    if l.len() == 5 && l[0] == 119 {
        assert(l != seq![103u8, 114, 101, 101, 110]);
    }
    if l.len() == 6 && l[0] == 111 {
        assert(l != seq![121u8, 101, 108, 108, 111, 119]);
    }
}

fn hex_digit(c: u8) -> (r: Option<u8>)
    ensures
        r == hex_val(c),
{
    if 48 <= c && c <= 57 {
        Some(c - 48)
    } else if 97 <= c && c <= 102 {
        Some(c - 87)
    } else if 65 <= c && c <= 70 {
        Some(c - 55)
    } else {
        None
    }
}

fn hex_pair(a: u8, b: u8) -> (r: Option<u8>)
    ensures
        r == pair_val(a, b),
{
    match (hex_digit(a), hex_digit(b)) {
        (Some(x), Some(y)) => Some(x * 16 + y),
        _ => None,
    }
}

/// Parse `#RGB`, `#RGBA`, `#RRGGBB`, `#RRGGBBAA`, or a common color name
/// (red, green, blue, yellow, orange, white, black, gray/grey, cyan, magenta,
/// transparent), ignoring surrounding whitespace and the case of names.
pub fn parse_color(s: &str) -> (r: Result<Rgba8, ParamError>)
    ensures
        r == match spec_parse_color(s.spec_bytes()) {
            Some(c) => Ok::<Rgba8, ParamError>(c),
            None => Err(ParamError::BadColor),
        },
{
    let b = s.as_bytes();
    let (lo, hi) = trim_range(b);
    let ghost t = b@.subrange(lo as int, hi as int);
    if hi > lo && b[lo] == 35 {
        let h = lo + 1;
        let n = hi - h;
        proof {
            assert(t.skip(1) =~= b@.subrange(h as int, hi as int));
        }
        let ghost hs = b@.subrange(h as int, hi as int);
        let ok = |r: u8, g: u8, bl: u8, a: u8| -> (c: Result<Rgba8, ParamError>)
            ensures
                c == Ok::<Rgba8, ParamError>(Rgba8 { r, g, b: bl, a }),
            { Ok(Rgba8::new(r, g, bl, a)) };
        if n == 3 {
            proof {
                assert(hs[0] == b@[h as int] && hs[1] == b@[h + 1] && hs[2] == b@[h + 2]);
            }
            return match (hex_digit(b[h]), hex_digit(b[h + 1]), hex_digit(b[h + 2])) {
                (Some(r), Some(g), Some(bl)) => ok(r * 17, g * 17, bl * 17, 255),
                _ => Err(ParamError::BadColor),
            };
        } else if n == 4 {
            proof {
                assert(hs[0] == b@[h as int] && hs[1] == b@[h + 1] && hs[2] == b@[h + 2] && hs[3]
                    == b@[h + 3]);
            }
            return match (
                hex_digit(b[h]),
                hex_digit(b[h + 1]),
                hex_digit(b[h + 2]),
                hex_digit(b[h + 3]),
            ) {
                (Some(r), Some(g), Some(bl), Some(a)) => ok(r * 17, g * 17, bl * 17, a * 17),
                _ => Err(ParamError::BadColor),
            };
        } else if n == 6 || n == 8 {
            proof {
                assert(hs[0] == b@[h as int] && hs[1] == b@[h + 1] && hs[2] == b@[h + 2] && hs[3]
                    == b@[h + 3] && hs[4] == b@[h + 4] && hs[5] == b@[h + 5]);
                if n == 8 {
                    assert(hs[6] == b@[h + 6] && hs[7] == b@[h + 7]);
                }
            }
            let a = if n == 8 {
                hex_pair(b[h + 6], b[h + 7])
            } else {
                Some(255)
            };
            return match (
                hex_pair(b[h], b[h + 1]),
                hex_pair(b[h + 2], b[h + 3]),
                hex_pair(b[h + 4], b[h + 5]),
                a,
            ) {
                (Some(r), Some(g), Some(bl), Some(a)) => ok(r, g, bl, a),
                _ => Err(ParamError::BadColor),
            };
        } else {
            return Err(ParamError::BadColor);
        }
    }
    proof {
        assert(!(t.len() > 0 && t[0] == 35));
    }
    let c = if lower_eq(b, lo, hi, &[114u8, 101, 100]) {
        Rgba8::rgb(255, 0, 0)
    } else if lower_eq(b, lo, hi, &[103u8, 114, 101, 101, 110]) {
        Rgba8::rgb(0, 176, 0)
    } else if lower_eq(b, lo, hi, &[98u8, 108, 117, 101]) {
        Rgba8::rgb(0, 90, 255)
    } else if lower_eq(b, lo, hi, &[121u8, 101, 108, 108, 111, 119]) {
        Rgba8::rgb(255, 210, 0)
    } else if lower_eq(b, lo, hi, &[111u8, 114, 97, 110, 103, 101]) {
        Rgba8::rgb(255, 140, 0)
    } else if lower_eq(b, lo, hi, &[119u8, 104, 105, 116, 101]) {
        Rgba8::rgb(255, 255, 255)
    } else if lower_eq(b, lo, hi, &[98u8, 108, 97, 99, 107]) {
        Rgba8::rgb(0, 0, 0)
    } else if lower_eq(b, lo, hi, &[103u8, 114, 97, 121]) || lower_eq(
        b,
        lo,
        hi,
        &[103u8, 114, 101, 121],
    ) {
        Rgba8::rgb(128, 128, 128)
    } else if lower_eq(b, lo, hi, &[99u8, 121, 97, 110]) {
        Rgba8::rgb(0, 200, 220)
    } else if lower_eq(b, lo, hi, &[109u8, 97, 103, 101, 110, 116, 97]) {
        Rgba8::rgb(230, 0, 200)
    } else if lower_eq(b, lo, hi, &[116u8, 114, 97, 110, 115, 112, 97, 114, 101, 110, 116]) {
        Rgba8::new(0, 0, 0, 0)
    } else {
        return Err(ParamError::BadColor);
    };
    Ok(c)
}

/// An optional color: absent stays absent, present must parse.
pub fn parse_color_opt(s: Option<&str>) -> (r: Result<Option<Rgba8>, ParamError>)
    ensures
        r == match s {
            None => Ok::<Option<Rgba8>, ParamError>(None),
            Some(t) => match spec_parse_color(t.spec_bytes()) {
                Some(c) => Ok(Some(c)),
                None => Err(ParamError::BadColor),
            },
        },
{
    match s {
        None => Ok(None),
        Some(t) => match parse_color(t) {
            Ok(c) => Ok(Some(c)),
            Err(e) => Err(e),
        },
    }
}

// ── enumerated parameters ────────────────────────────────────────────────────

/// `"left"`
pub open spec fn w_left() -> Seq<u8> {
    seq![108u8, 101, 102, 116]
}

/// `"center"`
pub open spec fn w_center() -> Seq<u8> {
    seq![99u8, 101, 110, 116, 101, 114]
}

/// `"right"`
pub open spec fn w_right() -> Seq<u8> {
    seq![114u8, 105, 103, 104, 116]
}

/// `"baseline"`
pub open spec fn w_baseline() -> Seq<u8> {
    seq![98u8, 97, 115, 101, 108, 105, 110, 101]
}

/// `"top"`
pub open spec fn w_top() -> Seq<u8> {
    seq![116u8, 111, 112]
}

/// `"middle"`
pub open spec fn w_middle() -> Seq<u8> {
    seq![109u8, 105, 100, 100, 108, 101]
}

/// `"bottom"`
pub open spec fn w_bottom() -> Seq<u8> {
    seq![98u8, 111, 116, 116, 111, 109]
}

/// `"horizontal"`
pub open spec fn w_horizontal() -> Seq<u8> {
    seq![104u8, 111, 114, 105, 122, 111, 110, 116, 97, 108]
}

/// `"h"`
pub open spec fn w_h() -> Seq<u8> {
    seq![104u8]
}

/// `"x"`
pub open spec fn w_x() -> Seq<u8> {
    seq![120u8]
}

/// `"vertical"`
pub open spec fn w_vertical() -> Seq<u8> {
    seq![118u8, 101, 114, 116, 105, 99, 97, 108]
}

/// `"v"`
pub open spec fn w_v() -> Seq<u8> {
    seq![118u8]
}

/// `"y"`
pub open spec fn w_y() -> Seq<u8> {
    seq![121u8]
}

/// `"lanczos3"`
pub open spec fn w_lanczos3() -> Seq<u8> {
    seq![108u8, 97, 110, 99, 122, 111, 115, 51]
}

/// `"nearest"`
pub open spec fn w_nearest() -> Seq<u8> {
    seq![110u8, 101, 97, 114, 101, 115, 116]
}

/// `"bilinear"`
pub open spec fn w_bilinear() -> Seq<u8> {
    seq![98u8, 105, 108, 105, 110, 101, 97, 114]
}

/// `"catmull_rom"`
pub open spec fn w_catmull_rom() -> Seq<u8> {
    seq![99u8, 97, 116, 109, 117, 108, 108, 95, 114, 111, 109]
}

/// `"pixelate"`
pub open spec fn w_pixelate() -> Seq<u8> {
    seq![112u8, 105, 120, 101, 108, 97, 116, 101]
}

/// `"mosaic"`
pub open spec fn w_mosaic() -> Seq<u8> {
    seq![109u8, 111, 115, 97, 105, 99]
}

/// `"blur"`
pub open spec fn w_blur() -> Seq<u8> {
    seq![98u8, 108, 117, 114]
}

/// `"fill"`
pub open spec fn w_fill() -> Seq<u8> {
    seq![102u8, 105, 108, 108]
}

/// `"solid"`
pub open spec fn w_solid() -> Seq<u8> {
    seq![115u8, 111, 108, 105, 100]
}

/// `"bar"`
pub open spec fn w_bar() -> Seq<u8> {
    seq![98u8, 97, 114]
}

/// `"heatmap"`
pub open spec fn w_heatmap() -> Seq<u8> {
    seq![104u8, 101, 97, 116, 109, 97, 112]
}

/// `"difference"`
pub open spec fn w_difference() -> Seq<u8> {
    seq![100u8, 105, 102, 102, 101, 114, 101, 110, 99, 101]
}

/// `"diff"`
pub open spec fn w_diff() -> Seq<u8> {
    seq![100u8, 105, 102, 102]
}

/// `"side_by_side"`
pub open spec fn w_side_by_side() -> Seq<u8> {
    seq![115u8, 105, 100, 101, 95, 98, 121, 95, 115, 105, 100, 101]
}

/// `"side-by-side"`
pub open spec fn w_side_dash_by_dash_side() -> Seq<u8> {
    seq![115u8, 105, 100, 101, 45, 98, 121, 45, 115, 105, 100, 101]
}

/// `"sxs"`
pub open spec fn w_sxs() -> Seq<u8> {
    seq![115u8, 120, 115]
}

/// The text with bytes `b`, trimmed.
pub open spec fn trimmed(s: Option<Seq<u8>>) -> Option<Seq<u8>> {
    match s {
        Some(b) => Some(trim(b)),
        None => None,
    }
}

pub open spec fn spec_align_x(s: Option<Seq<u8>>) -> Option<AlignX> {
    match trimmed(s) {
        None => Some(AlignX::Left),
        Some(t) => if t.len() == 0 || t == w_left() {
            Some(AlignX::Left)
        } else if t == w_center() {
            Some(AlignX::Center)
        } else if t == w_right() {
            Some(AlignX::Right)
        } else {
            None
        },
    }
}

pub open spec fn spec_align_y(s: Option<Seq<u8>>) -> Option<AlignY> {
    match trimmed(s) {
        None => Some(AlignY::Baseline),
        Some(t) => if t.len() == 0 || t == w_baseline() {
            Some(AlignY::Baseline)
        } else if t == w_top() {
            Some(AlignY::Top)
        } else if t == w_middle() {
            Some(AlignY::Middle)
        } else if t == w_bottom() {
            Some(AlignY::Bottom)
        } else {
            None
        },
    }
}

pub open spec fn spec_axis(b: Seq<u8>) -> Option<FlipAxis> {
    let l = ascii_lower(trim(b));
    if l == w_horizontal() || l == w_h() || l == w_x() {
        Some(FlipAxis::Horizontal)
    } else if l == w_vertical() || l == w_v() || l == w_y() {
        Some(FlipAxis::Vertical)
    } else {
        None
    }
}

/// Filter names are matched exactly (no trimming, case-sensitive).
pub open spec fn spec_filter(s: Option<Seq<u8>>) -> Option<Filter> {
    match s {
        None => Some(Filter::Lanczos3),
        Some(t) => if t == w_lanczos3() {
            Some(Filter::Lanczos3)
        } else if t == w_nearest() {
            Some(Filter::Nearest)
        } else if t == w_bilinear() {
            Some(Filter::Bilinear)
        } else if t == w_catmull_rom() {
            Some(Filter::CatmullRom)
        } else {
            None
        },
    }
}

pub open spec fn spec_diff_view(s: Option<Seq<u8>>) -> Option<DiffView> {
    match trimmed(s) {
        None => Some(DiffView::Heatmap),
        Some(t) => if t.len() == 0 || t == w_heatmap() {
            Some(DiffView::Heatmap)
        } else if t == w_difference() || t == w_diff() {
            Some(DiffView::Difference)
        } else if t == w_side_by_side() || t == w_side_dash_by_dash_side() || t == w_sxs() {
            Some(DiffView::SideBySide)
        } else {
            None
        },
    }
}

/// The alignment words, after trimming: `left` (or nothing) is left,
/// `center` is center, `right` is right, and no other text is an alignment.
pub proof fn lemma_align_x_words(s: Seq<u8>)
    ensures
        spec_align_x(None) == Some(AlignX::Left),
        trim(s) == seq![108u8, 101, 102, 116] ==> spec_align_x(Some(s)) == Some(AlignX::Left),
        trim(s) == seq![99u8, 101, 110, 116, 101, 114] ==> spec_align_x(Some(s)) == Some(AlignX::Center),
        trim(s) == seq![114u8, 105, 103, 104, 116] ==> spec_align_x(Some(s)) == Some(AlignX::Right),
        spec_align_x(Some(s)) == Some(AlignX::Left) ==> trim(s).len() == 0 || trim(s) == seq![
            108u8,
            101,
            102,
            116,
        ],
        spec_align_x(Some(s)) == Some(AlignX::Center) ==> trim(s) == seq![99u8, 101, 110, 116, 101, 114],
        spec_align_x(Some(s)) == Some(AlignX::Right) ==> trim(s) == seq![114u8, 105, 103, 104, 116],
{
}

/// The vertical alignment words, after trimming: `baseline` (or nothing),
/// `top`, `middle` and `bottom`, each its own alignment; no other text is one.
pub proof fn lemma_align_y_words(s: Seq<u8>)
    ensures
        spec_align_y(None) == Some(AlignY::Baseline),
        trim(s) == seq![98u8, 97, 115, 101, 108, 105, 110, 101] ==> spec_align_y(Some(s)) == Some(
            AlignY::Baseline,
        ),
        trim(s) == seq![116u8, 111, 112] ==> spec_align_y(Some(s)) == Some(AlignY::Top),
        trim(s) == seq![109u8, 105, 100, 100, 108, 101] ==> spec_align_y(Some(s)) == Some(AlignY::Middle),
        trim(s) == seq![98u8, 111, 116, 116, 111, 109] ==> spec_align_y(Some(s)) == Some(AlignY::Bottom),
        spec_align_y(Some(s)) == Some(AlignY::Top) ==> trim(s) == seq![116u8, 111, 112],
        spec_align_y(Some(s)) == Some(AlignY::Middle) ==> trim(s) == seq![109u8, 105, 100, 100, 108, 101],
        spec_align_y(Some(s)) == Some(AlignY::Bottom) ==> trim(s) == seq![98u8, 111, 116, 116, 111, 109],
{
    if trim(s) == seq![109u8, 105, 100, 100, 108, 101] {
        assert(trim(s)[0] != w_bottom()[0]);
    }
    if trim(s) == seq![98u8, 111, 116, 116, 111, 109] {
        assert(trim(s)[0] != w_middle()[0]);
    }
}

/// Flip axes ignore case and surrounding space: `horizontal`, `h` and `x`
/// mirror left to right, `vertical`, `v` and `y` top to bottom.
pub proof fn lemma_axis_words(s: Seq<u8>)
    ensures
        ascii_lower(trim(s)) == seq![104u8, 111, 114, 105, 122, 111, 110, 116, 97, 108] || ascii_lower(
            trim(s),
        ) == seq![104u8] || ascii_lower(trim(s)) == seq![120u8] ==> spec_axis(s) == Some(
            FlipAxis::Horizontal,
        ),
        ascii_lower(trim(s)) == seq![118u8, 101, 114, 116, 105, 99, 97, 108] || ascii_lower(trim(s))
            == seq![118u8] || ascii_lower(trim(s)) == seq![121u8] ==> spec_axis(s) == Some(
            FlipAxis::Vertical,
        ),
{
    let l = ascii_lower(trim(s));
    if l == seq![118u8] {
        assert(l[0] != w_h()[0] && l[0] != w_x()[0]);
    }
    if l == seq![121u8] {
        assert(l[0] != w_h()[0] && l[0] != w_x()[0]);
    }
}

/// Filter names, matched exactly: `lanczos3` (also the default), `nearest`,
/// `bilinear` and `catmull_rom`, each its own filter.
pub proof fn lemma_filter_words(s: Seq<u8>)
    ensures
        spec_filter(None) == Some(Filter::Lanczos3),
        s == seq![108u8, 97, 110, 99, 122, 111, 115, 51] ==> spec_filter(Some(s)) == Some(Filter::Lanczos3),
        s == seq![110u8, 101, 97, 114, 101, 115, 116] ==> spec_filter(Some(s)) == Some(Filter::Nearest),
        s == seq![98u8, 105, 108, 105, 110, 101, 97, 114] ==> spec_filter(Some(s)) == Some(Filter::Bilinear),
        s == seq![99u8, 97, 116, 109, 117, 108, 108, 95, 114, 111, 109] ==> spec_filter(Some(s)) == Some(
            Filter::CatmullRom,
        ),
{
    if s == seq![98u8, 105, 108, 105, 110, 101, 97, 114] {
        assert(s[0] != w_lanczos3()[0]);
    }
}

/// Diff views, after trimming: `heatmap` (or nothing), `difference` / `diff`,
/// and `side_by_side` / `side-by-side` / `sxs`, each its own view.
pub proof fn lemma_diff_view_words(s: Seq<u8>)
    ensures
        spec_diff_view(None) == Some(DiffView::Heatmap),
        trim(s) == seq![104u8, 101, 97, 116, 109, 97, 112] ==> spec_diff_view(Some(s)) == Some(DiffView::Heatmap),
        trim(s) == seq![100u8, 105, 102, 102, 101, 114, 101, 110, 99, 101] || trim(s) == seq![
            100u8,
            105,
            102,
            102,
        ] ==> spec_diff_view(Some(s)) == Some(DiffView::Difference),
        trim(s) == seq![115u8, 105, 100, 101, 95, 98, 121, 95, 115, 105, 100, 101] || trim(s) == seq![
            115u8,
            105,
            100,
            101,
            45,
            98,
            121,
            45,
            115,
            105,
            100,
            101,
        ] || trim(s) == seq![115u8, 120, 115] ==> spec_diff_view(Some(s)) == Some(DiffView::SideBySide),
{
}

/// Bytes of an optional text.
pub open spec fn opt_bytes(s: Option<&str>) -> Option<Seq<u8>> {
    match s {
        Some(t) => Some(t.spec_bytes()),
        None => None,
    }
}

pub open spec fn or_err<T>(v: Option<T>, e: ParamError) -> Result<T, ParamError> {
    match v {
        Some(x) => Ok(x),
        None => Err(e),
    }
}

/// `align_x`: left (default) | center | right, surrounding whitespace ignored.
pub fn parse_align_x(s: Option<&str>) -> (r: Result<AlignX, ParamError>)
    ensures
        r == or_err(spec_align_x(opt_bytes(s)), ParamError::BadAlignX),
{
    match s {
        None => Ok(AlignX::Left),
        Some(t) => {
            let b = t.as_bytes();
            let (lo, hi) = trim_range(b);
            if lo == hi || range_eq(b, lo, hi, &[108u8, 101, 102, 116]) {
                Ok(AlignX::Left)
            } else if range_eq(b, lo, hi, &[99u8, 101, 110, 116, 101, 114]) {
                Ok(AlignX::Center)
            } else if range_eq(b, lo, hi, &[114u8, 105, 103, 104, 116]) {
                Ok(AlignX::Right)
            } else {
                Err(ParamError::BadAlignX)
            }
        },
    }
}

/// `align_y`: baseline (default) | top | middle | bottom.
pub fn parse_align_y(s: Option<&str>) -> (r: Result<AlignY, ParamError>)
    ensures
        r == or_err(spec_align_y(opt_bytes(s)), ParamError::BadAlignY),
{
    match s {
        None => Ok(AlignY::Baseline),
        Some(t) => {
            let b = t.as_bytes();
            let (lo, hi) = trim_range(b);
            if lo == hi || range_eq(b, lo, hi, &[98u8, 97, 115, 101, 108, 105, 110, 101]) {
                Ok(AlignY::Baseline)
            } else if range_eq(b, lo, hi, &[116u8, 111, 112]) {
                Ok(AlignY::Top)
            } else if range_eq(b, lo, hi, &[109u8, 105, 100, 100, 108, 101]) {
                Ok(AlignY::Middle)
            } else if range_eq(b, lo, hi, &[98u8, 111, 116, 116, 111, 109]) {
                Ok(AlignY::Bottom)
            } else {
                Err(ParamError::BadAlignY)
            }
        },
    }
}

/// Flip axis: horizontal | h | x, or vertical | v | y (any case).
pub fn parse_axis(s: &str) -> (r: Result<FlipAxis, ParamError>)
    ensures
        r == or_err(spec_axis(s.spec_bytes()), ParamError::BadAxis),
{
    let b = s.as_bytes();
    let (lo, hi) = trim_range(b);
    let horizontal: [u8; 10] = [104u8, 111, 114, 105, 122, 111, 110, 116, 97, 108];
    let vertical: [u8; 8] = [118u8, 101, 114, 116, 105, 99, 97, 108];
    let h: [u8; 1] = [104u8];
    let x: [u8; 1] = [120u8];
    let v: [u8; 1] = [118u8];
    let y: [u8; 1] = [121u8];
    proof {
        assert(horizontal@ =~= w_horizontal());
        assert(vertical@ =~= w_vertical());
        assert(h@ =~= w_h());
        assert(x@ =~= w_x());
        assert(v@ =~= w_v());
        assert(y@ =~= w_y());
    }
    if lower_eq(b, lo, hi, &horizontal) || lower_eq(b, lo, hi, &h) || lower_eq(b, lo, hi, &x) {
        Ok(FlipAxis::Horizontal)
    } else if lower_eq(b, lo, hi, &vertical) || lower_eq(b, lo, hi, &v) || lower_eq(b, lo, hi, &y) {
        Ok(FlipAxis::Vertical)
    } else {
        Err(ParamError::BadAxis)
    }
}

/// Resampling filter: lanczos3 (default) | nearest | bilinear | catmull_rom.
pub fn parse_filter(s: Option<&str>) -> (r: Result<Filter, ParamError>)
    ensures
        r == or_err(spec_filter(opt_bytes(s)), ParamError::UnknownFilter),
{
    match s {
        None => Ok(Filter::Lanczos3),
        Some(t) => {
            let b = t.as_bytes();
            let n = b.len();
            proof {
                assert(b@.subrange(0, n as int) =~= b@);
            }
            if range_eq(b, 0, n, &[108u8, 97, 110, 99, 122, 111, 115, 51]) {
                Ok(Filter::Lanczos3)
            } else if range_eq(b, 0, n, &[110u8, 101, 97, 114, 101, 115, 116]) {
                Ok(Filter::Nearest)
            } else if range_eq(b, 0, n, &[98u8, 105, 108, 105, 110, 101, 97, 114]) {
                Ok(Filter::Bilinear)
            } else if range_eq(b, 0, n, &[99u8, 97, 116, 109, 117, 108, 108, 95, 114, 111, 109]) {
                Ok(Filter::CatmullRom)
            } else {
                Err(ParamError::UnknownFilter)
            }
        },
    }
}

/// Diff view: heatmap (default) | difference | diff | side_by_side |
/// side-by-side | sxs.
pub fn parse_diff_view(s: Option<&str>) -> (r: Result<DiffView, ParamError>)
    ensures
        r == or_err(spec_diff_view(opt_bytes(s)), ParamError::BadDiffView),
{
    match s {
        None => Ok(DiffView::Heatmap),
        Some(t) => {
            let b = t.as_bytes();
            let (lo, hi) = trim_range(b);
            if lo == hi || range_eq(b, lo, hi, &[104u8, 101, 97, 116, 109, 97, 112]) {
                Ok(DiffView::Heatmap)
            } else if range_eq(b, lo, hi, &[100u8, 105, 102, 102, 101, 114, 101, 110, 99, 101]) || range_eq(b, lo, hi, &[100u8, 105, 102, 102]) {
                Ok(DiffView::Difference)
            } else if range_eq(b, lo, hi, &[115u8, 105, 100, 101, 95, 98, 121, 95, 115, 105, 100, 101]) || range_eq(b, lo, hi, &[115u8, 105, 100, 101, 45, 98, 121, 45, 115, 105, 100, 101])
                || range_eq(b, lo, hi, &[115u8, 120, 115]) {
                Ok(DiffView::SideBySide)
            } else {
                Err(ParamError::BadDiffView)
            }
        },
    }
}

/// 12.0 as f32 bits: the default blur radius of a redaction.
pub open spec fn twelve_bits() -> FloatBits {
    FloatBits(0x4140_0000)
}

/// The redact mode named by `mode` (default pixelate), trimmed, any case.
pub open spec fn spec_redact_kind(mode: Option<Seq<u8>>) -> Option<u8> {
    let l = match mode {
        Some(b) => ascii_lower(trim(b)),
        None => w_pixelate(),
    };
    if l.len() == 0 || l == w_pixelate() || l == w_mosaic() {
        Some(0u8)
    } else if l == w_blur() {
        Some(1u8)
    } else if l == w_fill() || l == w_solid() || l == w_bar() {
        Some(2u8)
    } else {
        None
    }
}

/// Redact mode words ignore case and surrounding space: `pixelate`, `mosaic`, nothing
/// at all, or no mode given, pixelate; `blur` blurs; `fill`, `solid` and `bar` fill
/// (0, 1 and 2 as `spec_redact_kind` writes them for `parse_redact_mode`).
pub proof fn lemma_redact_words(s: Seq<u8>)
    ensures
        spec_redact_kind(None) == Some(0u8),
        ascii_lower(trim(s)).len() == 0 ==> spec_redact_kind(Some(s)) == Some(0u8),
        ascii_lower(trim(s)) == seq![112u8, 105, 120, 101, 108, 97, 116, 101] ==> spec_redact_kind(
            Some(s),
        ) == Some(0u8),
        ascii_lower(trim(s)) == seq![109u8, 111, 115, 97, 105, 99] ==> spec_redact_kind(Some(s))
            == Some(0u8),
        ascii_lower(trim(s)) == seq![98u8, 108, 117, 114] ==> spec_redact_kind(Some(s)) == Some(1u8),
        ascii_lower(trim(s)) == seq![102u8, 105, 108, 108] ==> spec_redact_kind(Some(s)) == Some(2u8),
        ascii_lower(trim(s)) == seq![115u8, 111, 108, 105, 100] ==> spec_redact_kind(Some(s)) == Some(
            2u8,
        ),
        ascii_lower(trim(s)) == seq![98u8, 97, 114] ==> spec_redact_kind(Some(s)) == Some(2u8),
        spec_redact_kind(Some(s)) == Some(1u8) ==> ascii_lower(trim(s)) == seq![98u8, 108, 117, 114],
{
    let l = ascii_lower(trim(s));
    if l == seq![98u8, 108, 117, 114] {
        assert(l != w_pixelate() && l != w_mosaic()) by {
            assert(l.len() != w_pixelate().len() && l.len() != w_mosaic().len());
        }
    }
    if l == seq![102u8, 105, 108, 108] {
        assert(l[0] != w_blur()[0]);
        assert(l.len() != w_pixelate().len() && l.len() != w_mosaic().len());
    }
    if l == seq![115u8, 111, 108, 105, 100] {
        assert(l.len() != w_pixelate().len() && l.len() != w_mosaic().len() && l.len() != w_blur().len());
    }
    if l == seq![98u8, 97, 114] {
        assert(l.len() != w_pixelate().len() && l.len() != w_mosaic().len() && l.len() != w_blur().len());
    }
}

/// Redact mode: `pixelate` (block, default 12, at least 1), `blur` (radius,
/// default 12) or `fill` (color, default black); aliases mosaic, solid, bar.
pub fn parse_redact_mode(
    mode: Option<&str>,
    block: Option<u32>,
    radius: Option<FloatBits>,
    color: Option<&str>,
) -> (r: Result<RedactMode, ParamError>)
    ensures
        r == match spec_redact_kind(opt_bytes(mode)) {
            Some(0) => Ok(
                RedactMode::Pixelate {
                    block: match block {
                        Some(b) => if b >= 1 {
                            b
                        } else {
                            1
                        },
                        None => 12,
                    },
                },
            ),
            Some(1) => Ok(
                RedactMode::Blur {
                    radius: match radius {
                        Some(x) => x,
                        None => twelve_bits(),
                    },
                },
            ),
            Some(_) => match color {
                None => Ok(RedactMode::Fill { color: Rgba8 { r: 0, g: 0, b: 0, a: 255 } }),
                Some(t) => match spec_parse_color(t.spec_bytes()) {
                    Some(c) => Ok(RedactMode::Fill { color: c }),
                    None => Err(ParamError::BadColor),
                },
            },
            None => Err(ParamError::BadRedactMode),
        },
{
    let kind: u8 = match mode {
        None => 0,
        Some(t) => {
            let b = t.as_bytes();
            let (lo, hi) = trim_range(b);
            if lo == hi || lower_eq(b, lo, hi, &[112u8, 105, 120, 101, 108, 97, 116, 101]) || lower_eq(b, lo, hi, &[109u8, 111, 115, 97, 105, 99]) {
                proof {
                    if lo == hi {
                        assert(ascii_lower(b@.subrange(lo as int, hi as int)).len() == 0);
                    }
                }
                0
            } else if lower_eq(b, lo, hi, &[98u8, 108, 117, 114]) {
                1
            } else if lower_eq(b, lo, hi, &[102u8, 105, 108, 108]) || lower_eq(b, lo, hi, &[115u8, 111, 108, 105, 100]) || lower_eq(
                b,
                lo,
                hi,
                &[98u8, 97, 114],
            ) {
                2
            } else {
                proof {
                    assert(ascii_lower(b@.subrange(lo as int, hi as int)).len() == hi - lo);
                }
                return Err(ParamError::BadRedactMode);
            }
        },
    };
    proof {
        if mode is None {
            assert(w_pixelate() == w_pixelate());
        }
    }
    if kind == 0 {
        let b = match block {
            Some(b) => if b >= 1 {
                b
            } else {
                1
            },
            None => 12,
        };
        Ok(RedactMode::Pixelate { block: b })
    } else if kind == 1 {
        Ok(
            RedactMode::Blur {
                radius: match radius {
                    Some(x) => x,
                    None => FloatBits(0x4140_0000),
                },
            },
        )
    } else {
        let c = match color {
            Some(s) => parse_color(s)?,
            None => Rgba8::rgb(0, 0, 0),
        };
        Ok(RedactMode::Fill { color: c })
    }
}

} // verus!
