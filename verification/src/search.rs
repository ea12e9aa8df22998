//! Search: recognising typed coordinate expressions, and moving the
//! highlight through a result list.
//!
//! Three coordinate forms are recognised, tried in this order (all in
//! the human-facing `(lat, lon)` order, after trimming white space):
//!
//! 1. **DMS**: `41°52'12"N 87°37'48"W` — degrees, optional minutes
//!    (`'` or `′`), optional seconds (`"` or `″`), a mandatory
//!    hemisphere letter; the degree sign is optional.
//! 2. **Decimal with hemisphere letters**: `41.87°N, 87.63°W`.
//! 3. **Bare decimal pair**: `41.87, -87.63`.
//!
//! Numbers are `[0-9]+(\.[0-9]+)?` (signed in forms 2 and 3); inside a
//! form, `[ \t]*` may separate the pieces and the two halves are
//! separated by spaces or tabs with at most one comma. Where a degree
//! figure runs straight into a minutes or seconds figure, the longest
//! degree figure that lets the rest match is taken. Turning the figures
//! into angles (and the range checks) happens in floating point, in the
//! application.
use vstd::prelude::*;
use crate::text::{chars_of, string_of, trim, trim_bounds};
use vstd::arithmetic::div_mod::lemma_fundamental_div_mod_converse;

verus! {

/// ASCII digit.
pub open spec fn is_digit(c: char) -> bool {
    '0' <= c <= '9'
}

/// Space or tab.
pub open spec fn is_blank(c: char) -> bool {
    c == ' ' || c == '\t'
}

/// First index at or after `p` that is not a digit.
pub open spec fn digits_end(s: Seq<char>, p: int) -> int
    decreases s.len() - p,
{
    if p < 0 || p >= s.len() {
        if p < 0 {
            0
        } else {
            s.len() as int
        }
    } else if is_digit(s[p]) {
        digits_end(s, p + 1)
    } else {
        p
    }
}

/// First index at or after `p` that is not a space or tab.
pub open spec fn blanks_end(s: Seq<char>, p: int) -> int
    decreases s.len() - p,
{
    if p < 0 || p >= s.len() {
        if p < 0 {
            0
        } else {
            s.len() as int
        }
    } else if is_blank(s[p]) {
        blanks_end(s, p + 1)
    } else {
        p
    }
}

/// End of the longest number `[0-9]+(\.[0-9]+)?` starting at `p`
/// (assuming a digit is there).
pub open spec fn num_max_end(s: Seq<char>, p: int) -> int {
    let l = digits_end(s, p);
    if 0 <= l < s.len() && s[l] == '.' && digits_end(s, l + 1) > l + 1 {
        digits_end(s, l + 1)
    } else {
        l
    }
}

/// Whether `s[p..e]` is a number `[0-9]+(\.[0-9]+)?`.
pub open spec fn num_end_ok(s: Seq<char>, p: int, e: int) -> bool {
    let l = digits_end(s, p);
    &&& l > p
    &&& p < e <= num_max_end(s, p)
    &&& e != l + 1
}

/// After `p`: blanks, an optional degree sign, blanks.
pub open spec fn degree_mark_end(s: Seq<char>, p: int) -> int {
    let a = blanks_end(s, p);
    let b = if 0 <= a < s.len() && s[a] == '°' {
        a + 1
    } else {
        a
    };
    blanks_end(s, b)
}

/// A quoted figure at `p`: a number, blanks, one of the two marks,
/// blanks. Gives the number's span and the position after.
pub open spec fn quoted_figure(s: Seq<char>, p: int, m1: char, m2: char) -> Option<((int, int), int)> {
    if 0 <= p && digits_end(s, p) > p {
        let e = num_max_end(s, p);
        let a = blanks_end(s, e);
        if a < s.len() && (s[a] == m1 || s[a] == m2) {
            Some(((p, e), blanks_end(s, a + 1)))
        } else {
            None
        }
    } else {
        None
    }
}

/// End of the separator between the two halves: a run of spaces, tabs
/// and commas at `p`, at least one character long, holding at most one
/// comma. `None` when there is none.
pub open spec fn separator_end(s: Seq<char>, p: int) -> Option<int> {
    let a = blanks_end(s, p);
    let b = if 0 <= a < s.len() && s[a] == ',' {
        blanks_end(s, a + 1)
    } else {
        a
    };
    if b > p {
        Some(b)
    } else {
        None
    }
}

/// North/south hemisphere letter.
pub open spec fn is_ns(c: char) -> bool {
    c == 'N' || c == 'S' || c == 'n' || c == 's'
}

/// East/west hemisphere letter.
pub open spec fn is_ew(c: char) -> bool {
    c == 'E' || c == 'W' || c == 'e' || c == 'w'
}

/// The spans of one half of a DMS expression.
pub struct DmsSpans {
    pub degrees: (int, int),
    pub minutes: Option<(int, int)>,
    pub seconds: Option<(int, int)>,
    pub hemisphere: int,
}

/// What follows a DMS degree figure ending at `p`: degree mark,
/// optional minutes, optional seconds, the hemisphere letter (north or
/// south when `north_south`). Gives minutes, seconds, the letter's
/// index and the position after it.
pub open spec fn dms_tail(s: Seq<char>, p: int, north_south: bool) -> Option<
    (Option<(int, int)>, Option<(int, int)>, int),
> {
    let p1 = degree_mark_end(s, p);
    let (m, p2) = match quoted_figure(s, p1, '\'', '′') {
        Some((sp, q)) => (Some(sp), q),
        None => (None, p1),
    };
    let (sec, p3) = match quoted_figure(s, p2, '"', '″') {
        Some((sp, q)) => (Some(sp), q),
        None => (None, p2),
    };
    if 0 <= p3 < s.len() && (if north_south {
        is_ns(s[p3])
    } else {
        is_ew(s[p3])
    }) {
        Some((m, sec, p3))
    } else {
        None
    }
}

/// The second (longitude) half of a DMS expression, with its degree
/// figure starting at `p`: the longest degree figure, trying ends from
/// `e` down, after which the rest of the half matches and the text ends.
pub open spec fn dms_lon_search(s: Seq<char>, p: int, e: int) -> Option<DmsSpans>
    decreases e - p,
{
    if e <= p {
        None
    } else if num_end_ok(s, p, e) && (dms_tail(s, e, false) matches Some((m, sec, h)) && h + 1
        == s.len()) {
        let (m, sec, h) = dms_tail(s, e, false)->Some_0;
        Some(DmsSpans { degrees: (p, e), minutes: m, seconds: sec, hemisphere: h })
    } else {
        dms_lon_search(s, p, e - 1)
    }
}

/// The rest of a DMS expression after a latitude degree figure `0..e`.
pub open spec fn dms_after_lat(s: Seq<char>, e: int) -> Option<(DmsSpans, DmsSpans)> {
    match dms_tail(s, e, true) {
        None => None,
        Some((m, sec, h)) => match separator_end(s, h + 1) {
            None => None,
            Some(p2) => if p2 < s.len() && digits_end(s, p2) > p2 {
                match dms_lon_search(s, p2, num_max_end(s, p2)) {
                    None => None,
                    Some(lon) => Some(
                        (DmsSpans { degrees: (0, e), minutes: m, seconds: sec, hemisphere: h }, lon),
                    ),
                }
            } else {
                None
            },
        },
    }
}

/// A DMS expression: the longest latitude degree figure, trying ends
/// from `e` down, after which the rest matches.
pub open spec fn dms_search(s: Seq<char>, e: int) -> Option<(DmsSpans, DmsSpans)>
    decreases e,
{
    if e <= 0 {
        None
    } else if num_end_ok(s, 0, e) && dms_after_lat(s, e) is Some {
        dms_after_lat(s, e)
    } else {
        dms_search(s, e - 1)
    }
}

/// `s` read as a DMS expression.
pub open spec fn dms_spans(s: Seq<char>) -> Option<(DmsSpans, DmsSpans)> {
    if digits_end(s, 0) > 0 {
        dms_search(s, num_max_end(s, 0))
    } else {
        None
    }
}

/// End of a signed number `-?[0-9]+(\.[0-9]+)?` at `p`, taken as long
/// as possible.
pub open spec fn signed_num_end(s: Seq<char>, p: int) -> Option<int> {
    let q = if 0 <= p < s.len() && s[p] == '-' {
        p + 1
    } else {
        p
    };
    if 0 <= q && digits_end(s, q) > q {
        Some(num_max_end(s, q))
    } else {
        None
    }
}

/// `s` read as a decimal pair with hemisphere letters: spans of the two
/// figures and indices of the two letters.
pub open spec fn hemisphere_spans(s: Seq<char>) -> Option<((int, int), int, (int, int), int)> {
    match signed_num_end(s, 0) {
        None => None,
        Some(e1) => {
            let h1 = degree_mark_end(s, e1);
            if h1 < s.len() && is_ns(s[h1]) {
                match separator_end(s, h1 + 1) {
                    None => None,
                    Some(p2) => match signed_num_end(s, p2) {
                        None => None,
                        Some(e2) => {
                            let h2 = degree_mark_end(s, e2);
                            if h2 < s.len() && is_ew(s[h2]) && h2 + 1 == s.len() {
                                Some(((0, e1), h1, (p2, e2), h2))
                            } else {
                                None
                            }
                        },
                    },
                }
            } else {
                None
            }
        },
    }
}

/// `s` read as a bare decimal pair: spans of the two figures.
pub open spec fn bare_spans(s: Seq<char>) -> Option<((int, int), (int, int))> {
    match signed_num_end(s, 0) {
        None => None,
        Some(e1) => match separator_end(s, e1) {
            None => None,
            Some(p2) => match signed_num_end(s, p2) {
                Some(e2) => if e2 == s.len() {
                    Some(((0, e1), (p2, e2)))
                } else {
                    None
                },
                None => None,
            },
        },
    }
}

/// One half of a DMS expression, as typed.
#[derive(Debug, Clone, PartialEq)]
pub struct DmsPart {
    pub degrees: String,
    pub minutes: Option<String>,
    pub seconds: Option<String>,
    pub hemisphere: char,
}

/// A recognised coordinate expression, its figures as typed, in the
/// typed `(lat, lon)` order.
#[derive(Debug, Clone, PartialEq)]
pub enum CoordExpr {
    Dms { lat: DmsPart, lon: DmsPart },
    DecimalHemisphere { lat: String, lat_hemisphere: char, lon: String, lon_hemisphere: char },
    BareDecimal { first: String, second: String },
}

/// Whether `part` holds the figures `sp` marks in `s`.
pub open spec fn dms_part_matches(part: DmsPart, s: Seq<char>, sp: DmsSpans) -> bool {
    &&& part.degrees@ == s.subrange(sp.degrees.0, sp.degrees.1)
    &&& (match (part.minutes, sp.minutes) {
        (Some(m), Some(r)) => m@ == s.subrange(r.0, r.1),
        (None, None) => true,
        _ => false,
    })
    &&& (match (part.seconds, sp.seconds) {
        (Some(m), Some(r)) => m@ == s.subrange(r.0, r.1),
        (None, None) => true,
        _ => false,
    })
    &&& part.hemisphere == s[sp.hemisphere]
}

/// Whether `expr` is what `s` (already trimmed) reads as.
pub open spec fn coord_expr_matches(expr: Option<CoordExpr>, s: Seq<char>) -> bool {
    if s.len() == 0 {
        expr is None
    } else if dms_spans(s) is Some {
        let (a, b) = dms_spans(s)->Some_0;
        expr matches Some(CoordExpr::Dms { lat, lon }) && dms_part_matches(lat, s, a)
            && dms_part_matches(lon, s, b)
    } else if hemisphere_spans(s) is Some {
        let (a, h1, b, h2) = hemisphere_spans(s)->Some_0;
        expr matches Some(
            CoordExpr::DecimalHemisphere { lat, lat_hemisphere, lon, lon_hemisphere },
        ) && lat@ == s.subrange(a.0, a.1) && lat_hemisphere == s[h1] && lon@ == s.subrange(
            b.0,
            b.1,
        ) && lon_hemisphere == s[h2]
    } else if bare_spans(s) is Some {
        let (a, b) = bare_spans(s)->Some_0;
        expr matches Some(CoordExpr::BareDecimal { first, second }) && first@ == s.subrange(
            a.0,
            a.1,
        ) && second@ == s.subrange(b.0, b.1)
    } else {
        expr is None
    }
}


fn digit(c: char) -> (b: bool)
    ensures
        b == is_digit(c),
{
    '0' <= c && c <= '9'
}

fn blank(c: char) -> (b: bool)
    ensures
        b == is_blank(c),
{
    c == ' ' || c == '\t'
}

fn digits_from(s: &[char], p: usize) -> (r: usize)
    requires
        p <= s@.len(),
    ensures
        r == digits_end(s@, p as int),
        p <= r <= s@.len(),
{
    let mut i = p;
    while i < s.len() && digit(s[i])
        invariant
            p <= i <= s@.len(),
            digits_end(s@, i as int) == digits_end(s@, p as int),
        decreases s@.len() - i,
    {
        i = i + 1;
    }
    i
}

fn blanks_from(s: &[char], p: usize) -> (r: usize)
    requires
        p <= s@.len(),
    ensures
        r == blanks_end(s@, p as int),
        p <= r <= s@.len(),
{
    let mut i = p;
    while i < s.len() && blank(s[i])
        invariant
            p <= i <= s@.len(),
            blanks_end(s@, i as int) == blanks_end(s@, p as int),
        decreases s@.len() - i,
    {
        i = i + 1;
    }
    i
}

fn number_end(s: &[char], p: usize) -> (r: usize)
    requires
        p <= s@.len(),
    ensures
        r == num_max_end(s@, p as int),
        digits_end(s@, p as int) <= r <= s@.len(),
{
    let l = digits_from(s, p);
    if l < s.len() && s[l] == '.' {
        let f = digits_from(s, l + 1);
        if f > l + 1 {
            f
        } else {
            l
        }
    } else {
        l
    }
}

fn number_ends_at(s: &[char], p: usize, e: usize) -> (b: bool)
    requires
        p <= s@.len(),
    ensures
        b == num_end_ok(s@, p as int, e as int),
{
    let l = digits_from(s, p);
    let m = number_end(s, p);
    l > p && p < e && e <= m && e - 1 != l
}

fn degree_mark_from(s: &[char], p: usize) -> (r: usize)
    requires
        p <= s@.len(),
    ensures
        r == degree_mark_end(s@, p as int),
        p <= r <= s@.len(),
{
    let a = blanks_from(s, p);
    let b = if a < s.len() && s[a] == '°' {
        a + 1
    } else {
        a
    };
    blanks_from(s, b)
}

/// The spans of a quoted figure as positions.
pub open spec fn figure_view(r: Option<(usize, usize, usize)>) -> Option<((int, int), int)> {
    match r {
        Some((a, b, q)) => Some(((a as int, b as int), q as int)),
        None => None,
    }
}

fn quoted_figure_at(s: &[char], p: usize, m1: char, m2: char) -> (r: Option<(usize, usize, usize)>)
    requires
        p <= s@.len(),
    ensures
        figure_view(r) == quoted_figure(s@, p as int, m1, m2),
        r matches Some((a, b, q)) ==> p == a && a < b <= q <= s@.len(),
{
    if digits_from(s, p) > p {
        let e = number_end(s, p);
        let a = blanks_from(s, e);
        if a < s.len() && (s[a] == m1 || s[a] == m2) {
            Some((p, e, blanks_from(s, a + 1)))
        } else {
            None
        }
    } else {
        None
    }
}

fn separator_from(s: &[char], p: usize) -> (r: Option<usize>)
    requires
        p <= s@.len(),
    ensures
        (match r {
            Some(q) => separator_end(s@, p as int) == Some(q as int),
            None => separator_end(s@, p as int) is None,
        }),
        r matches Some(q) ==> p < q <= s@.len(),
{
    let a = blanks_from(s, p);
    let b = if a < s.len() && s[a] == ',' {
        blanks_from(s, a + 1)
    } else {
        a
    };
    if b > p {
        Some(b)
    } else {
        None
    }
}

fn hemisphere_letter(c: char, north_south: bool) -> (b: bool)
    ensures
        b == (if north_south {
            is_ns(c)
        } else {
            is_ew(c)
        }),
{
    if north_south {
        c == 'N' || c == 'S' || c == 'n' || c == 's'
    } else {
        c == 'E' || c == 'W' || c == 'e' || c == 'w'
    }
}

/// A span given as positions.
pub open spec fn span_view(r: Option<(usize, usize)>) -> Option<(int, int)> {
    match r {
        Some((a, b)) => Some((a as int, b as int)),
        None => None,
    }
}

/// Whether a span lies within `0..n`.
pub open spec fn span_within(r: Option<(usize, usize)>, n: int) -> bool {
    r matches Some((a, b)) ==> a <= b <= n
}

fn dms_tail_at(s: &[char], p: usize, north_south: bool) -> (r: Option<
    (Option<(usize, usize)>, Option<(usize, usize)>, usize),
>)
    requires
        p <= s@.len(),
    ensures
        (match r {
            Some((m, sec, h)) => dms_tail(s@, p as int, north_south) == Some(
                (span_view(m), span_view(sec), h as int),
            ),
            None => dms_tail(s@, p as int, north_south) is None,
        }),
        r matches Some((m, sec, h)) ==> span_within(m, s@.len() as int) && span_within(
            sec,
            s@.len() as int,
        ) && h < s.len(),
{
    let p1 = degree_mark_from(s, p);
    let (m, p2) = match quoted_figure_at(s, p1, '\'', '′') {
        Some((a, b, q)) => (Some((a, b)), q),
        None => (None, p1),
    };
    let (sec, p3) = match quoted_figure_at(s, p2, '"', '″') {
        Some((a, b, q)) => (Some((a, b)), q),
        None => (None, p2),
    };
    if p3 < s.len() && hemisphere_letter(s[p3], north_south) {
        Some((m, sec, p3))
    } else {
        None
    }
}

/// One half of a DMS expression as positions.
struct HalfSpans {
    degrees: (usize, usize),
    minutes: Option<(usize, usize)>,
    seconds: Option<(usize, usize)>,
    hemisphere: usize,
}

impl HalfSpans {
    spec fn spans(self) -> DmsSpans {
        DmsSpans {
            degrees: (self.degrees.0 as int, self.degrees.1 as int),
            minutes: span_view(self.minutes),
            seconds: span_view(self.seconds),
            hemisphere: self.hemisphere as int,
        }
    }

    spec fn within(self, n: int) -> bool {
        &&& self.degrees.0 <= self.degrees.1 <= n
        &&& span_within(self.minutes, n)
        &&& span_within(self.seconds, n)
        &&& self.hemisphere < n
    }
}

fn lon_search(s: &[char], p: usize, e0: usize) -> (r: Option<HalfSpans>)
    requires
        p <= e0 <= s@.len(),
    ensures
        (match r {
            Some(h) => dms_lon_search(s@, p as int, e0 as int) == Some(h.spans()) && h.within(
                s@.len() as int,
            ),
            None => dms_lon_search(s@, p as int, e0 as int) is None,
        }),
{
    let mut e = e0;
    while e > p
        invariant
            p <= e <= e0 <= s@.len(),
            dms_lon_search(s@, p as int, e as int) == dms_lon_search(s@, p as int, e0 as int),
        decreases e - p,
    {
        if number_ends_at(s, p, e) {
            match dms_tail_at(s, e, false) {
                Some((m, sec, h)) => {
                    if h + 1 == s.len() {
                        return Some(HalfSpans { degrees: (p, e), minutes: m, seconds: sec, hemisphere: h });
                    }
                },
                None => {},
            }
        }
        e = e - 1;
    }
    None
}

fn after_lat(s: &[char], e: usize) -> (r: Option<(HalfSpans, HalfSpans)>)
    requires
        e <= s@.len(),
    ensures
        (match r {
            Some((a, b)) => dms_after_lat(s@, e as int) == Some((a.spans(), b.spans())) && a.within(
                s@.len() as int,
            ) && b.within(s@.len() as int),
            None => dms_after_lat(s@, e as int) is None,
        }),
{
    match dms_tail_at(s, e, true) {
        None => None,
        Some((m, sec, h)) => match separator_from(s, h + 1) {
            None => None,
            Some(p2) => {
                if p2 < s.len() && digits_from(s, p2) > p2 {
                    let e2 = number_end(s, p2);
                    match lon_search(s, p2, e2) {
                        None => None,
                        Some(lon) => Some(
                            (HalfSpans { degrees: (0, e), minutes: m, seconds: sec, hemisphere: h }, lon),
                        ),
                    }
                } else {
                    None
                }
            },
        },
    }
}

fn dms_at(s: &[char]) -> (r: Option<(HalfSpans, HalfSpans)>)
    ensures
        (match r {
            Some((a, b)) => dms_spans(s@) == Some((a.spans(), b.spans())) && a.within(
                s@.len() as int,
            ) && b.within(s@.len() as int),
            None => dms_spans(s@) is None,
        }),
{
    if digits_from(s, 0) == 0 {
        return None;
    }
    let mut e = number_end(s, 0);
    while e > 0
        invariant
            e <= s@.len(),
            digits_end(s@, 0) > 0,
            dms_search(s@, e as int) == dms_spans(s@),
        decreases e,
    {
        if number_ends_at(s, 0, e) {
            match after_lat(s, e) {
                Some(x) => {
                    return Some(x);
                },
                None => {},
            }
        }
        e = e - 1;
    }
    None
}

fn signed_number_end(s: &[char], p: usize) -> (r: Option<usize>)
    requires
        p <= s@.len(),
    ensures
        (match r {
            Some(q) => signed_num_end(s@, p as int) == Some(q as int),
            None => signed_num_end(s@, p as int) is None,
        }),
        r matches Some(q) ==> p < q <= s@.len(),
{
    let q = if p < s.len() && s[p] == '-' {
        p + 1
    } else {
        p
    };
    if digits_from(s, q) > q {
        Some(number_end(s, q))
    } else {
        None
    }
}

fn hemisphere_at(s: &[char]) -> (r: Option<(usize, usize, usize, usize, usize)>)
    ensures
        (match r {
            Some((e1, h1, p2, e2, h2)) => hemisphere_spans(s@) == Some(
                ((0int, e1 as int), h1 as int, (p2 as int, e2 as int), h2 as int),
            ) && e1 <= s@.len() && h1 < s@.len() && p2 <= e2 <= s@.len() && h2 < s@.len(),
            None => hemisphere_spans(s@) is None,
        }),
{
    match signed_number_end(s, 0) {
        None => None,
        Some(e1) => {
            let h1 = degree_mark_from(s, e1);
            if h1 < s.len() && hemisphere_letter(s[h1], true) {
                match separator_from(s, h1 + 1) {
                    None => None,
                    Some(p2) => match signed_number_end(s, p2) {
                        None => None,
                        Some(e2) => {
                            let h2 = degree_mark_from(s, e2);
                            if h2 < s.len() && hemisphere_letter(s[h2], false) && h2 + 1 == s.len() {
                                Some((e1, h1, p2, e2, h2))
                            } else {
                                None
                            }
                        },
                    },
                }
            } else {
                None
            }
        },
    }
}

fn bare_at(s: &[char]) -> (r: Option<(usize, usize, usize)>)
    ensures
        (match r {
            Some((e1, p2, e2)) => bare_spans(s@) == Some(
                ((0int, e1 as int), (p2 as int, e2 as int)),
            ) && e1 <= s@.len() && p2 <= e2 <= s@.len(),
            None => bare_spans(s@) is None,
        }),
{
    match signed_number_end(s, 0) {
        None => None,
        Some(e1) => match separator_from(s, e1) {
            None => None,
            Some(p2) => match signed_number_end(s, p2) {
                Some(e2) => {
                    if e2 == s.len() {
                        Some((e1, p2, e2))
                    } else {
                        None
                    }
                },
                None => None,
            },
        },
    }
}

fn optional_string(s: &[char], r: Option<(usize, usize)>) -> (o: Option<String>)
    requires
        span_within(r, s@.len() as int),
    ensures
        (match (o, span_view(r)) {
            (Some(m), Some(sp)) => m@ == s@.subrange(sp.0, sp.1),
            (None, None) => true,
            _ => false,
        }),
{
    match r {
        Some((a, b)) => Some(string_of(s, a, b)),
        None => None,
    }
}

fn dms_part(s: &[char], h: &HalfSpans) -> (part: DmsPart)
    requires
        h.within(s@.len() as int),
    ensures
        dms_part_matches(part, s@, h.spans()),
{
    DmsPart {
        degrees: string_of(s, h.degrees.0, h.degrees.1),
        minutes: optional_string(s, h.minutes),
        seconds: optional_string(s, h.seconds),
        hemisphere: s[h.hemisphere],
    }
}

/// Reads a typed query as a coordinate expression: the first of the
/// three forms that the trimmed query matches as a whole, with its
/// figures and hemisphere letters as typed; `None` when the query
/// (after trimming) is empty or matches none of them.
pub fn parse_coord_expr(input: &str) -> (r: Option<CoordExpr>)
    ensures
        coord_expr_matches(r, trim(input@)),
{
    let all = chars_of(input);
    let (lo, hi) = trim_bounds(all.as_slice(), 0, all.len());
    let trimmed = string_of(all.as_slice(), lo, hi);
    let cs = chars_of(trimmed.as_str());
    let s = cs.as_slice();
    proof {
        assert(all@.subrange(0, all@.len() as int) =~= all@);
    }
    if s.len() == 0 {
        return None;
    }
    match dms_at(s) {
        Some((a, b)) => {
            return Some(CoordExpr::Dms { lat: dms_part(s, &a), lon: dms_part(s, &b) });
        },
        None => {},
    }
    match hemisphere_at(s) {
        Some((e1, h1, p2, e2, h2)) => {
            return Some(
                CoordExpr::DecimalHemisphere {
                    lat: string_of(s, 0, e1),
                    lat_hemisphere: s[h1],
                    lon: string_of(s, p2, e2),
                    lon_hemisphere: s[h2],
                },
            );
        },
        None => {},
    }
    match bare_at(s) {
        Some((e1, p2, e2)) => {
            return Some(
                CoordExpr::BareDecimal { first: string_of(s, 0, e1), second: string_of(s, p2, e2) },
            );
        },
        None => {},
    }
    None
}

/// The row highlighted after moving `delta` rows through `len`
/// results, wrapping at both ends. With no row highlighted the move
/// starts just above the first row; with no results nothing changes.
pub open spec fn highlight_after(cur: Option<usize>, len: nat, delta: int) -> Option<usize> {
    if len == 0 {
        cur
    } else {
        let start: int = match cur {
            Some(i) => i as int,
            None => -1,
        };
        Some(((start + delta) % (len as int)) as usize)
    }
}

/// Moves the highlight `delta` rows through a list of `len` results.
pub fn next_highlight(cur: Option<usize>, len: usize, delta: i32) -> (r: Option<usize>)
    requires
        len <= i32::MAX,
        cur matches Some(i) ==> i <= i32::MAX,
        i32::MIN <= (match cur {
            Some(i) => i as int,
            None => -1,
        }) + delta <= i32::MAX,
    ensures
        r == highlight_after(cur, len as nat, delta as int),
        len > 0 ==> (r matches Some(i) && i < len),
{
    if len == 0 {
        return cur;
    }
    let start: i64 = match cur {
        Some(i) => i as i64,
        None => -1,
    };
    let x: i64 = start + delta as i64;
    let n: i64 = len as i64;
    if x >= 0 {
        let r: i64 = x % n;
        Some(r as usize)
    } else {
        let y: i64 = -x;
        let m: i64 = y % n;
        proof {
            let q = y / n;
            assert(y == q * n + m) by (nonlinear_arith)
                requires
                    n > 0,
                    q == y / n,
                    m == y % n,
            ;
            if m == 0 {
                assert(x == (-q) * n + 0) by (nonlinear_arith)
                    requires
                        x == -y,
                        y == q * n + m,
                        m == 0,
                ;
                lemma_fundamental_div_mod_converse(x as int, n as int, -q, 0);
            } else {
                assert(x == (-q - 1) * n + (n - m)) by (nonlinear_arith)
                    requires
                        x == -y,
                        y == q * n + m,
                ;
                lemma_fundamental_div_mod_converse(x as int, n as int, -q - 1, n - m);
            }
        }
        if m == 0 {
            Some(0)
        } else {
            Some((n - m) as usize)
        }
    }
}


/// Delay between the last keystroke and the lookup, in milliseconds.
pub const SEARCH_DEBOUNCE_MS: u32 = 250;

/// The search box's scheduling state.
pub struct SearchState {
    /// The query as last typed.
    pub query: String,
    /// Generation of the latest lookup; replies stamped with an older
    /// generation are stale.
    pub generation: u64,
    /// Generation of the debounce timer still pending, if one is.
    pub pending_timer: Option<u64>,
}

/// What happens to the search box.
pub enum SearchEvent<R, E> {
    /// The text in the box changed.
    InputChanged(String),
    /// The debounce timer set for `generation` fired; `coordinate` says
    /// whether the query reads as an in-range coordinate.
    TimerFired { generation: u64, coordinate: bool },
    /// The geocoder answered the lookup of `generation`.
    Reply { generation: u64, result: Result<Vec<R>, E> },
}

/// A one-row notice shown in place of results.
#[derive(Copy, Clone, Debug, PartialEq, Eq, Structural)]
pub enum SearchNotice {
    NoMatches,
    GeocoderUnreachable,
}

/// What the search box is to do.
pub enum SearchAction<R> {
    /// Nothing (a stale timer or reply).
    Nothing,
    /// Empty the dropdown; cancel the pending timer first when `cancel`.
    Clear { cancel: bool },
    /// Set a debounce timer of `delay_ms` for `generation`; cancel the
    /// pending timer first when `cancel`.
    Schedule { cancel: bool, generation: u64, delay_ms: u32 },
    /// Show the typed coordinate as the single result.
    ShowCoordinate,
    /// Ask the geocoder about `query`, stamping the reply `generation`.
    Geocode { query: String, generation: u64 },
    /// Show these results.
    ShowResults(Vec<R>),
    /// Show a notice row.
    ShowNotice(SearchNotice),
}

/// An event as the scheduling counters see it.
pub enum SearchInput {
    /// Typing; `blank` when the query is white space only.
    Typed { blank: bool },
    /// A debounce timer set for `generation` fired.
    Timer { generation: int },
    /// A geocoder reply stamped `generation` arrived.
    Answer { generation: int },
}

/// How an event looks to the scheduling counters.
pub open spec fn search_input<R, E>(e: SearchEvent<R, E>) -> SearchInput {
    match e {
        SearchEvent::InputChanged(q) => SearchInput::Typed { blank: trim(q@).len() == 0 },
        SearchEvent::TimerFired { generation, .. } => SearchInput::Timer {
            generation: generation as int,
        },
        SearchEvent::Reply { generation, .. } => SearchInput::Answer {
            generation: generation as int,
        },
    }
}

/// A pending timer's generation, if one is pending.
pub open spec fn timer_view(t: Option<u64>) -> Option<int> {
    match t {
        Some(g) => Some(g as int),
        None => None,
    }
}

/// The generation and pending timer after one event.
pub open spec fn counters_step(generation: int, timer: Option<int>, i: SearchInput) -> (
    int,
    Option<int>,
) {
    match i {
        SearchInput::Typed { blank } => if blank {
            (generation, None)
        } else {
            (generation + 1, Some(generation + 1))
        },
        SearchInput::Timer { generation: g } => if timer == Some(g) {
            (generation, None)
        } else {
            (generation, timer)
        },
        SearchInput::Answer { .. } => (generation, timer),
    }
}

/// The generation and pending timer after a run of events.
pub open spec fn counters_after(generation: int, timer: Option<int>, es: Seq<SearchInput>) -> (
    int,
    Option<int>,
)
    decreases es.len(),
{
    if es.len() == 0 {
        (generation, timer)
    } else {
        let (g1, t1) = counters_step(generation, timer, es[0]);
        counters_after(g1, t1, es.drop_first())
    }
}

/// Whether a run of events holds a non-blank query.
pub open spec fn types_query(es: Seq<SearchInput>) -> bool {
    exists|k: int| 0 <= k < es.len() && es[k] == (SearchInput::Typed { blank: false })
}

fn is_blank_query(q: &str) -> (b: bool)
    ensures
        b == (trim(q@).len() == 0),
{
    let cs = chars_of(q);
    let (lo, hi) = trim_bounds(cs.as_slice(), 0, cs.len());
    proof {
        assert(cs@.subrange(0, cs@.len() as int) =~= cs@);
    }
    lo == hi
}

/// One step of the search box: the state after `event` and what to do.
/// A blank query (white space only) clears the dropdown and leaves no
/// timer; any other input starts a new generation with one debounce
/// timer for it. A timer or a reply for anything but the latest
/// generation does nothing. A current reply shows its results, "no
/// matches" when there are none, or "geocoder unreachable" on an error.
pub fn search_step<R, E>(state: SearchState, event: SearchEvent<R, E>) -> (next: (
    SearchState,
    SearchAction<R>,
))
    requires
        event matches SearchEvent::InputChanged(q) && trim(q@).len() > 0 ==> state.generation
            < u64::MAX,
    ensures
        (next.0.generation as int, timer_view(next.0.pending_timer)) == counters_step(
            state.generation as int,
            timer_view(state.pending_timer),
            search_input(event),
        ),
        (match event {
            SearchEvent::InputChanged(q) => {
                &&& next.0.query@ == q@
                &&& if trim(q@).len() == 0 {
                    &&& next.0.generation == state.generation
                    &&& next.0.pending_timer is None
                    &&& next.1 matches SearchAction::Clear { cancel } && cancel
                        == state.pending_timer is Some
                } else {
                    &&& next.0.generation == state.generation + 1
                    &&& next.0.pending_timer == Some(next.0.generation)
                    &&& next.1 matches SearchAction::Schedule { cancel, generation, delay_ms }
                        && cancel == state.pending_timer is Some && generation
                        == next.0.generation && delay_ms == SEARCH_DEBOUNCE_MS
                }
            },
            SearchEvent::TimerFired { generation, coordinate } => {
                &&& next.0.query@ == state.query@
                &&& next.0.generation == state.generation
                &&& if state.pending_timer == Some(generation) {
                    &&& next.0.pending_timer is None
                    &&& if coordinate {
                        next.1 is ShowCoordinate
                    } else {
                        next.1 matches SearchAction::Geocode { query, generation: g } && query@
                            == state.query@ && g == generation
                    }
                } else {
                    &&& next.0.pending_timer == state.pending_timer
                    &&& next.1 is Nothing
                }
            },
            SearchEvent::Reply { generation, result } => {
                &&& next.0.query@ == state.query@
                &&& next.0.generation == state.generation
                &&& next.0.pending_timer == state.pending_timer
                &&& if generation != state.generation {
                    next.1 is Nothing
                } else {
                    match result {
                        Ok(v) => if v@.len() == 0 {
                            next.1 == SearchAction::<R>::ShowNotice(SearchNotice::NoMatches)
                        } else {
                            next.1 matches SearchAction::ShowResults(w) && w@ == v@
                        },
                        Err(_) => next.1 == SearchAction::<R>::ShowNotice(
                            SearchNotice::GeocoderUnreachable,
                        ),
                    }
                }
            },
        }),
{
    match event {
        SearchEvent::InputChanged(q) => {
            let cancel = state.pending_timer.is_some();
            if is_blank_query(q.as_str()) {
                (
                    SearchState { query: q, generation: state.generation, pending_timer: None },
                    SearchAction::Clear { cancel },
                )
            } else {
                let generation = state.generation + 1;
                (
                    SearchState { query: q, generation, pending_timer: Some(generation) },
                    SearchAction::Schedule { cancel, generation, delay_ms: SEARCH_DEBOUNCE_MS },
                )
            }
        },
        SearchEvent::TimerFired { generation, coordinate } => {
            let current = match state.pending_timer {
                Some(g) => g == generation,
                None => false,
            };
            if !current {
                return (state, SearchAction::Nothing);
            }
            if coordinate {
                (
                    SearchState {
                        query: state.query,
                        generation: state.generation,
                        pending_timer: None,
                    },
                    SearchAction::ShowCoordinate,
                )
            } else {
                let query = state.query.clone();
                (
                    SearchState {
                        query: state.query,
                        generation: state.generation,
                        pending_timer: None,
                    },
                    SearchAction::Geocode { query, generation },
                )
            }
        },
        SearchEvent::Reply { generation, result } => {
            if generation != state.generation {
                return (state, SearchAction::Nothing);
            }
            let action = match result {
                Ok(v) => {
                    if v.len() == 0 {
                        SearchAction::ShowNotice(SearchNotice::NoMatches)
                    } else {
                        SearchAction::ShowResults(v)
                    }
                },
                Err(_) => SearchAction::ShowNotice(SearchNotice::GeocoderUnreachable),
            };
            (state, action)
        },
    }
}


/// Over any run of events the generation never goes down, and at most
/// one timer is pending, the one for the latest generation; once a
/// non-blank query has been typed, every reply stamped with an earlier
/// generation is stale, so `search_step` shows nothing for it.
pub proof fn lemma_superseded_reply_never_shown(
    generation: int,
    timer: Option<int>,
    es: Seq<SearchInput>,
    stamped: int,
)
    requires
        timer is None || timer == Some(generation),
        stamped <= generation,
    ensures
        counters_after(generation, timer, es).0 >= generation,
        counters_after(generation, timer, es).1 is None || counters_after(generation, timer, es).1
            == Some(counters_after(generation, timer, es).0),
        types_query(es) ==> counters_after(generation, timer, es).0 > stamped,
    decreases es.len(),
{
    if es.len() > 0 {
        let (g1, t1) = counters_step(generation, timer, es[0]);
        lemma_superseded_reply_never_shown(g1, t1, es.drop_first(), stamped);
        if types_query(es) {
            let k = choose|k: int| 0 <= k < es.len() && es[k] == (SearchInput::Typed { blank: false });
            if k > 0 {
                assert(es.drop_first()[k - 1] == es[k]);
                assert(types_query(es.drop_first()));
            }
        }
    }
}


/// Whether every character of `t` is an ASCII digit.
pub open spec fn all_digits(t: Seq<char>) -> bool {
    forall|k: int| 0 <= k < t.len() ==> is_digit(#[trigger] t[k])
}

/// Whether `t` is a number `[0-9]+(\.[0-9]+)?`.
pub open spec fn is_number_text(t: Seq<char>) -> bool {
    ||| t.len() > 0 && all_digits(t)
    ||| exists|k: int|
        0 < k < t.len() - 1 && #[trigger] t[k] == '.' && all_digits(t.subrange(0, k)) && all_digits(
            t.subrange(k + 1, t.len() as int),
        )
}

proof fn lemma_digits_run(s: Seq<char>, p: int, q: int)
    requires
        0 <= p <= q <= s.len(),
        forall|k: int| p <= k < q ==> is_digit(#[trigger] s[k]),
        q == s.len() || !is_digit(s[q]),
    ensures
        digits_end(s, p) == q,
    decreases q - p,
{
    if p < q {
        lemma_digits_run(s, p + 1, q);
    }
}

proof fn lemma_number_at(s: Seq<char>, p: int, t: Seq<char>)
    requires
        0 <= p,
        p + t.len() < s.len(),
        s.subrange(p, p + t.len()) == t,
        is_number_text(t),
        !is_digit(s[p + t.len()]),
        s[p + t.len()] != '.',
    ensures
        digits_end(s, p) > p,
        num_max_end(s, p) == p + t.len(),
        num_end_ok(s, p, p + t.len()),
{
    let q = p + t.len();
    assert forall|k: int| 0 <= k < t.len() implies s[p + k] == t[k] by {
        assert(s.subrange(p, q)[k] == s[p + k]);
    }
    if t.len() > 0 && all_digits(t) {
        assert forall|k: int| p <= k < q implies is_digit(#[trigger] s[k]) by {
            assert(s[p + (k - p)] == t[k - p]);
        }
        lemma_digits_run(s, p, q);
    } else {
        let k = choose|k: int|
            0 < k < t.len() - 1 && #[trigger] t[k] == '.' && all_digits(t.subrange(0, k))
                && all_digits(t.subrange(k + 1, t.len() as int));
        assert forall|j: int| p <= j < p + k implies is_digit(#[trigger] s[j]) by {
            assert(s[p + (j - p)] == t[j - p]);
            assert(t.subrange(0, k)[j - p] == t[j - p]);
        }
        assert(s[p + k] == t[k]);
        lemma_digits_run(s, p, p + k);
        assert forall|j: int| p + k + 1 <= j < q implies is_digit(#[trigger] s[j]) by {
            assert(s[p + (j - p)] == t[j - p]);
            assert(t.subrange(k + 1, t.len() as int)[j - p - k - 1] == t[j - p]);
        }
        lemma_digits_run(s, p + k + 1, q);
    }
}

proof fn lemma_not_blank_at(s: Seq<char>, p: int)
    requires
        0 <= p < s.len(),
        !is_blank(s[p]),
    ensures
        blanks_end(s, p) == p,
{
}

/// The DMS tail after a degree figure ending at `e`: a degree sign, a
/// minutes figure `m` and its mark, then the hemisphere letter.
proof fn lemma_minutes_tail(s: Seq<char>, e: int, m: Seq<char>, north_south: bool)
    requires
        0 <= e,
        e + m.len() + 3 <= s.len(),
        s[e] == '°',
        s.subrange(e + 1, e + 1 + m.len()) == m,
        is_number_text(m),
        s[e + 1 + m.len()] == '\'',
        if north_south {
            is_ns(s[e + 2 + m.len()])
        } else {
            is_ew(s[e + 2 + m.len()])
        },
    ensures
        dms_tail(s, e, north_south) == Some(
            (Some((e + 1, e + 1 + m.len())), None::<(int, int)>, e + 2 + m.len()),
        ),
{
    let p1 = e + 1;
    let b = e + 1 + m.len();
    lemma_not_blank_at(s, e);
    assert(m[0] == s[p1]) by {
        assert(s.subrange(p1, b)[0] == s[p1]);
    }
    assert(is_digit(m[0])) by {
        if !(m.len() > 0 && all_digits(m)) {
            let k = choose|k: int|
                0 < k < m.len() - 1 && #[trigger] m[k] == '.' && all_digits(m.subrange(0, k))
                    && all_digits(m.subrange(k + 1, m.len() as int));
            assert(m.subrange(0, k)[0] == m[0]);
        }
    }
    lemma_not_blank_at(s, p1);
    assert(degree_mark_end(s, e) == p1);
    lemma_number_at(s, p1, m);
    lemma_not_blank_at(s, b);
    lemma_not_blank_at(s, b + 1);
    assert(quoted_figure(s, p1, '\'', '′') == Some(((p1, b), b + 1)));
    assert(digits_end(s, b + 1) == b + 1);
    assert(quoted_figure(s, b + 1, '"', '″') is None);
}

proof fn lemma_number_first_digit(t: Seq<char>)
    requires
        is_number_text(t),
    ensures
        t.len() > 0,
        is_digit(t[0]),
{
    if !(t.len() > 0 && all_digits(t)) {
        let k = choose|k: int|
            0 < k < t.len() - 1 && #[trigger] t[k] == '.' && all_digits(t.subrange(0, k))
                && all_digits(t.subrange(k + 1, t.len() as int));
        assert(t.subrange(0, k)[0] == t[0]);
    }
}

/// The longitude half `d2°m2'W` at `o`, running to the end of `s`.
proof fn lemma_dms_lon_half(s: Seq<char>, o: int, d2: Seq<char>, m2: Seq<char>)
    requires
        0 <= o,
        s.len() == o + d2.len() + m2.len() + 3,
        s.subrange(o, o + d2.len()) == d2,
        s.subrange(o + d2.len() + 1, o + d2.len() as int + 1 + m2.len()) == m2,
        is_number_text(d2),
        is_number_text(m2),
        s[o + d2.len()] == '°',
        s[o + d2.len() as int + 1 + m2.len()] == '\'',
        s[o + d2.len() + 2 + m2.len()] == 'W',
    ensures
        digits_end(s, o) > o,
        num_max_end(s, o) == o + d2.len(),
        dms_lon_search(s, o, o + d2.len()) == Some(
            DmsSpans {
                degrees: (o, o + d2.len()),
                minutes: Some((o + d2.len() + 1, o + d2.len() + 1 + m2.len())),
                seconds: None,
                hemisphere: o + d2.len() + 2 + m2.len(),
            },
        ),
{
    let c = o + d2.len();
    lemma_number_at(s, o, d2);
    lemma_minutes_tail(s, c, m2, false);
}

/// The latitude half `d1°m1'N` at the start of `s`, then a space and a
/// longitude half at `o`.
#[verifier::spinoff_prover]
#[verifier::rlimit(40)]
proof fn lemma_dms_layout(s: Seq<char>, d1: Seq<char>, m1: Seq<char>, d2: Seq<char>, m2: Seq<char>)
    requires
        s.len() == d1.len() as int + m1.len() + d2.len() + m2.len() + 7,
        s.subrange(0, d1.len() as int) == d1,
        s.subrange(d1.len() as int + 1, d1.len() as int + 1 + m1.len()) == m1,
        s.subrange(d1.len() as int + m1.len() + 4, d1.len() as int + m1.len() + 4 + d2.len()) == d2,
        s.subrange(
            d1.len() as int + m1.len() + 5 + d2.len(),
            d1.len() as int + m1.len() + 5 + d2.len() + m2.len(),
        ) == m2,
        is_number_text(d1),
        is_number_text(m1),
        is_number_text(d2),
        is_number_text(m2),
        s[d1.len() as int] == '°',
        s[d1.len() as int + 1 + m1.len()] == '\'',
        s[d1.len() as int + 2 + m1.len()] == 'N',
        s[d1.len() as int + 3 + m1.len()] == ' ',
        s[d1.len() as int + m1.len() + 4 + d2.len()] == '°',
        s[d1.len() as int + m1.len() + 5 + d2.len() + m2.len()] == '\'',
        s[d1.len() as int + m1.len() + 6 + d2.len() + m2.len()] == 'W',
    ensures
        ({
            let a = d1.len() as int;
            let b = a + 1 + m1.len();
            let o = b + 3;
            let c = o + d2.len();
            let f = c + 1 + m2.len();
            dms_spans(s) == Some(
                (
                    DmsSpans {
                        degrees: (0, a),
                        minutes: Some((a + 1, b)),
                        seconds: None,
                        hemisphere: b + 1,
                    },
                    DmsSpans {
                        degrees: (o, c),
                        minutes: Some((c + 1, f)),
                        seconds: None,
                        hemisphere: f + 1,
                    },
                ),
            )
        }),
{
    let a = d1.len() as int;
    let b = a + 1 + m1.len();
    let o = b + 3;
    let c = o + d2.len();
    let f = c + 1 + m2.len();
    lemma_number_at(s, 0, d1);
    lemma_minutes_tail(s, a, m1, true);
    lemma_number_first_digit(d2);
    assert(s.subrange(o, c)[0] == s[o]);
    assert(s[o] == d2[0]);
    lemma_not_blank_at(s, o);
    assert(blanks_end(s, b + 3) == o);
    assert(blanks_end(s, b + 2) == o);
    assert(separator_end(s, b + 2) == Some(o));
    lemma_dms_lon_half(s, o, d2, m2);
    let lon = DmsSpans { degrees: (o, c), minutes: Some((c + 1, f)), seconds: None, hemisphere: f + 1 };
    let lat = DmsSpans { degrees: (0, a), minutes: Some((a + 1, b)), seconds: None, hemisphere: b + 1 };
    assert(dms_after_lat(s, a) == Some((lat, lon)));
    assert(dms_search(s, a) == Some((lat, lon)));
}

/// A DMS minutes figure takes the same number syntax as the degrees:
/// for any numbers `d1`, `m1`, `d2`, `m2`, the text
/// `d1°m1'N d2°m2'W` reads as DMS with those degrees and minutes
/// exactly as typed, and no seconds.
#[verifier::spinoff_prover]
#[verifier::rlimit(80)]
pub proof fn lemma_dms_decimal_minutes(d1: Seq<char>, m1: Seq<char>, d2: Seq<char>, m2: Seq<char>)
    requires
        is_number_text(d1),
        is_number_text(m1),
        is_number_text(d2),
        is_number_text(m2),
    ensures
        ({
            let s = d1 + seq!['°'] + m1 + seq!['\'', 'N', ' '] + d2 + seq!['°'] + m2 + seq![
                '\'',
                'W',
            ];
            let a = d1.len() as int;
            let b = a + 1 + m1.len();
            let o = b + 3;
            let c = o + d2.len();
            let f = c + 1 + m2.len();
            &&& dms_spans(s) == Some(
                (
                    DmsSpans {
                        degrees: (0, a),
                        minutes: Some((a + 1, b)),
                        seconds: None,
                        hemisphere: b + 1,
                    },
                    DmsSpans {
                        degrees: (o, c),
                        minutes: Some((c + 1, f)),
                        seconds: None,
                        hemisphere: f + 1,
                    },
                ),
            )
            &&& s.subrange(0, a) == d1
            &&& s.subrange(a + 1, b) == m1
            &&& s.subrange(o, c) == d2
            &&& s.subrange(c + 1, f) == m2
        }),
{
    let s = d1 + seq!['°'] + m1 + seq!['\'', 'N', ' '] + d2 + seq!['°'] + m2 + seq!['\'', 'W'];
    let a = d1.len() as int;
    let b = a + 1 + m1.len();
    let o = b + 3;
    let c = o + d2.len();
    let f = c + 1 + m2.len();
    assert(s.subrange(0, a) =~= d1);
    assert(s.subrange(a + 1, b) =~= m1);
    assert(s.subrange(o, c) =~= d2);
    assert(s.subrange(c + 1, f) =~= m2);
    assert(s[a] == '°');
    assert(s[b] == '\'');
    assert(s[b + 1] == 'N');
    assert(s[b + 2] == ' ');
    assert(s[c] == '°');
    assert(s[f] == '\'');
    assert(s[f + 1] == 'W');
    lemma_dms_layout(s, d1, m1, d2, m2);
}

} // verus!
