//! Satellite catalog ingest: Two-Line Element (TLE) text as Celestrak
//! serves it, and the display categories satellites are grouped into.
//! Propagation of the parsed elements happens in the renderer.
use vstd::prelude::*;
use crate::text::{
    back_space, chars_of, contains_chars, contains_seq, is_white_space, push_chars, push_str, skip_space,
    starts_with, string_of, trim, trim_bounds, white_space,
};

verus! {

/// Coarse classification for satellites — drives the point colour and
/// the toggleable category pills.
#[derive(Copy, Clone, Debug, PartialEq, Eq, Hash, Structural)]
pub enum Category {
    /// Crewed + uncrewed stations. ISS, Tiangong, etc.
    Stations,
    /// Starlink LEO constellation.
    Starlink,
    /// GPS / GLONASS / Galileo / BeiDou navigation constellations.
    Gnss,
    /// Weather + Earth-observation polar orbiters.
    Weather,
    /// Tracked debris.
    Debris,
    /// Anything that doesn't fit a tagged category.
    Other,
}

/// The sRGB8 colour each category is drawn in.
pub open spec fn category_color(c: Category) -> [u8; 3] {
    match c {
        Category::Stations => [255, 244, 100],
        Category::Starlink => [120, 200, 255],
        Category::Gnss => [255, 160, 120],
        Category::Weather => [180, 240, 180],
        Category::Debris => [200, 200, 200],
        Category::Other => [220, 220, 220],
    }
}

impl Category {
    /// RGB display colour for points in this category (sRGB8).
    pub fn color_srgb8(self) -> (rgb: [u8; 3])
        ensures
            rgb == category_color(self),
    {
        match self {
            Category::Stations => [255, 244, 100],
            Category::Starlink => [120, 200, 255],
            Category::Gnss => [255, 160, 120],
            Category::Weather => [180, 240, 180],
            Category::Debris => [200, 200, 200],
            Category::Other => [220, 220, 220],
        }
    }
}

/// Raw TLE — the three lines as Celestrak serves them.
#[derive(Clone, Debug)]
pub struct Tle {
    pub name: String,
    pub line1: String,
    pub line2: String,
}

/// The text of a TLE record: name, line 1, line 2.
pub struct TleText {
    pub name: Seq<char>,
    pub line1: Seq<char>,
    pub line2: Seq<char>,
}

impl View for Tle {
    type V = TleText;

    open spec fn view(&self) -> TleText {
        TleText { name: self.name@, line1: self.line1@, line2: self.line2@ }
    }
}

/// The plain-text notice Celestrak sends instead of TLE data when a
/// group was fetched again too soon.
pub open spec fn rate_limit_notice() -> Seq<char> {
    "GP data has not updated"@
}

/// `s` split at every `\n` (a text ending in `\n` ends with an empty piece).
pub open spec fn newline_pieces(s: Seq<char>) -> Seq<Seq<char>>
    decreases s.len(),
{
    if s.len() == 0 {
        seq![Seq::<char>::empty()]
    } else {
        let p = newline_pieces(s.drop_last());
        if s.last() == '\n' {
            p.push(Seq::empty())
        } else {
            p.update(p.len() - 1, p.last().push(s.last()))
        }
    }
}

/// The pieces of `pieces`, trimmed, with the blank ones left out.
pub open spec fn nonblank(pieces: Seq<Seq<char>>) -> Seq<Seq<char>>
    decreases pieces.len(),
{
    if pieces.len() == 0 {
        Seq::empty()
    } else {
        let r = nonblank(pieces.drop_last());
        if trim(pieces.last()).len() > 0 {
            r.push(trim(pieces.last()))
        } else {
            r
        }
    }
}

/// The lines of a TLE text that carry anything: each line trimmed of
/// white space, blank lines dropped.
pub open spec fn tle_lines(text: Seq<char>) -> Seq<Seq<char>> {
    nonblank(newline_pieces(text))
}

/// End of the white-space-free run of `s` starting at `i`.
pub open spec fn word_end(s: Seq<char>, i: int) -> int
    decreases s.len() - i,
{
    if i < 0 || i >= s.len() {
        s.len() as int
    } else if is_white_space(s[i]) {
        i
    } else {
        word_end(s, i + 1)
    }
}

/// End of `s.subrange(0, hi)` once trailing `U`s are removed.
pub open spec fn u_end(s: Seq<char>, hi: int) -> int
    decreases hi,
{
    if hi <= 0 {
        0
    } else if s[hi - 1] == 'U' {
        u_end(s, hi - 1)
    } else {
        hi
    }
}

/// The synthetic name of a nameless TLE: `NORAD ` and the first word
/// after the line number of line 1, trailing `U` (classification)
/// letters removed; `0` when line 1 has no such word.
pub open spec fn norad_name(line1: Seq<char>) -> Seq<char> {
    let rest = line1.subrange(2, line1.len() as int);
    let a = skip_space(rest, 0);
    if a >= rest.len() {
        "NORAD 0"@
    } else {
        let w = rest.subrange(a, word_end(rest, a));
        "NORAD "@ + w.subrange(0, u_end(w, w.len() as int))
    }
}

/// The TLE records found in `lines` from index `i` on. A line starting
/// `1 ` followed by a line starting `2 ` is a nameless record; any other
/// line followed by a `1 ` line and a `2 ` line is a named one; lines
/// that start neither are skipped one at a time.
pub open spec fn tle_records(lines: Seq<Seq<char>>, i: int) -> Seq<(Seq<char>, Seq<char>, Seq<char>)>
    decreases lines.len() - i,
{
    if i < 0 || i >= lines.len() {
        Seq::empty()
    } else if starts_with(lines[i], "1 "@) {
        if i + 1 < lines.len() && starts_with(lines[i + 1], "2 "@) {
            seq![(norad_name(lines[i]), lines[i], lines[i + 1])] + tle_records(lines, i + 2)
        } else {
            tle_records(lines, i + 1)
        }
    } else if i + 2 < lines.len() && starts_with(lines[i + 1], "1 "@) && starts_with(
        lines[i + 2],
        "2 "@,
    ) {
        seq![(lines[i], lines[i + 1], lines[i + 2])] + tle_records(lines, i + 3)
    } else {
        tle_records(lines, i + 1)
    }
}

/// The records a TLE text holds; none at all when the text is
/// Celestrak's rate-limit notice.
pub open spec fn parse_tles_spec(text: Seq<char>) -> Seq<(Seq<char>, Seq<char>, Seq<char>)> {
    if contains_seq(text, rate_limit_notice()) {
        Seq::empty()
    } else {
        tle_records(tle_lines(text), 0)
    }
}

/// The line spans `spans` cut out of `cs`.
pub open spec fn span_text(cs: Seq<char>, spans: Seq<(usize, usize)>) -> Seq<Seq<char>> {
    Seq::new(spans.len(), |k: int| cs.subrange(spans[k].0 as int, spans[k].1 as int))
}

/// Trimmed, non-blank line spans of `cs`.
fn line_spans(cs: &Vec<char>) -> (spans: Vec<(usize, usize)>)
    ensures
        span_text(cs@, spans@) == tle_lines(cs@),
        forall|k: int| 0 <= k < spans@.len() ==> (#[trigger] spans@[k]).0 <= spans@[k].1 <= cs@.len(),
{
    let n = cs.len();
    let mut spans: Vec<(usize, usize)> = Vec::new();
    let mut ls: usize = 0;
    let mut i: usize = 0;
    let ghost mut done: Seq<Seq<char>> = Seq::empty();
    assert(cs@.subrange(0, 0) =~= Seq::<char>::empty());
    while i < n
        invariant
            n == cs@.len(),
            0 <= ls <= i <= n,
            newline_pieces(cs@.subrange(0, i as int)) == done.push(
                cs@.subrange(ls as int, i as int),
            ),
            span_text(cs@, spans@) == nonblank(done),
            forall|k: int| 0 <= k < spans@.len() ==> (#[trigger] spans@[k]).0 <= spans@[k].1 <= cs@.len(),
        decreases n - i,
    {
        let c = cs[i];
        proof {
            assert(cs@.subrange(0, i + 1).drop_last() =~= cs@.subrange(0, i as int));
            assert(cs@.subrange(0, i + 1).last() == c);
        }
        if c == '\n' {
            let (lo, hi) = trim_bounds(cs.as_slice(), ls, i);
            let ghost piece = cs@.subrange(ls as int, i as int);
            let ghost old_spans = spans@;
            if lo < hi {
                spans.push((lo, hi));
                assert(span_text(cs@, spans@) =~= span_text(cs@, old_spans).push(trim(piece)));
            }
            proof {
                assert(done.push(piece).drop_last() =~= done);
                done = done.push(piece);
                assert(cs@.subrange(i + 1, i + 1) =~= Seq::<char>::empty());
            }
            ls = i + 1;
        } else {
            proof {
                assert(cs@.subrange(ls as int, i + 1) =~= cs@.subrange(ls as int, i as int).push(c));
                assert(done.push(cs@.subrange(ls as int, i as int)).update(
                    done.len() as int,
                    cs@.subrange(ls as int, i + 1),
                ) =~= done.push(cs@.subrange(ls as int, i + 1)));
            }
        }
        i = i + 1;
    }
    let (lo, hi) = trim_bounds(cs.as_slice(), ls, n);
    let ghost piece = cs@.subrange(ls as int, n as int);
    let ghost old_spans = spans@;
    if lo < hi {
        spans.push((lo, hi));
        assert(span_text(cs@, spans@) =~= span_text(cs@, old_spans).push(trim(piece)));
    }
    proof {
        assert(cs@.subrange(0, n as int) =~= cs@);
        assert(done.push(piece).drop_last() =~= done);
    }
    spans
}

/// Whether the span `cs[lo..hi]` starts with `c` followed by a space.
fn span_starts(cs: &Vec<char>, lo: usize, hi: usize, c: char) -> (b: bool)
    requires
        lo <= hi <= cs@.len(),
    ensures
        b == starts_with(cs@.subrange(lo as int, hi as int), seq![c, ' ']),
{
    let r = hi - lo >= 2 && cs[lo] == c && cs[lo + 1] == ' ';
    proof {
        let s = cs@.subrange(lo as int, hi as int);
        if hi - lo >= 2 {
            assert(s.subrange(0, 2)[0] == cs@[lo as int]);
            assert(s.subrange(0, 2)[1] == cs@[lo + 1]);
            if r {
                assert(s.subrange(0, 2) =~= seq![c, ' ']);
            }
        }
    }
    r
}

/// The synthetic `NORAD <id>` name for the line-1 span `cs[lo..hi]`.
fn norad_label(cs: &Vec<char>, lo: usize, hi: usize) -> (name: String)
    requires
        lo + 2 <= hi <= cs@.len(),
    ensures
        name@ == norad_name(cs@.subrange(lo as int, hi as int)),
{
    let ghost line = cs@.subrange(lo as int, hi as int);
    let ghost rest = line.subrange(2, line.len() as int);
    assert(rest =~= cs@.subrange(lo + 2, hi as int));
    let start = lo + 2;
    let mut a = start;
    while a < hi && white_space(cs[a])
        invariant
            start <= a <= hi <= cs@.len(),
            rest == cs@.subrange(start as int, hi as int),
            skip_space(rest, (a - start) as int) == skip_space(rest, 0),
        decreases hi - a,
    {
        a = a + 1;
    }
    let mut name = String::new();
    if a >= hi {
        push_str(&mut name, "NORAD 0");
        return name;
    }
    let mut e = a;
    while e < hi && !white_space(cs[e])
        invariant
            start <= a <= e <= hi <= cs@.len(),
            rest == cs@.subrange(start as int, hi as int),
            word_end(rest, (e - start) as int) == word_end(rest, (a - start) as int),
        decreases hi - e,
    {
        e = e + 1;
    }
    let ghost w = rest.subrange((a - start) as int, (e - start) as int);
    assert(w =~= cs@.subrange(a as int, e as int));
    let mut u = e;
    while u > a && cs[u - 1] == 'U'
        invariant
            start <= a <= u <= e <= hi <= cs@.len(),
            w == cs@.subrange(a as int, e as int),
            u_end(w, (u - a) as int) == u_end(w, w.len() as int),
        decreases u - a,
    {
        u = u - 1;
    }
    push_str(&mut name, "NORAD ");
    push_chars(&mut name, cs.as_slice(), a, u);
    assert(w.subrange(0, (u - a) as int) =~= cs@.subrange(a as int, u as int));
    name
}

/// Parse Celestrak-format TLE text into raw `Tle` records. Accepts both
/// 3-line (name + 2 element lines) and 2-line (no name) blocks; missing
/// names get a synthetic `"NORAD <id>"` label. Celestrak's rate-limit
/// notice yields no records.
pub fn parse_tles(text: &str) -> (tles: Vec<Tle>)
    ensures
        tles@.len() == parse_tles_spec(text@).len(),
        forall|k: int|
            0 <= k < tles@.len() ==> {
                let r = #[trigger] parse_tles_spec(text@)[k];
                &&& tles@[k]@.name == r.0
                &&& tles@[k]@.line1 == r.1
                &&& tles@[k]@.line2 == r.2
            },
{
    let cs = chars_of(text);
    let notice = chars_of("GP data has not updated");
    let mut out: Vec<Tle> = Vec::new();
    if contains_chars(cs.as_slice(), notice.as_slice()) {
        return out;
    }
    let spans = line_spans(&cs);
    proof {
        reveal_strlit("1 ");
        reveal_strlit("2 ");
        assert("1 "@ =~= seq!['1', ' ']);
        assert("2 "@ =~= seq!['2', ' ']);
    }
    let ghost lines = tle_lines(cs@);
    let m = spans.len();
    let mut i: usize = 0;
    let ghost mut got: Seq<(Seq<char>, Seq<char>, Seq<char>)> = Seq::empty();
    assert(got + tle_records(lines, 0) =~= tle_records(lines, 0));
    while i < m
        invariant
            m == spans@.len(),
            "1 "@ == seq!['1', ' '],
            "2 "@ == seq!['2', ' '],
            lines == tle_lines(cs@),
            lines == span_text(cs@, spans@),
            forall|k: int| 0 <= k < spans@.len() ==> (#[trigger] spans@[k]).0 <= spans@[k].1 <= cs@.len(),
            0 <= i <= m,
            got + tle_records(lines, i as int) == tle_records(lines, 0),
            out@.len() == got.len(),
            forall|k: int|
                0 <= k < out@.len() ==> {
                    &&& (#[trigger] out@[k])@.name == got[k].0
                    &&& out@[k]@.line1 == got[k].1
                    &&& out@[k]@.line2 == got[k].2
                },
        decreases m - i,
    {
        let (lo, hi) = spans[i];
        let ghost i0 = i as int;
        assert(lines.len() == m);
        assert(lines[i as int] == cs@.subrange(lo as int, hi as int));
        proof {
            if i + 1 < m {
                assert(lines[i + 1] == cs@.subrange(spans@[i + 1].0 as int, spans@[i + 1].1 as int));
            }
            if i + 2 < m {
                assert(lines[i + 2] == cs@.subrange(spans@[i + 2].0 as int, spans@[i + 2].1 as int));
            }
        }
        if span_starts(&cs, lo, hi, '1') {
            if m - i > 1 && span_starts(&cs, spans[i + 1].0, spans[i + 1].1, '2') {
                let (lo2, hi2) = spans[i + 1];
                assert(lines[i + 1] == cs@.subrange(lo2 as int, hi2 as int));
                let name = norad_label(&cs, lo, hi);
                let tle = Tle {
                    name,
                    line1: string_of(cs.as_slice(), lo, hi),
                    line2: string_of(cs.as_slice(), lo2, hi2),
                };
                let ghost rec = (norad_name(lines[i as int]), lines[i as int], lines[i + 1]);
                out.push(tle);
                proof {
                    assert(got.push(rec) + tle_records(lines, i + 2) =~= got + (seq![rec]
                        + tle_records(lines, i + 2)));
                    got = got.push(rec);
                }
                i = i + 2;
            } else {
                assert(tle_records(lines, i0) == tle_records(lines, i0 + 1));
                i = i + 1;
            }
        } else if m - i > 2 && span_starts(&cs, spans[i + 1].0, spans[i + 1].1, '1')
            && span_starts(&cs, spans[i + 2].0, spans[i + 2].1, '2') {
            let (lo1, hi1) = spans[i + 1];
            let (lo2, hi2) = spans[i + 2];
            assert(lines[i + 1] == cs@.subrange(lo1 as int, hi1 as int));
            assert(lines[i + 2] == cs@.subrange(lo2 as int, hi2 as int));
            let tle = Tle {
                name: string_of(cs.as_slice(), lo, hi),
                line1: string_of(cs.as_slice(), lo1, hi1),
                line2: string_of(cs.as_slice(), lo2, hi2),
            };
            let ghost rec = (lines[i as int], lines[i + 1], lines[i + 2]);
            out.push(tle);
            proof {
                assert(got.push(rec) + tle_records(lines, i + 3) =~= got + (seq![rec]
                    + tle_records(lines, i + 3)));
                got = got.push(rec);
            }
            i = i + 3;
        } else {
            assert(tle_records(lines, i0) == tle_records(lines, i0 + 1));
            i = i + 1;
        }
    }
    assert(got + Seq::<(Seq<char>, Seq<char>, Seq<char>)>::empty() =~= got);
    out
}

/// A record whose name is non-empty and whose element lines carry
/// their line numbers.
pub open spec fn record_well_formed(r: (Seq<char>, Seq<char>, Seq<char>)) -> bool {
    &&& r.0.len() > 0
    &&& starts_with(r.1, "1 "@)
    &&& starts_with(r.2, "2 "@)
}

proof fn lemma_nonblank_nonempty(pieces: Seq<Seq<char>>)
    ensures
        forall|k: int| 0 <= k < nonblank(pieces).len() ==> (#[trigger] nonblank(pieces)[k]).len() > 0,
    decreases pieces.len(),
{
    if pieces.len() > 0 {
        lemma_nonblank_nonempty(pieces.drop_last());
        let r = nonblank(pieces.drop_last());
        if trim(pieces.last()).len() > 0 {
            assert forall|k: int| 0 <= k < r.push(trim(pieces.last())).len() implies (
            #[trigger] r.push(trim(pieces.last()))[k]).len() > 0 by {
                if k < r.len() {
                    assert(r.push(trim(pieces.last()))[k] == r[k]);
                }
            }
        }
    }
}

proof fn lemma_records_well_formed(lines: Seq<Seq<char>>, i: int)
    requires
        forall|k: int| 0 <= k < lines.len() ==> (#[trigger] lines[k]).len() > 0,
    ensures
        forall|k: int|
            0 <= k < tle_records(lines, i).len() ==> record_well_formed(
                #[trigger] tle_records(lines, i)[k],
            ),
    decreases lines.len() - i,
{
    reveal_strlit("NORAD ");
    reveal_strlit("NORAD 0");
    if 0 <= i < lines.len() {
        if starts_with(lines[i], "1 "@) {
            if i + 1 < lines.len() && starts_with(lines[i + 1], "2 "@) {
                lemma_records_well_formed(lines, i + 2);
                let head = (norad_name(lines[i]), lines[i], lines[i + 1]);
                let rest = tle_records(lines, i + 2);
                assert(tle_records(lines, i) == seq![head] + rest);
                assert(norad_name(lines[i]).len() > 0);
                assert(record_well_formed(head));
                assert forall|k: int| 0 <= k < (seq![head] + rest).len() implies record_well_formed(
                    #[trigger] (seq![head] + rest)[k],
                ) by {
                    if k > 0 {
                        assert((seq![head] + rest)[k] == rest[k - 1]);
                    }
                }
            } else {
                lemma_records_well_formed(lines, i + 1);
                assert(tle_records(lines, i) == tle_records(lines, i + 1));
            }
        } else if i + 2 < lines.len() && starts_with(lines[i + 1], "1 "@) && starts_with(
            lines[i + 2],
            "2 "@,
        ) {
            lemma_records_well_formed(lines, i + 3);
            let head = (lines[i], lines[i + 1], lines[i + 2]);
            let rest = tle_records(lines, i + 3);
            assert(tle_records(lines, i) == seq![head] + rest);
            assert(lines[i].len() > 0);
            assert(record_well_formed(head));
            assert forall|k: int| 0 <= k < (seq![head] + rest).len() implies record_well_formed(
                #[trigger] (seq![head] + rest)[k],
            ) by {
                if k > 0 {
                    assert((seq![head] + rest)[k] == rest[k - 1]);
                }
            }
        } else {
            lemma_records_well_formed(lines, i + 1);
            assert(tle_records(lines, i) == tle_records(lines, i + 1));
        }
    }
}

/// Every record parsed from a TLE text has a non-empty name (a nameless
/// block gets a `NORAD` label), a first element line starting `1 ` and
/// a second starting `2 `.
pub proof fn lemma_parsed_records_well_formed(text: Seq<char>)
    ensures
        forall|k: int|
            0 <= k < parse_tles_spec(text).len() ==> record_well_formed(
                #[trigger] parse_tles_spec(text)[k],
            ),
{
    lemma_nonblank_nonempty(newline_pieces(text));
    lemma_records_well_formed(tle_lines(text), 0);
}


proof fn lemma_pieces_nonempty(s: Seq<char>)
    ensures
        newline_pieces(s).len() >= 1,
    decreases s.len(),
{
    if s.len() > 0 {
        lemma_pieces_nonempty(s.drop_last());
    }
}

proof fn lemma_pieces_single(w: Seq<char>)
    requires
        forall|k: int| 0 <= k < w.len() ==> w[k] != '\n',
    ensures
        newline_pieces(w) == seq![w],
    decreases w.len(),
{
    if w.len() == 0 {
        assert(w =~= Seq::<char>::empty());
    } else {
        lemma_pieces_single(w.drop_last());
        assert(w.drop_last().push(w.last()) =~= w);
        assert(seq![w.drop_last()].update(0, w.drop_last().push(w.last())) =~= seq![w]);
    }
}

/// Splitting a concatenation at newlines: the last piece of `a` and the
/// first piece of `b` join into one.
proof fn lemma_pieces_concat(a: Seq<char>, b: Seq<char>)
    ensures
        newline_pieces(a + b) == newline_pieces(a).drop_last() + seq![
            newline_pieces(a).last() + newline_pieces(b)[0],
        ] + newline_pieces(b).drop_first(),
    decreases b.len(),
{
    lemma_pieces_nonempty(a);
    lemma_pieces_nonempty(b);
    let pa = newline_pieces(a);
    let d = pa.drop_last();
    let l = pa.last();
    if b.len() == 0 {
        assert(a + b =~= a);
        assert(newline_pieces(b) == seq![Seq::<char>::empty()]);
        assert(l + Seq::<char>::empty() =~= l);
        assert(d + seq![l] + newline_pieces(b).drop_first() =~= pa);
    } else {
        let b1 = b.drop_last();
        let c = b.last();
        lemma_pieces_concat(a, b1);
        lemma_pieces_nonempty(b1);
        assert((a + b).drop_last() =~= a + b1);
        assert((a + b).last() == c);
        let x = newline_pieces(a + b1);
        let y = newline_pieces(b1);
        assert(x =~= d + seq![l + y[0]] + y.drop_first());
        if c == '\n' {
            assert(newline_pieces(a + b) == x.push(Seq::<char>::empty()));
            assert(newline_pieces(b) == y.push(Seq::<char>::empty()));
            assert(newline_pieces(b)[0] == y[0]);
            assert(newline_pieces(b).drop_first() =~= y.drop_first().push(Seq::<char>::empty()));
            assert(newline_pieces(a + b) =~= d + seq![l + newline_pieces(b)[0]] + newline_pieces(
                b,
            ).drop_first());
        } else {
            assert(newline_pieces(a + b) == x.update(x.len() - 1, x.last().push(c)));
            assert(newline_pieces(b) == y.update(y.len() - 1, y.last().push(c)));
            if y.len() == 1 {
                assert((l + y[0]).push(c) =~= l + y[0].push(c));
                assert(newline_pieces(b)[0] == y[0].push(c));
                assert(newline_pieces(b).drop_first() =~= Seq::<Seq<char>>::empty());
                assert(newline_pieces(a + b) =~= d + seq![l + newline_pieces(b)[0]]
                    + newline_pieces(b).drop_first());
            } else {
                assert(newline_pieces(b)[0] == y[0]);
                assert(newline_pieces(b).drop_first() =~= y.drop_first().update(
                    y.len() - 2,
                    y.last().push(c),
                ));
                assert(x.last() == y.last());
                assert(newline_pieces(a + b) =~= d + seq![l + newline_pieces(b)[0]]
                    + newline_pieces(b).drop_first());
            }
        }
    }
}

proof fn lemma_nonblank_concat(x: Seq<Seq<char>>, y: Seq<Seq<char>>)
    ensures
        nonblank(x + y) == nonblank(x) + nonblank(y),
    decreases y.len(),
{
    if y.len() == 0 {
        assert(x + y =~= x);
        assert(nonblank(x) + Seq::<Seq<char>>::empty() =~= nonblank(x));
    } else {
        lemma_nonblank_concat(x, y.drop_last());
        assert((x + y).drop_last() =~= x + y.drop_last());
        assert((x + y).last() == y.last());
        if trim(y.last()).len() > 0 {
            assert(nonblank(x) + nonblank(y.drop_last()).push(trim(y.last())) =~= (nonblank(x)
                + nonblank(y.drop_last())).push(trim(y.last())));
        }
    }
}

/// A blank line (white space only) inserted between two lines, or
/// before the first, leaves the lines a TLE text carries unchanged.
proof fn lemma_blank_line_lines(a: Seq<char>, w: Seq<char>, b: Seq<char>)
    requires
        a.len() == 0 || a.last() == '\n',
        forall|k: int| 0 <= k < w.len() ==> w[k] != '\n',
        trim(w).len() == 0,
    ensures
        tle_lines(a + (w + seq!['\n']) + b) == tle_lines(a + b),
{
    let m = w + seq!['\n'];
    lemma_pieces_nonempty(a);
    lemma_pieces_nonempty(b);
    lemma_pieces_single(w);
    assert(m.drop_last() =~= w);
    assert(newline_pieces(m) == seq![w].push(Seq::<char>::empty()));
    lemma_pieces_concat(m, b);
    let pm = newline_pieces(m + b);
    assert(Seq::<char>::empty() + newline_pieces(b)[0] =~= newline_pieces(b)[0]);
    assert(pm =~= seq![w] + newline_pieces(b));
    let pa = newline_pieces(a);
    if a.len() == 0 {
        assert(pa == seq![Seq::<char>::empty()]);
    } else {
        assert(pa == newline_pieces(a.drop_last()).push(Seq::<char>::empty()));
    }
    assert(pa.last() == Seq::<char>::empty());
    lemma_pieces_concat(a, m + b);
    lemma_pieces_concat(a, b);
    assert(a + m + b =~= a + (m + b));
    let d = pa.drop_last();
    assert(Seq::<char>::empty() + w =~= w);
    assert(newline_pieces(a + m + b) =~= d + seq![w] + newline_pieces(b));
    assert(newline_pieces(a + b) =~= d + newline_pieces(b));
    lemma_nonblank_concat(d + seq![w], newline_pieces(b));
    lemma_nonblank_concat(d, seq![w]);
    lemma_nonblank_concat(d, newline_pieces(b));
    assert(seq![w].drop_last() =~= Seq::<Seq<char>>::empty());
    assert(seq![w].last() == w);
    assert(nonblank(seq![w].drop_last()) == Seq::<Seq<char>>::empty());
    assert(nonblank(seq![w]) == Seq::<Seq<char>>::empty());
    assert(nonblank(d) + Seq::<Seq<char>>::empty() =~= nonblank(d));
}


proof fn lemma_blank_trims_empty(w: Seq<char>)
    requires
        forall|k: int| 0 <= k < w.len() ==> is_white_space(w[k]),
    ensures
        trim(w).len() == 0,
{
    assert forall|i: int| 0 <= i <= w.len() implies skip_space(w, i) == w.len() by {
        lemma_skip_all_space(w, i);
    }
    assert(back_space(w, w.len() as int, w.len() as int) == w.len());
}

proof fn lemma_skip_all_space(w: Seq<char>, i: int)
    requires
        0 <= i <= w.len(),
        forall|k: int| 0 <= k < w.len() ==> is_white_space(w[k]),
    ensures
        skip_space(w, i) == w.len(),
    decreases w.len() - i,
{
    if i < w.len() {
        lemma_skip_all_space(w, i + 1);
    }
}

/// Inserting a blank line neither creates nor hides an occurrence of a
/// pattern that holds no newline and starts with a non-blank character.
proof fn lemma_blank_line_contains(a: Seq<char>, w: Seq<char>, b: Seq<char>, p: Seq<char>)
    requires
        a.len() == 0 || a.last() == '\n',
        forall|k: int| 0 <= k < w.len() ==> w[k] != '\n' && is_white_space(w[k]),
        p.len() > 0,
        !is_white_space(p[0]),
        forall|k: int| 0 <= k < p.len() ==> p[k] != '\n',
    ensures
        contains_seq(a + (w + seq!['\n']) + b, p) == contains_seq(a + b, p),
{
    let m = w + seq!['\n'];
    let t2 = a + m + b;
    let t = a + b;
    let n = p.len() as int;
    let la = a.len() as int;
    let lm = m.len() as int;
    if contains_seq(t2, p) {
        let i = choose|i: int| 0 <= i && i + n <= t2.len() && #[trigger] t2.subrange(i, i + n) == p;
        if i + n <= la {
            assert(t.subrange(i, i + n) =~= t2.subrange(i, i + n));
        } else if i >= la + lm {
            assert(t.subrange(i - lm, i - lm + n) =~= t2.subrange(i, i + n));
        } else if i < la {
            assert(t2.subrange(i, i + n)[la - 1 - i] == t2[la - 1]);
            assert(t2[la - 1] == a.last());
            assert(false);
        } else {
            assert(t2.subrange(i, i + n)[0] == t2[i]);
            assert(t2[i] == m[i - la]);
            if i - la < w.len() {
                assert(m[i - la] == w[i - la]);
            }
            assert(false);
        }
    }
    if contains_seq(t, p) {
        let i = choose|i: int| 0 <= i && i + n <= t.len() && #[trigger] t.subrange(i, i + n) == p;
        if i + n <= la {
            assert(t2.subrange(i, i + n) =~= t.subrange(i, i + n));
        } else if i >= la {
            assert(t2.subrange(i + lm, i + lm + n) =~= t.subrange(i, i + n));
        } else {
            assert(t.subrange(i, i + n)[la - 1 - i] == t[la - 1]);
            assert(t[la - 1] == a.last());
            assert(false);
        }
    }
}

proof fn lemma_notice_shape()
    ensures
        rate_limit_notice().len() > 0,
        !is_white_space(rate_limit_notice()[0]),
        !is_white_space(rate_limit_notice()[rate_limit_notice().len() - 1]),
        forall|k: int| 0 <= k < rate_limit_notice().len() ==> rate_limit_notice()[k] != '\n',
{
    reveal_strlit("GP data has not updated");
}

/// Blank lines are ignored: inserting a line of white space between two
/// lines of a TLE text, or before its first line, changes none of the
/// records it yields.
pub proof fn lemma_blank_line_ignored(a: Seq<char>, w: Seq<char>, b: Seq<char>)
    requires
        a.len() == 0 || a.last() == '\n',
        forall|k: int| 0 <= k < w.len() ==> w[k] != '\n' && is_white_space(w[k]),
    ensures
        parse_tles_spec(a + (w + seq!['\n']) + b) == parse_tles_spec(a + b),
{
    lemma_blank_trims_empty(w);
    lemma_blank_line_lines(a, w, b);
    lemma_notice_shape();
    lemma_blank_line_contains(a, w, b, rate_limit_notice());
}


proof fn lemma_skip_space_blank(s: Seq<char>, i: int)
    requires
        0 <= i <= s.len(),
    ensures
        i <= skip_space(s, i) <= s.len(),
        forall|k: int| i <= k < skip_space(s, i) ==> is_white_space(s[k]),
    decreases s.len() - i,
{
    if i < s.len() && is_white_space(s[i]) {
        lemma_skip_space_blank(s, i + 1);
    }
}

proof fn lemma_back_space_blank(s: Seq<char>, lo: int, hi: int)
    requires
        lo <= hi,
    ensures
        lo <= back_space(s, lo, hi) <= hi,
        forall|k: int| back_space(s, lo, hi) <= k < hi ==> is_white_space(s[k]),
    decreases hi - lo,
{
    if hi > lo && is_white_space(s[hi - 1]) {
        lemma_back_space_blank(s, lo, hi - 1);
    }
}

proof fn lemma_first_piece_empty(b: Seq<char>)
    requires
        b.len() == 0 || b[0] == '\n',
    ensures
        newline_pieces(b)[0] == Seq::<char>::empty(),
{
    if b.len() > 0 {
        let nl = seq!['\n'];
        assert(nl.drop_last() =~= Seq::<char>::empty());
        assert(nl.last() == '\n');
        assert(newline_pieces(Seq::<char>::empty()) == seq![Seq::<char>::empty()]);
        assert(newline_pieces(nl) == seq![Seq::<char>::empty()].push(Seq::<char>::empty()));
        lemma_pieces_concat(nl, b.drop_first());
        assert(nl + b.drop_first() =~= b);
    }
}

/// The pieces of a text whose middle line is `v`.
proof fn lemma_middle_line_pieces(a: Seq<char>, v: Seq<char>, b: Seq<char>)
    requires
        a.len() == 0 || a.last() == '\n',
        b.len() == 0 || b[0] == '\n',
        forall|k: int| 0 <= k < v.len() ==> v[k] != '\n',
    ensures
        newline_pieces(a + v + b) == newline_pieces(a).drop_last() + seq![v] + newline_pieces(
            b,
        ).drop_first(),
{
    lemma_pieces_nonempty(a);
    lemma_pieces_nonempty(b);
    lemma_pieces_single(v);
    lemma_first_piece_empty(b);
    lemma_pieces_concat(v, b);
    assert(seq![v].drop_last() =~= Seq::<Seq<char>>::empty());
    assert(v + Seq::<char>::empty() =~= v);
    assert(newline_pieces(v + b) =~= seq![v] + newline_pieces(b).drop_first());
    let pa = newline_pieces(a);
    if a.len() == 0 {
        assert(pa == seq![Seq::<char>::empty()]);
    } else {
        assert(pa == newline_pieces(a.drop_last()).push(Seq::<char>::empty()));
    }
    lemma_pieces_concat(a, v + b);
    assert(a + v + b =~= a + (v + b));
    assert(Seq::<char>::empty() + v =~= v);
    assert(newline_pieces(a + v + b) =~= pa.drop_last() + seq![v] + newline_pieces(b).drop_first());
}

proof fn lemma_line_swap_contains(
    a: Seq<char>,
    v: Seq<char>,
    v2: Seq<char>,
    b: Seq<char>,
    p: Seq<char>,
)
    requires
        a.len() == 0 || a.last() == '\n',
        b.len() == 0 || b[0] == '\n',
        forall|k: int| 0 <= k < v2.len() ==> v2[k] != '\n',
        trim(v) == trim(v2),
        p.len() > 0,
        !is_white_space(p[0]),
        !is_white_space(p[p.len() - 1]),
        forall|k: int| 0 <= k < p.len() ==> p[k] != '\n',
        contains_seq(a + v2 + b, p),
    ensures
        contains_seq(a + v + b, p),
{
    let t2 = a + v2 + b;
    let t = a + v + b;
    let n = p.len() as int;
    let la = a.len() as int;
    let i = choose|i: int| 0 <= i && i + n <= t2.len() && #[trigger] t2.subrange(i, i + n) == p;
    if i + n <= la {
        assert(t.subrange(i, i + n) =~= t2.subrange(i, i + n));
    } else if i >= la + v2.len() {
        let j = i - v2.len() + v.len();
        assert(t.subrange(j, j + n) =~= t2.subrange(i, i + n));
    } else if i < la {
        assert(t2.subrange(i, i + n)[la - 1 - i] == t2[la - 1]);
        assert(false);
    } else if i + n > la + v2.len() {
        assert(t2.subrange(i, i + n)[la + v2.len() - i] == t2[la + v2.len()]);
        assert(t2[la + v2.len()] == b[0]);
        assert(false);
    } else {
        let j = i - la;
        assert(v2.subrange(j, j + n) =~= t2.subrange(i, i + n));
        let start = lemma_window_in_trimmed_line(v, v2, j, p);
        assert(t.subrange(la + start, la + start + n) =~= v.subrange(start, start + n));
    }
}

proof fn lemma_window_in_trimmed_line(v: Seq<char>, v2: Seq<char>, j: int, p: Seq<char>) -> (start:
    int)
    requires
        trim(v) == trim(v2),
        p.len() > 0,
        !is_white_space(p[0]),
        !is_white_space(p[p.len() - 1]),
        0 <= j,
        j + p.len() <= v2.len(),
        v2.subrange(j, j + p.len()) == p,
    ensures
        0 <= start,
        start + p.len() <= v.len(),
        v.subrange(start, start + p.len()) == p,
{
    let n = p.len() as int;
    let lo2 = skip_space(v2, 0);
    let hi2 = back_space(v2, lo2, v2.len() as int);
    lemma_skip_space_blank(v2, 0);
    lemma_back_space_blank(v2, lo2, v2.len() as int);
    let lo = skip_space(v, 0);
    let hi = back_space(v, lo, v.len() as int);
    lemma_skip_space_blank(v, 0);
    lemma_back_space_blank(v, lo, v.len() as int);
    assert(v2.subrange(j, j + n)[0] == v2[j]);
    assert(v2.subrange(j, j + n)[n - 1] == v2[j + n - 1]);
    assert(j >= lo2);
    assert(j + n <= hi2);
    assert(trim(v2).len() == hi2 - lo2);
    assert(trim(v).len() == hi - lo);
    let k = j - lo2;
    let start = lo + k;
    assert forall|m: int| 0 <= m < n implies v.subrange(start, start + n)[m] == p[m] by {
        assert(v2.subrange(j, j + n)[m] == v2[j + m]);
        assert(trim(v2)[k + m] == v2[j + m]);
        assert(trim(v)[k + m] == v[lo + k + m]);
    }
    assert(v.subrange(start, start + n) =~= p);
    start
}

/// Lines are read trimmed: replacing a line of a TLE text by another
/// with the same text between its leading and trailing white space
/// (such as the same line with spaces or tabs added around it) changes
/// none of the records the text yields.
pub proof fn lemma_line_padding_ignored(a: Seq<char>, v: Seq<char>, v2: Seq<char>, b: Seq<char>)
    requires
        a.len() == 0 || a.last() == '\n',
        b.len() == 0 || b[0] == '\n',
        forall|k: int| 0 <= k < v.len() ==> v[k] != '\n',
        forall|k: int| 0 <= k < v2.len() ==> v2[k] != '\n',
        trim(v) == trim(v2),
    ensures
        parse_tles_spec(a + v2 + b) == parse_tles_spec(a + v + b),
{
    lemma_middle_line_pieces(a, v, b);
    lemma_middle_line_pieces(a, v2, b);
    let d = newline_pieces(a).drop_last();
    let r = newline_pieces(b).drop_first();
    lemma_nonblank_concat(d + seq![v], r);
    lemma_nonblank_concat(d, seq![v]);
    lemma_nonblank_concat(d + seq![v2], r);
    lemma_nonblank_concat(d, seq![v2]);
    assert(seq![v].drop_last() =~= Seq::<Seq<char>>::empty());
    assert(seq![v2].drop_last() =~= Seq::<Seq<char>>::empty());
    assert(seq![v].last() == v && seq![v2].last() == v2);
    assert(nonblank(seq![v]) == nonblank(seq![v2]));
    assert(tle_lines(a + v2 + b) == tle_lines(a + v + b));
    lemma_notice_shape();
    if contains_seq(a + v2 + b, rate_limit_notice()) {
        lemma_line_swap_contains(a, v, v2, b, rate_limit_notice());
    }
    if contains_seq(a + v + b, rate_limit_notice()) {
        lemma_line_swap_contains(a, v2, v, b, rate_limit_notice());
    }
}


/// Whether `t2` is `t` with the blank line `w` inserted after `a`.
pub open spec fn blank_line_inserted(
    t: Seq<char>,
    t2: Seq<char>,
    a: Seq<char>,
    w: Seq<char>,
    b: Seq<char>,
) -> bool {
    &&& a.len() == 0 || a.last() == '\n'
    &&& forall|k: int| 0 <= k < w.len() ==> w[k] != '\n' && is_white_space(w[k])
    &&& t == a + b
    &&& t2 == a + (w + seq!['\n']) + b
}

/// Whether `t2` is `t` with the line `v` after `a` replaced by `v2`,
/// which has the same text between leading and trailing white space.
pub open spec fn line_repadded(
    t: Seq<char>,
    t2: Seq<char>,
    a: Seq<char>,
    v: Seq<char>,
    v2: Seq<char>,
    b: Seq<char>,
) -> bool {
    &&& a.len() == 0 || a.last() == '\n'
    &&& b.len() == 0 || b[0] == '\n'
    &&& forall|k: int| 0 <= k < v.len() ==> v[k] != '\n'
    &&& forall|k: int| 0 <= k < v2.len() ==> v2[k] != '\n'
    &&& trim(v) == trim(v2)
    &&& t == a + v + b
    &&& t2 == a + v2 + b
}

/// Whether `t2` comes from `t` by one layout edit: inserting a blank
/// line, or changing the white space around a line.
pub open spec fn layout_edit(t: Seq<char>, t2: Seq<char>) -> bool {
    ||| exists|a: Seq<char>, w: Seq<char>, b: Seq<char>| #[trigger]
        blank_line_inserted(t, t2, a, w, b)
    ||| exists|a: Seq<char>, v: Seq<char>, v2: Seq<char>, b: Seq<char>| #[trigger]
        line_repadded(t, t2, a, v, v2, b)
}

/// Layout is ignored: a TLE text reached from another by any number of
/// inserted blank lines and changes of white space around lines yields
/// the same records.
pub proof fn lemma_layout_edits_ignored(texts: Seq<Seq<char>>)
    requires
        texts.len() > 0,
        forall|i: int| 0 <= i < texts.len() - 1 ==> layout_edit(#[trigger] texts[i], texts[i + 1]),
    ensures
        parse_tles_spec(texts.last()) == parse_tles_spec(texts[0]),
    decreases texts.len(),
{
    if texts.len() > 1 {
        let front = texts.drop_last();
        assert forall|i: int| 0 <= i < front.len() - 1 implies layout_edit(
            #[trigger] front[i],
            front[i + 1],
        ) by {
            assert(front[i] == texts[i] && front[i + 1] == texts[i + 1]);
        }
        lemma_layout_edits_ignored(front);
        let n = texts.len() - 1;
        let t = texts[n - 1];
        let t2 = texts[n];
        assert(layout_edit(texts[n - 1], texts[n - 1 + 1]));
        if exists|a: Seq<char>, w: Seq<char>, b: Seq<char>| #[trigger]
            blank_line_inserted(t, t2, a, w, b) {
            let (a, w, b) = choose|a: Seq<char>, w: Seq<char>, b: Seq<char>| #[trigger]
                blank_line_inserted(t, t2, a, w, b);
            lemma_blank_line_ignored(a, w, b);
        } else {
            let (a, v, v2, b) = choose|a: Seq<char>, v: Seq<char>, v2: Seq<char>, b: Seq<char>|
                #[trigger] line_repadded(t, t2, a, v, v2, b);
            lemma_line_padding_ignored(a, v, v2, b);
        }
    }
}


proof fn lemma_three_pieces(n: Seq<char>, l1: Seq<char>, l2: Seq<char>)
    requires
        forall|k: int| 0 <= k < n.len() ==> n[k] != '\n',
        forall|k: int| 0 <= k < l1.len() ==> l1[k] != '\n',
        forall|k: int| 0 <= k < l2.len() ==> l2[k] != '\n',
    ensures
        newline_pieces(n + seq!['\n'] + l1 + seq!['\n'] + l2) == seq![n, l1, l2],
{
    let nl = seq!['\n'];
    lemma_pieces_single(n);
    lemma_pieces_single(l1);
    lemma_pieces_single(l2);
    assert((n + nl).drop_last() =~= n);
    assert(newline_pieces(n + nl) == seq![n].push(Seq::<char>::empty()));
    assert((l1 + nl).drop_last() =~= l1);
    assert(newline_pieces(l1 + nl) == seq![l1].push(Seq::<char>::empty()));
    lemma_pieces_nonempty(l2);
    lemma_pieces_concat(l1 + nl, l2);
    assert(Seq::<char>::empty() + l2 =~= l2);
    assert(newline_pieces(l1 + nl + l2) =~= seq![l1, l2]);
    lemma_pieces_concat(n + nl, l1 + nl + l2);
    assert(Seq::<char>::empty() + l1 =~= l1);
    assert(n + nl + l1 + nl + l2 =~= (n + nl) + (l1 + nl + l2));
    assert(newline_pieces(n + nl + l1 + nl + l2) =~= seq![n, l1, l2]);
}

/// In a three-line block the record's name is the whole name line,
/// trimmed: a non-blank line `n` that does not start `1 `, followed by
/// a line starting `1 ` and one starting `2 `, yields one record named
/// `trim(n)` (unless the text is the rate-limit notice).
pub proof fn lemma_named_block(n: Seq<char>, l1: Seq<char>, l2: Seq<char>)
    requires
        forall|k: int| 0 <= k < n.len() ==> n[k] != '\n',
        forall|k: int| 0 <= k < l1.len() ==> l1[k] != '\n',
        forall|k: int| 0 <= k < l2.len() ==> l2[k] != '\n',
        trim(n).len() > 0,
        !starts_with(trim(n), "1 "@),
        starts_with(trim(l1), "1 "@),
        starts_with(trim(l2), "2 "@),
        !contains_seq(n + seq!['\n'] + l1 + seq!['\n'] + l2, rate_limit_notice()),
    ensures
        parse_tles_spec(n + seq!['\n'] + l1 + seq!['\n'] + l2) == seq![(trim(n), trim(l1), trim(l2))],
{
    let text = n + seq!['\n'] + l1 + seq!['\n'] + l2;
    lemma_three_pieces(n, l1, l2);
    let ps = seq![n, l1, l2];
    reveal_strlit("1 ");
    reveal_strlit("2 ");
    assert(trim(l1).len() > 0);
    assert(trim(l2).len() > 0);
    assert(ps.drop_last() =~= seq![n, l1]);
    assert(seq![n, l1].drop_last() =~= seq![n]);
    assert(seq![n].drop_last() =~= Seq::<Seq<char>>::empty());
    assert(seq![n].last() == n);
    assert(nonblank(Seq::<Seq<char>>::empty()) == Seq::<Seq<char>>::empty());
    assert(nonblank(seq![n]) == Seq::<Seq<char>>::empty().push(trim(n)));
    assert(nonblank(seq![n]) =~= seq![trim(n)]);
    assert(seq![n, l1].last() == l1);
    assert(ps.last() == l2);
    assert(nonblank(seq![n, l1]) =~= seq![trim(n), trim(l1)]);
    assert(nonblank(ps) =~= seq![trim(n), trim(l1), trim(l2)]);
    let lines = seq![trim(n), trim(l1), trim(l2)];
    assert(tle_lines(text) == lines);
    assert(tle_records(lines, 3) == Seq::<(Seq<char>, Seq<char>, Seq<char>)>::empty());
    assert(tle_records(lines, 0) =~= seq![(trim(n), trim(l1), trim(l2))]);
}

} // verus!
