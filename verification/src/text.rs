//! Character-level text helpers shared by the URL builders and the TLE
//! parser: collecting a string's characters, building strings one
//! character at a time, decimal formatting, whitespace trimming.
use vstd::prelude::*;
use vstd::std_specs::iter::IteratorSpec;
use vstd::string::*;

verus! {

broadcast use vstd::string::group_string_axioms;

/// `String::push` appends one character.
pub assume_specification[ String::push ](s: &mut String, ch: char)
    ensures
        final(s)@ == old(s)@.push(ch),
;

/// The characters of `s`, in order.
pub fn chars_of(s: &str) -> (v: Vec<char>)
    ensures
        v@ == s@,
{
    let mut it = s.chars();
    let mut v: Vec<char> = Vec::new();
    loop
        invariant
            v@ + it.remaining() == s@,
            it.obeys_prophetic_iter_laws(),
            it.decrease() is Some,
        ensures
            v@ == s@,
        decreases it.decrease()->0,
    {
        let ghost before = it.remaining();
        match it.next() {
            Some(c) => {
                let ghost old_v = v@;
                v.push(c);
                assert(v@ + it.remaining() =~= old_v + before);
            },
            None => {
                assert(v@ + Seq::<char>::empty() =~= v@);
                break ;
            },
        }
    }
    v
}

/// Appends the characters `cs[from..to]` to `out`.
pub fn push_chars(out: &mut String, cs: &[char], from: usize, to: usize)
    requires
        from <= to <= cs@.len(),
    ensures
        final(out)@ == old(out)@ + cs@.subrange(from as int, to as int),
{
    let mut i = from;
    while i < to
        invariant
            from <= i <= to <= cs@.len(),
            out@ == old(out)@ + cs@.subrange(from as int, i as int),
        decreases to - i,
    {
        out.push(cs[i]);
        assert(cs@.subrange(from as int, i + 1) =~= cs@.subrange(from as int, i as int).push(
            cs@[i as int],
        ));
        i = i + 1;
    }
}

/// A string holding exactly the characters `cs[from..to]`.
pub fn string_of(cs: &[char], from: usize, to: usize) -> (s: String)
    requires
        from <= to <= cs@.len(),
    ensures
        s@ == cs@.subrange(from as int, to as int),
{
    let mut s = String::new();
    push_chars(&mut s, cs, from, to);
    assert(Seq::<char>::empty() + cs@.subrange(from as int, to as int) =~= cs@.subrange(
        from as int,
        to as int,
    ));
    s
}

/// The ASCII digit for `d < 10`.
pub open spec fn digit_char(d: nat) -> char {
    if d == 0 {
        '0'
    } else if d == 1 {
        '1'
    } else if d == 2 {
        '2'
    } else if d == 3 {
        '3'
    } else if d == 4 {
        '4'
    } else if d == 5 {
        '5'
    } else if d == 6 {
        '6'
    } else if d == 7 {
        '7'
    } else if d == 8 {
        '8'
    } else {
        '9'
    }
}

/// The shortest decimal representation of `n` (no sign, no leading zeros).
pub open spec fn decimal(n: nat) -> Seq<char>
    decreases n,
{
    if n < 10 {
        seq![digit_char(n)]
    } else {
        decimal(n / 10).push(digit_char(n % 10))
    }
}

fn digit(d: u64) -> (c: char)
    requires
        d < 10,
    ensures
        c == digit_char(d as nat),
{
    if d == 0 {
        '0'
    } else if d == 1 {
        '1'
    } else if d == 2 {
        '2'
    } else if d == 3 {
        '3'
    } else if d == 4 {
        '4'
    } else if d == 5 {
        '5'
    } else if d == 6 {
        '6'
    } else if d == 7 {
        '7'
    } else if d == 8 {
        '8'
    } else {
        '9'
    }
}

/// Appends the decimal representation of `n` to `out`.
pub fn push_decimal(out: &mut String, n: u64)
    ensures
        final(out)@ == old(out)@ + decimal(n as nat),
    decreases n,
{
    if n >= 10 {
        push_decimal(out, n / 10);
    }
    out.push(digit(n % 10));
    assert(old(out)@ + decimal(n as nat) =~= (if n >= 10 {
        old(out)@ + decimal((n / 10) as nat)
    } else {
        old(out)@
    }).push(digit_char((n % 10) as nat)));
}

/// Appends the characters of `s` to `out`.
pub fn push_str(out: &mut String, s: &str)
    ensures
        final(out)@ == old(out)@ + s@,
{
    out.append(s);
}

/// Whether `c` is white space in the sense of Unicode's `White_Space`
/// property (the characters `char::is_whitespace` accepts).
pub open spec fn is_white_space(c: char) -> bool {
    ||| '\u{9}' <= c <= '\u{d}'
    ||| c == ' '
    ||| c == '\u{85}'
    ||| c == '\u{a0}'
    ||| c == '\u{1680}'
    ||| '\u{2000}' <= c <= '\u{200a}'
    ||| c == '\u{2028}'
    ||| c == '\u{2029}'
    ||| c == '\u{202f}'
    ||| c == '\u{205f}'
    ||| c == '\u{3000}'
}

/// Executable white-space test.
pub fn white_space(c: char) -> (b: bool)
    ensures
        b == is_white_space(c),
{
    ('\u{9}' <= c && c <= '\u{d}') || c == ' ' || c == '\u{85}' || c == '\u{a0}' || c
        == '\u{1680}' || ('\u{2000}' <= c && c <= '\u{200a}') || c == '\u{2028}' || c
        == '\u{2029}' || c == '\u{202f}' || c == '\u{205f}' || c == '\u{3000}'
}

/// Index of the first character of `s` from `i` on that is not white
/// space (`s.len()` if there is none).
pub open spec fn skip_space(s: Seq<char>, i: int) -> int
    decreases s.len() - i,
{
    if i < 0 || i >= s.len() {
        s.len() as int
    } else if is_white_space(s[i]) {
        skip_space(s, i + 1)
    } else {
        i
    }
}

/// End of `s.subrange(lo, hi)` once trailing white space is removed.
pub open spec fn back_space(s: Seq<char>, lo: int, hi: int) -> int
    decreases hi - lo,
{
    if hi <= lo {
        lo
    } else if is_white_space(s[hi - 1]) {
        back_space(s, lo, hi - 1)
    } else {
        hi
    }
}

/// `s` with leading and trailing white space removed.
pub open spec fn trim(s: Seq<char>) -> Seq<char> {
    let lo = skip_space(s, 0);
    s.subrange(lo, back_space(s, lo, s.len() as int))
}

proof fn lemma_skip_space_bounds(s: Seq<char>, i: int)
    requires
        0 <= i <= s.len(),
    ensures
        i <= skip_space(s, i) <= s.len(),
    decreases s.len() - i,
{
    if i < s.len() && is_white_space(s[i]) {
        lemma_skip_space_bounds(s, i + 1);
    }
}

proof fn lemma_back_space_bounds(s: Seq<char>, lo: int, hi: int)
    requires
        lo <= hi,
    ensures
        lo <= back_space(s, lo, hi) <= hi,
    decreases hi - lo,
{
    if hi > lo && is_white_space(s[hi - 1]) {
        lemma_back_space_bounds(s, lo, hi - 1);
    }
}

/// The bounds `(lo, hi)` of `cs[from..to]` with white space trimmed from both ends.
pub fn trim_bounds(cs: &[char], from: usize, to: usize) -> (r: (usize, usize))
    requires
        from <= to <= cs@.len(),
    ensures
        cs@.subrange(r.0 as int, r.1 as int) == trim(cs@.subrange(from as int, to as int)),
        from <= r.0 <= r.1 <= to,
{
    let ghost s = cs@.subrange(from as int, to as int);
    let mut lo = from;
    while lo < to && white_space(cs[lo])
        invariant
            from <= lo <= to <= cs@.len(),
            s == cs@.subrange(from as int, to as int),
            skip_space(s, (lo - from) as int) == skip_space(s, 0),
        decreases to - lo,
    {
        lo = lo + 1;
    }
    let mut hi = to;
    while hi > lo && white_space(cs[hi - 1])
        invariant
            from <= lo <= hi <= to <= cs@.len(),
            s == cs@.subrange(from as int, to as int),
            skip_space(s, 0) == lo - from,
            back_space(s, (lo - from) as int, (hi - from) as int) == back_space(
                s,
                (lo - from) as int,
                s.len() as int,
            ),
        decreases hi - lo,
    {
        hi = hi - 1;
    }
    proof {
        assert(cs@.subrange(lo as int, hi as int) =~= s.subrange(
            (lo - from) as int,
            (hi - from) as int,
        ));
    }
    (lo, hi)
}

/// Whether `s` begins with `p`.
pub open spec fn starts_with(s: Seq<char>, p: Seq<char>) -> bool {
    p.len() <= s.len() && s.subrange(0, p.len() as int) == p
}

/// Whether `s` holds `p` as a contiguous piece.
pub open spec fn contains_seq(s: Seq<char>, p: Seq<char>) -> bool {
    exists|i: int| 0 <= i && i + p.len() <= s.len() && #[trigger] s.subrange(i, i + p.len()) == p
}

/// Whether `cs[at..]` begins with the characters of `p`.
pub fn matches_at(cs: &[char], at: usize, p: &[char]) -> (b: bool)
    requires
        at <= cs@.len(),
    ensures
        b == starts_with(cs@.subrange(at as int, cs@.len() as int), p@),
{
    if p.len() > cs.len() - at {
        return false;
    }
    let n = cs.len();
    let mut k: usize = 0;
    while k < p.len()
        invariant
            n == cs@.len(),
            at <= cs@.len(),
            p@.len() <= cs@.len() - at,
            0 <= k <= p@.len(),
            forall|j: int| 0 <= j < k ==> cs@[at + j] == p@[j],
        decreases p@.len() - k,
    {
        if cs[at + k] != p[k] {
            assert(cs@.subrange(at as int, cs@.len() as int).subrange(0, p@.len() as int)[k as int]
                != p@[k as int]);
            return false;
        }
        k = k + 1;
    }
    assert(cs@.subrange(at as int, cs@.len() as int).subrange(0, p@.len() as int) =~= p@);
    true
}

/// Whether `cs` holds `p` as a contiguous piece.
pub fn contains_chars(cs: &[char], p: &[char]) -> (b: bool)
    ensures
        b == contains_seq(cs@, p@),
{
    if p.len() == 0 {
        assert(cs@.subrange(0, 0 + p@.len() as int) =~= p@);
        return true;
    }
    let mut i: usize = 0;
    while i < cs.len()
        invariant
            0 <= i <= cs@.len(),
            forall|j: int|
                0 <= j < i ==> !(j + p@.len() <= cs@.len() && #[trigger] cs@.subrange(
                    j,
                    j + p@.len(),
                ) == p@),
        decreases cs@.len() - i,
    {
        if matches_at(cs, i, p) {
            assert(cs@.subrange(i as int, i + p@.len()) =~= cs@.subrange(
                i as int,
                cs@.len() as int,
            ).subrange(0, p@.len() as int));
            return true;
        }
        proof {
            if i + p@.len() <= cs@.len() {
                assert(cs@.subrange(i as int, i + p@.len()) =~= cs@.subrange(
                    i as int,
                    cs@.len() as int,
                ).subrange(0, p@.len() as int));
            }
        }
        i = i + 1;
    }
    false
}

} // verus!
