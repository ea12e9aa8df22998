//! Minimal protobuf wire-format reader: varints, length-delimited
//! fields and skipping. Vector tiles only use varint and
//! length-delimited fields, plus the fixed-width number fields of the
//! `Value` message, so this is all the decoder needs.
//!
//! Every read is described by a spec function over the byte sequence
//! and a position (`varint_at`, `tag_at`, `ld_at`, `skip_at`): each
//! returns what the read yields together with the position the reader
//! is left at, on success and on failure alike, because the decoders
//! keep going after a failed read.
use vstd::prelude::*;

verus! {

/// `128^k`.
pub open spec fn pow128(k: nat) -> nat
    decreases k,
{
    if k == 0 {
        1
    } else {
        128 * pow128((k - 1) as nat)
    }
}

/// The number a little-endian base-128 digit string stands for: byte
/// `i` contributes its low seven bits times `128^i`.
pub open spec fn base128_value(bytes: Seq<u8>) -> nat
    decreases bytes.len(),
{
    if bytes.len() == 0 {
        0
    } else {
        base128_value(bytes.drop_last()) + (bytes.last() % 128) as nat * pow128(
            (bytes.len() - 1) as nat,
        )
    }
}

/// Scans the varint that starts at `pos`, having already seen `k`
/// continuation bytes: the number of bytes it occupies, or `None` when
/// the buffer ends first or no terminating byte comes within ten bytes.
pub open spec fn varint_len_from(buf: Seq<u8>, pos: int, k: nat) -> Option<nat>
    decreases 10 - k,
{
    if k >= 10 || pos + k >= buf.len() {
        None
    } else if buf[pos + k] < 128 {
        Some(k + 1)
    } else {
        varint_len_from(buf, pos, k + 1)
    }
}

/// Length in bytes of the varint at `pos` (at most ten), if it is complete.
pub open spec fn varint_len(buf: Seq<u8>, pos: int) -> Option<nat> {
    varint_len_from(buf, pos, 0)
}

/// 2^64.
pub open spec fn two_pow_64() -> nat {
    0x1_0000_0000_0000_0000
}

/// Reading a varint at `pos`: its value modulo 2^64 and the position
/// after it; on failure, the reader has consumed up to ten bytes or up
/// to the end of the buffer, whichever comes first.
pub open spec fn varint_at(buf: Seq<u8>, pos: int) -> (Option<u64>, int) {
    match varint_len(buf, pos) {
        Some(n) => (
            Some((base128_value(buf.subrange(pos, pos + n)) % two_pow_64()) as u64),
            pos + n,
        ),
        None => (None, if pos + 10 <= buf.len() { pos + 10 } else { buf.len() as int }),
    }
}

/// Reading a field key: the varint, taken modulo 2^32, split into the
/// field number (all but the low three bits) and the wire type (the
/// low three bits).
pub open spec fn tag_at(buf: Seq<u8>, pos: int) -> (Option<(u32, u8)>, int) {
    let (v, p) = varint_at(buf, pos);
    match v {
        Some(x) => (Some((((x % 0x1_0000_0000) / 8) as u32, (x % 8) as u8)), p),
        None => (None, p),
    }
}

/// Reading a length-delimited field: a varint length followed by that
/// many bytes. When the bytes run past the buffer the reader stays just
/// after the length.
pub open spec fn ld_at(buf: Seq<u8>, pos: int) -> (Option<Seq<u8>>, int) {
    let (v, p) = varint_at(buf, pos);
    match v {
        Some(len) => if p + len <= buf.len() {
            (Some(buf.subrange(p, p + len)), p + len)
        } else {
            (None, p)
        },
        None => (None, p),
    }
}

/// Position after skipping a field body of the given wire type:
/// varint (0), 64-bit (1), length-delimited (2), 32-bit (5); an unknown
/// wire type skips to the end of the buffer.
pub open spec fn skip_at(buf: Seq<u8>, pos: int, wire: u8) -> int {
    if wire == 0 {
        varint_at(buf, pos).1
    } else if wire == 1 {
        if pos + 8 <= buf.len() {
            pos + 8
        } else {
            buf.len() as int
        }
    } else if wire == 2 {
        ld_at(buf, pos).1
    } else if wire == 5 {
        if pos + 4 <= buf.len() {
            pos + 4
        } else {
            buf.len() as int
        }
    } else {
        buf.len() as int
    }
}

proof fn lemma_varint_len_from_bounds(buf: Seq<u8>, pos: int, k: nat)
    requires
        0 <= pos,
    ensures
        varint_len_from(buf, pos, k) matches Some(n) ==> k < n <= 10 && pos + n <= buf.len(),
    decreases 10 - k,
{
    if !(k >= 10 || pos + k >= buf.len()) && !(buf[pos + k] < 128) {
        lemma_varint_len_from_bounds(buf, pos, k + 1);
    }
}

/// Every read stays within the buffer and never moves backwards; a
/// successful varint, tag or length-delimited read moves forwards.
pub proof fn lemma_reads_progress(buf: Seq<u8>, pos: int, wire: u8)
    requires
        0 <= pos <= buf.len(),
    ensures
        pos <= varint_at(buf, pos).1 <= buf.len(),
        varint_at(buf, pos).0 is Some ==> pos < varint_at(buf, pos).1,
        pos <= tag_at(buf, pos).1 <= buf.len(),
        tag_at(buf, pos).0 is Some ==> pos < tag_at(buf, pos).1,
        pos <= ld_at(buf, pos).1 <= buf.len(),
        ld_at(buf, pos).0 is Some ==> pos < ld_at(buf, pos).1,
        pos <= skip_at(buf, pos, wire) <= buf.len(),
{
    lemma_varint_len_from_bounds(buf, pos, 0);
}

/// Zigzag decoding of a 32-bit value: even `n` stands for `n / 2`, odd
/// `n` for `-(n / 2) - 1`.
pub open spec fn zigzag_value(n: u32) -> int {
    if n % 2 == 0 {
        (n / 2) as int
    } else {
        -((n / 2) as int) - 1
    }
}

/// Zigzag decoding of a 64-bit value.
pub open spec fn zigzag64_value(n: u64) -> int {
    if n % 2 == 0 {
        (n / 2) as int
    } else {
        -((n / 2) as int) - 1
    }
}

/// Decodes a zigzag-encoded 32-bit integer.
pub fn zigzag(n: u32) -> (r: i32)
    ensures
        r as int == zigzag_value(n),
{
    let half: i32 = (n / 2) as i32;
    if n % 2 == 0 {
        half
    } else {
        -half - 1
    }
}

/// Decodes a zigzag-encoded 64-bit integer.
pub fn zigzag64(n: u64) -> (r: i64)
    ensures
        r as int == zigzag64_value(n),
{
    let half: i64 = (n / 2) as i64;
    if n % 2 == 0 {
        half
    } else {
        -half - 1
    }
}

/// Cursor over a protobuf-encoded byte buffer.
pub struct Reader<'a> {
    buf: &'a [u8],
    pos: usize,
}

impl<'a> Reader<'a> {
    #[verifier::type_invariant]
    spec fn in_bounds(&self) -> bool {
        self.pos <= self.buf@.len()
    }

    /// The bytes being read.
    pub closed spec fn data(&self) -> Seq<u8> {
        self.buf@
    }

    /// The current read position.
    pub closed spec fn pos(&self) -> int {
        self.pos as int
    }

    /// A reader at the start of `buf`.
    pub fn new(buf: &'a [u8]) -> (r: Self)
        ensures
            r.data() == buf@,
            r.pos() == 0,
    {
        Self { buf, pos: 0 }
    }

    /// Whether the whole buffer has been consumed.
    pub fn done(&self) -> (b: bool)
        ensures
            b == (self.pos() >= self.data().len()),
            0 <= self.pos() <= self.data().len(),
    {
        proof {
            use_type_invariant(self);
        }
        self.pos >= self.buf.len()
    }

    /// The current position is always within the buffer.
    pub fn position(&self) -> (p: usize)
        ensures
            p == self.pos(),
            p <= self.data().len(),
    {
        proof {
            use_type_invariant(self);
        }
        self.pos
    }

    /// The byte at offset `i` past the current position, if there is one.
    pub fn peek_at(&self, i: usize) -> (b: Option<u8>)
        ensures
            b == (if self.pos() + i < self.data().len() {
                Some(self.data()[self.pos() + i])
            } else {
                None::<u8>
            }),
    {
        proof {
            use_type_invariant(self);
        }
        if i < self.buf.len() - self.pos {
            Some(self.buf[self.pos + i])
        } else {
            None
        }
    }

    /// Reads a base-128 varint (at most ten bytes).
    pub fn varint(&mut self) -> (res: Option<u64>)
        ensures
            final(self).data() == old(self).data(),
            (res, final(self).pos()) == varint_at(old(self).data(), old(self).pos()),
            0 <= final(self).pos() <= final(self).data().len(),
    {
        proof {
            use_type_invariant(&*self);
        }
        let n = self.buf.len();
        let start = self.pos;
        let ghost buf = self.buf@;
        let mut p = start;
        let mut acc: u128 = 0;
        let mut mult: u128 = 1;
        assert(buf.subrange(start as int, start as int) =~= Seq::<u8>::empty());
        loop
            invariant
                buf == self.buf@,
                buf == old(self).buf@,
                self.pos == start,
                start == old(self).pos,
                n == buf.len(),
                start <= p <= n,
                p - start <= 9,
                varint_len_from(buf, start as int, (p - start) as nat) == varint_len(
                    buf,
                    start as int,
                ),
                acc == base128_value(buf.subrange(start as int, p as int)),
                mult == pow128((p - start) as nat),
                acc < mult,
                mult <= 0x8000_0000_0000_0000,
            decreases n - p,
        {
            if p >= n {
                self.pos = p;
                return None;
            }
            let b = self.buf[p];
            let digit: u128 = (b % 128) as u128;
            proof {
                let s1 = buf.subrange(start as int, p + 1);
                assert(s1.drop_last() =~= buf.subrange(start as int, p as int));
                assert(s1.last() == b);
                assert(acc + digit * mult < 128 * mult) by (nonlinear_arith)
                    requires
                        acc < mult,
                        digit < 128,
                ;
            }
            acc = acc + digit * mult;
            p = p + 1;
            if b < 128 {
                self.pos = p;
                proof {
                    assert(acc % 0x1_0000_0000_0000_0000 < 0x1_0000_0000_0000_0000);
                }
                return Some((acc % 0x1_0000_0000_0000_0000) as u64);
            }
            if p - start >= 10 {
                self.pos = p;
                return None;
            }
            proof {
                reveal_with_fuel(pow128, 10);
                assert(mult <= 0x100_0000_0000_0000) by {
                    if p - start == 9 {
                    } else {
                        assert(pow128((p - start - 1) as nat) <= 0x100_0000_0000_0000) by {
                            lemma_pow128_bound((p - start - 1) as nat);
                        }
                    }
                }
            }
            mult = mult * 128;
        }
    }

    /// Reads a field key and splits it into field number and wire type.
    pub fn tag(&mut self) -> (res: Option<(u32, u8)>)
        ensures
            final(self).data() == old(self).data(),
            (res, final(self).pos()) == tag_at(old(self).data(), old(self).pos()),
            0 <= final(self).pos() <= final(self).data().len(),
    {
        let v = self.varint();
        match v {
            Some(x) => {
                let w: u32 = (x % 0x1_0000_0000) as u32;
                assert((x % 0x1_0000_0000) % 8 == x % 8) by (bit_vector);
                Some((w / 8, (w % 8) as u8))
            },
            None => None,
        }
    }

    /// Reads a length-delimited field and returns its bytes.
    pub fn ld(&mut self) -> (res: Option<&'a [u8]>)
        ensures
            final(self).data() == old(self).data(),
            (match res {
                Some(s) => Some(s@),
                None => None::<Seq<u8>>,
            }, final(self).pos()) == ld_at(old(self).data(), old(self).pos()),
            0 <= final(self).pos() <= final(self).data().len(),
    {
        let v = self.varint();
        match v {
            Some(len) => {
                proof {
                    use_type_invariant(&*self);
                }
                let room = self.buf.len() - self.pos;
                if len > room as u64 {
                    return None;
                }
                let l = len as usize;
                let s = &self.buf[self.pos..self.pos + l];
                self.pos = self.pos + l;
                Some(s)
            },
            None => None,
        }
    }

    /// Skips over a field body of the given wire type.
    pub fn skip(&mut self, wire: u8)
        ensures
            final(self).data() == old(self).data(),
            final(self).pos() == skip_at(old(self).data(), old(self).pos(), wire),
            0 <= final(self).pos() <= final(self).data().len(),
    {
        proof {
            use_type_invariant(&*self);
        }
        if wire == 0 {
            let _ = self.varint();
        } else if wire == 1 {
            if self.buf.len() - self.pos >= 8 {
                self.pos = self.pos + 8;
            } else {
                self.pos = self.buf.len();
            }
        } else if wire == 2 {
            let _ = self.ld();
        } else if wire == 5 {
            if self.buf.len() - self.pos >= 4 {
                self.pos = self.pos + 4;
            } else {
                self.pos = self.buf.len();
            }
        } else {
            self.pos = self.buf.len();
        }
    }
}

proof fn lemma_pow128_bound(k: nat)
    requires
        k <= 8,
    ensures
        pow128(k) <= 0x100_0000_0000_0000,
    decreases k,
{
    reveal_with_fuel(pow128, 10);
    if k > 0 {
        lemma_pow128_bound((k - 1) as nat);
    }
}

/// The values of the varints packed back to back from `pos` to the end
/// of the buffer, each taken modulo 2^32; packing stops at the first
/// varint that cannot be read.
pub open spec fn packed_u32_from(buf: Seq<u8>, pos: int) -> Seq<u32>
    decreases buf.len() - pos,
{
    if pos < 0 || pos >= buf.len() {
        Seq::empty()
    } else {
        let (v, p) = varint_at(buf, pos);
        proof {
            lemma_reads_progress(buf, pos, 0);
        }
        match v {
            Some(x) => seq![(x % 0x1_0000_0000) as u32] + packed_u32_from(buf, p),
            None => Seq::empty(),
        }
    }
}

/// Decodes a packed repeated `uint32` field.
pub fn packed_u32(bytes: &[u8]) -> (v: Vec<u32>)
    ensures
        v@ == packed_u32_from(bytes@, 0),
{
    let mut r = Reader::new(bytes);
    let mut v: Vec<u32> = Vec::new();
    loop
        invariant_except_break
            r.data() == bytes@,
            0 <= r.pos() <= bytes@.len(),
            v@ + packed_u32_from(bytes@, r.pos()) == packed_u32_from(bytes@, 0),
        ensures
            v@ == packed_u32_from(bytes@, 0),
        decreases bytes@.len() - r.pos(),
    {
        if r.done() {
            assert(v@ + Seq::<u32>::empty() =~= v@);
            break ;
        }
        let ghost p0 = r.pos();
        proof {
            lemma_reads_progress(bytes@, p0, 0);
        }
        match r.varint() {
            Some(n) => {
                let x: u32 = (n % 0x1_0000_0000) as u32;
                let ghost old_v = v@;
                v.push(x);
                proof {
                    assert(v@ + packed_u32_from(bytes@, r.pos()) =~= old_v + (seq![x]
                        + packed_u32_from(bytes@, r.pos())));
                }
            },
            None => {
                assert(v@ + Seq::<u32>::empty() =~= v@);
                break ;
            },
        }
    }
    v
}

/// Zigzag decoding is one-to-one and lands in the `i32` range, so every
/// encoded delta stands for exactly one signed value.
pub proof fn lemma_zigzag_injective(a: u32, b: u32)
    ensures
        zigzag_value(a) == zigzag_value(b) ==> a == b,
        i32::MIN <= zigzag_value(a) <= i32::MAX,
{
}


proof fn lemma_varint_len_shift(a: Seq<u8>, b: Seq<u8>, p: int, k: nat)
    requires
        0 <= p,
    ensures
        varint_len_from(a + b, a.len() + p, k) == varint_len_from(b, p, k),
    decreases 10 - k,
{
    if !(k >= 10 || p + k >= b.len()) {
        assert((a + b)[a.len() + p + k] == b[p + k]);
        if !(b[p + k] < 128) {
            lemma_varint_len_shift(a, b, p, k + 1);
        }
    }
}

/// Reads in the part of a buffer after a prefix `a` are the reads of
/// that part on its own, with positions moved by `a.len()`.
pub proof fn lemma_reads_shift(a: Seq<u8>, b: Seq<u8>, p: int, wire: u8)
    requires
        0 <= p,
    ensures
        varint_at(a + b, a.len() + p) == (varint_at(b, p).0, a.len() + varint_at(b, p).1),
        tag_at(a + b, a.len() + p) == (tag_at(b, p).0, a.len() + tag_at(b, p).1),
        ld_at(a + b, a.len() + p) == (ld_at(b, p).0, a.len() + ld_at(b, p).1),
        skip_at(a + b, a.len() + p, wire) == a.len() + skip_at(b, p, wire),
{
    lemma_varint_len_shift(a, b, p, 0);
    lemma_varint_len_from_bounds(b, p, 0);
    let ab = a + b;
    let q = a.len() + p;
    match varint_len(b, p) {
        Some(n) => {
            assert(ab.subrange(q, q + n) =~= b.subrange(p, p + n));
        },
        None => {},
    }
    let (v, p1) = varint_at(b, p);
    match v {
        Some(len) => {
            if p1 + len <= b.len() {
                assert(ab.subrange(a.len() + p1, a.len() + p1 + len) =~= b.subrange(p1, p1 + len));
            }
        },
        None => {},
    }
}

proof fn lemma_varint_len_prefix(a: Seq<u8>, b: Seq<u8>, p: int, k: nat)
    requires
        0 <= p,
        varint_len_from(a, p, k) is Some,
    ensures
        varint_len_from(a + b, p, k) == varint_len_from(a, p, k),
    decreases 10 - k,
{
    assert((a + b)[p + k] == a[p + k]);
    if !(a[p + k] < 128) {
        lemma_varint_len_prefix(a, b, p, k + 1);
    }
}

/// A read that succeeds within a buffer reads the same after more bytes
/// are appended.
pub proof fn lemma_reads_prefix(a: Seq<u8>, b: Seq<u8>, p: int)
    requires
        0 <= p,
    ensures
        varint_at(a, p).0 is Some ==> varint_at(a + b, p) == varint_at(a, p),
        tag_at(a, p).0 is Some ==> tag_at(a + b, p) == tag_at(a, p),
        ld_at(a, p).0 is Some ==> ld_at(a + b, p) == ld_at(a, p),
{
    lemma_varint_len_from_bounds(a, p, 0);
    if varint_len(a, p) is Some {
        lemma_varint_len_prefix(a, b, p, 0);
        let n = varint_len(a, p)->Some_0;
        assert((a + b).subrange(p, p + n) =~= a.subrange(p, p + n));
        let (v, p1) = varint_at(a, p);
        let len = v->Some_0;
        if p1 + len <= a.len() {
            assert((a + b).subrange(p1, p1 + len) =~= a.subrange(p1, p1 + len));
        }
    }
}

} // verus!
