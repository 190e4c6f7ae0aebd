//! Deterministic binary codec for the stroke database.
//!
//! The persisted form is an ordered pair list: a 64-bit little-endian pair
//! count, then for each pair the character as its UTF-8 bytes, a 64-bit
//! little-endian stroke count, and for each stroke a 64-bit little-endian
//! point count followed by the points, each point two 16-bit little-endian
//! coordinates.  The encoder walks the pairs in the order given — for a
//! database that is roster order — so the bytes are a deterministic function
//! of the contents, independent of any map iteration order.
//!
//! `enc_file` is the specification of the whole format; `dec_file` is its
//! specification-level parser.  The executable encoder and decoder are
//! verified against them, and the round-trip lemmas at the bottom tie the two
//! specifications together.

use vstd::prelude::*;

use vstd::bytes::lemma_auto_spec_u16_to_from_le_bytes;
use vstd::bytes::lemma_auto_spec_u64_to_from_le_bytes;
use vstd::bytes::spec_u16_to_le_bytes;
use vstd::bytes::spec_u16_from_le_bytes;
use vstd::bytes::spec_u64_to_le_bytes;
use vstd::bytes::spec_u64_from_le_bytes;
use vstd::bytes::u16_from_le_bytes;
use vstd::bytes::u16_to_le_bytes;
use vstd::bytes::u64_from_le_bytes;
use vstd::bytes::u64_to_le_bytes;
use vstd::slice::slice_subrange;
use vstd::utf8::char_is_scalar;
use vstd::utf8::char_u32_cast;
use vstd::utf8::decode_first_scalar;
use vstd::utf8::decode_utf8_first_scalar;
use vstd::utf8::encode_scalar;
use vstd::utf8::encode_utf8;
use vstd::utf8::encode_utf8_first_scalar;
use vstd::utf8::is_scalar;
use vstd::utf8::length_of_first_scalar;
use vstd::utf8::pop_first_scalar;
use vstd::utf8::take_first_scalar;
use vstd::utf8::valid_first_scalar;
use vstd::utf8::valid_utf8;

use crate::db::pairs_view;
use crate::errors::EditError;
use crate::point::Point;
use crate::strokes::strokes_view;

verus! {

/// Relies on `char::from_u32`: it returns `Some` exactly for code points
/// that are valid Unicode scalar values (at most 0x10FFFF and outside the
/// surrogate range), and the returned character carries that code point.
pub assume_specification[ char::from_u32 ](i: u32) -> (r: Option<char>)
    ensures
        r is Some <==> is_scalar(i),
        r matches Some(c) ==> c as u32 == i,
;

/// The encoding of a 64-bit count: 8 bytes, little-endian.
pub open spec fn enc_u64(x: u64) -> Seq<u8> {
    spec_u64_to_le_bytes(x)
}

/// The encoding of a 16-bit coordinate: 2 bytes, little-endian.
pub open spec fn enc_u16(x: u16) -> Seq<u8> {
    spec_u16_to_le_bytes(x)
}

/// The encoding of one point: x then y.
pub open spec fn enc_point(p: Point) -> Seq<u8> {
    enc_u16(p.x) + enc_u16(p.y)
}

/// The encoding of a point sequence, without its count.
pub open spec fn enc_points(ps: Seq<Point>) -> Seq<u8>
    decreases ps.len(),
{
    if ps.len() == 0 {
        Seq::empty()
    } else {
        enc_point(ps[0]) + enc_points(ps.drop_first())
    }
}

/// The encoding of one stroke: its point count, then its points.
pub open spec fn enc_stroke(ps: Seq<Point>) -> Seq<u8> {
    enc_u64(ps.len() as u64) + enc_points(ps)
}

/// The encoding of a stroke sequence, without its count.
pub open spec fn enc_strokes(ss: Seq<Seq<Point>>) -> Seq<u8>
    decreases ss.len(),
{
    if ss.len() == 0 {
        Seq::empty()
    } else {
        enc_stroke(ss[0]) + enc_strokes(ss.drop_first())
    }
}

/// The encoding of a character: its UTF-8 bytes, 1 to 4 of them.
pub open spec fn enc_char(c: char) -> Seq<u8> {
    encode_scalar(c as u32)
}

/// The encoding of one `(character, strokes)` pair.
pub open spec fn enc_pair(p: (char, Seq<Seq<Point>>)) -> Seq<u8> {
    enc_char(p.0) + enc_u64(p.1.len() as u64) + enc_strokes(p.1)
}

/// The encoding of a pair sequence, without its count.
pub open spec fn enc_pairs(ps: Seq<(char, Seq<Seq<Point>>)>) -> Seq<u8>
    decreases ps.len(),
{
    if ps.len() == 0 {
        Seq::empty()
    } else {
        enc_pair(ps[0]) + enc_pairs(ps.drop_first())
    }
}

/// The encoding of a whole file: the pair count, then the pairs.
pub open spec fn enc_file(ps: Seq<(char, Seq<Seq<Point>>)>) -> Seq<u8> {
    enc_u64(ps.len() as u64) + enc_pairs(ps)
}

/// Appending one element to a point sequence appends its encoding.
proof fn lemma_enc_points_push(ps: Seq<Point>, p: Point)
    ensures
        enc_points(ps.push(p)) == enc_points(ps) + enc_point(p),
    decreases ps.len(),
{
    if ps.len() == 0 {
        assert(ps.push(p).drop_first() =~= Seq::<Point>::empty());
        assert(enc_points(ps.push(p).drop_first()) == Seq::<u8>::empty());
        assert(enc_points(ps) == Seq::<u8>::empty());
        assert(enc_points(ps.push(p)) =~= enc_points(ps) + enc_point(p));
    } else {
        assert(ps.push(p).drop_first() =~= ps.drop_first().push(p));
        lemma_enc_points_push(ps.drop_first(), p);
        assert(enc_points(ps.push(p)) =~= enc_points(ps) + enc_point(p));
    }
}

/// Appending one stroke to a stroke sequence appends its encoding.
proof fn lemma_enc_strokes_push(ss: Seq<Seq<Point>>, s: Seq<Point>)
    ensures
        enc_strokes(ss.push(s)) == enc_strokes(ss) + enc_stroke(s),
    decreases ss.len(),
{
    if ss.len() == 0 {
        assert(ss.push(s).drop_first() =~= Seq::<Seq<Point>>::empty());
        assert(enc_strokes(ss.push(s).drop_first()) == Seq::<u8>::empty());
        assert(enc_strokes(ss) == Seq::<u8>::empty());
        assert(enc_strokes(ss.push(s)) =~= enc_strokes(ss) + enc_stroke(s));
    } else {
        assert(ss.push(s).drop_first() =~= ss.drop_first().push(s));
        lemma_enc_strokes_push(ss.drop_first(), s);
        assert(enc_strokes(ss.push(s)) =~= enc_strokes(ss) + enc_stroke(s));
    }
}

/// Appending one pair to a pair sequence appends its encoding.
proof fn lemma_enc_pairs_push(ps: Seq<(char, Seq<Seq<Point>>)>, p: (char, Seq<Seq<Point>>))
    ensures
        enc_pairs(ps.push(p)) == enc_pairs(ps) + enc_pair(p),
    decreases ps.len(),
{
    if ps.len() == 0 {
        assert(ps.push(p).drop_first() =~= Seq::<(char, Seq<Seq<Point>>)>::empty());
        assert(enc_pairs(ps.push(p).drop_first()) == Seq::<u8>::empty());
        assert(enc_pairs(ps) == Seq::<u8>::empty());
        assert(enc_pairs(ps.push(p)) =~= enc_pairs(ps) + enc_pair(p));
    } else {
        assert(ps.push(p).drop_first() =~= ps.drop_first().push(p));
        lemma_enc_pairs_push(ps.drop_first(), p);
        assert(enc_pairs(ps.push(p)) =~= enc_pairs(ps) + enc_pair(p));
    }
}

/// Appends the 8-byte little-endian encoding of `x`.
fn push_u64(out: &mut Vec<u8>, x: u64)
    ensures
        final(out)@ == old(out)@ + enc_u64(x),
{
    let mut b = u64_to_le_bytes(x);
    out.append(&mut b);
}

/// Appends the 2-byte little-endian encoding of `x`.
fn push_u16(out: &mut Vec<u8>, x: u16)
    ensures
        final(out)@ == old(out)@ + enc_u16(x),
{
    let mut b = u16_to_le_bytes(x);
    out.append(&mut b);
}

/// Appends the UTF-8 encoding of `c`.
fn push_char(out: &mut Vec<u8>, c: char)
    ensures
        final(out)@ == old(out)@ + enc_char(c),
{
    proof {
        char_is_scalar(c);
    }
    let u = c as u32;
    if u < 0x80 {
        assert(u < 256) by (bit_vector)
            requires
                u < 0x80,
        ;
        assert((u & 0x7F) as u8 == u as u8) by (bit_vector)
            requires
                u < 0x80,
        ;
        out.push((u & 0x7F) as u8);
    } else if u < 0x800 {
        assert(((u >> 6) & 0x1F) < 256 && (u & 0x3F) < 256) by (bit_vector);
        out.push(0xC0 | ((u >> 6) & 0x1F) as u8);
        out.push(0x80 | (u & 0x3F) as u8);
    } else if u < 0x10000 {
        assert(((u >> 12) & 0x0F) < 256 && ((u >> 6) & 0x3F) < 256 && (u & 0x3F) < 256)
            by (bit_vector);
        out.push(0xE0 | ((u >> 12) & 0x0F) as u8);
        out.push(0x80 | ((u >> 6) & 0x3F) as u8);
        out.push(0x80 | (u & 0x3F) as u8);
    } else {
        assert(((u >> 18) & 0x7) < 256 && ((u >> 12) & 0x3F) < 256 && ((u >> 6) & 0x3F) < 256 && (u
            & 0x3F) < 256) by (bit_vector);
        out.push(0xF0 | ((u >> 18) & 0x7) as u8);
        out.push(0x80 | ((u >> 12) & 0x3F) as u8);
        out.push(0x80 | ((u >> 6) & 0x3F) as u8);
        out.push(0x80 | (u & 0x3F) as u8);
    }
    assert(out@ =~= old(out)@ + enc_char(c));
}

/// Appends the encoding of one stroke: point count, then points.
fn push_stroke(out: &mut Vec<u8>, s: &Vec<Point>)
    ensures
        final(out)@ == old(out)@ + enc_stroke(s@),
{
    let ghost base = out@;
    push_u64(out, s.len() as u64);
    let mut j: usize = 0;
    while j < s.len()
        invariant
            j <= s.len(),
            out@ == base + enc_u64(s@.len() as u64) + enc_points(s@.take(j as int)),
        decreases s.len() - j,
    {
        let p = s[j];
        push_u16(out, p.x);
        push_u16(out, p.y);
        proof {
            lemma_enc_points_push(s@.take(j as int), s@[j as int]);
            assert(s@.take(j + 1) =~= s@.take(j as int).push(s@[j as int]));
            assert(out@ =~= base + enc_u64(s@.len() as u64) + enc_points(s@.take(j + 1)));
        }
        j = j + 1;
    }
    proof {
        assert(s@.take(s@.len() as int) =~= s@);
    }
}

/// Appends the encoding of one character entry: stroke count, then strokes.
fn push_entry(out: &mut Vec<u8>, e: &Vec<Vec<Point>>)
    ensures
        final(out)@ == old(out)@ + enc_u64(e@.len() as u64) + enc_strokes(strokes_view(e@)),
{
    let ghost base = out@;
    let ghost sv = strokes_view(e@);
    push_u64(out, e.len() as u64);
    let mut i: usize = 0;
    while i < e.len()
        invariant
            i <= e.len(),
            sv == strokes_view(e@),
            sv.len() == e@.len(),
            out@ == base + enc_u64(e@.len() as u64) + enc_strokes(sv.take(i as int)),
        decreases e.len() - i,
    {
        push_stroke(out, &e[i]);
        proof {
            lemma_enc_strokes_push(sv.take(i as int), sv[i as int]);
            assert(sv.take(i + 1) =~= sv.take(i as int).push(sv[i as int]));
            assert(e@[i as int]@ == sv[i as int]);
            assert(out@ =~= base + enc_u64(e@.len() as u64) + enc_strokes(sv.take(i + 1)));
        }
        i = i + 1;
    }
    proof {
        assert(sv.take(sv.len() as int) =~= sv);
    }
}

/// Encodes an ordered pair list into the persisted byte form.
pub fn encode_pairs(pairs: &Vec<(char, Vec<Vec<Point>>)>) -> (out: Vec<u8>)
    ensures
        out@ == enc_file(pairs_view(pairs@)),
{
    let ghost pv = pairs_view(pairs@);
    let mut out: Vec<u8> = Vec::new();
    push_u64(&mut out, pairs.len() as u64);
    proof {
        assert(out@ =~= enc_u64(pairs@.len() as u64) + enc_pairs(pv.take(0)));
    }
    let mut i: usize = 0;
    while i < pairs.len()
        invariant
            i <= pairs.len(),
            pv == pairs_view(pairs@),
            pv.len() == pairs@.len(),
            out@ == enc_u64(pairs@.len() as u64) + enc_pairs(pv.take(i as int)),
        decreases pairs.len() - i,
    {
        let ghost mid = out@;
        let c = pairs[i].0;
        push_char(&mut out, c);
        push_entry(&mut out, &pairs[i].1);
        proof {
            lemma_enc_pairs_push(pv.take(i as int), pv[i as int]);
            assert(pv.take(i + 1) =~= pv.take(i as int).push(pv[i as int]));
            assert(pv[i as int] == (pairs@[i as int].0, strokes_view(pairs@[i as int].1@)));
            assert(out@ =~= mid + enc_pair(pv[i as int]));
            assert(out@ =~= enc_u64(pairs@.len() as u64) + enc_pairs(pv.take(i + 1)));
        }
        i = i + 1;
    }
    proof {
        assert(pv.take(pv.len() as int) =~= pv);
    }
    out
}

/// Specification-level read of a 64-bit count at `pos`.
pub open spec fn dec_u64_at(b: Seq<u8>, pos: int) -> Option<(u64, int)> {
    if 0 <= pos && pos + 8 <= b.len() {
        Some((spec_u64_from_le_bytes(b.subrange(pos, pos + 8)), pos + 8))
    } else {
        None
    }
}

/// Specification-level read of a 16-bit coordinate at `pos`.
pub open spec fn dec_u16_at(b: Seq<u8>, pos: int) -> Option<(u16, int)> {
    if 0 <= pos && pos + 2 <= b.len() {
        Some((spec_u16_from_le_bytes(b.subrange(pos, pos + 2)), pos + 2))
    } else {
        None
    }
}

/// Specification-level read of one point at `pos`.
pub open spec fn dec_point_at(b: Seq<u8>, pos: int) -> Option<(Point, int)> {
    match dec_u16_at(b, pos) {
        None => None,
        Some((x, p1)) => match dec_u16_at(b, p1) {
            None => None,
            Some((y, p2)) => Some((Point { x, y }, p2)),
        },
    }
}

/// Specification-level read of one character's UTF-8 bytes at `pos`.
pub open spec fn dec_char_at(b: Seq<u8>, pos: int) -> Option<(char, int)> {
    if 0 <= pos <= b.len() {
        let t = b.subrange(pos, b.len() as int);
        if valid_first_scalar(t) {
            Some(((decode_first_scalar(t) as char), pos + length_of_first_scalar(t)))
        } else {
            None
        }
    } else {
        None
    }
}

/// Specification-level read of exactly `n` points starting at `pos`.
pub open spec fn dec_points_at(b: Seq<u8>, pos: int, n: nat) -> Option<(Seq<Point>, int)>
    decreases n,
{
    if n == 0 {
        Some((Seq::empty(), pos))
    } else {
        match dec_point_at(b, pos) {
            None => None,
            Some((p, p1)) => match dec_points_at(b, p1, (n - 1) as nat) {
                None => None,
                Some((ps, p2)) => Some((seq![p] + ps, p2)),
            },
        }
    }
}

/// Specification-level read of one stroke at `pos`: point count, then points.
pub open spec fn dec_stroke_at(b: Seq<u8>, pos: int) -> Option<(Seq<Point>, int)> {
    match dec_u64_at(b, pos) {
        None => None,
        Some((n, p1)) => dec_points_at(b, p1, n as nat),
    }
}

/// Specification-level read of exactly `n` strokes starting at `pos`.
pub open spec fn dec_strokes_at(b: Seq<u8>, pos: int, n: nat) -> Option<(Seq<Seq<Point>>, int)>
    decreases n,
{
    if n == 0 {
        Some((Seq::empty(), pos))
    } else {
        match dec_stroke_at(b, pos) {
            None => None,
            Some((s, p1)) => match dec_strokes_at(b, p1, (n - 1) as nat) {
                None => None,
                Some((ss, p2)) => Some((seq![s] + ss, p2)),
            },
        }
    }
}

/// Specification-level read of one pair at `pos`: character, stroke count,
/// strokes.
pub open spec fn dec_pair_at(b: Seq<u8>, pos: int) -> Option<((char, Seq<Seq<Point>>), int)> {
    match dec_char_at(b, pos) {
        None => None,
        Some((c, p1)) => match dec_u64_at(b, p1) {
            None => None,
            Some((n, p2)) => match dec_strokes_at(b, p2, n as nat) {
                None => None,
                Some((ss, p3)) => Some(((c, ss), p3)),
            },
        },
    }
}

/// Specification-level read of exactly `n` pairs starting at `pos`.
pub open spec fn dec_pairs_at(b: Seq<u8>, pos: int, n: nat) -> Option<
    (Seq<(char, Seq<Seq<Point>>)>, int),
>
    decreases n,
{
    if n == 0 {
        Some((Seq::empty(), pos))
    } else {
        match dec_pair_at(b, pos) {
            None => None,
            Some((p, p1)) => match dec_pairs_at(b, p1, (n - 1) as nat) {
                None => None,
                Some((ps, p2)) => Some((seq![p] + ps, p2)),
            },
        }
    }
}

/// Specification-level parse of a whole file: the pair count, the pairs, and
/// nothing left over.
pub open spec fn dec_file(b: Seq<u8>) -> Option<Seq<(char, Seq<Seq<Point>>)>> {
    match dec_u64_at(b, 0) {
        None => None,
        Some((n, p1)) => match dec_pairs_at(b, p1, n as nat) {
            None => None,
            Some((ps, end)) => if end == b.len() {
                Some(ps)
            } else {
                None
            },
        },
    }
}

/// Prepends an already-read prefix to the outcome of reading the remaining
/// items.
pub open spec fn opt_prefixed<T>(pre: Seq<T>, o: Option<(Seq<T>, int)>) -> Option<(Seq<T>, int)> {
    match o {
        None => None,
        Some((s, e)) => Some((pre + s, e)),
    }
}

/// Folding one freshly read item into the prefix commutes with prepending.
proof fn lemma_opt_prefixed_step<T>(pre: Seq<T>, x: T, o: Option<(Seq<T>, int)>)
    ensures
        opt_prefixed(pre, opt_prefixed(seq![x], o)) == opt_prefixed(pre.push(x), o),
{
    if o is Some {
        let (s, e) = o.unwrap();
        assert(pre + (seq![x] + s) =~= pre.push(x) + s);
    }
}

/// An empty prefix prepends nothing.
proof fn lemma_opt_prefixed_empty<T>(o: Option<(Seq<T>, int)>)
    ensures
        opt_prefixed(Seq::<T>::empty(), o) == o,
{
    if o is Some {
        let (s, e) = o.unwrap();
        assert(Seq::<T>::empty() + s =~= s);
    }
}

/// A whole remaining read prepended with nothing read is the read itself;
/// unfolds one step of `dec_points_at`.
proof fn lemma_dec_points_unfold(b: Seq<u8>, pos: int, n: nat)
    requires
        n > 0,
    ensures
        dec_points_at(b, pos, n) == (match dec_point_at(b, pos) {
            None => None,
            Some((p, p1)) => opt_prefixed(seq![p], dec_points_at(b, p1, (n - 1) as nat)),
        }),
{
}

/// Unfolds one step of `dec_strokes_at`.
proof fn lemma_dec_strokes_unfold(b: Seq<u8>, pos: int, n: nat)
    requires
        n > 0,
    ensures
        dec_strokes_at(b, pos, n) == (match dec_stroke_at(b, pos) {
            None => None,
            Some((s, p1)) => opt_prefixed(seq![s], dec_strokes_at(b, p1, (n - 1) as nat)),
        }),
{
}

/// Unfolds one step of `dec_pairs_at`.
proof fn lemma_dec_pairs_unfold(b: Seq<u8>, pos: int, n: nat)
    requires
        n > 0,
    ensures
        dec_pairs_at(b, pos, n) == (match dec_pair_at(b, pos) {
            None => None,
            Some((p, p1)) => opt_prefixed(seq![p], dec_pairs_at(b, p1, (n - 1) as nat)),
        }),
{
}

/// Reads a 64-bit count at `pos`.
fn read_u64(bytes: &Vec<u8>, pos: usize) -> (r: Result<(u64, usize), EditError>)
    ensures
        match r {
            Ok(v) => dec_u64_at(bytes@, pos as int) == Some((v.0, v.1 as int)) && pos < v.1
                <= bytes@.len(),
            Err(e) => dec_u64_at(bytes@, pos as int) is None && e == EditError::MalformedData,
        },
{
    if pos <= bytes.len() && bytes.len() - pos >= 8 {
        let s = slice_subrange(bytes.as_slice(), pos, pos + 8);
        let x = u64_from_le_bytes(s);
        Ok((x, pos + 8))
    } else {
        Err(EditError::MalformedData)
    }
}

/// Reads a 16-bit coordinate at `pos`.
fn read_u16(bytes: &Vec<u8>, pos: usize) -> (r: Result<(u16, usize), EditError>)
    ensures
        match r {
            Ok(v) => dec_u16_at(bytes@, pos as int) == Some((v.0, v.1 as int)) && pos < v.1
                <= bytes@.len(),
            Err(e) => dec_u16_at(bytes@, pos as int) is None && e == EditError::MalformedData,
        },
{
    if pos <= bytes.len() && bytes.len() - pos >= 2 {
        let s = slice_subrange(bytes.as_slice(), pos, pos + 2);
        let x = u16_from_le_bytes(s);
        Ok((x, pos + 2))
    } else {
        Err(EditError::MalformedData)
    }
}

/// Reads one character's UTF-8 bytes at `pos`, rejecting malformed leading
/// or continuation bytes, overlong encodings, surrogates and out-of-range
/// code points, exactly as `valid_first_scalar` demands.
fn read_char(bytes: &Vec<u8>, pos: usize) -> (r: Result<(char, usize), EditError>)
    ensures
        match r {
            Ok(v) => dec_char_at(bytes@, pos as int) == Some((v.0, v.1 as int)) && pos < v.1
                <= bytes@.len(),
            Err(e) => dec_char_at(bytes@, pos as int) is None && e == EditError::MalformedData,
        },
{
    let len = bytes.len();
    if pos >= len {
        return Err(EditError::MalformedData);
    }
    let ghost t = bytes@.subrange(pos as int, bytes@.len() as int);
    let b0 = bytes[pos];
    proof {
        assert(t[0] == b0);
    }
    if b0 < 0x80 {
        // One byte: 0xxxxxxx.
        let cp = (b0 & 0x7F) as u32;
        proof {
            assert(cp == b0 as u32 && cp < 0x80) by (bit_vector)
                requires
                    b0 < 0x80,
                    cp == (b0 & 0x7F) as u32,
            ;
            assert(cp == vstd::utf8::codepoint_width_1(t[0]));
            assert(valid_first_scalar(t));
            assert(decode_first_scalar(t) == cp && length_of_first_scalar(t) == 1);
        }
        match char::from_u32(cp) {
            Some(c) => {
                proof {
                    char_u32_cast(c, cp);
                }
                Ok((c, pos + 1))
            },
            None => {
                proof {
                    assert(false);
                }
                Err(EditError::MalformedData)
            },
        }
    } else if b0 < 0xC0 {
        // A continuation byte cannot lead.
        return Err(EditError::MalformedData);
    } else if b0 < 0xE0 {
        // Two bytes: 110xxxxx 10xxxxxx.
        if len - pos < 2 {
            return Err(EditError::MalformedData);
        }
        let b1 = bytes[pos + 1];
        proof {
            assert(t[1] == b1);
        }
        if b1 < 0x80 || b1 >= 0xC0 {
            return Err(EditError::MalformedData);
        }
        let cp = (((b0 & 0x1F) as u32) << 6) | ((b1 & 0x3F) as u32);
        proof {
            assert(cp == vstd::utf8::codepoint_width_2(t[0], t[1]));
            assert(cp <= 0x7FF) by (bit_vector)
                requires
                    cp == (((b0 & 0x1F) as u32) << 6) | ((b1 & 0x3F) as u32),
            ;
        }
        if cp < 0x80 {
            // Overlong two-byte encoding.
            return Err(EditError::MalformedData);
        }
        proof {
            assert(valid_first_scalar(t));
            assert(decode_first_scalar(t) == cp && length_of_first_scalar(t) == 2);
        }
        match char::from_u32(cp) {
            Some(c) => {
                proof {
                    char_u32_cast(c, cp);
                }
                Ok((c, pos + 2))
            },
            None => {
                proof {
                    assert(false);
                }
                Err(EditError::MalformedData)
            },
        }
    } else if b0 < 0xF0 {
        // Three bytes: 1110xxxx 10xxxxxx 10xxxxxx.
        if len - pos < 3 {
            return Err(EditError::MalformedData);
        }
        let b1 = bytes[pos + 1];
        let b2 = bytes[pos + 2];
        proof {
            assert(t[1] == b1 && t[2] == b2);
        }
        if b1 < 0x80 || b1 >= 0xC0 || b2 < 0x80 || b2 >= 0xC0 {
            return Err(EditError::MalformedData);
        }
        let cp = (((b0 & 0x0F) as u32) << 12) | (((b1 & 0x3F) as u32) << 6) | ((b2 & 0x3F) as u32);
        proof {
            assert(cp == vstd::utf8::codepoint_width_3(t[0], t[1], t[2]));
            assert(cp <= 0xFFFF) by (bit_vector)
                requires
                    cp == (((b0 & 0x0F) as u32) << 12) | (((b1 & 0x3F) as u32) << 6) | ((b2 & 0x3F)
                        as u32),
            ;
        }
        if cp < 0x800 {
            // Overlong three-byte encoding.
            return Err(EditError::MalformedData);
        }
        if cp >= 0xD800 && cp <= 0xDFFF {
            // Surrogate range.
            return Err(EditError::MalformedData);
        }
        proof {
            assert(valid_first_scalar(t));
            assert(decode_first_scalar(t) == cp && length_of_first_scalar(t) == 3);
        }
        match char::from_u32(cp) {
            Some(c) => {
                proof {
                    char_u32_cast(c, cp);
                }
                Ok((c, pos + 3))
            },
            None => {
                proof {
                    assert(false);
                }
                Err(EditError::MalformedData)
            },
        }
    } else if b0 < 0xF8 {
        // Four bytes: 11110xxx 10xxxxxx 10xxxxxx 10xxxxxx.
        if len - pos < 4 {
            return Err(EditError::MalformedData);
        }
        let b1 = bytes[pos + 1];
        let b2 = bytes[pos + 2];
        let b3 = bytes[pos + 3];
        proof {
            assert(t[1] == b1 && t[2] == b2 && t[3] == b3);
        }
        if b1 < 0x80 || b1 >= 0xC0 || b2 < 0x80 || b2 >= 0xC0 || b3 < 0x80 || b3 >= 0xC0 {
            return Err(EditError::MalformedData);
        }
        let cp = (((b0 & 0x7) as u32) << 18) | (((b1 & 0x3F) as u32) << 12) | (((b2
            & 0x3F) as u32) << 6) | ((b3 & 0x3F) as u32);
        proof {
            assert(cp == vstd::utf8::codepoint_width_4(t[0], t[1], t[2], t[3]));
        }
        if cp < 0x10000 {
            // Overlong four-byte encoding.
            return Err(EditError::MalformedData);
        }
        if cp > 0x10FFFF {
            // Beyond the last Unicode scalar.
            return Err(EditError::MalformedData);
        }
        proof {
            assert(valid_first_scalar(t));
            assert(decode_first_scalar(t) == cp && length_of_first_scalar(t) == 4);
        }
        match char::from_u32(cp) {
            Some(c) => {
                proof {
                    char_u32_cast(c, cp);
                }
                Ok((c, pos + 4))
            },
            None => {
                proof {
                    assert(false);
                }
                Err(EditError::MalformedData)
            },
        }
    } else {
        // 0xF8..=0xFF never leads a UTF-8 encoding.
        return Err(EditError::MalformedData);
    }
}

/// Reads one point at `pos`.
fn read_point(bytes: &Vec<u8>, pos: usize) -> (r: Result<(Point, usize), EditError>)
    ensures
        match r {
            Ok(v) => dec_point_at(bytes@, pos as int) == Some((v.0, v.1 as int)) && pos < v.1
                <= bytes@.len(),
            Err(e) => dec_point_at(bytes@, pos as int) is None && e == EditError::MalformedData,
        },
{
    match read_u16(bytes, pos) {
        Err(e) => Err(e),
        Ok((x, p1)) => match read_u16(bytes, p1) {
            Err(e) => Err(e),
            Ok((y, p2)) => Ok((Point { x, y }, p2)),
        },
    }
}

/// Reads exactly `n` points starting at `pos`.
fn read_points(bytes: &Vec<u8>, pos: usize, n: u64) -> (r: Result<(Vec<Point>, usize), EditError>)
    requires
        pos <= bytes@.len(),
    ensures
        match r {
            Ok(v) => dec_points_at(bytes@, pos as int, n as nat) == Some((v.0@, v.1 as int)) && pos
                <= v.1 <= bytes@.len(),
            Err(e) => dec_points_at(bytes@, pos as int, n as nat) is None && e
                == EditError::MalformedData,
        },
{
    let mut v: Vec<Point> = Vec::new();
    let mut cur = pos;
    let mut i: u64 = 0;
    proof {
        lemma_opt_prefixed_empty(dec_points_at(bytes@, pos as int, n as nat));
    }
    while i < n
        invariant
            i <= n,
            pos <= cur <= bytes@.len(),
            dec_points_at(bytes@, pos as int, n as nat) == opt_prefixed(
                v@,
                dec_points_at(bytes@, cur as int, (n - i) as nat),
            ),
        decreases n - i,
    {
        match read_point(bytes, cur) {
            Ok((p, np)) => {
                proof {
                    lemma_dec_points_unfold(bytes@, cur as int, (n - i) as nat);
                    lemma_opt_prefixed_step(
                        v@,
                        p,
                        dec_points_at(bytes@, np as int, (n - i - 1) as nat),
                    );
                }
                v.push(p);
                cur = np;
                i = i + 1;
            },
            Err(e) => {
                proof {
                    lemma_dec_points_unfold(bytes@, cur as int, (n - i) as nat);
                }
                return Err(e);
            },
        }
    }
    proof {
        assert(dec_points_at(bytes@, cur as int, 0) == Some((Seq::<Point>::empty(), cur as int)));
        assert(v@ + Seq::<Point>::empty() =~= v@);
    }
    Ok((v, cur))
}

/// Reads one stroke at `pos`: its point count, then its points.
fn read_stroke(bytes: &Vec<u8>, pos: usize) -> (r: Result<(Vec<Point>, usize), EditError>)
    ensures
        match r {
            Ok(v) => dec_stroke_at(bytes@, pos as int) == Some((v.0@, v.1 as int)) && pos <= v.1
                <= bytes@.len(),
            Err(e) => dec_stroke_at(bytes@, pos as int) is None && e == EditError::MalformedData,
        },
{
    match read_u64(bytes, pos) {
        Err(e) => Err(e),
        Ok((n, p1)) => read_points(bytes, p1, n),
    }
}

/// Reads exactly `n` strokes starting at `pos`.
fn read_strokes(bytes: &Vec<u8>, pos: usize, n: u64) -> (r: Result<
    (Vec<Vec<Point>>, usize),
    EditError,
>)
    requires
        pos <= bytes@.len(),
    ensures
        match r {
            Ok(v) => dec_strokes_at(bytes@, pos as int, n as nat) == Some(
                (strokes_view(v.0@), v.1 as int),
            ) && pos <= v.1 <= bytes@.len(),
            Err(e) => dec_strokes_at(bytes@, pos as int, n as nat) is None && e
                == EditError::MalformedData,
        },
{
    let mut v: Vec<Vec<Point>> = Vec::new();
    let mut cur = pos;
    let mut i: u64 = 0;
    proof {
        lemma_opt_prefixed_empty(dec_strokes_at(bytes@, pos as int, n as nat));
        assert(strokes_view(v@) =~= Seq::<Seq<Point>>::empty());
    }
    while i < n
        invariant
            i <= n,
            pos <= cur <= bytes@.len(),
            dec_strokes_at(bytes@, pos as int, n as nat) == opt_prefixed(
                strokes_view(v@),
                dec_strokes_at(bytes@, cur as int, (n - i) as nat),
            ),
        decreases n - i,
    {
        match read_stroke(bytes, cur) {
            Ok((s, np)) => {
                proof {
                    lemma_dec_strokes_unfold(bytes@, cur as int, (n - i) as nat);
                    lemma_opt_prefixed_step(
                        strokes_view(v@),
                        s@,
                        dec_strokes_at(bytes@, np as int, (n - i - 1) as nat),
                    );
                    assert(strokes_view(v@.push(s)) =~= strokes_view(v@).push(s@));
                }
                v.push(s);
                cur = np;
                i = i + 1;
            },
            Err(e) => {
                proof {
                    lemma_dec_strokes_unfold(bytes@, cur as int, (n - i) as nat);
                }
                return Err(e);
            },
        }
    }
    proof {
        assert(dec_strokes_at(bytes@, cur as int, 0) == Some(
            (Seq::<Seq<Point>>::empty(), cur as int),
        ));
        assert(strokes_view(v@) + Seq::<Seq<Point>>::empty() =~= strokes_view(v@));
    }
    Ok((v, cur))
}

/// Reads one pair at `pos`: the character, then its stroke list.
fn read_pair(bytes: &Vec<u8>, pos: usize) -> (r: Result<
    ((char, Vec<Vec<Point>>), usize),
    EditError,
>)
    ensures
        match r {
            Ok(v) => dec_pair_at(bytes@, pos as int) == Some(
                ((v.0.0, strokes_view(v.0.1@)), v.1 as int),
            ) && pos <= v.1 <= bytes@.len(),
            Err(e) => dec_pair_at(bytes@, pos as int) is None && e == EditError::MalformedData,
        },
{
    match read_char(bytes, pos) {
        Err(e) => Err(e),
        Ok((c, p1)) => match read_u64(bytes, p1) {
            Err(e) => Err(e),
            Ok((n, p2)) => match read_strokes(bytes, p2, n) {
                Err(e) => Err(e),
                Ok((ss, p3)) => Ok(((c, ss), p3)),
            },
        },
    }
}

/// Reads exactly `n` pairs starting at `pos`.
fn read_pairs(bytes: &Vec<u8>, pos: usize, n: u64) -> (r: Result<
    (Vec<(char, Vec<Vec<Point>>)>, usize),
    EditError,
>)
    requires
        pos <= bytes@.len(),
    ensures
        match r {
            Ok(v) => dec_pairs_at(bytes@, pos as int, n as nat) == Some(
                (pairs_view(v.0@), v.1 as int),
            ) && pos <= v.1 <= bytes@.len(),
            Err(e) => dec_pairs_at(bytes@, pos as int, n as nat) is None && e
                == EditError::MalformedData,
        },
{
    let mut v: Vec<(char, Vec<Vec<Point>>)> = Vec::new();
    let mut cur = pos;
    let mut i: u64 = 0;
    proof {
        lemma_opt_prefixed_empty(dec_pairs_at(bytes@, pos as int, n as nat));
        assert(pairs_view(v@) =~= Seq::<(char, Seq<Seq<Point>>)>::empty());
    }
    while i < n
        invariant
            i <= n,
            pos <= cur <= bytes@.len(),
            dec_pairs_at(bytes@, pos as int, n as nat) == opt_prefixed(
                pairs_view(v@),
                dec_pairs_at(bytes@, cur as int, (n - i) as nat),
            ),
        decreases n - i,
    {
        match read_pair(bytes, cur) {
            Ok((p, np)) => {
                proof {
                    lemma_dec_pairs_unfold(bytes@, cur as int, (n - i) as nat);
                    lemma_opt_prefixed_step(
                        pairs_view(v@),
                        (p.0, strokes_view(p.1@)),
                        dec_pairs_at(bytes@, np as int, (n - i - 1) as nat),
                    );
                    assert(pairs_view(v@.push(p)) =~= pairs_view(v@).push(
                        (p.0, strokes_view(p.1@)),
                    ));
                }
                v.push(p);
                cur = np;
                i = i + 1;
            },
            Err(e) => {
                proof {
                    lemma_dec_pairs_unfold(bytes@, cur as int, (n - i) as nat);
                }
                return Err(e);
            },
        }
    }
    proof {
        assert(dec_pairs_at(bytes@, cur as int, 0) == Some(
            (Seq::<(char, Seq<Seq<Point>>)>::empty(), cur as int),
        ));
        assert(pairs_view(v@) + Seq::<(char, Seq<Seq<Point>>)>::empty() =~= pairs_view(v@));
    }
    Ok((v, cur))
}

/// Decodes the persisted byte form back into the ordered pair list, failing
/// with `MalformedData` on truncated or structurally invalid input, trailing
/// garbage included.
pub fn decode_pairs(bytes: &Vec<u8>) -> (r: Result<Vec<(char, Vec<Vec<Point>>)>, EditError>)
    ensures
        match r {
            Ok(v) => dec_file(bytes@) == Some(pairs_view(v@)),
            Err(e) => dec_file(bytes@) is None && e == EditError::MalformedData,
        },
{
    match read_u64(bytes, 0) {
        Err(e) => Err(e),
        Ok((n, p1)) => match read_pairs(bytes, p1, n) {
            Err(e) => Err(e),
            Ok((v, end)) => {
                if end == bytes.len() {
                    Ok(v)
                } else {
                    Err(EditError::MalformedData)
                }
            },
        },
    }
}


/// True when every count in the pair list fits the 64-bit fields of the
/// format; every list that fits in memory does.
pub open spec fn bounded_pairs(ps: Seq<(char, Seq<Seq<Point>>)>) -> bool {
    &&& ps.len() <= u64::MAX
    &&& forall|i: int|
        0 <= i < ps.len() ==> (#[trigger] ps[i].1.len() <= u64::MAX && forall|j: int|
            0 <= j < ps[i].1.len() ==> #[trigger] ps[i].1[j].len() <= u64::MAX)
}

/// When `b` carries `full` at `pos`, it carries every window of `full` at
/// the corresponding offset.
proof fn lemma_window(b: Seq<u8>, pos: int, off: int, w: Seq<u8>, full: Seq<u8>)
    requires
        0 <= pos,
        0 <= off,
        off + w.len() <= full.len(),
        pos + full.len() <= b.len(),
        b.subrange(pos, pos + full.len() as int) == full,
        w == full.subrange(off, off + w.len() as int),
    ensures
        b.subrange(pos + off, pos + off + w.len() as int) == w,
{
    assert forall|k: int|
        0 <= k < w.len() implies b.subrange(pos + off, pos + off + w.len() as int)[k] == w[k] by {
        assert(b.subrange(pos + off, pos + off + w.len() as int)[k] == b[pos + off + k]);
        assert(b.subrange(pos, pos + full.len() as int)[off + k] == b[pos + off + k]);
        assert(w[k] == full.subrange(off, off + w.len() as int)[k]);
    }
    assert(b.subrange(pos + off, pos + off + w.len() as int) =~= w);
}

/// A 64-bit count decodes back from its encoding, wherever it sits.
proof fn lemma_dec_enc_u64(b: Seq<u8>, pos: int, x: u64)
    requires
        0 <= pos,
        pos + 8 <= b.len(),
        b.subrange(pos, pos + 8) == enc_u64(x),
    ensures
        dec_u64_at(b, pos) == Some((x, pos + 8)),
{
    lemma_auto_spec_u64_to_from_le_bytes();
}

/// A 16-bit coordinate decodes back from its encoding, wherever it sits.
proof fn lemma_dec_enc_u16(b: Seq<u8>, pos: int, x: u16)
    requires
        0 <= pos,
        pos + 2 <= b.len(),
        b.subrange(pos, pos + 2) == enc_u16(x),
    ensures
        dec_u16_at(b, pos) == Some((x, pos + 2)),
{
    lemma_auto_spec_u16_to_from_le_bytes();
    assert(spec_u16_to_le_bytes(x).len() == 2);
    assert(spec_u16_from_le_bytes(spec_u16_to_le_bytes(x)) == x);
}

/// A point decodes back from its encoding, wherever it sits.
proof fn lemma_dec_enc_point(b: Seq<u8>, pos: int, p: Point)
    requires
        0 <= pos,
        pos + 4 <= b.len(),
        b.subrange(pos, pos + 4) == enc_point(p),
    ensures
        dec_point_at(b, pos) == Some((p, pos + 4)),
{
    lemma_auto_spec_u16_to_from_le_bytes();
    assert(spec_u16_to_le_bytes(p.x).len() == 2);
    assert(spec_u16_to_le_bytes(p.y).len() == 2);
    let full = enc_point(p);
    assert(enc_u16(p.x) =~= full.subrange(0, 2));
    assert(enc_u16(p.y) =~= full.subrange(2, 4));
    lemma_window(b, pos, 0, enc_u16(p.x), full);
    lemma_window(b, pos, 2, enc_u16(p.y), full);
    lemma_dec_enc_u16(b, pos, p.x);
    lemma_dec_enc_u16(b, pos + 2, p.y);
}

/// The first scalar of a byte sequence is decided by its first few bytes
/// alone: any sequence that starts with the same bytes decodes the same
/// scalar with the same width.
proof fn lemma_first_scalar_prefix(a: Seq<u8>, t: Seq<u8>)
    requires
        valid_first_scalar(a),
        length_of_first_scalar(a) <= a.len(),
        length_of_first_scalar(a) <= t.len(),
        t.subrange(0, length_of_first_scalar(a)) == a.subrange(0, length_of_first_scalar(a)),
    ensures
        valid_first_scalar(t),
        decode_first_scalar(t) == decode_first_scalar(a),
        length_of_first_scalar(t) == length_of_first_scalar(a),
{
    let w = length_of_first_scalar(a);
    assert(t.subrange(0, w)[0] == t[0] && a.subrange(0, w)[0] == a[0]);
    if w >= 2 {
        assert(t.subrange(0, w)[1] == t[1] && a.subrange(0, w)[1] == a[1]);
    }
    if w >= 3 {
        assert(t.subrange(0, w)[2] == t[2] && a.subrange(0, w)[2] == a[2]);
    }
    if w >= 4 {
        assert(t.subrange(0, w)[3] == t[3] && a.subrange(0, w)[3] == a[3]);
    }
}

/// A character decodes back from its UTF-8 encoding, wherever it sits.
proof fn lemma_dec_enc_char(b: Seq<u8>, pos: int, c: char)
    requires
        0 <= pos,
        pos + enc_char(c).len() <= b.len(),
        b.subrange(pos, pos + enc_char(c).len() as int) == enc_char(c),
    ensures
        dec_char_at(b, pos) == Some((c, pos + enc_char(c).len())),
        1 <= enc_char(c).len() <= 4,
{
    char_is_scalar(c);
    let ec = enc_char(c);
    assert(1 <= ec.len() <= 4);
    encode_utf8_first_scalar(seq![c]);
    assert(encode_utf8(seq![c]) =~= ec) by {
        assert(seq![c].drop_first() =~= Seq::<char>::empty());
        assert(encode_utf8(seq![c].drop_first()) == Seq::<u8>::empty());
        assert(seq![c][0] == c);
    }
    assert(valid_first_scalar(ec));
    assert(decode_first_scalar(ec) == c as u32);
    assert(length_of_first_scalar(ec) == ec.len());
    let t = b.subrange(pos, b.len() as int);
    assert(t.subrange(0, ec.len() as int) =~= ec.subrange(0, ec.len() as int)) by {
        assert(forall|k: int|
            0 <= k < ec.len() ==> #[trigger] t.subrange(0, ec.len() as int)[k] == t[k] && t[k]
                == b[pos + k]);
        assert(forall|k: int|
            0 <= k < ec.len() ==> #[trigger] b.subrange(pos, pos + ec.len() as int)[k] == b[pos
                + k]);
        assert(ec.subrange(0, ec.len() as int) =~= ec);
    }
    lemma_first_scalar_prefix(ec, t);
    char_u32_cast(c, c as u32);
    assert(dec_char_at(b, pos) == Some((c, pos + ec.len())));
}

/// What a character decode consumed is exactly the UTF-8 encoding of the
/// character it returned.
proof fn lemma_enc_from_dec_char(b: Seq<u8>, pos: int)
    requires
        dec_char_at(b, pos) is Some,
    ensures
        ({
            let (c, e) = dec_char_at(b, pos).unwrap();
            &&& pos < e <= b.len()
            &&& b.subrange(pos, e) == enc_char(c)
        }),
{
    let (c, e) = dec_char_at(b, pos).unwrap();
    let t = b.subrange(pos, b.len() as int);
    let w = length_of_first_scalar(t);
    assert(1 <= w <= 4 && w <= t.len());
    let t1 = t.subrange(0, w);
    assert(t1 == take_first_scalar(t));
    assert(t1.subrange(0, w) =~= t.subrange(0, w));
    lemma_first_scalar_prefix(t, t1);
    assert(valid_utf8(t1)) by {
        assert(length_of_first_scalar(t1) == w == t1.len());
        assert(pop_first_scalar(t1) =~= Seq::<u8>::empty());
        assert(valid_utf8(Seq::<u8>::empty()));
    }
    decode_utf8_first_scalar(t1);
    assert(take_first_scalar(t1) =~= t1);
    assert(decode_first_scalar(t1) == decode_first_scalar(t));
    assert(c == decode_first_scalar(t) as char);
    assert(encode_scalar((decode_first_scalar(t1) as char) as u32) == t1);
    assert(enc_char(c) == t1);
    assert(b.subrange(pos, pos + w) =~= t1);
    assert(e == pos + w);
}

/// A point list decodes back from its encoding, wherever it sits.
proof fn lemma_dec_enc_points(b: Seq<u8>, pos: int, ps: Seq<Point>)
    requires
        0 <= pos,
        pos + enc_points(ps).len() <= b.len(),
        b.subrange(pos, pos + enc_points(ps).len() as int) == enc_points(ps),
    ensures
        dec_points_at(b, pos, ps.len() as nat) == Some((ps, pos + enc_points(ps).len())),
    decreases ps.len(),
{
    lemma_auto_spec_u16_to_from_le_bytes();
    if ps.len() == 0 {
        assert(dec_points_at(b, pos, 0) == Some((Seq::<Point>::empty(), pos)));
        assert(ps =~= Seq::<Point>::empty());
    } else {
        let full = enc_points(ps);
        let e0 = enc_point(ps[0]);
        let rest = enc_points(ps.drop_first());
        assert(full == e0 + rest);
        assert(spec_u16_to_le_bytes(ps[0].x).len() == 2);
        assert(spec_u16_to_le_bytes(ps[0].y).len() == 2);
        assert(e0.len() == 4);
        assert(e0 =~= full.subrange(0, 4));
        assert(rest =~= full.subrange(4, full.len() as int));
        lemma_window(b, pos, 0, e0, full);
        lemma_window(b, pos, 4, rest, full);
        lemma_dec_enc_point(b, pos, ps[0]);
        lemma_dec_enc_points(b, pos + 4, ps.drop_first());
        assert(seq![ps[0]] + ps.drop_first() =~= ps);
        assert(dec_points_at(b, pos, ps.len() as nat) == Some((ps, pos + enc_points(ps).len())));
    }
}

/// A stroke decodes back from its encoding, wherever it sits.
proof fn lemma_dec_enc_stroke(b: Seq<u8>, pos: int, ps: Seq<Point>)
    requires
        0 <= pos,
        ps.len() <= u64::MAX,
        pos + enc_stroke(ps).len() <= b.len(),
        b.subrange(pos, pos + enc_stroke(ps).len() as int) == enc_stroke(ps),
    ensures
        dec_stroke_at(b, pos) == Some((ps, pos + enc_stroke(ps).len())),
{
    lemma_auto_spec_u64_to_from_le_bytes();
    let n = ps.len() as u64;
    let full = enc_stroke(ps);
    let e0 = enc_u64(n);
    let rest = enc_points(ps);
    assert(full == e0 + rest);
    assert(e0.len() == 8);
    assert(e0 =~= full.subrange(0, 8));
    assert(rest =~= full.subrange(8, full.len() as int));
    lemma_window(b, pos, 0, e0, full);
    lemma_window(b, pos, 8, rest, full);
    lemma_dec_enc_u64(b, pos, n);
    lemma_dec_enc_points(b, pos + 8, ps);
    assert(n as nat == ps.len());
}

/// A stroke list decodes back from its encoding, wherever it sits.
proof fn lemma_dec_enc_strokes(b: Seq<u8>, pos: int, ss: Seq<Seq<Point>>)
    requires
        0 <= pos,
        forall|j: int| 0 <= j < ss.len() ==> #[trigger] ss[j].len() <= u64::MAX,
        pos + enc_strokes(ss).len() <= b.len(),
        b.subrange(pos, pos + enc_strokes(ss).len() as int) == enc_strokes(ss),
    ensures
        dec_strokes_at(b, pos, ss.len() as nat) == Some((ss, pos + enc_strokes(ss).len())),
    decreases ss.len(),
{
    if ss.len() == 0 {
        assert(ss =~= Seq::<Seq<Point>>::empty());
    } else {
        let full = enc_strokes(ss);
        let e0 = enc_stroke(ss[0]);
        let rest = enc_strokes(ss.drop_first());
        assert(full == e0 + rest);
        assert(e0 =~= full.subrange(0, e0.len() as int));
        assert(rest =~= full.subrange(e0.len() as int, full.len() as int));
        lemma_window(b, pos, 0, e0, full);
        lemma_window(b, pos, e0.len() as int, rest, full);
        lemma_dec_enc_stroke(b, pos, ss[0]);
        assert(forall|j: int|
            0 <= j < ss.drop_first().len() ==> ss.drop_first()[j] == #[trigger] ss[j + 1]);
        lemma_dec_enc_strokes(b, pos + e0.len(), ss.drop_first());
        assert(seq![ss[0]] + ss.drop_first() =~= ss);
        assert(dec_strokes_at(b, pos, ss.len() as nat) == Some((ss, pos + enc_strokes(ss).len())));
    }
}

/// A pair decodes back from its encoding, wherever it sits.
proof fn lemma_dec_enc_pair(b: Seq<u8>, pos: int, p: (char, Seq<Seq<Point>>))
    requires
        0 <= pos,
        p.1.len() <= u64::MAX,
        forall|j: int| 0 <= j < p.1.len() ==> #[trigger] p.1[j].len() <= u64::MAX,
        pos + enc_pair(p).len() <= b.len(),
        b.subrange(pos, pos + enc_pair(p).len() as int) == enc_pair(p),
    ensures
        dec_pair_at(b, pos) == Some((p, pos + enc_pair(p).len())),
{
    lemma_auto_spec_u64_to_from_le_bytes();
    let full = enc_pair(p);
    let ec = enc_char(p.0);
    let en = enc_u64(p.1.len() as u64);
    let es = enc_strokes(p.1);
    assert(full == ec + en + es);
    assert(en.len() == 8);
    assert(ec =~= full.subrange(0, ec.len() as int));
    assert(en =~= full.subrange(ec.len() as int, ec.len() as int + 8));
    assert(es =~= full.subrange(ec.len() as int + 8, full.len() as int));
    lemma_window(b, pos, 0, ec, full);
    lemma_window(b, pos, ec.len() as int, en, full);
    lemma_window(b, pos, ec.len() as int + 8, es, full);
    lemma_dec_enc_char(b, pos, p.0);
    let p1 = pos + ec.len();
    lemma_dec_enc_u64(b, p1, p.1.len() as u64);
    let p2 = p1 + 8;
    lemma_dec_enc_strokes(b, p2, p.1);
    assert((p.1.len() as u64) as nat == p.1.len());
    assert(dec_pair_at(b, pos) == Some((p, pos + enc_pair(p).len())));
}

/// A pair list decodes back from its encoding, wherever it sits.
proof fn lemma_dec_enc_pairs(b: Seq<u8>, pos: int, ps: Seq<(char, Seq<Seq<Point>>)>)
    requires
        0 <= pos,
        bounded_pairs(ps),
        pos + enc_pairs(ps).len() <= b.len(),
        b.subrange(pos, pos + enc_pairs(ps).len() as int) == enc_pairs(ps),
    ensures
        dec_pairs_at(b, pos, ps.len() as nat) == Some((ps, pos + enc_pairs(ps).len())),
    decreases ps.len(),
{
    if ps.len() == 0 {
        assert(ps =~= Seq::<(char, Seq<Seq<Point>>)>::empty());
    } else {
        let full = enc_pairs(ps);
        let e0 = enc_pair(ps[0]);
        let rest = enc_pairs(ps.drop_first());
        assert(full == e0 + rest);
        assert(e0 =~= full.subrange(0, e0.len() as int));
        assert(rest =~= full.subrange(e0.len() as int, full.len() as int));
        lemma_window(b, pos, 0, e0, full);
        lemma_window(b, pos, e0.len() as int, rest, full);
        lemma_dec_enc_pair(b, pos, ps[0]);
        assert(bounded_pairs(ps.drop_first())) by {
            assert(forall|j: int|
                0 <= j < ps.drop_first().len() ==> ps.drop_first()[j] == #[trigger] ps[j + 1]);
        }
        lemma_dec_enc_pairs(b, pos + e0.len(), ps.drop_first());
        assert(seq![ps[0]] + ps.drop_first() =~= ps);
        assert(dec_pairs_at(b, pos, ps.len() as nat) == Some((ps, pos + enc_pairs(ps).len())));
    }
}

/// What a count decode consumed is exactly the encoding of the count.
proof fn lemma_enc_from_dec_u64(b: Seq<u8>, pos: int)
    requires
        dec_u64_at(b, pos) is Some,
    ensures
        ({
            let (x, e) = dec_u64_at(b, pos).unwrap();
            &&& 0 <= pos < e == pos + 8 <= b.len()
            &&& b.subrange(pos, e) == enc_u64(x)
        }),
{
    lemma_auto_spec_u64_to_from_le_bytes();
    assert(b.subrange(pos, pos + 8).len() == 8);
}

/// What a coordinate decode consumed is exactly the encoding of the
/// coordinate.
proof fn lemma_enc_from_dec_u16(b: Seq<u8>, pos: int)
    requires
        dec_u16_at(b, pos) is Some,
    ensures
        ({
            let (x, e) = dec_u16_at(b, pos).unwrap();
            &&& 0 <= pos < e == pos + 2 <= b.len()
            &&& b.subrange(pos, e) == enc_u16(x)
        }),
{
    lemma_auto_spec_u16_to_from_le_bytes();
    assert(b.subrange(pos, pos + 2).len() == 2);
}

/// What a point decode consumed is exactly the encoding of the point.
proof fn lemma_enc_from_dec_point(b: Seq<u8>, pos: int)
    requires
        dec_point_at(b, pos) is Some,
    ensures
        ({
            let (p, e) = dec_point_at(b, pos).unwrap();
            &&& 0 <= pos < e == pos + 4 <= b.len()
            &&& b.subrange(pos, e) == enc_point(p)
        }),
{
    let (p, e) = dec_point_at(b, pos).unwrap();
    lemma_enc_from_dec_u16(b, pos);
    lemma_enc_from_dec_u16(b, pos + 2);
    assert(b.subrange(pos, pos + 4) =~= b.subrange(pos, pos + 2) + b.subrange(pos + 2, pos + 4));
}

/// What a point-list decode consumed is exactly the encoding of the list.
proof fn lemma_enc_from_dec_points(b: Seq<u8>, pos: int, n: nat)
    requires
        0 <= pos <= b.len(),
        dec_points_at(b, pos, n) is Some,
    ensures
        ({
            let (ps, e) = dec_points_at(b, pos, n).unwrap();
            &&& ps.len() == n
            &&& pos <= e <= b.len()
            &&& b.subrange(pos, e) == enc_points(ps)
        }),
    decreases n,
{
    let (ps, e) = dec_points_at(b, pos, n).unwrap();
    if n == 0 {
        assert(b.subrange(pos, pos) =~= Seq::<u8>::empty());
        assert(enc_points(ps) == Seq::<u8>::empty());
    } else {
        let (p, p1) = dec_point_at(b, pos).unwrap();
        lemma_enc_from_dec_point(b, pos);
        let (ps2, e2) = dec_points_at(b, p1, (n - 1) as nat).unwrap();
        lemma_enc_from_dec_points(b, p1, (n - 1) as nat);
        assert(ps == seq![p] + ps2 && e == e2);
        assert(ps[0] == p && ps.drop_first() =~= ps2);
        assert(b.subrange(pos, e) =~= b.subrange(pos, p1) + b.subrange(p1, e));
        assert(enc_points(ps) == enc_point(p) + enc_points(ps2));
    }
}

/// What a stroke decode consumed is exactly the encoding of the stroke.
proof fn lemma_enc_from_dec_stroke(b: Seq<u8>, pos: int)
    requires
        dec_stroke_at(b, pos) is Some,
    ensures
        ({
            let (ps, e) = dec_stroke_at(b, pos).unwrap();
            &&& ps.len() <= u64::MAX
            &&& 0 <= pos < e <= b.len()
            &&& b.subrange(pos, e) == enc_stroke(ps)
        }),
{
    let (ps, e) = dec_stroke_at(b, pos).unwrap();
    let (n, p1) = dec_u64_at(b, pos).unwrap();
    lemma_enc_from_dec_u64(b, pos);
    lemma_enc_from_dec_points(b, p1, n as nat);
    assert(ps.len() == n as nat);
    assert(ps.len() as u64 == n);
    assert(b.subrange(pos, e) =~= b.subrange(pos, p1) + b.subrange(p1, e));
}

/// What a stroke-list decode consumed is exactly the encoding of the list.
proof fn lemma_enc_from_dec_strokes(b: Seq<u8>, pos: int, n: nat)
    requires
        0 <= pos <= b.len(),
        dec_strokes_at(b, pos, n) is Some,
    ensures
        ({
            let (ss, e) = dec_strokes_at(b, pos, n).unwrap();
            &&& ss.len() == n
            &&& pos <= e <= b.len()
            &&& forall|j: int| 0 <= j < ss.len() ==> #[trigger] ss[j].len() <= u64::MAX
            &&& b.subrange(pos, e) == enc_strokes(ss)
        }),
    decreases n,
{
    let (ss, e) = dec_strokes_at(b, pos, n).unwrap();
    if n == 0 {
        assert(b.subrange(pos, pos) =~= Seq::<u8>::empty());
        assert(enc_strokes(ss) == Seq::<u8>::empty());
    } else {
        let (s, p1) = dec_stroke_at(b, pos).unwrap();
        lemma_enc_from_dec_stroke(b, pos);
        let (ss2, e2) = dec_strokes_at(b, p1, (n - 1) as nat).unwrap();
        lemma_enc_from_dec_strokes(b, p1, (n - 1) as nat);
        assert(ss == seq![s] + ss2 && e == e2);
        assert(ss[0] == s && ss.drop_first() =~= ss2);
        assert(forall|j: int| 0 < j < ss.len() ==> ss[j] == #[trigger] ss2[j - 1]);
        assert(b.subrange(pos, e) =~= b.subrange(pos, p1) + b.subrange(p1, e));
        assert(enc_strokes(ss) == enc_stroke(s) + enc_strokes(ss2));
    }
}

/// What a pair decode consumed is exactly the encoding of the pair.
proof fn lemma_enc_from_dec_pair(b: Seq<u8>, pos: int)
    requires
        dec_pair_at(b, pos) is Some,
    ensures
        ({
            let (p, e) = dec_pair_at(b, pos).unwrap();
            &&& 0 <= pos < e <= b.len()
            &&& p.1.len() <= u64::MAX
            &&& forall|j: int| 0 <= j < p.1.len() ==> #[trigger] p.1[j].len() <= u64::MAX
            &&& b.subrange(pos, e) == enc_pair(p)
        }),
{
    let (p, e) = dec_pair_at(b, pos).unwrap();
    let (c, p1) = dec_char_at(b, pos).unwrap();
    lemma_enc_from_dec_char(b, pos);
    let (n, p2) = dec_u64_at(b, p1).unwrap();
    lemma_enc_from_dec_u64(b, p1);
    let (ss, e3) = dec_strokes_at(b, p2, n as nat).unwrap();
    lemma_enc_from_dec_strokes(b, p2, n as nat);
    assert(ss.len() == n as nat);
    assert(ss.len() as u64 == n);
    assert(b.subrange(pos, e) =~= b.subrange(pos, p1) + b.subrange(p1, p2) + b.subrange(p2, e));
    assert(enc_pair(p) == enc_char(c) + enc_u64(n) + enc_strokes(ss));
}

/// What a pair-list decode consumed is exactly the encoding of the list.
proof fn lemma_enc_from_dec_pairs(b: Seq<u8>, pos: int, n: nat)
    requires
        0 <= pos <= b.len(),
        dec_pairs_at(b, pos, n) is Some,
    ensures
        ({
            let (ps, e) = dec_pairs_at(b, pos, n).unwrap();
            &&& ps.len() == n
            &&& pos <= e <= b.len()
            &&& b.subrange(pos, e) == enc_pairs(ps)
        }),
    decreases n,
{
    let (ps, e) = dec_pairs_at(b, pos, n).unwrap();
    if n == 0 {
        assert(b.subrange(pos, pos) =~= Seq::<u8>::empty());
        assert(enc_pairs(ps) == Seq::<u8>::empty());
    } else {
        let (p, p1) = dec_pair_at(b, pos).unwrap();
        lemma_enc_from_dec_pair(b, pos);
        let (ps2, e2) = dec_pairs_at(b, p1, (n - 1) as nat).unwrap();
        lemma_enc_from_dec_pairs(b, p1, (n - 1) as nat);
        assert(ps == seq![p] + ps2 && e == e2);
        assert(ps[0] == p && ps.drop_first() =~= ps2);
        assert(b.subrange(pos, e) =~= b.subrange(pos, p1) + b.subrange(p1, e));
        assert(enc_pairs(ps) == enc_pair(p) + enc_pairs(ps2));
    }
}

/// The format is unambiguous: bytes that parse as a pair list are exactly
/// that list's encoding, so no two distinct lists share a byte form.
pub proof fn lemma_codec_unambiguous(b: Seq<u8>)
    ensures
        dec_file(b) matches Some(ps) ==> enc_file(ps) == b,
{
    if dec_file(b) is Some {
        let ps = dec_file(b).unwrap();
        let (n, p1) = dec_u64_at(b, 0).unwrap();
        lemma_enc_from_dec_u64(b, 0);
        let (ps2, e) = dec_pairs_at(b, p1, n as nat).unwrap();
        lemma_enc_from_dec_pairs(b, p1, n as nat);
        assert(ps == ps2 && e == b.len());
        assert(ps.len() as u64 == n);
        assert(b =~= b.subrange(0, 8) + b.subrange(8, b.len() as int));
        assert(enc_file(ps) == enc_u64(n) + enc_pairs(ps));
    }
}

/// Round-trip law: decoding an encoded pair list yields exactly that list.
/// The only proviso is that every count fits the format's 64-bit fields,
/// which holds of every list that exists in memory.
pub proof fn lemma_codec_round_trip(ps: Seq<(char, Seq<Seq<Point>>)>)
    requires
        bounded_pairs(ps),
    ensures
        dec_file(enc_file(ps)) == Some(ps),
{
    lemma_auto_spec_u64_to_from_le_bytes();
    let b = enc_file(ps);
    let en = enc_u64(ps.len() as u64);
    assert(en.len() == 8);
    assert(b == en + enc_pairs(ps));
    assert(b.subrange(0, b.len() as int) =~= b);
    assert(en =~= b.subrange(0, 8));
    assert(enc_pairs(ps) =~= b.subrange(8, b.len() as int));
    lemma_window(b, 0, 0, en, b);
    lemma_window(b, 0, 8, enc_pairs(ps), b);
    lemma_dec_enc_u64(b, 0, ps.len() as u64);
    lemma_dec_enc_pairs(b, 8, ps);
    assert((ps.len() as u64) as nat == ps.len());
}

} // verus!
