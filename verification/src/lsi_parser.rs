//! The LSI binary vector-image codec.
//!
//! An LSI buffer is a little-endian sequence of records, with no header or
//! footer: each record is a 32-bit signed point count followed by that many
//! points, each point two 32-bit coordinates.  The whole buffer must be
//! exactly consumed; a truncated record or trailing bytes make the buffer
//! malformed.  A zero count is a valid empty polyline.

use vstd::prelude::*;
use vstd::bytes::{spec_u32_from_le_bytes, spec_u32_to_le_bytes, lemma_auto_spec_u32_to_from_le_bytes, u32_from_le_bytes, u32_to_le_bytes};
use vstd::slice::slice_subrange;
use crate::types::{ImageData, Point, PresetError, image_view};

verus! {

/// The largest point count a record can declare: counts are stored as
/// 32-bit signed integers and a negative count never matches any buffer.
pub const MAX_POINT_COUNT: u32 = 0x7fff_ffff;

/// The eight bytes of one encoded point.
pub open spec fn spec_point_bytes(p: Point) -> Seq<u8> {
    spec_u32_to_le_bytes(p.x_bits) + spec_u32_to_le_bytes(p.y_bits)
}

/// The bytes of a polyline's points, in order.
pub open spec fn spec_points_bytes(ps: Seq<Point>) -> Seq<u8>
    decreases ps.len(),
{
    if ps.len() == 0 {
        Seq::empty()
    } else {
        spec_point_bytes(ps[0]) + spec_points_bytes(ps.skip(1))
    }
}

/// One full record: the point count, then the points.
pub open spec fn spec_line_bytes(line: Seq<Point>) -> Seq<u8> {
    spec_u32_to_le_bytes(line.len() as u32) + spec_points_bytes(line)
}

/// The encoding of a whole image: the records of its polylines,
/// concatenated with no outer framing.
pub open spec fn spec_lsi_encode(img: Seq<Seq<Point>>) -> Seq<u8>
    decreases img.len(),
{
    if img.len() == 0 {
        Seq::empty()
    } else {
        spec_line_bytes(img[0]) + spec_lsi_encode(img.skip(1))
    }
}

/// An image is encodable when every polyline's length fits the signed
/// 32-bit count field of its record.
pub open spec fn encodable(img: Seq<Seq<Point>>) -> bool {
    forall|i: int| 0 <= i < img.len() ==> (#[trigger] img[i]).len() <= MAX_POINT_COUNT
}

/// The point whose eight bytes start at `off` in `b`.
pub open spec fn spec_point_at(b: Seq<u8>, off: int) -> Point {
    Point {
        x_bits: spec_u32_from_le_bytes(b.subrange(off, off + 4)),
        y_bits: spec_u32_from_le_bytes(b.subrange(off + 4, off + 8)),
    }
}

/// The points of a buffer that is exactly a sequence of encoded points.
pub open spec fn spec_points_decode(b: Seq<u8>) -> Seq<Point> {
    Seq::new(b.len() / 8, |i: int| spec_point_at(b, 8 * i))
}

/// The decoding of a whole buffer: `Some` of the polylines when the buffer
/// is an exact sequence of complete records, `None` otherwise.
pub open spec fn spec_lsi_decode(data: Seq<u8>) -> Option<Seq<Seq<Point>>>
    decreases data.len(),
{
    if data.len() == 0 {
        Some(Seq::empty())
    } else if data.len() < 4 {
        None
    } else {
        let count = spec_u32_from_le_bytes(data.subrange(0, 4)) as int;
        if count > MAX_POINT_COUNT {
            None
        } else if data.len() < 4 + 8 * count {
            None
        } else {
            let line = spec_points_decode(data.subrange(4, 4 + 8 * count));
            match spec_lsi_decode(data.subrange(4 + 8 * count, data.len() as int)) {
                Some(rest) => Some(seq![line] + rest),
                None => None,
            }
        }
    }
}

/// Glue for the decoder's loop: the polylines already produced, in front of
/// whatever the rest of the buffer decodes to.
pub open spec fn opt_prepend(pre: Seq<Seq<Point>>, rest: Option<Seq<Seq<Point>>>) -> Option<
    Seq<Seq<Point>>,
> {
    match rest {
        Some(r) => Some(pre + r),
        None => None,
    }
}

/// Decode an LSI buffer into an image.
///
/// The result is exactly what `spec_lsi_decode` says of the bytes: the
/// record sequence when the buffer is exactly consumed by complete records,
/// and `MalformedImage` otherwise.
pub fn parse_lsi_image(data: &[u8]) -> (r: Result<ImageData, PresetError>)
    ensures
        match r {
            Ok(img) => spec_lsi_decode(data@) == Some(image_view(img)),
            Err(e) => e == PresetError::MalformedImage && spec_lsi_decode(data@) is None,
        },
{
    let mut out: ImageData = Vec::new();
    let mut pos: usize = 0;
    proof {
        assert(data@.subrange(0, data@.len() as int) =~= data@);
        assert(image_view(out) =~= Seq::<Seq<Point>>::empty());
        match spec_lsi_decode(data@) {
            Some(r) => {
                assert(Seq::<Seq<Point>>::empty() + r =~= r);
            }
            None => {}
        }
    }
    while pos < data.len()
        invariant
            pos <= data.len(),
            spec_lsi_decode(data@) == opt_prepend(
                image_view(out),
                spec_lsi_decode(data@.subrange(pos as int, data@.len() as int)),
            ),
        decreases data.len() - pos,
    {
        let ghost suffix = data@.subrange(pos as int, data@.len() as int);
        if data.len() - pos < 4 {
            proof {
                assert(spec_lsi_decode(suffix) is None);
            }
            return Err(PresetError::MalformedImage);
        }
        let count = u32_from_le_bytes(slice_subrange(data, pos, pos + 4));
        proof {
            assert(data@.subrange(pos as int, pos + 4) =~= suffix.subrange(0, 4));
        }
        if count > MAX_POINT_COUNT {
            proof {
                assert(spec_lsi_decode(suffix) is None);
            }
            return Err(PresetError::MalformedImage);
        }
        let rem: usize = data.len() - (pos + 4);
        if (rem as u64) < 8u64 * (count as u64) {
            proof {
                assert(spec_lsi_decode(suffix) is None);
            }
            return Err(PresetError::MalformedImage);
        }
        let need: usize = (8u64 * (count as u64)) as usize;
        let start: usize = pos + 4;
        let ghost segment = data@.subrange(start as int, start + 8 * (count as int));
        let mut line: Vec<Point> = Vec::new();
        let mut j: usize = 0;
        while j < need / 8
            invariant
                need == 8 * count,
                need / 8 == count as int,
                j <= count,
                start + need <= data.len(),
                line@.len() == j,
                forall|i: int| 0 <= i < j ==> line@[i] == spec_point_at(data@, start + 8 * i),
            decreases need / 8 - j,
        {
            let x = u32_from_le_bytes(slice_subrange(data, start + 8 * j, start + 8 * j + 4));
            let y = u32_from_le_bytes(slice_subrange(data, start + 8 * j + 4, start + 8 * j + 8));
            line.push(Point { x_bits: x, y_bits: y });
            j = j + 1;
        }
        proof {
            assert(segment.len() == 8 * count);
            assert forall|i: int| 0 <= i < count implies #[trigger] line@[i]
                == spec_point_at(segment, 8 * i) by {
                assert(segment.subrange(8 * i, 8 * i + 4) =~= data@.subrange(
                    start + 8 * i,
                    start + 8 * i + 4,
                ));
                assert(segment.subrange(8 * i + 4, 8 * i + 8) =~= data@.subrange(
                    start + 8 * i + 4,
                    start + 8 * i + 8,
                ));
            }
            assert(line@ =~= spec_points_decode(segment));
            // One unfolding of the decoder at the current suffix.
            assert(suffix.subrange(4, 4 + 8 * (count as int)) =~= segment);
            assert(suffix.subrange(4 + 8 * (count as int), suffix.len() as int) =~= data@.subrange(
                start + need,
                data@.len() as int,
            ));
        }
        let ghost old_iv = image_view(out);
        out.push(line);
        proof {
            assert(image_view(out) =~= old_iv.push(line@));
            let next = spec_lsi_decode(data@.subrange(start + need, data@.len() as int));
            assert(spec_lsi_decode(suffix) == opt_prepend(seq![line@], next));
            match next {
                Some(r) => {
                    assert(old_iv + (seq![line@] + r) =~= (old_iv.push(line@)) + r);
                }
                None => {}
            }
        }
        pos = start + need;
    }
    proof {
        assert(data@.subrange(pos as int, data@.len() as int) =~= Seq::<u8>::empty());
        assert(image_view(out) + Seq::<Seq<Point>>::empty() =~= image_view(out));
    }
    Ok(out)
}

/// Encode an image into an LSI buffer: for each polyline in order, its
/// point count as a 32-bit little-endian integer, then each point's two
/// coordinates, with no outer framing.
pub fn encode_lsi_image(img: &ImageData) -> (r: Vec<u8>)
    requires
        encodable(image_view(*img)),
    ensures
        r@ == spec_lsi_encode(image_view(*img)),
{
    let ghost iv = image_view(*img);
    let mut out: Vec<u8> = Vec::new();
    let mut i: usize = 0;
    while i < img.len()
        invariant
            encodable(iv),
            iv == image_view(*img),
            iv.len() == img@.len(),
            i <= img.len(),
            out@ == spec_lsi_encode(iv.take(i as int)),
        decreases img.len() - i,
    {
        let line: &Vec<Point> = &img[i];
        proof {
            assert(line@ == iv[i as int]);
            assert(line@.len() <= MAX_POINT_COUNT);
        }
        let mut count_bytes = u32_to_le_bytes(line.len() as u32);
        let ghost out_before = out@;
        out.append(&mut count_bytes);
        let mut k: usize = 0;
        while k < line.len()
            invariant
                line@.len() <= MAX_POINT_COUNT,
                k <= line.len(),
                out@ == out_before + spec_u32_to_le_bytes(line@.len() as u32)
                    + spec_points_bytes(line@.take(k as int)),
            decreases line.len() - k,
        {
            let p = line[k];
            let mut xb = u32_to_le_bytes(p.x_bits);
            let mut yb = u32_to_le_bytes(p.y_bits);
            out.append(&mut xb);
            out.append(&mut yb);
            proof {
                lemma_points_bytes_snoc(line@.take(k as int), line@[k as int]);
                assert(line@.take(k + 1) =~= line@.take(k as int).push(line@[k as int]));
            }
            k = k + 1;
        }
        proof {
            assert(line@.take(line@.len() as int) =~= line@);
            lemma_lsi_encode_snoc(iv.take(i as int), iv[i as int]);
            assert(iv.take(i + 1) =~= iv.take(i as int).push(iv[i as int]));
        }
        i = i + 1;
    }
    proof {
        assert(iv.take(iv.len() as int) =~= iv);
    }
    out
}

/// Appending one point to a polyline appends its eight bytes.
proof fn lemma_points_bytes_snoc(ps: Seq<Point>, p: Point)
    ensures
        spec_points_bytes(ps.push(p)) == spec_points_bytes(ps) + spec_point_bytes(p),
    decreases ps.len(),
{
    if ps.len() == 0 {
        assert(ps.push(p)[0] == p);
        assert(ps.push(p).skip(1) =~= Seq::<Point>::empty());
        assert(spec_points_bytes(Seq::<Point>::empty()) == Seq::<u8>::empty());
        assert(spec_points_bytes(ps.push(p)) == spec_point_bytes(p) + Seq::<u8>::empty());
        assert(spec_point_bytes(p) + Seq::<u8>::empty() =~= Seq::<u8>::empty() + spec_point_bytes(p));
    } else {
        assert(ps.push(p)[0] == ps[0]);
        assert(ps.push(p).skip(1) =~= ps.skip(1).push(p));
        lemma_points_bytes_snoc(ps.skip(1), p);
        assert(spec_points_bytes(ps.push(p)) == spec_point_bytes(ps[0]) + (spec_points_bytes(
            ps.skip(1),
        ) + spec_point_bytes(p)));
        assert(spec_point_bytes(ps[0]) + (spec_points_bytes(ps.skip(1)) + spec_point_bytes(p))
            =~= (spec_point_bytes(ps[0]) + spec_points_bytes(ps.skip(1))) + spec_point_bytes(p));
    }
}

/// Appending one polyline to an image appends its record's bytes.
proof fn lemma_lsi_encode_snoc(img: Seq<Seq<Point>>, line: Seq<Point>)
    ensures
        spec_lsi_encode(img.push(line)) == spec_lsi_encode(img) + spec_line_bytes(line),
    decreases img.len(),
{
    if img.len() == 0 {
        assert(img.push(line)[0] == line);
        assert(img.push(line).skip(1) =~= Seq::<Seq<Point>>::empty());
        assert(spec_lsi_encode(Seq::<Seq<Point>>::empty()) == Seq::<u8>::empty());
        assert(spec_lsi_encode(img.push(line)) == spec_line_bytes(line) + Seq::<u8>::empty());
        assert(spec_line_bytes(line) + Seq::<u8>::empty() =~= Seq::<u8>::empty() + spec_line_bytes(
            line,
        ));
    } else {
        assert(img.push(line)[0] == img[0]);
        assert(img.push(line).skip(1) =~= img.skip(1).push(line));
        lemma_lsi_encode_snoc(img.skip(1), line);
        assert(spec_lsi_encode(img.push(line)) == spec_line_bytes(img[0]) + (spec_lsi_encode(
            img.skip(1),
        ) + spec_line_bytes(line)));
        assert(spec_line_bytes(img[0]) + (spec_lsi_encode(img.skip(1)) + spec_line_bytes(line))
            =~= (spec_line_bytes(img[0]) + spec_lsi_encode(img.skip(1))) + spec_line_bytes(line));
    }
}

/// The byte length of an encoded polyline body.
proof fn lemma_points_bytes_len(ps: Seq<Point>)
    ensures
        spec_points_bytes(ps).len() == 8 * ps.len(),
    decreases ps.len(),
{
    lemma_auto_spec_u32_to_from_le_bytes();
    if ps.len() > 0 {
        lemma_points_bytes_len(ps.skip(1));
    }
}

/// Decoding the bytes of a polyline's points gives the points back.
proof fn lemma_points_roundtrip(ps: Seq<Point>)
    ensures
        spec_points_decode(spec_points_bytes(ps)) == ps,
    decreases ps.len(),
{
    lemma_auto_spec_u32_to_from_le_bytes();
    lemma_points_bytes_len(ps);
    let b = spec_points_bytes(ps);
    if ps.len() == 0 {
        assert(spec_points_decode(b) =~= ps);
    } else {
        lemma_points_roundtrip(ps.skip(1));
        lemma_points_bytes_len(ps.skip(1));
        let bt = spec_points_bytes(ps.skip(1));
        assert forall|i: int| 0 <= i < ps.len() implies #[trigger] ps[i] == spec_point_at(b, 8 * i) by {
            if i == 0 {
                assert(b.subrange(0, 4) =~= spec_u32_to_le_bytes(ps[0].x_bits));
                assert(b.subrange(4, 8) =~= spec_u32_to_le_bytes(ps[0].y_bits));
            } else {
                assert(b.subrange(8 * i, 8 * i + 4) =~= bt.subrange(8 * (i - 1), 8 * (i - 1) + 4));
                assert(b.subrange(8 * i + 4, 8 * i + 8) =~= bt.subrange(
                    8 * (i - 1) + 4,
                    8 * (i - 1) + 8,
                ));
                assert(spec_point_at(bt, 8 * (i - 1)) == ps.skip(1)[i - 1]);
            }
        }
        assert(spec_points_decode(b) =~= ps);
    }
}

/// Round-trip law: decoding the encoding of any encodable image gives the
/// image back, polylines, points and order all exact.
pub proof fn lemma_lsi_roundtrip(img: Seq<Seq<Point>>)
    requires
        encodable(img),
    ensures
        spec_lsi_decode(spec_lsi_encode(img)) == Some(img),
    decreases img.len(),
{
    lemma_auto_spec_u32_to_from_le_bytes();
    let d = spec_lsi_encode(img);
    if img.len() == 0 {
    } else {
        let line = img[0];
        let lb = spec_line_bytes(line);
        let rest = spec_lsi_encode(img.skip(1));
        lemma_points_bytes_len(line);
        assert(lb.len() == 4 + 8 * line.len());
        assert(d == lb + rest);
        assert(d.subrange(0, 4) =~= spec_u32_to_le_bytes(line.len() as u32));
        let count = spec_u32_from_le_bytes(d.subrange(0, 4)) as int;
        assert(count == line.len());
        assert(d.subrange(4, 4 + 8 * count) =~= spec_points_bytes(line));
        lemma_points_roundtrip(line);
        assert(d.subrange(4 + 8 * count, d.len() as int) =~= rest);
        assert(encodable(img.skip(1))) by {
            assert(forall|i: int|
                0 <= i < img.skip(1).len() ==> img.skip(1)[i] == img[i + 1]);
        }
        lemma_lsi_roundtrip(img.skip(1));
        assert(seq![line] + img.skip(1) =~= img);
    }
}

/// A buffer that ends in the middle of its first record — fewer bytes than
/// its declared point count needs, or not even a whole count field — is
/// malformed.
pub proof fn lemma_truncated_record_malformed(data: Seq<u8>)
    requires
        0 < data.len(),
        data.len() >= 4 ==> data.len() < 4 + 8 * (spec_u32_from_le_bytes(
            data.subrange(0, 4),
        ) as int),
    ensures
        spec_lsi_decode(data) is None,
{
}

/// What trailing bytes do to a decode: after an encoded image, the rest of
/// the buffer must itself be an exact record sequence, or the whole buffer
/// is malformed.  In particular a buffer that ends before its first
/// record's declared point count, appended after any encoded image, fails.
pub proof fn lemma_lsi_decode_with_tail(img: Seq<Seq<Point>>, extra: Seq<u8>)
    requires
        encodable(img),
    ensures
        spec_lsi_decode(spec_lsi_encode(img) + extra) == opt_prepend(
            img,
            spec_lsi_decode(extra),
        ),
    decreases img.len(),
{
    lemma_auto_spec_u32_to_from_le_bytes();
    let d = spec_lsi_encode(img) + extra;
    if img.len() == 0 {
        assert(d =~= extra);
        match spec_lsi_decode(extra) {
            Some(r) => {
                assert(Seq::<Seq<Point>>::empty() + r =~= r);
            }
            None => {}
        }
    } else {
        let line = img[0];
        let lb = spec_line_bytes(line);
        let rest = spec_lsi_encode(img.skip(1));
        lemma_points_bytes_len(line);
        assert(lb.len() == 4 + 8 * line.len());
        assert(spec_lsi_encode(img) == lb + rest);
        assert(d =~= lb + (rest + extra));
        assert(d.subrange(0, 4) =~= spec_u32_to_le_bytes(line.len() as u32));
        let count = spec_u32_from_le_bytes(d.subrange(0, 4)) as int;
        assert(count == line.len());
        assert(d.subrange(4, 4 + 8 * count) =~= spec_points_bytes(line));
        lemma_points_roundtrip(line);
        assert(d.subrange(4 + 8 * count, d.len() as int) =~= rest + extra);
        assert(encodable(img.skip(1))) by {
            assert(forall|i: int|
                0 <= i < img.skip(1).len() ==> img.skip(1)[i] == img[i + 1]);
        }
        lemma_lsi_decode_with_tail(img.skip(1), extra);
        match spec_lsi_decode(extra) {
            Some(r) => {
                assert(seq![line] + (img.skip(1) + r) =~= img + r);
            }
            None => {}
        }
    }
}

/// Soundness: whatever a buffer decodes to is encodable and encodes back to
/// exactly that buffer — the decoder accepts nothing the encoder would not
/// produce.
pub proof fn lemma_lsi_decode_sound(d: Seq<u8>)
    ensures
        spec_lsi_decode(d) matches Some(img) ==> encodable(img) && spec_lsi_encode(img) == d,
    decreases d.len(),
{
    lemma_auto_spec_u32_to_from_le_bytes();
    match spec_lsi_decode(d) {
        Some(img) => {
            if d.len() == 0 {
                assert(spec_lsi_encode(img) =~= d);
            } else {
                let count = spec_u32_from_le_bytes(d.subrange(0, 4)) as int;
                let seg = d.subrange(4, 4 + 8 * count);
                let line = spec_points_decode(seg);
                let tail = d.subrange(4 + 8 * count, d.len() as int);
                lemma_lsi_decode_sound(tail);
                let rest = spec_lsi_decode(tail)->Some_0;
                assert(img == seq![line] + rest);
                assert(line.len() == count);
                assert(img[0] == line);
                assert(img.skip(1) =~= rest);
                lemma_points_decode_bytes(seg);
                assert(spec_line_bytes(line) =~= d.subrange(0, 4) + seg);
                assert(spec_lsi_encode(img) == spec_line_bytes(line) + spec_lsi_encode(rest));
                assert(spec_lsi_encode(img) =~= d);
            }
        }
        None => {}
    }
}

/// Encoding the points a whole buffer of points decodes to gives the buffer
/// back.
proof fn lemma_points_decode_bytes(b: Seq<u8>)
    requires
        b.len() % 8 == 0,
    ensures
        spec_points_bytes(spec_points_decode(b)) == b,
    decreases b.len(),
{
    lemma_auto_spec_u32_to_from_le_bytes();
    let ps = spec_points_decode(b);
    if b.len() == 0 {
        assert(spec_points_bytes(ps) =~= b);
    } else {
        let bt = b.subrange(8, b.len() as int);
        lemma_points_decode_bytes(bt);
        assert(spec_points_decode(bt) =~= ps.skip(1)) by {
            assert forall|i: int| 0 <= i < ps.len() - 1 implies #[trigger] ps.skip(1)[i]
                == spec_point_at(bt, 8 * i) by {
                assert(bt.subrange(8 * i, 8 * i + 4) =~= b.subrange(
                    8 * (i + 1),
                    8 * (i + 1) + 4,
                ));
                assert(bt.subrange(8 * i + 4, 8 * i + 8) =~= b.subrange(
                    8 * (i + 1) + 4,
                    8 * (i + 1) + 8,
                ));
                assert(ps.skip(1)[i] == ps[i + 1]);
                assert(ps[i + 1] == spec_point_at(b, 8 * (i + 1)));
            }
        }
        assert(spec_point_bytes(ps[0]) =~= b.subrange(0, 8)) by {
            assert(b.subrange(0, 4) =~= b.subrange(0, 8).subrange(0, 4));
            assert(b.subrange(4, 8) =~= b.subrange(0, 8).subrange(4, 8));
            assert(spec_u32_to_le_bytes(spec_u32_from_le_bytes(b.subrange(0, 4))) == b.subrange(0, 4));
            assert(spec_u32_to_le_bytes(spec_u32_from_le_bytes(b.subrange(4, 8))) == b.subrange(4, 8));
        }
        assert(spec_points_bytes(ps) =~= b);
    }
}

} // verus!
