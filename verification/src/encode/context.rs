//! The context of a coefficient: weighted first and second moments of the
//! magnitudes of coefficients around it that the decoder already knows.
use vstd::prelude::*;

use super::golomb::wrap32;
use crate::processing::image::ImageChunkMut;

verus! {

/// `x * x` modulo 2^32.
pub fn square(t: u32) -> (r: u32)
    ensures
        r == wrap32(t * t),
{
    t.wrapping_mul(t)
}

/// The magnitude of a sample.
pub open spec fn magnitude(x: i16) -> int {
    if x < 0 {
        -x
    } else {
        x as int
    }
}

/// The magnitude of a sample, clamped at 4096.
pub open spec fn clamped(x: i16) -> int {
    if magnitude(x) < 4096 {
        magnitude(x)
    } else {
        4096
    }
}

/// Adds the sample `x` with weight `w` to the moments.
pub open spec fn add_term(acc: (int, int, int), x: i16, w: int) -> (int, int, int) {
    (acc.0 + magnitude(x) * w, acc.1 + clamped(x) * clamped(x) * w, acc.2 + w)
}

/// Adds the magnitude of `x` with weight `w` to `sum`, its square (the
/// magnitude clamped at 4096) to `sum2`, and `w` to `count`.
pub fn add_context(x: i16, w: i32, sum: &mut u32, sum2: &mut u32, count: &mut u32)
    requires
        0 <= w,
        *old(sum) + magnitude(x) * w <= u32::MAX,
        *old(sum2) + clamped(x) * clamped(x) * w <= u32::MAX,
        *old(count) + w <= u32::MAX,
    ensures
        (*final(sum) as int, *final(sum2) as int, *final(count) as int) == add_term(
            (*old(sum) as int, *old(sum2) as int, *old(count) as int),
            x,
            w as int,
        ),
{
    let m: u32 = if x < 0 {
        (-(x as i32)) as u32
    } else {
        x as u32
    };
    let c: u32 = if m < 4096 {
        m
    } else {
        4096
    };
    assert(c * c <= 4096 * 4096) by (nonlinear_arith)
        requires
            c <= 4096,
    ;
    let sq = square(c);
    assert(sq == c * c);
    *sum = *sum + m * (w as u32);
    *sum2 = *sum2 + sq * (w as u32);
    *count = *count + w as u32;
}

/// The row where the ancestor of a coefficient lies, relative to the chunk:
/// `v` with its `2 * skip` bit cleared and its `skip` bit doubled, moved back
/// by `2 * skip` when that leaves the chunk.
pub open spec fn ancestor(v: i32, skip: i32, size: i32) -> int {
    let p = (v & !((skip * 2) as i32)) + (v & skip);
    if p >= size {
        p - skip * 2
    } else {
        p as int
    }
}

/// The samples that the context of the coefficient at relative column `x`,
/// row `y` of the chunk takes into account, as absolute rows and columns,
/// with their weights: its ancestor, its upper and left siblings, and its
/// neighbours two and four steps away above and to the left.
pub open spec fn context_terms(c: ImageChunkMut, x: i32, y: i32) -> Seq<(int, int, int)> {
    let skip = c.step as i32;
    let x0 = c.x_range.0 as int;
    let y0 = c.y_range.0 as int;
    let sizex = (c.x_range.1 - c.x_range.0) as i32;
    let sizey = (c.y_range.1 - c.y_range.0) as i32;
    let s = skip as int;
    let ancestor_term = seq![(y0 + ancestor(y, skip, sizey), x0 + ancestor(x, skip, sizex), 2int)];
    let siblings = if (y & skip) != 0 && (x | skip) < sizex {
        seq![(y0 + y - s, x0 + (x | skip), 2int)] + if (x & skip) != 0 {
            seq![(y0 + y, x0 + x - s, 2int)]
        } else {
            Seq::empty()
        }
    } else {
        Seq::empty()
    };
    let near = if y >= 2 * s && x >= 2 * s {
        seq![
            (y0 + y - 2 * s, x0 + x, 4int),
            (y0 + y, x0 + x - 2 * s, 4int),
            (y0 + y - 2 * s, x0 + x - 2 * s, 2int),
        ] + (if x + 2 * s < sizex {
            seq![(y0 + y - 2 * s, x0 + x + 2 * s, 2int)]
        } else {
            Seq::empty()
        }) + (if y >= 4 * s && x >= 4 * s {
            seq![
                (y0 + y - 4 * s, x0 + x, 2int),
                (y0 + y, x0 + x - 4 * s, 2int),
                (y0 + y - 4 * s, x0 + x - 4 * s, 1int),
            ] + if x + 4 * s < sizex {
                seq![(y0 + y - 4 * s, x0 + x + 4 * s, 1int)]
            } else {
                Seq::empty()
            }
        } else {
            Seq::empty()
        })
    } else {
        Seq::empty()
    };
    ancestor_term + siblings + near
}

/// The moments of the samples listed in `terms`.
pub open spec fn context_sums(
    c: ImageChunkMut,
    data: Seq<i16>,
    terms: Seq<(int, int, int)>,
) -> (int, int, int)
    decreases terms.len(),
{
    if terms.len() == 0 {
        (0, 0, 0)
    } else {
        let t = terms.last();
        add_term(context_sums(c, data, terms.drop_last()), data[c.index_of(t.0, t.1)], t.2)
    }
}

/// The context from the moments: the rounded weighted means of the
/// magnitudes and of their squares, the latter computed modulo 2^32.
pub open spec fn context_of(sums: (int, int, int)) -> (u32, u32) {
    let (sum, sum2, count) = sums;
    (
        ((sum * 16 + count / 2) / count) as u32,
        (wrap32(sum2 * 16 + count / 2) as int / count) as u32,
    )
}

/// Whether the chunk may read every sample of the context.
pub open spec fn context_readable(c: ImageChunkMut, x: i32, y: i32) -> bool {
    forall|k: int|
        0 <= k < context_terms(c, x, y).len() ==> {
            let t = #[trigger] context_terms(c, x, y)[k];
            &&& 0 <= t.0 <= usize::MAX
            &&& 0 <= t.1 <= usize::MAX
            &&& c.readable(t.0 as usize, t.1 as usize)
        }
}

/// The shapes of chunk the context works with: coordinates that fit in 30
/// bits.
pub open spec fn context_chunk_ok(c: ImageChunkMut) -> bool {
    &&& c.x_range.0 <= c.x_range.1 < 0x4000_0000
    &&& c.y_range.0 <= c.y_range.1 < 0x4000_0000
    &&& 1 <= c.step < 0x4000_0000
}

/// Masks and unions of small nonnegative numbers stay small.
proof fn lemma_bits_small(v: i32, s: i32)
    requires
        0 <= v < 0x4000_0000,
        1 <= s < 0x4000_0000,
    ensures
        0 <= (v & !((s * 2) as i32)) <= v,
        0 <= (v & s) <= s,
        0 <= (v | s) <= v + s,
{
    let s2: i32 = (s * 2) as i32;
    assert(0 <= (v & !s2) <= v) by (bit_vector)
        requires
            0 <= v,
    ;
    assert(0 <= (v & s) <= s) by (bit_vector)
        requires
            0 <= v,
            0 <= s,
    ;
    assert(0 <= (v | s) <= v + s) by (bit_vector)
        requires
            0 <= v < 0x4000_0000,
            0 <= s < 0x4000_0000,
    ;
}

/// At most eleven samples, each of weight at most 4.
proof fn lemma_terms_shape(c: ImageChunkMut, x: i32, y: i32)
    ensures
        1 <= context_terms(c, x, y).len() <= 11,
        forall|k: int|
            0 <= k < context_terms(c, x, y).len() ==> 1 <= #[trigger] context_terms(c, x, y)[k].2
                <= 4,
{
}

proof fn lemma_sums_bound(c: ImageChunkMut, data: Seq<i16>, terms: Seq<(int, int, int)>)
    requires
        forall|k: int| 0 <= k < terms.len() ==> 0 <= #[trigger] terms[k].2 <= 4,
    ensures
        0 <= context_sums(c, data, terms).0 <= 131072 * terms.len(),
        0 <= context_sums(c, data, terms).1 <= 67108864 * terms.len(),
        0 <= context_sums(c, data, terms).2 <= 4 * terms.len(),
    decreases terms.len(),
{
    if terms.len() > 0 {
        let n = terms.len() - 1;
        let rest = terms.drop_last();
        let t = terms[n];
        assert(rest.len() == n);
        assert forall|k: int| 0 <= k < rest.len() implies 0 <= #[trigger] rest[k].2 <= 4 by {
            assert(rest[k] == terms[k]);
        }
        lemma_sums_bound(c, data, rest);
        let prev = context_sums(c, data, rest);
        let v = data[c.index_of(t.0, t.1)];
        assert(context_sums(c, data, terms) == add_term(prev, v, t.2));
        assert(0 <= t.2 <= 4);
        assert(0 <= magnitude(v) <= 32768);
        assert(0 <= clamped(v) <= 4096);
        assert(0 <= magnitude(v) * t.2 <= 131072) by (nonlinear_arith)
            requires
                0 <= magnitude(v) <= 32768,
                0 <= t.2 <= 4,
        ;
        assert(0 <= clamped(v) * clamped(v) * t.2 <= 67108864) by (nonlinear_arith)
            requires
                0 <= clamped(v) <= 4096,
                0 <= t.2 <= 4,
        ;
    }
}

proof fn lemma_count_positive(c: ImageChunkMut, data: Seq<i16>, terms: Seq<(int, int, int)>)
    requires
        forall|k: int| 0 <= k < terms.len() ==> 1 <= #[trigger] terms[k].2,
    ensures
        context_sums(c, data, terms).2 >= terms.len(),
    decreases terms.len(),
{
    if terms.len() > 0 {
        assert forall|k: int| 0 <= k < terms.drop_last().len() implies 1 <= #[trigger] terms.drop_last()[k].2 by {
            assert(terms.drop_last()[k] == terms[k]);
        }
        lemma_count_positive(c, data, terms.drop_last());
    }
}

/// The samples of the context, as computed.
#[verifier::rlimit(60)]
fn context_points(image: &ImageChunkMut, x: i32, y: i32) -> (points: Vec<(i32, i32, i32)>)
    requires
        context_chunk_ok(*image),
        0 <= x < 0x4000_0000,
        0 <= y < 0x4000_0000,
    ensures
        points@.len() == context_terms(*image, x, y).len(),
        forall|j: int|
            0 <= j < points@.len() ==> (#[trigger] points@[j].0 as int, points@[j].1 as int, points@[j].2 as int)
                == context_terms(*image, x, y)[j],
{
    proof {
        lemma_bits_small(x, image.step as i32);
        lemma_bits_small(y, image.step as i32);
    }
    let skip = image.step as i32;
    let x0 = image.x_range.0 as i32;
    let y0 = image.y_range.0 as i32;
    let sizex = (image.x_range.1 - image.x_range.0) as i32;
    let sizey = (image.y_range.1 - image.y_range.0) as i32;
    let mut points: Vec<(i32, i32, i32)> = Vec::new();
    let mut px = (x & !(skip * 2)) + (x & skip);
    if px >= sizex {
        px = px - skip * 2;
    }
    let mut py = (y & !(skip * 2)) + (y & skip);
    if py >= sizey {
        py = py - skip * 2;
    }
    points.push((y0 + py, x0 + px, 2));
    if (y & skip) != 0 && (x | skip) < sizex {
        points.push((y0 + y - skip, x0 + (x | skip), 2));
        if (x & skip) != 0 {
            points.push((y0 + y, x0 + x - skip, 2));
        }
    }
    if y >= skip * 2 && x >= skip * 2 {
        points.push((y0 + y - skip * 2, x0 + x, 4));
        points.push((y0 + y, x0 + x - skip * 2, 4));
        points.push((y0 + y - skip * 2, x0 + x - skip * 2, 2));
        if x + skip * 2 < sizex {
            points.push((y0 + y - skip * 2, x0 + x + skip * 2, 2));
        }
        if y >= skip * 4 && x >= skip * 4 {
            points.push((y0 + y - skip * 4, x0 + x, 2));
            points.push((y0 + y, x0 + x - skip * 4, 2));
            points.push((y0 + y - skip * 4, x0 + x - skip * 4, 1));
            if x + skip * 4 < sizex {
                points.push((y0 + y - skip * 4, x0 + x + skip * 4, 1));
            }
        }
    }
    proof {
        let t = context_terms(*image, x, y);
        assert(points@.len() == t.len());
        assert forall|j: int| 0 <= j < points@.len() implies (#[trigger] points@[j].0 as int, points@[j].1 as int, points@[j].2 as int) == t[j] by {
        }
    }
    points
}

/// The context of the coefficient at relative column `x`, row `y` of the
/// chunk.
pub fn get_context(image: &ImageChunkMut, data: &[i16], x: i32, y: i32) -> (r: (u32, u32))
    requires
        context_chunk_ok(*image),
        data@.len() == image.data_len,
        0 <= x < 0x4000_0000,
        0 <= y < 0x4000_0000,
        context_readable(*image, x, y),
    ensures
        r == context_of(context_sums(*image, data@, context_terms(*image, x, y))),
{
    proof {
        lemma_bits_small(x, image.step as i32);
        lemma_bits_small(y, image.step as i32);
        lemma_terms_shape(*image, x, y);
    }
    let ghost terms = context_terms(*image, x, y);
    let points = context_points(image, x, y);
    let mut count = 0u32;
    let mut sum = 0u32;
    let mut sum2 = 0u32;
    let mut k: usize = 0;
    while k < points.len()
        invariant
            ({
                let ps = points@;
                &&& ps.len() == terms.len()
                &&& forall|j: int|
                    0 <= j < ps.len() ==> (#[trigger] ps[j].0 as int, ps[j].1 as int, ps[j].2 as int)
                        == terms[j]
            }),
            k <= points@.len(),
            terms == context_terms(*image, x, y),
            context_readable(*image, x, y),
            data@.len() == image.data_len,
            (sum as int, sum2 as int, count as int) == context_sums(*image, data@, terms.subrange(0, k as int)),
            terms.len() <= 11,
            forall|j: int| 0 <= j < terms.len() ==> 1 <= #[trigger] terms[j].2 <= 4,
        decreases points@.len() - k,
    {
        let (py, px, w) = points[k];
        proof {
            let sub = terms.subrange(0, k as int);
            assert forall|j: int| 0 <= j < sub.len() implies 0 <= #[trigger] sub[j].2 <= 4 by {
                assert(sub[j] == terms[j]);
            }
            lemma_sums_bound(*image, data@, sub);
            assert(terms.subrange(0, k + 1).drop_last() =~= sub);
            assert(terms[k as int] == (py as int, px as int, w as int));
            let t = context_terms(*image, x, y)[k as int];
            assert(0 <= t.0 <= usize::MAX && 0 <= t.1 <= usize::MAX && image.readable(t.0 as usize, t.1 as usize));
        }
        let ghost vv = data@[image.index_of(py as usize as int, px as usize as int)];
        proof {
            assert(0 <= clamped(vv) * clamped(vv) * w <= 67108864) by (nonlinear_arith)
                requires
                    0 <= clamped(vv) <= 4096,
                    1 <= w <= 4,
            ;
            assert(0 <= magnitude(vv) * w <= 131072) by (nonlinear_arith)
                requires
                    0 <= magnitude(vv) <= 32768,
                    1 <= w <= 4,
            ;
        }
        let v = image.get(data, py as usize, px as usize);
        add_context(v, w, &mut sum, &mut sum2, &mut count);
        k = k + 1;
    }
    assert(terms.subrange(0, k as int) =~= terms);
    proof {
        assert forall|j: int| 0 <= j < terms.len() implies 0 <= #[trigger] terms[j].2 <= 4 by {}
        lemma_sums_bound(*image, data@, terms);
        lemma_count_positive(*image, data@, terms);
    }
    (
        (sum * 16 + count / 2) / count,
        sum2.wrapping_mul(16).wrapping_add(count / 2) / count,
    )
}

} // verus!
