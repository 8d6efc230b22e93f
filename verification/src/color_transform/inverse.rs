//! Undoing a program after carrying it out gives the boosted channels back.
use vstd::prelude::*;
use vstd::arithmetic::div_mod::{lemma_fundamental_div_mod, lemma_mul_mod_noop_left, lemma_mul_mod_noop_right};
use vstd::arithmetic::mul::{lemma_mul_is_associative, lemma_mul_is_commutative};

use super::program::{ChannelTransformFactor, TransformSpec};
use super::transform::{
    apply_factor, apply_factors, apply_transforms, boosted, factors_sum, fill_untransformed,
    finish_transform, runnable, source_index, to_u8, transform_spec, undo_transform, undo_transforms,
    Layout,
};
use crate::lifting::{lemma_wrap16_cancel, tdiv, wrap16};

verus! {

/// `wrap16` keeps a number modulo 2^16.
proof fn lemma_wrap16_mod(v: int)
    ensures
        (wrap16(v) as int) % 65536 == v % 65536,
{
    lemma_fundamental_div_mod(v, 65536);
    lemma_fundamental_div_mod(wrap16(v) as int, 65536);
}

/// Numbers equal modulo 2^16 wrap alike.
proof fn lemma_wrap16_congruent(v: int, w: int)
    requires
        v % 65536 == w % 65536,
    ensures
        wrap16(v) == wrap16(w),
{
}

/// A product modulo 2^16 does not depend on which factor was boosted
/// first.
proof fn lemma_boosted_factor(a: int, f: int, b: int)
    ensures
        wrap16(a * wrap16(wrap16(f) * b)) == wrap16(wrap16(a * b) * wrap16(f)),
{
    let m = 65536int;
    let u = wrap16(f) as int;
    let w = wrap16(u * b) as int;
    let z = wrap16(a * b) as int;
    lemma_wrap16_mod(f);
    lemma_wrap16_mod(u * b);
    lemma_wrap16_mod(a * b);
    // a * w = a * (u * b) = (a * b) * u  (mod m)
    lemma_mul_mod_noop_right(a, w, m);
    lemma_mul_mod_noop_right(a, u * b, m);
    lemma_mul_is_associative(a, u, b);
    lemma_mul_is_commutative(u, b);
    lemma_mul_is_associative(a, b, u);
    // z * u = (a * b) * u  (mod m)
    lemma_mul_mod_noop_left(z, u, m);
    lemma_mul_mod_noop_left(a * b, u, m);
    assert((a * w) % m == ((a * b) * u) % m);
    assert((z * u) % m == ((a * b) * u) % m);
    lemma_wrap16_congruent(a * w, z * u);
}


/// Sample `i` of channel `c` lies in the block of channel `d` exactly when
/// `c` is `d`.
proof fn lemma_channel_block(c: int, d: int, i: int, cs: int)
    requires
        0 <= i < cs,
    ensures
        (d * cs <= c * cs + i < d * cs + cs) <==> c == d,
{
    if c < d {
        assert(c * cs + i < d * cs) by (nonlinear_arith)
            requires
                c < d,
                0 <= i < cs,
        ;
    } else if c > d {
        assert(c * cs + i >= d * cs + cs) by (nonlinear_arith)
            requires
                c > d,
                0 <= i < cs,
        ;
    }
}

/// Adding factors changes only the destination channel.
proof fn lemma_factors_elsewhere(
    a: Seq<i16>,
    image: Seq<u8>,
    l: Layout,
    dest: int,
    fs: Seq<ChannelTransformFactor>,
    tr: Seq<bool>,
    boost: i16,
)
    ensures
        apply_factors(a, image, l, dest, fs, tr, boost).len() == a.len(),
        forall|j: int|
            0 <= j < a.len() && !(dest * l.cs <= j < dest * l.cs + l.cs) ==> #[trigger] apply_factors(
                a,
                image,
                l,
                dest,
                fs,
                tr,
                boost,
            )[j] == a[j],
    decreases fs.len(),
{
    if fs.len() > 0 {
        lemma_factors_elsewhere(a, image, l, dest, fs.drop_last(), tr, boost);
    }
}

/// With the destination starting at zero, the factors add up to the sum the
/// undoing computes, when the sources it reads hold what the factors read:
/// the transformed channels as they were, the others boosted.
proof fn lemma_factors_match(
    a: Seq<i16>,
    y: Seq<i16>,
    image: Seq<u8>,
    l: Layout,
    dest: int,
    fs: Seq<ChannelTransformFactor>,
    tr: Seq<bool>,
    boost: i16,
    n: int,
    i: int,
)
    requires
        0 <= i < l.cs,
        0 <= dest < n,
        n * l.cs <= a.len(),
        tr.len() == n,
        a[dest * l.cs + i] == 0,
        forall|j: int|
            0 <= j < fs.len() ==> {
                let src = (#[trigger] fs[j]).src_channel as int;
                &&& src < n
                &&& src != dest
                &&& tr[src] ==> y[src * l.cs + i] == a[src * l.cs + i]
                &&& !tr[src] ==> y[src * l.cs + i] == boosted(image, l, src, i, boost)
            },
    ensures
        apply_factors(a, image, l, dest, fs, tr, boost)[dest * l.cs + i] == factors_sum(y, l.cs, fs, i),
    decreases fs.len(),
{
    let cs = l.cs;
    if fs.len() > 0 {
        let rest = fs.drop_last();
        assert forall|j: int| 0 <= j < rest.len() implies {
            let src = (#[trigger] rest[j]).src_channel as int;
            &&& src < n
            &&& src != dest
            &&& tr[src] ==> y[src * cs + i] == a[src * cs + i]
            &&& !tr[src] ==> y[src * cs + i] == boosted(image, l, src, i, boost)
        } by {
            assert(rest[j] == fs[j]);
        }
        lemma_factors_match(a, y, image, l, dest, rest, tr, boost, n, i);
        let prev = apply_factors(a, image, l, dest, rest, tr, boost);
        let f = fs.last();
        assert(f == fs[fs.len() - 1]);
        let src = f.src_channel as int;
        lemma_factors_elsewhere(a, image, l, dest, rest, tr, boost);
        lemma_channel_block(src, dest, i, cs);
        lemma_channel_block(dest, dest, i, cs);
        assert(0 <= src * cs + i < n * cs) by (nonlinear_arith)
            requires
                0 <= src < n,
                0 <= i < cs,
        ;
        assert(0 <= dest * cs + i < n * cs) by (nonlinear_arith)
            requires
                0 <= dest < n,
                0 <= i < cs,
        ;
        assert(prev[src * cs + i] == a[src * cs + i]);
        if !tr[src] {
            lemma_boosted_factor(image[source_index(l, src, i)] as int, f.factor as int, boost as int);
        }
    }
}


/// The programs whose effect can be undone exactly: no channel is the
/// destination of two transforms, and no transform reads its own
/// destination.
pub open spec fn undoable(ts: Seq<TransformSpec>) -> bool {
    &&& forall|a: int, b: int| 0 <= a < b < ts.len() ==> (#[trigger] ts[a]).dest != (#[trigger] ts[b]).dest
    &&& forall|k: int, j: int|
        0 <= k < ts.len() && 0 <= j < ts[k].factors.len() ==> (#[trigger] ts[k].factors[j]).src_channel
            != ts[k].dest
}

/// The first `k` transforms of a program carried out, with the flags of the
/// channels they transformed.
pub open spec fn applied(
    aux: Seq<i16>,
    image: Seq<u8>,
    l: Layout,
    ts: Seq<TransformSpec>,
    n: nat,
    boost: i16,
    k: int,
) -> (Seq<i16>, Seq<bool>) {
    apply_transforms(aux, image, l, ts.take(k), Seq::new(n, |c: int| false), boost)
}

/// Sample `i` of channel `c` of planar channels of `cs` samples.
pub open spec fn sample(y: Seq<i16>, cs: int, c: int, i: int) -> i16 {
    y[c * cs + i]
}

proof fn lemma_applied_next(
    aux: Seq<i16>,
    image: Seq<u8>,
    l: Layout,
    ts: Seq<TransformSpec>,
    n: nat,
    boost: i16,
    k: int,
)
    requires
        0 <= k < ts.len(),
    ensures
        applied(aux, image, l, ts, n, boost, k + 1) == (
            finish_transform(
                apply_factors(
                    applied(aux, image, l, ts, n, boost, k).0,
                    image,
                    l,
                    ts[k].dest as int,
                    ts[k].factors,
                    applied(aux, image, l, ts, n, boost, k).1,
                    boost,
                ),
                image,
                l,
                ts[k].dest as int,
                ts[k].denominator,
                boost,
            ),
            applied(aux, image, l, ts, n, boost, k).1.update(ts[k].dest as int, true),
        ),
{
    assert(ts.take(k + 1).drop_last() =~= ts.take(k));
    assert(ts.take(k + 1).last() == ts[k]);
}

/// What the first `k` transforms did: they set the flags of their
/// destinations, and left the other channels as they were.
proof fn lemma_applied(
    aux: Seq<i16>,
    image: Seq<u8>,
    l: Layout,
    ts: Seq<TransformSpec>,
    n: nat,
    boost: i16,
    k: int,
)
    requires
        runnable(ts, n, l.cs as nat, aux.len()),
        l.cs >= 0,
        0 <= k <= ts.len(),
    ensures
        applied(aux, image, l, ts, n, boost, k).0.len() == aux.len(),
        applied(aux, image, l, ts, n, boost, k).1.len() == n,
        forall|c: int|
            0 <= c < n ==> (#[trigger] applied(aux, image, l, ts, n, boost, k).1[c] <==> exists|j: int|
                0 <= j < k && ts[j].dest == c),
        forall|c: int, i: int|
            0 <= c < n && 0 <= i < l.cs && !applied(aux, image, l, ts, n, boost, k).1[c] ==> #[trigger] sample(
                applied(aux, image, l, ts, n, boost, k).0,
                l.cs,
                c,
                i,
            ) == sample(aux, l.cs, c, i),
    decreases k,
{
    let cs = l.cs;
    if k == 0 {
        assert(ts.take(0) =~= Seq::<TransformSpec>::empty());
    } else {
        lemma_applied(aux, image, l, ts, n, boost, k - 1);
        lemma_applied_next(aux, image, l, ts, n, boost, k - 1);
        let t = ts[k - 1];
        assert(t.dest < n);
        let (a, tr) = applied(aux, image, l, ts, n, boost, k - 1);
        let af = apply_factors(a, image, l, t.dest as int, t.factors, tr, boost);
        lemma_factors_elsewhere(a, image, l, t.dest as int, t.factors, tr, boost);
        let tr1 = applied(aux, image, l, ts, n, boost, k).1;
        assert forall|c: int| 0 <= c < n implies (#[trigger] tr1[c] <==> exists|j: int|
            0 <= j < k && ts[j].dest == c) by {
            if c == t.dest {
                assert(ts[k - 1].dest == c);
            } else if tr1[c] {
                let j = choose|j: int| 0 <= j < k - 1 && ts[j].dest == c;
            } else {
                if exists|j: int| 0 <= j < k && ts[j].dest == c {
                    let j = choose|j: int| 0 <= j < k && ts[j].dest == c;
                    assert(j < k - 1);
                }
            }
        }
        assert forall|c: int, i: int|
            0 <= c < n && 0 <= i < cs && !tr1[c] implies #[trigger] sample(
            applied(aux, image, l, ts, n, boost, k).0,
            cs,
            c,
            i,
        ) == sample(aux, cs, c, i) by {
            lemma_channel_block(c, t.dest as int, i, cs);
            assert(0 <= c * cs + i < n * cs) by (nonlinear_arith)
                requires
                    0 <= c < n,
                    0 <= i < cs,
            ;
            assert(sample(a, cs, c, i) == sample(aux, cs, c, i));
        }
    }
}


/// After undoing the transforms from the `k`-th on, the channels that the
/// first `k` transforms touched hold what those transforms left, and the
/// others their boosted source.
pub open spec fn settled(
    aux: Seq<i16>,
    image: Seq<u8>,
    l: Layout,
    ts: Seq<TransformSpec>,
    n: nat,
    boost: i16,
    k: int,
    y: Seq<i16>,
) -> bool {
    &&& y.len() == aux.len()
    &&& forall|c: int, i: int|
        0 <= c < n && 0 <= i < l.cs ==> #[trigger] sample(y, l.cs, c, i) == if applied(
            aux,
            image,
            l,
            ts,
            n,
            boost,
            k,
        ).1[c] {
            sample(applied(aux, image, l, ts, n, boost, k).0, l.cs, c, i)
        } else {
            boosted(image, l, c, i, boost)
        }
}

/// Undoing the `k`-th transform brings its destination back to its boosted
/// source.
#[verifier::rlimit(40)]
proof fn lemma_undo_one(
    aux: Seq<i16>,
    image: Seq<u8>,
    l: Layout,
    ts: Seq<TransformSpec>,
    n: nat,
    boost: i16,
    k: int,
    y: Seq<i16>,
)
    requires
        runnable(ts, n, l.cs as nat, aux.len()),
        undoable(ts),
        l.cs >= 0,
        forall|j: int| 0 <= j < n * l.cs ==> #[trigger] aux[j] == 0,
        0 <= k < ts.len(),
        settled(aux, image, l, ts, n, boost, k + 1, y),
    ensures
        settled(aux, image, l, ts, n, boost, k, undo_transform(y, l.cs, ts[k])),
{
    let cs = l.cs;
    let t = ts[k];
    let dest = t.dest as int;
    lemma_applied(aux, image, l, ts, n, boost, k);
    lemma_applied(aux, image, l, ts, n, boost, k + 1);
    lemma_applied_next(aux, image, l, ts, n, boost, k);
    let (a, tr) = applied(aux, image, l, ts, n, boost, k);
    let (a1, tr1) = applied(aux, image, l, ts, n, boost, k + 1);
    let af = apply_factors(a, image, l, dest, t.factors, tr, boost);
    lemma_factors_elsewhere(a, image, l, dest, t.factors, tr, boost);
    assert(dest < n);
    assert(!tr[dest]) by {
        if tr[dest] {
            let j = choose|j: int| 0 <= j < k && ts[j].dest == dest;
            assert(ts[j].dest != ts[k].dest);
        }
    }
    let u = undo_transform(y, cs, t);
    assert forall|c: int, i: int| 0 <= c < n && 0 <= i < cs implies #[trigger] sample(u, cs, c, i) == if tr[c] {
        sample(a, cs, c, i)
    } else {
        boosted(image, l, c, i, boost)
    } by {
        lemma_channel_block(c, dest, i, cs);
        assert(0 <= c * cs + i < n * cs) by (nonlinear_arith)
            requires
                0 <= c < n,
                0 <= i < cs,
        ;
        assert(sample(y, cs, c, i) == if tr1[c] {
            sample(a1, cs, c, i)
        } else {
            boosted(image, l, c, i, boost)
        });
        if c == dest {
            assert(sample(a, cs, dest, i) == sample(aux, cs, dest, i));
            assert forall|j: int| 0 <= j < t.factors.len() implies {
                let src = (#[trigger] t.factors[j]).src_channel as int;
                &&& src < n
                &&& src != dest
                &&& tr[src] ==> y[src * cs + i] == a[src * cs + i]
                &&& !tr[src] ==> y[src * cs + i] == boosted(image, l, src, i, boost)
            } by {
                let src = t.factors[j].src_channel as int;
                assert(ts[k].factors[j].src_channel != ts[k].dest);
                lemma_channel_block(src, dest, i, cs);
                assert(0 <= src * cs + i < n * cs) by (nonlinear_arith)
                    requires
                        0 <= src < n,
                        0 <= i < cs,
                ;
                assert(sample(y, cs, src, i) == if tr1[src] {
                    sample(a1, cs, src, i)
                } else {
                    boosted(image, l, src, i, boost)
                });
            }
            lemma_factors_match(a, y, image, l, dest, t.factors, tr, boost, n as int, i);
            let b = boosted(image, l, dest, i, boost);
            let d = tdiv(factors_sum(y, cs, t.factors, i) as int, wrap16(t.denominator as int) as int);
            lemma_wrap16_cancel(b, d);
        }
    }
}

/// Undoing the first `k` transforms from a settled state gives the boosted
/// sources.
proof fn lemma_undo_rest(
    aux: Seq<i16>,
    image: Seq<u8>,
    l: Layout,
    ts: Seq<TransformSpec>,
    n: nat,
    boost: i16,
    k: int,
    y: Seq<i16>,
)
    requires
        runnable(ts, n, l.cs as nat, aux.len()),
        undoable(ts),
        l.cs >= 0,
        forall|j: int| 0 <= j < n * l.cs ==> #[trigger] aux[j] == 0,
        0 <= k <= ts.len(),
        settled(aux, image, l, ts, n, boost, k, y),
    ensures
        forall|c: int, i: int|
            0 <= c < n && 0 <= i < l.cs ==> #[trigger] sample(undo_transforms(y, l.cs, ts.take(k)), l.cs, c, i)
                == boosted(image, l, c, i, boost),
    decreases k,
{
    if k == 0 {
        assert(ts.take(0) =~= Seq::<TransformSpec>::empty());
        lemma_applied(aux, image, l, ts, n, boost, 0);
        assert forall|c: int, i: int| 0 <= c < n && 0 <= i < l.cs implies #[trigger] sample(
            undo_transforms(y, l.cs, ts.take(k)),
            l.cs,
            c,
            i,
        ) == boosted(image, l, c, i, boost) by {
            assert(sample(y, l.cs, c, i) == boosted(image, l, c, i, boost));
        }
    } else {
        lemma_undo_one(aux, image, l, ts, n, boost, k - 1, y);
        lemma_undo_rest(aux, image, l, ts, n, boost, k - 1, undo_transform(y, l.cs, ts[k - 1]));
        assert(ts.take(k).drop_last() =~= ts.take(k - 1));
        assert(ts.take(k).last() == ts[k - 1]);
        assert(undo_transforms(y, l.cs, ts.take(k)) == undo_transforms(
            undo_transform(y, l.cs, ts[k - 1]),
            l.cs,
            ts.take(k - 1),
        ));
    }
}

/// Undoing a program after carrying it out on channels that start at zero
/// gives back each channel's boosted source, when no channel is the
/// destination of two transforms and no transform reads its own
/// destination; with a boost from 1 to 128, the 8-bit samples come back.
pub proof fn lemma_transform_roundtrip(
    aux: Seq<i16>,
    image: Seq<u8>,
    l: Layout,
    ts: Seq<TransformSpec>,
    n: nat,
    boost: i16,
)
    requires
        runnable(ts, n, l.cs as nat, aux.len()),
        undoable(ts),
        l.cs >= 0,
        forall|j: int| 0 <= j < n * l.cs ==> #[trigger] aux[j] == 0,
    ensures
        transform_spec(aux, image, l, ts, n, boost).len() == aux.len(),
        forall|c: int, i: int|
            0 <= c < n && 0 <= i < l.cs ==> #[trigger] sample(
                undo_transforms(transform_spec(aux, image, l, ts, n, boost), l.cs, ts),
                l.cs,
                c,
                i,
            ) == boosted(image, l, c, i, boost),
        1 <= boost <= 128 ==> forall|c: int, i: int|
            0 <= c < n && 0 <= i < l.cs ==> to_u8(
                #[trigger] sample(undo_transforms(transform_spec(aux, image, l, ts, n, boost), l.cs, ts), l.cs, c, i),
                boost,
            ) == image[source_index(l, c, i)],
{
    let cs = l.cs;
    let len = ts.len() as int;
    assert(ts.take(len) =~= ts);
    lemma_applied(aux, image, l, ts, n, boost, len);
    let (a, tr) = applied(aux, image, l, ts, n, boost, len);
    let x = transform_spec(aux, image, l, ts, n, boost);
    assert(x == fill_untransformed(a, image, l, tr, boost));
    assert forall|c: int, i: int| 0 <= c < n && 0 <= i < cs implies #[trigger] sample(x, cs, c, i) == if tr[c] {
        sample(a, cs, c, i)
    } else {
        boosted(image, l, c, i, boost)
    } by {
        let j = c * cs + i;
        assert(0 <= c * cs + i < n * cs) by (nonlinear_arith)
            requires
                0 <= c < n,
                0 <= i < cs,
        ;
        vstd::arithmetic::div_mod::lemma_fundamental_div_mod_converse(j, cs, c, i);
    }
    assert(settled(aux, image, l, ts, n, boost, len, x));
    lemma_undo_rest(aux, image, l, ts, n, boost, len, x);
    if 1 <= boost <= 128 {
        assert forall|c: int, i: int| 0 <= c < n && 0 <= i < cs implies to_u8(
            #[trigger] sample(undo_transforms(x, cs, ts), cs, c, i),
            boost,
        ) == image[source_index(l, c, i)] by {
            let v = image[source_index(l, c, i)] as int;
            let b = boost as int;
            assert(0 <= v * b <= 255 * 128) by (nonlinear_arith)
                requires
                    0 <= v <= 255,
                    1 <= b <= 128,
            ;
            assert((v * b) / b == v) by (nonlinear_arith)
                requires
                    b >= 1,
                    v >= 0,
            ;
        }
    }
}

} // verus!
