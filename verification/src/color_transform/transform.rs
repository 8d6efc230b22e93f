//! Carrying out and undoing color transform programs, and moving channels
//! between interleaved and planar layouts.
use vstd::prelude::*;

use super::program::{ChannelTransform, ChannelTransformFactor, ColorTransformProgram, TransformSpec};
use crate::header::{boost_of, Header};
use super::program::specs_of;
use crate::lifting::{div_trunc, lemma_tdiv_bound, tdiv, wrap16, wrap_i16, wrap_i32, wrap_i64};

verus! {

/// The layout of the source image: `channels` channels of `cs` samples,
/// planar (channel after channel) or interleaved (sample after sample, in
/// layers of `channels` channels).
pub struct Layout {
    pub interleaved: bool,
    pub channels: int,
    pub cs: int,
}

/// The index in the source image of sample `i` of channel `c`.
pub open spec fn source_index(l: Layout, c: int, i: int) -> int {
    if l.interleaved {
        (c / l.channels) * l.cs * l.channels + c % l.channels + i * l.channels
    } else {
        c * l.cs + i
    }
}

/// Sample `i` of channel `c` of the source image, boosted.
pub open spec fn boosted(image: Seq<u8>, l: Layout, c: int, i: int, boost: i16) -> i16 {
    wrap16(image[source_index(l, c, i)] * boost)
}

/// Adds one factor to the destination channel of a transform.
pub open spec fn apply_factor(
    aux: Seq<i16>,
    image: Seq<u8>,
    l: Layout,
    dest: int,
    f: ChannelTransformFactor,
    transformed: Seq<bool>,
    boost: i16,
) -> Seq<i16> {
    Seq::new(
        aux.len(),
        |j: int|
            if dest * l.cs <= j < dest * l.cs + l.cs {
                let i = j - dest * l.cs;
                let v = if transformed[f.src_channel as int] {
                    wrap16(aux[f.src_channel * l.cs + i] * wrap16(f.factor as int))
                } else {
                    wrap16(image[source_index(l, f.src_channel as int, i)] * wrap16(
                        wrap16(f.factor as int) * boost,
                    ))
                };
                wrap16(aux[j] + v)
            } else {
                aux[j]
            },
    )
}

/// Adds the factors of a transform, in order.
pub open spec fn apply_factors(
    aux: Seq<i16>,
    image: Seq<u8>,
    l: Layout,
    dest: int,
    fs: Seq<ChannelTransformFactor>,
    transformed: Seq<bool>,
    boost: i16,
) -> Seq<i16>
    decreases fs.len(),
{
    if fs.len() == 0 {
        aux
    } else {
        apply_factor(
            apply_factors(aux, image, l, dest, fs.drop_last(), transformed, boost),
            image,
            l,
            dest,
            fs.last(),
            transformed,
            boost,
        )
    }
}

/// Divides the destination channel by the denominator and adds the boosted
/// channel itself.
pub open spec fn finish_transform(
    aux: Seq<i16>,
    image: Seq<u8>,
    l: Layout,
    dest: int,
    denominator: isize,
    boost: i16,
) -> Seq<i16> {
    Seq::new(
        aux.len(),
        |j: int|
            if dest * l.cs <= j < dest * l.cs + l.cs {
                let i = j - dest * l.cs;
                wrap16(
                    tdiv(aux[j] as int, wrap16(denominator as int) as int) + boosted(
                        image,
                        l,
                        dest,
                        i,
                        boost,
                    ),
                )
            } else {
                aux[j]
            },
    )
}

/// The transforms `ts` carried out in order on `aux`, with the flags of the
/// channels transformed so far.
pub open spec fn apply_transforms(
    aux: Seq<i16>,
    image: Seq<u8>,
    l: Layout,
    ts: Seq<TransformSpec>,
    transformed: Seq<bool>,
    boost: i16,
) -> (Seq<i16>, Seq<bool>)
    decreases ts.len(),
{
    if ts.len() == 0 {
        (aux, transformed)
    } else {
        let (a, tr) = apply_transforms(aux, image, l, ts.drop_last(), transformed, boost);
        let t = ts.last();
        (
            finish_transform(
                apply_factors(a, image, l, t.dest as int, t.factors, tr, boost),
                image,
                l,
                t.dest as int,
                t.denominator,
                boost,
            ),
            tr.update(t.dest as int, true),
        )
    }
}

/// The channels that no transform touched get the boosted source channel.
pub open spec fn fill_untransformed(
    aux: Seq<i16>,
    image: Seq<u8>,
    l: Layout,
    transformed: Seq<bool>,
    boost: i16,
) -> Seq<i16> {
    Seq::new(
        aux.len(),
        |j: int|
            if 0 <= j < transformed.len() * l.cs && !transformed[j / l.cs] {
                boosted(image, l, j / l.cs, j % l.cs, boost)
            } else {
                aux[j]
            },
    )
}

/// A program carried out on `image` into `aux`, for `n` channels.
pub open spec fn transform_spec(
    aux: Seq<i16>,
    image: Seq<u8>,
    l: Layout,
    ts: Seq<TransformSpec>,
    n: nat,
    boost: i16,
) -> Seq<i16> {
    let (a, tr) = apply_transforms(aux, image, l, ts, Seq::new(n, |c: int| false), boost);
    fill_untransformed(a, image, l, tr, boost)
}

/// The programs that can be carried out on `n` channels of `cs` samples in
/// `aux`: channels in range, and denominators that are not 0 at 16 bits.
/// Like the other 16-bit arithmetic of a program, the division wraps round:
/// the least 16-bit value divided by -1 stays itself.
pub open spec fn runnable(ts: Seq<TransformSpec>, n: nat, cs: nat, aux_len: nat) -> bool {
    &&& n * cs <= aux_len
    &&& forall|k: int|
        0 <= k < ts.len() ==> {
            let t = #[trigger] ts[k];
            &&& t.dest < n
            &&& wrap16(t.denominator as int) != 0
            &&& forall|j: int| 0 <= j < t.factors.len() ==> (#[trigger] t.factors[j]).src_channel < n
        }
}

// ---------------------------------------------------------------------------
// Carrying out a program.

/// A source layout that fits in the image: every sample of the `n` channels
/// lies inside it.
pub open spec fn layout_ok(l: Layout, n: int, image_len: int) -> bool {
    &&& l.cs >= 0
    &&& l.channels >= 1
    &&& n * l.cs <= image_len
    &&& l.interleaved ==> n % l.channels == 0
}

proof fn lemma_source_index(l: Layout, n: int, image_len: int, c: int, i: int)
    requires
        layout_ok(l, n, image_len),
        0 <= c < n,
        0 <= i < l.cs,
    ensures
        0 <= source_index(l, c, i) < image_len,
{
    if l.interleaved {
        let ch = l.channels;
        let layer = c / ch;
        let r = c % ch;
        vstd::arithmetic::div_mod::lemma_fundamental_div_mod(c, ch);
        vstd::arithmetic::div_mod::lemma_fundamental_div_mod(n, ch);
        let layers = n / ch;
        assert(layer < layers) by (nonlinear_arith)
            requires
                c == ch * layer + r,
                n == ch * layers,
                0 <= r < ch,
                c < n,
                ch >= 1,
        ;
        assert(0 <= layer * l.cs * ch + r + i * ch < n * l.cs) by (nonlinear_arith)
            requires
                0 <= layer < layers,
                n == ch * layers,
                0 <= r < ch,
                0 <= i < l.cs,
                ch >= 1,
        ;
    } else {
        assert(0 <= c * l.cs + i < n * l.cs) by (nonlinear_arith)
            requires
                0 <= c < n,
                0 <= i < l.cs,
        ;
    }
}

/// `a * b` reduced to 16 bits.
fn mul16(a: i16, b: i16) -> (r: i16)
    ensures
        r == wrap16(a * b),
{
    assert(-32768 * 32768 <= a * b <= 32768 * 32768) by (nonlinear_arith)
        requires
            -32768 <= a <= 32767,
            -32768 <= b <= 32767,
    ;
    wrap_i32(a as i32 * b as i32)
}

/// `a + b` reduced to 16 bits.
fn add16(a: i16, b: i16) -> (r: i16)
    ensures
        r == wrap16(a + b),
{
    wrap_i16(a as i32 + b as i32)
}

/// The index of a source sample.
fn source_index_exec(interleaved: bool, channels: usize, cs: usize, c: usize, i: usize, Ghost(n): Ghost<int>, Ghost(image_len): Ghost<int>) -> (r: usize)
    requires
        layout_ok(Layout { interleaved, channels: channels as int, cs: cs as int }, n, image_len),
        image_len <= usize::MAX,
        0 <= c < n,
        0 <= i < cs,
    ensures
        r == source_index(Layout { interleaved, channels: channels as int, cs: cs as int }, c as int, i as int),
        r < image_len,
{
    let ghost l = Layout { interleaved, channels: channels as int, cs: cs as int };
    proof {
        lemma_source_index(l, n, image_len, c as int, i as int);
    }
    if interleaved {
        proof {
            assert(0 <= (c / channels) * cs <= (c / channels) * cs * channels) by (nonlinear_arith)
                requires
                    channels >= 1,
                    c >= 0,
                    cs >= 0,
            ;
            assert(0 <= (c / channels) * cs * channels <= source_index(l, c as int, i as int)) by (nonlinear_arith)
                requires
                    channels >= 1,
                    c >= 0,
                    cs >= 0,
                    i >= 0,
                    source_index(l, c as int, i as int) == (c / channels) * cs * channels + c % channels + i * channels,
                    c % channels >= 0,
            ;
            assert(0 <= i * channels <= source_index(l, c as int, i as int)) by (nonlinear_arith)
                requires
                    channels >= 1,
                    i >= 0,
                    source_index(l, c as int, i as int) == (c / channels) * cs * channels + c % channels + i * channels,
                    c % channels >= 0,
                    (c / channels) * cs * channels >= 0,
            ;
        }
        (c / channels) * cs * channels + c % channels + i * channels
    } else {
        proof {
            assert(0 <= c * cs <= source_index(l, c as int, i as int)) by (nonlinear_arith)
                requires
                    c >= 0,
                    cs >= 0,
                    i >= 0,
                    source_index(l, c as int, i as int) == c * cs + i,
            ;
        }
        c * cs + i
    }
}

/// Adds one factor to the destination channel.
fn factor_pass(
    aux: &mut [i16],
    image: &[u8],
    interleaved: bool,
    channels: usize,
    cs: usize,
    n: usize,
    dest: usize,
    f: ChannelTransformFactor,
    transformed: &Vec<bool>,
    boost: i16,
)
    requires
        layout_ok(Layout { interleaved, channels: channels as int, cs: cs as int }, n as int, image@.len() as int),
        n * cs <= old(aux)@.len(),
        dest < n,
        f.src_channel < n,
        transformed@.len() == n,
    ensures
        final(aux)@ == apply_factor(
            old(aux)@,
            image@,
            Layout { interleaved, channels: channels as int, cs: cs as int },
            dest as int,
            f,
            transformed@,
            boost,
        ),
{
    let ghost l = Layout { interleaved, channels: channels as int, cs: cs as int };
    let ghost a0 = aux@;
    let alen = aux.len();
    let ilen = image.len();
    let ghost target = apply_factor(a0, image@, l, dest as int, f, transformed@, boost);
    proof {
        assert(dest * cs + cs <= n * cs && f.src_channel * cs + cs <= n * cs) by (nonlinear_arith)
            requires
                dest < n,
                f.src_channel < n,
        ;
    }
    let base = dest * cs;
    let src_base = f.src_channel * cs;
    let factor = wrap_i64(f.factor as i64);
    let boosted_factor = mul16(factor, boost);
    let src_transformed = transformed[f.src_channel];
    let mut i: usize = 0;
    while i < cs
        invariant
            i <= cs,
            base == dest * cs,
            src_base == f.src_channel * cs,
            base + cs <= a0.len(),
            src_base + cs <= a0.len(),
            aux@.len() == a0.len(),
            alen == a0.len(),
            ilen == image@.len(),
            layout_ok(l, n as int, image@.len() as int),
            l == (Layout { interleaved, channels: channels as int, cs: cs as int }),
            f.src_channel < n,
            transformed@.len() == n,
            src_transformed == transformed@[f.src_channel as int],
            factor == wrap16(f.factor as int),
            boosted_factor == wrap16(factor * boost),
            target == apply_factor(a0, image@, l, dest as int, f, transformed@, boost),
            forall|j: int| 0 <= j < a0.len() ==> #[trigger] aux@[j] == if base <= j < base + i {
                target[j]
            } else {
                a0[j]
            },
        decreases cs - i,
    {
        proof {
            if f.src_channel < dest {
                assert(f.src_channel * cs + cs <= dest * cs) by (nonlinear_arith)
                    requires
                        f.src_channel < dest,
                ;
            } else if f.src_channel > dest {
                assert(dest * cs + cs <= f.src_channel * cs) by (nonlinear_arith)
                    requires
                        f.src_channel > dest,
                ;
            }
            assert(aux@[src_base + i] == a0[src_base + i]);
        }
        let v = if src_transformed {
            mul16(aux[src_base + i], factor)
        } else {
            let k = source_index_exec(interleaved, channels, cs, f.src_channel, i, Ghost(n as int), Ghost(image@.len() as int));
            mul16(image[k] as i16, boosted_factor)
        };
        aux[base + i] = add16(aux[base + i], v);
        i = i + 1;
    }
    assert(aux@ =~= target);
}

/// Divides the destination channel by the denominator and adds the boosted
/// channel itself.
fn finish_pass(
    aux: &mut [i16],
    image: &[u8],
    interleaved: bool,
    channels: usize,
    cs: usize,
    n: usize,
    dest: usize,
    denominator: isize,
    boost: i16,
)
    requires
        layout_ok(Layout { interleaved, channels: channels as int, cs: cs as int }, n as int, image@.len() as int),
        n * cs <= old(aux)@.len(),
        dest < n,
        wrap16(denominator as int) != 0,
    ensures
        final(aux)@ == finish_transform(
            old(aux)@,
            image@,
            Layout { interleaved, channels: channels as int, cs: cs as int },
            dest as int,
            denominator,
            boost,
        ),
{
    let ghost l = Layout { interleaved, channels: channels as int, cs: cs as int };
    let ghost a0 = aux@;
    let alen = aux.len();
    let ilen = image.len();
    let ghost target = finish_transform(a0, image@, l, dest as int, denominator, boost);
    proof {
        assert(dest * cs + cs <= n * cs) by (nonlinear_arith)
            requires
                dest < n,
        ;
    }
    let base = dest * cs;
    let d = wrap_i64(denominator as i64);
    let mut i: usize = 0;
    while i < cs
        invariant
            i <= cs,
            base == dest * cs,
            base + cs <= a0.len(),
            aux@.len() == a0.len(),
            alen == a0.len(),
            ilen == image@.len(),
            layout_ok(l, n as int, image@.len() as int),
            l == (Layout { interleaved, channels: channels as int, cs: cs as int }),
            dest < n,
            d == wrap16(denominator as int),
            d != 0,
            target == finish_transform(a0, image@, l, dest as int, denominator, boost),
            forall|j: int| 0 <= j < a0.len() ==> #[trigger] aux@[j] == if base <= j < base + i {
                target[j]
            } else {
                a0[j]
            },
        decreases cs - i,
    {
        let v = aux[base + i];
        let q = div_trunc(v as i32, d as i32);
        proof {
            lemma_tdiv_bound(v as int, d as int);
        }
        let k = source_index_exec(interleaved, channels, cs, dest, i, Ghost(n as int), Ghost(image@.len() as int));
        let b = mul16(image[k] as i16, boost);
        aux[base + i] = wrap_i16(q + b as i32);
        i = i + 1;
    }
    assert(aux@ =~= target);
}

/// Gives every channel that no transform touched its boosted source channel.
fn fill_pass(
    aux: &mut [i16],
    image: &[u8],
    interleaved: bool,
    channels: usize,
    cs: usize,
    n: usize,
    transformed: &Vec<bool>,
    boost: i16,
)
    requires
        layout_ok(Layout { interleaved, channels: channels as int, cs: cs as int }, n as int, image@.len() as int),
        n * cs <= old(aux)@.len(),
        transformed@.len() == n,
        cs >= 1,
    ensures
        final(aux)@ == fill_untransformed(
            old(aux)@,
            image@,
            Layout { interleaved, channels: channels as int, cs: cs as int },
            transformed@,
            boost,
        ),
{
    let ghost l = Layout { interleaved, channels: channels as int, cs: cs as int };
    let ghost a0 = aux@;
    let alen = aux.len();
    let ilen = image.len();
    let ghost target = fill_untransformed(a0, image@, l, transformed@, boost);
    let mut c: usize = 0;
    while c < n
        invariant
            c <= n,
            n * cs <= a0.len(),
            cs >= 1,
            aux@.len() == a0.len(),
            alen == a0.len(),
            ilen == image@.len(),
            transformed@.len() == n,
            layout_ok(l, n as int, image@.len() as int),
            l == (Layout { interleaved, channels: channels as int, cs: cs as int }),
            target == fill_untransformed(a0, image@, l, transformed@, boost),
            forall|j: int| 0 <= j < a0.len() ==> #[trigger] aux@[j] == if 0 <= j < c * cs {
                target[j]
            } else {
                a0[j]
            },
        decreases n - c,
    {
        proof {
            assert(c * cs + cs <= n * cs) by (nonlinear_arith)
                requires
                    c < n,
            ;
        }
        let base = c * cs;
        let skip = transformed[c];
        let mut i: usize = 0;
        while i < cs
            invariant
                c < n,
                i <= cs,
                cs >= 1,
                base == c * cs,
                base + cs <= a0.len(),
                n * cs <= a0.len(),
                aux@.len() == a0.len(),
                alen == a0.len(),
                ilen == image@.len(),
                transformed@.len() == n,
                skip == transformed@[c as int],
                layout_ok(l, n as int, image@.len() as int),
                l == (Layout { interleaved, channels: channels as int, cs: cs as int }),
                target == fill_untransformed(a0, image@, l, transformed@, boost),
                forall|j: int| 0 <= j < a0.len() ==> #[trigger] aux@[j] == if 0 <= j < c * cs + i {
                    target[j]
                } else {
                    a0[j]
                },
            decreases cs - i,
        {
            proof {
                let j = (base + i) as int;
                vstd::arithmetic::div_mod::lemma_fundamental_div_mod_converse(j, cs as int, c as int, i as int);
            }
            proof {
                assert(c * cs + cs <= n * cs) by (nonlinear_arith)
                    requires
                        c < n,
                ;
                assert(0 <= ((base + i) as int) && ((base + i) as int) < transformed@.len() * l.cs);
            }
            if !skip {
                let k = source_index_exec(interleaved, channels, cs, c, i, Ghost(n as int), Ghost(image@.len() as int));
                aux[base + i] = mul16(image[k] as i16, boost);
            }
            i = i + 1;
        }
        c = c + 1;
        proof {
            assert((c - 1) * cs + cs == c * cs) by (nonlinear_arith);
        }
    }
    proof {
        assert forall|j: int| 0 <= j < a0.len() implies aux@[j] == target[j] by {
            if j >= n * cs {
                assert(!(0 <= j < transformed@.len() * l.cs));
            }
        }
    }
    assert(aux@ =~= target);
}

proof fn lemma_runnable_at(ts: Seq<TransformSpec>, n: nat, cs: nat, aux_len: nat, k: int, j: int)
    requires
        runnable(ts, n, cs, aux_len),
        0 <= k < ts.len(),
        0 <= j < ts[k].factors.len(),
    ensures
        ts[k].dest < n,
        ts[k].factors[j].src_channel < n,
{
    let t = ts[k];
    assert(t.dest < n);
    assert(t.factors[j].src_channel < n);
}

/// Carries out the transforms `ts` in order on `aux`, then fills the
/// channels they did not touch.
fn run_program(
    ts: &[ChannelTransform],
    image: &[u8],
    interleaved: bool,
    channels: usize,
    cs: usize,
    n: usize,
    boost: i16,
    aux: &mut [i16],
)
    requires
        layout_ok(Layout { interleaved, channels: channels as int, cs: cs as int }, n as int, image@.len() as int),
        runnable(specs_of(ts@), n as nat, cs as nat, old(aux)@.len()),
        cs >= 1,
    ensures
        final(aux)@.len() == old(aux)@.len(),
        final(aux)@ == transform_spec(
            old(aux)@,
            image@,
            Layout { interleaved, channels: channels as int, cs: cs as int },
            specs_of(ts@),
            n as nat,
            boost,
        ),
{
    let ghost l = Layout { interleaved, channels: channels as int, cs: cs as int };
    let ghost specs = specs_of(ts@);
    let ghost a0 = aux@;
    let ghost tr0 = Seq::new(n as nat, |c: int| false);
    let mut transformed: Vec<bool> = Vec::new();
    let mut c: usize = 0;
    while c < n
        invariant
            c <= n,
            transformed@ == Seq::new(c as nat, |i: int| false),
        decreases n - c,
    {
        transformed.push(false);
        c = c + 1;
        assert(transformed@ =~= Seq::new(c as nat, |i: int| false));
    }
    let mut k: usize = 0;
    while k < ts.len()
        invariant
            k <= ts@.len(),
            specs == specs_of(ts@),
            l == (Layout { interleaved, channels: channels as int, cs: cs as int }),
            layout_ok(l, n as int, image@.len() as int),
            runnable(specs, n as nat, cs as nat, a0.len()),
            aux@.len() == a0.len(),
            transformed@.len() == n,
            (aux@, transformed@) == apply_transforms(a0, image@, l, specs.subrange(0, k as int), tr0, boost),
        decreases ts@.len() - k,
    {
        let t = &ts[k];
        let ghost tk = specs[k as int];
        assert(tk == t.spec());
        let ghost start = aux@;
        let mut j: usize = 0;
        while j < t.channel_factors.len()
            invariant
                0 <= k < ts@.len(),
                specs == specs_of(ts@),
                tk == specs[k as int],
                tk == t.spec(),
                j <= tk.factors.len(),
                l == (Layout { interleaved, channels: channels as int, cs: cs as int }),
                layout_ok(l, n as int, image@.len() as int),
                runnable(specs, n as nat, cs as nat, a0.len()),
                aux@.len() == a0.len(),
                transformed@.len() == n,
                aux@ == apply_factors(start, image@, l, tk.dest as int, tk.factors.subrange(0, j as int), transformed@, boost),
            decreases tk.factors.len() - j,
        {
            let f = t.channel_factors[j];
            assert(f == tk.factors[j as int]);
            proof {
                lemma_runnable_at(specs, n as nat, cs as nat, a0.len(), k as int, j as int);
            }
            factor_pass(aux, image, interleaved, channels, cs, n, t.dest_channel, f, &transformed, boost);
            proof {
                let sub = tk.factors.subrange(0, j + 1);
                assert(sub.drop_last() =~= tk.factors.subrange(0, j as int));
                assert(sub.last() == f);
            }
            j = j + 1;
        }
        proof {
            assert(tk.factors.subrange(0, tk.factors.len() as int) =~= tk.factors);
        }
        assert(tk.dest < n && wrap16(tk.denominator as int) != 0);
        finish_pass(aux, image, interleaved, channels, cs, n, t.dest_channel, t.denominator, boost);
        transformed.set(t.dest_channel, true);
        proof {
            let sub = specs.subrange(0, k + 1);
            assert(sub.drop_last() =~= specs.subrange(0, k as int));
            assert(sub.last() == tk);
        }
        k = k + 1;
    }
    proof {
        assert(specs.subrange(0, k as int) =~= specs);
    }
    fill_pass(aux, image, interleaved, channels, cs, n, &transformed, boost);
}

/// The preconditions of carrying out a program on an image of `header`'s
/// shape.
pub open spec fn transform_ok(
    ts: Seq<TransformSpec>,
    header: Header,
    image_len: nat,
    aux_len: nat,
    interleaved: bool,
) -> bool {
    let n = header.channels * header.layers;
    let cs = header.width * header.height;
    &&& image_len <= aux_len
    &&& 1 <= cs <= usize::MAX
    &&& header.channels >= 1
    &&& layout_ok(Layout { interleaved, channels: header.channels as int, cs: cs as int }, n as int, image_len as int)
    &&& runnable(ts, n as nat, cs as nat, aux_len)
}

impl ColorTransformProgram {
    /// Carries out the program on a planar 8-bit image of `header`'s shape
    /// into `aux`: in order, each transform adds its factors (times the
    /// transformed channel, or times the boosted source channel when that
    /// channel was not transformed yet) to the destination channel, divides
    /// by the denominator and adds the boosted source of the channel; the
    /// channels no transform touches get their boosted source.  Sample
    /// arithmetic wraps at 16 bits.
    pub fn transform(&self, image: &[u8], header: &Header, aux: &mut [i16])
        requires
            transform_ok(self.transforms(), *header, image@.len(), old(aux)@.len(), false),
        ensures
            final(aux)@ == transform_spec(
                old(aux)@,
                image@,
                Layout {
                    interleaved: false,
                    channels: header.channels as int,
                    cs: header.width * header.height,
                },
                self.transforms(),
                (header.channels * header.layers) as nat,
                boost_of(*header),
            ),
    {
        let boost = header.get_boost();
        let channels = header.channels as usize;
        assert(header.channels * header.layers <= 65535 * 65535) by (nonlinear_arith)
            requires
                header.channels <= 65535,
                header.layers <= 65535,
        ;
        let n = header.channels as usize * header.layers as usize;
        let cs = header.width as usize * header.height as usize;
        run_program(self.iter(), image, false, channels, cs, n, boost, aux);
    }

    /// Carries out the program on an interleaved 8-bit image of `header`'s
    /// shape into planar `aux`, as `transform` does on a planar one.
    pub fn transform_and_to_planar(&self, image: &[u8], header: &Header, aux: &mut [i16])
        requires
            transform_ok(self.transforms(), *header, image@.len(), old(aux)@.len(), true),
        ensures
            final(aux)@.len() == old(aux)@.len(),
            final(aux)@ == transform_spec(
                old(aux)@,
                image@,
                Layout {
                    interleaved: true,
                    channels: header.channels as int,
                    cs: header.width * header.height,
                },
                self.transforms(),
                (header.channels * header.layers) as nat,
                boost_of(*header),
            ),
    {
        let boost = header.get_boost();
        let channels = header.channels as usize;
        assert(header.channels * header.layers <= 65535 * 65535) by (nonlinear_arith)
            requires
                header.channels <= 65535,
                header.layers <= 65535,
        ;
        let n = header.channels as usize * header.layers as usize;
        let cs = header.width as usize * header.height as usize;
        run_program(self.iter(), image, true, channels, cs, n, boost, aux);
    }
}

// ---------------------------------------------------------------------------
// Undoing a program.

/// The sum of the factors of a transform at sample `i`, before division,
/// accumulated at 16 bits.
pub open spec fn factors_sum(aux: Seq<i16>, cs: int, fs: Seq<ChannelTransformFactor>, i: int) -> i16
    decreases fs.len(),
{
    if fs.len() == 0 {
        0
    } else {
        let f = fs.last();
        wrap16(factors_sum(aux, cs, fs.drop_last(), i) + wrap16(
            aux[f.src_channel * cs + i] * wrap16(f.factor as int),
        ))
    }
}

/// Undoes one transform: subtracts from its destination channel the sum of
/// its factors divided by its denominator.
pub open spec fn undo_transform(aux: Seq<i16>, cs: int, t: TransformSpec) -> Seq<i16> {
    Seq::new(
        aux.len(),
        |j: int|
            if t.dest * cs <= j < t.dest * cs + cs {
                let i = j - t.dest * cs;
                wrap16(
                    aux[j] - tdiv(
                        factors_sum(aux, cs, t.factors, i) as int,
                        wrap16(t.denominator as int) as int,
                    ),
                )
            } else {
                aux[j]
            },
    )
}

/// Undoes the transforms `ts`, the last one first.
pub open spec fn undo_transforms(aux: Seq<i16>, cs: int, ts: Seq<TransformSpec>) -> Seq<i16>
    decreases ts.len(),
{
    if ts.len() == 0 {
        aux
    } else {
        undo_transforms(undo_transform(aux, cs, ts.last()), cs, ts.drop_last())
    }
}

/// An 8-bit sample from a boosted 16-bit one: divided by the boost and
/// clamped to 0..=255.
pub open spec fn to_u8(v: i16, boost: i16) -> u8 {
    let q = tdiv(v as int, boost as int);
    if q > 255 {
        255
    } else if q < 0 {
        0
    } else {
        q as u8
    }
}

fn to_u8_exec(v: i16, boost: i16) -> (r: u8)
    requires
        boost != 0,
    ensures
        r == to_u8(v, boost),
{
    let q = div_trunc(v as i32, boost as i32);
    if q > 255 {
        255
    } else if q < 0 {
        0
    } else {
        q as u8
    }
}

/// Undoes one transform in place.
fn undo_pass(aux: &mut [i16], cs: usize, n: usize, t: &ChannelTransform)
    requires
        n * cs <= old(aux)@.len(),
        t.dest_channel < n,
        wrap16(t.denominator as int) != 0,
        forall|j: int| 0 <= j < t.channel_factors@.len() ==> (#[trigger] t.channel_factors@[j]).src_channel < n,
    ensures
        final(aux)@ == undo_transform(old(aux)@, cs as int, t.spec()),
{
    let ghost a0 = aux@;
    let ghost ts = t.spec();
    let alen = aux.len();
    let mut temp: Vec<i16> = Vec::new();
    let mut i: usize = 0;
    while i < cs
        invariant
            i <= cs,
            temp@ == Seq::new(i as nat, |x: int| 0i16),
        decreases cs - i,
    {
        temp.push(0);
        i = i + 1;
        assert(temp@ =~= Seq::new(i as nat, |x: int| 0i16));
    }
    let mut k: usize = 0;
    while k < t.channel_factors.len()
        invariant
            k <= t.channel_factors@.len(),
            ts == t.spec(),
            aux@ == a0,
            alen == a0.len(),
            n * cs <= a0.len(),
            forall|j: int| 0 <= j < t.channel_factors@.len() ==> (#[trigger] t.channel_factors@[j]).src_channel < n,
            temp@.len() == cs,
            forall|x: int| 0 <= x < cs ==> #[trigger] temp@[x] == factors_sum(a0, cs as int, ts.factors.subrange(0, k as int), x),
        decreases t.channel_factors@.len() - k,
    {
        let f = t.channel_factors[k];
        assert(f.src_channel < n);
        proof {
            assert(f.src_channel * cs + cs <= n * cs) by (nonlinear_arith)
                requires
                    f.src_channel < n,
            ;
        }
        let base = f.src_channel * cs;
        let factor = wrap_i64(f.factor as i64);
        let ghost prev = temp@;
        let mut i: usize = 0;
        while i < cs
            invariant
                i <= cs,
                base == f.src_channel * cs,
                base + cs <= a0.len(),
                aux@ == a0,
                factor == wrap16(f.factor as int),
                temp@.len() == cs,
                prev.len() == cs,
                forall|x: int| 0 <= x < cs ==> #[trigger] temp@[x] == if x < i {
                    wrap16(prev[x] + wrap16(a0[base + x] * factor))
                } else {
                    prev[x]
                },
            decreases cs - i,
        {
            let v = mul16(aux[base + i], factor);
            let old_t = temp[i];
            temp.set(i, add16(old_t, v));
            i = i + 1;
        }
        proof {
            let sub = ts.factors.subrange(0, k + 1);
            assert(sub.drop_last() =~= ts.factors.subrange(0, k as int));
            assert(sub.last() == f);
        }
        k = k + 1;
    }
    proof {
        assert(ts.factors.subrange(0, k as int) =~= ts.factors);
        assert(t.dest_channel * cs + cs <= n * cs) by (nonlinear_arith)
            requires
                t.dest_channel < n,
        ;
    }
    let d = wrap_i64(t.denominator as i64);
    let base = t.dest_channel * cs;
    let mut i: usize = 0;
    while i < cs
        invariant
            i <= cs,
            base == t.dest_channel * cs,
            base + cs <= a0.len(),
            alen == a0.len(),
            aux@.len() == a0.len(),
            ts == t.spec(),
            d == wrap16(t.denominator as int),
            d != 0,
            temp@.len() == cs,
            forall|x: int| 0 <= x < cs ==> #[trigger] temp@[x] == factors_sum(a0, cs as int, ts.factors, x),
            forall|j: int| 0 <= j < a0.len() ==> #[trigger] aux@[j] == if base <= j < base + i {
                undo_transform(a0, cs as int, ts)[j]
            } else {
                a0[j]
            },
        decreases cs - i,
    {
        let tv = temp[i];
        let q = div_trunc(tv as i32, d as i32);
        proof {
            lemma_tdiv_bound(tv as int, d as int);
        }
        let v = aux[base + i];
        aux[base + i] = wrap_i16(v as i32 - q);
        i = i + 1;
    }
    assert(aux@ =~= undo_transform(a0, cs as int, ts));
}

/// Undoes the transforms, the last one first.
fn undo_program(ts: &[ChannelTransform], aux: &mut [i16], cs: usize, n: usize)
    requires
        runnable(specs_of(ts@), n as nat, cs as nat, old(aux)@.len()),
    ensures
        final(aux)@ == undo_transforms(old(aux)@, cs as int, specs_of(ts@)),
{
    let ghost specs = specs_of(ts@);
    let ghost a0 = aux@;
    let mut k: usize = ts.len();
    assert(specs.subrange(0, k as int) =~= specs);
    while k > 0
        invariant
            k <= ts@.len(),
            specs == specs_of(ts@),
            runnable(specs, n as nat, cs as nat, a0.len()),
            aux@.len() == a0.len(),
            undo_transforms(aux@, cs as int, specs.subrange(0, k as int)) == undo_transforms(a0, cs as int, specs),
        decreases k,
    {
        k = k - 1;
        let t = &ts[k];
        let ghost tk = specs[k as int];
        assert(tk == t.spec());
        proof {
            assert(tk.dest < n);
            assert forall|j: int| 0 <= j < t.channel_factors@.len() implies (#[trigger] t.channel_factors@[j]).src_channel < n by {
                lemma_runnable_at(specs, n as nat, cs as nat, a0.len(), k as int, j);
            }
            let sub = specs.subrange(0, k + 1);
            assert(sub.drop_last() =~= specs.subrange(0, k as int));
            assert(sub.last() == tk);
        }
        undo_pass(aux, cs, n, t);
    }
    proof {
        assert(specs.subrange(0, 0) =~= Seq::<TransformSpec>::empty());
    }
}

proof fn lemma_undo_len(aux: Seq<i16>, cs: int, ts: Seq<TransformSpec>)
    ensures
        undo_transforms(aux, cs, ts).len() == aux.len(),
    decreases ts.len(),
{
    if ts.len() > 0 {
        lemma_undo_len(undo_transform(aux, cs, ts.last()), cs, ts.drop_last());
    }
}

impl ColorTransformProgram {
    /// Undoes the program on planar `aux` (channels of `channel_size`
    /// samples, for `header`'s shape) and writes the result, divided by the
    /// boost and clamped to 8 bits, to the start of `image`.
    pub fn detransform(&self, aux: &mut [i16], header: &Header, channel_size: usize, image: &mut [u8])
        requires
            old(image)@.len() >= old(aux)@.len(),
            runnable(self.transforms(), (header.channels * header.layers) as nat, channel_size as nat, old(aux)@.len()),
        ensures
            final(aux)@ == undo_transforms(old(aux)@, channel_size as int, self.transforms()),
            final(image)@.len() == old(image)@.len(),
            forall|j: int|
                0 <= j < old(image)@.len() ==> #[trigger] final(image)@[j] == if j < old(aux)@.len() {
                    to_u8(final(aux)@[j], boost_of(*header))
                } else {
                    old(image)@[j]
                },
    {
        let boost = header.get_boost();
        assert(header.channels * header.layers <= 65535 * 65535) by (nonlinear_arith)
            requires
                header.channels <= 65535,
                header.layers <= 65535,
        ;
        let n = header.channels as usize * header.layers as usize;
        proof {
            lemma_undo_len(aux@, channel_size as int, self.transforms());
        }
        undo_program(self.iter(), aux, channel_size, n);
        let ghost img0 = image@;
        let ghost undone = aux@;
        let mut j: usize = 0;
        while j < aux.len()
            invariant
                aux@ == undone,
                j <= aux@.len(),
                aux@.len() <= img0.len(),
                image@.len() == img0.len(),
                boost == boost_of(*header),
                boost >= 1,
                forall|x: int|
                    0 <= x < img0.len() ==> #[trigger] image@[x] == if x < j {
                        to_u8(aux@[x], boost)
                    } else {
                        img0[x]
                    },
            decreases aux@.len() - j,
        {
            image[j] = to_u8_exec(aux[j], boost);
            j = j + 1;
        }
    }

    /// Undoes the program on planar `aux` and writes the result, divided by
    /// the boost and clamped to 8 bits, interleaved into `image`.
    pub fn detransform_and_to_interleaved(
        &self,
        aux: &mut [i16],
        header: &Header,
        channel_size: usize,
        image: &mut [u8],
    )
        requires
            old(image)@.len() >= old(aux)@.len(),
            header.channels >= 1,
            runnable(self.transforms(), (header.channels * header.layers) as nat, channel_size as nat, old(aux)@.len()),
        ensures
            final(aux)@ == undo_transforms(old(aux)@, channel_size as int, self.transforms()),
            final(image)@.len() == old(image)@.len(),
            forall|c: int, i: int|
                0 <= c < header.channels * header.layers && 0 <= i < channel_size ==> #[trigger] final(image)@[
                source_index(
                    Layout { interleaved: true, channels: header.channels as int, cs: channel_size as int },
                    c,
                    i,
                )] == to_u8(final(aux)@[c * channel_size + i], boost_of(*header)),
            forall|j: int|
                (header.channels * header.layers) * channel_size <= j < old(image)@.len() ==> #[trigger] final(image)@[j] == old(image)@[j],
    {
        let boost = header.get_boost();
        assert(header.channels * header.layers <= 65535 * 65535) by (nonlinear_arith)
            requires
                header.channels <= 65535,
                header.layers <= 65535,
        ;
        let n = header.channels as usize * header.layers as usize;
        let channels = header.channels as usize;
        undo_program(self.iter(), aux, channel_size, n);
        proof {
            vstd::arithmetic::div_mod::lemma_mod_multiples_basic(header.layers as int, header.channels as int);
            vstd::arithmetic::mul::lemma_mul_is_commutative(header.layers as int, header.channels as int);
            lemma_undo_len(old(aux)@, channel_size as int, self.transforms());
        }
        if channel_size > 0 {
            write_interleaved(aux, channels, n, channel_size, boost, image);
        }
    }
}

/// Different samples of an interleaved layout lie at different places.
proof fn lemma_source_index_injective(l: Layout, c1: int, i1: int, c2: int, i2: int)
    requires
        l.interleaved,
        l.channels >= 1,
        l.cs >= 1,
        0 <= c1,
        0 <= c2,
        0 <= i1 < l.cs,
        0 <= i2 < l.cs,
        source_index(l, c1, i1) == source_index(l, c2, i2),
    ensures
        c1 == c2,
        i1 == i2,
{
    let ch = l.channels;
    let cs = l.cs;
    let p = source_index(l, c1, i1);
    let a1 = c1 / ch;
    let r1 = c1 % ch;
    let a2 = c2 / ch;
    let r2 = c2 % ch;
    vstd::arithmetic::div_mod::lemma_fundamental_div_mod(c1, ch);
    vstd::arithmetic::div_mod::lemma_fundamental_div_mod(c2, ch);
    vstd::arithmetic::div_mod::lemma_mod_bound(c1, ch);
    vstd::arithmetic::div_mod::lemma_mod_bound(c2, ch);
    assert(p == ch * (a1 * cs + i1) + r1) by (nonlinear_arith)
        requires
            p == a1 * cs * ch + r1 + i1 * ch,
    ;
    assert(p == ch * (a2 * cs + i2) + r2) by (nonlinear_arith)
        requires
            p == a2 * cs * ch + r2 + i2 * ch,
    ;
    assert(0 <= a1 * cs + i1 && 0 <= a2 * cs + i2) by (nonlinear_arith)
        requires
            a1 >= 0,
            a2 >= 0,
            cs >= 1,
            i1 >= 0,
            i2 >= 0,
    ;
    vstd::arithmetic::div_mod::lemma_fundamental_div_mod_converse(p, ch, a1 * cs + i1, r1);
    vstd::arithmetic::div_mod::lemma_fundamental_div_mod_converse(p, ch, a2 * cs + i2, r2);
    let m = a1 * cs + i1;
    vstd::arithmetic::div_mod::lemma_fundamental_div_mod_converse(m, cs, a1, i1);
    vstd::arithmetic::div_mod::lemma_fundamental_div_mod_converse(m, cs, a2, i2);
    assert(c1 == ch * a1 + r1);
    assert(c2 == ch * a2 + r2);
}

/// Writes the planar channels of `aux`, divided by the boost and clamped to
/// 8 bits, interleaved into `image`.
fn write_interleaved(aux: &[i16], channels: usize, n: usize, cs: usize, boost: i16, image: &mut [u8])
    requires
        channels >= 1,
        cs >= 1,
        n % channels == 0,
        n * cs <= aux@.len(),
        aux@.len() <= old(image)@.len(),
        boost >= 1,
    ensures
        final(image)@.len() == old(image)@.len(),
        forall|c: int, i: int|
            0 <= c < n && 0 <= i < cs ==> #[trigger] final(image)@[source_index(
                Layout { interleaved: true, channels: channels as int, cs: cs as int },
                c,
                i,
            )] == to_u8(aux@[c * cs + i], boost),
        forall|j: int| n * cs <= j < old(image)@.len() ==> #[trigger] final(image)@[j] == old(image)@[j],
{
    let ghost l = Layout { interleaved: true, channels: channels as int, cs: cs as int };
    let ghost img0 = image@;
    let ilen = image.len();
    let mut c: usize = 0;
    while c < n
        invariant
            c <= n,
            l == (Layout { interleaved: true, channels: channels as int, cs: cs as int }),
            layout_ok(l, n as int, ilen as int),
            ilen == img0.len(),
            image@.len() == img0.len(),
            n * cs <= aux@.len(),
            boost >= 1,
            forall|c2: int, i2: int|
                0 <= c2 < c && 0 <= i2 < cs ==> #[trigger] image@[source_index(l, c2, i2)] == to_u8(aux@[c2 * cs + i2], boost),
            forall|j: int| n * cs <= j < img0.len() ==> #[trigger] image@[j] == img0[j],
        decreases n - c,
    {
        proof {
            assert(c * cs + cs <= n * cs) by (nonlinear_arith)
                requires
                    c < n,
            ;
        }
        let mut i: usize = 0;
        while i < cs
            invariant
                c < n,
                i <= cs,
                l == (Layout { interleaved: true, channels: channels as int, cs: cs as int }),
                layout_ok(l, n as int, ilen as int),
                ilen == img0.len(),
                image@.len() == img0.len(),
                c * cs + cs <= n * cs,
                n * cs <= aux@.len(),
                boost >= 1,
                forall|c2: int, i2: int|
                    (0 <= c2 < c && 0 <= i2 < cs) || (c2 == c && 0 <= i2 < i) ==> #[trigger] image@[source_index(l, c2, i2)] == to_u8(aux@[c2 * cs + i2], boost),
                forall|j: int| n * cs <= j < img0.len() ==> #[trigger] image@[j] == img0[j],
            decreases cs - i,
        {
            let k = source_index_exec(true, channels, cs, c, i, Ghost(n as int), Ghost(ilen as int));
            let v = to_u8_exec(aux[c * cs + i], boost);
            let ghost before = image@;
            image[k] = v;
            proof {
                lemma_source_index(l, n as int, ilen as int, c as int, i as int);
                lemma_source_index(l, n as int, (n * cs) as int, c as int, i as int);
                assert forall|c2: int, i2: int|
                    (0 <= c2 < c && 0 <= i2 < cs) || (c2 == c && 0 <= i2 < i + 1) implies #[trigger] image@[source_index(l, c2, i2)] == to_u8(aux@[c2 * cs + i2], boost) by {
                    lemma_source_index(l, n as int, ilen as int, c2, i2);
                    if !(c2 == c && i2 == i) {
                        if source_index(l, c2, i2) == k {
                            lemma_source_index_injective(l, c2, i2, c as int, i as int);
                        }
                        assert(image@[source_index(l, c2, i2)] == before[source_index(l, c2, i2)]);
                    }
                }
            }
            i = i + 1;
        }
        c = c + 1;
    }
}

// ---------------------------------------------------------------------------
// Interleaved and planar layouts.

/// The number of channels below `c` that are skipped.
pub open spec fn skipped_before(skip: Seq<usize>, c: int) -> int
    decreases c,
{
    if c <= 0 {
        0
    } else {
        skipped_before(skip, c - 1) + if skip.contains((c - 1) as usize) {
            1int
        } else {
            0
        }
    }
}

proof fn lemma_skipped_before(skip: Seq<usize>, c: int)
    requires
        c >= 0,
    ensures
        0 <= skipped_before(skip, c) <= c,
    decreases c,
{
    if c > 0 {
        lemma_skipped_before(skip, c - 1);
    }
}

fn contains(skip: &[usize], c: usize) -> (r: bool)
    ensures
        r == skip@.contains(c),
{
    let mut k: usize = 0;
    while k < skip.len()
        invariant
            k <= skip@.len(),
            forall|x: int| 0 <= x < k ==> skip@[x] != c,
        decreases skip@.len() - k,
    {
        if skip[k] == c {
            assert(skip@[k as int] == c);
            return true;
        }
        k = k + 1;
    }
    false
}

/// The planar position of sample `i` of kept channel `c`.
pub open spec fn planar_index(skip: Seq<usize>, cs: int, c: int, i: int) -> int {
    (c - skipped_before(skip, c)) * cs + i
}

/// Moves the channels of an interleaved 8-bit image, boosted, to planar
/// `output`, leaving out the channels listed in `skip_channels`; the kept
/// channels follow each other in order.
pub fn interleaved_to_planar(
    input: &[u8],
    channels: usize,
    boost: i16,
    output: &mut [i16],
    skip_channels: &[usize],
)
    requires
        channels >= 1,
        (channels - skipped_before(skip_channels@, channels as int)) * (input@.len() as int / (channels as int))
            <= old(output)@.len(),
    ensures
        final(output)@.len() == old(output)@.len(),
        forall|c: int, i: int|
            0 <= c < channels && 0 <= i < input@.len() as int / (channels as int) && !skip_channels@.contains(
                c as usize,
            ) ==> #[trigger] final(output)@[planar_index(skip_channels@, input@.len() as int / (channels as int), c, i)]
                == wrap16(input@[c + i * channels] * boost),
        forall|j: int|
            (channels - skipped_before(skip_channels@, channels as int)) * (input@.len() as int / (channels as int)) <= j < old(output)@.len() ==> #[trigger] final(output)@[j] == old(output)@[j],
{
    let cs = input.len() / channels;
    let olen = output.len();
    let ilen = input.len();
    let ghost o0 = output@;
    let ghost skip = skip_channels@;
    let ghost kept = channels - skipped_before(skip, channels as int);
    proof {
        vstd::arithmetic::div_mod::lemma_fundamental_div_mod(input@.len() as int, channels as int);
        lemma_skipped_before(skip, channels as int);
    }
    let mut skipped: usize = 0;
    let mut c: usize = 0;
    while c < channels
        invariant
            c <= channels,
            cs == input@.len() as int / (channels as int),
            channels * cs <= input@.len(),
            skipped == skipped_before(skip, c as int),
            skip == skip_channels@,
            kept == channels - skipped_before(skip, channels as int),
            kept * cs <= o0.len(),
            output@.len() == o0.len(),
            olen == o0.len(),
            ilen == input@.len(),
            forall|c2: int, i: int|
                0 <= c2 < c && 0 <= i < cs && !skip.contains(c2 as usize) ==> #[trigger] output@[planar_index(skip, cs as int, c2, i)]
                    == wrap16(input@[c2 + i * channels] * boost),
            forall|j: int| kept * cs <= j < o0.len() ==> #[trigger] output@[j] == o0[j],
        decreases channels - c,
    {
        proof {
            lemma_skipped_before(skip, c as int);
            lemma_skipped_monotone(skip, c as int + 1, channels as int);
        }
        if contains(skip_channels, c) {
            skipped = skipped + 1;
            c = c + 1;
            continue;
        }
        proof {
            assert((c - skipped) * cs + cs <= kept * cs) by (nonlinear_arith)
                requires
                    c - skipped + 1 <= kept,
                    cs >= 0,
            ;
            assert(0 <= (c - skipped) * cs) by (nonlinear_arith)
                requires
                    c >= skipped,
                    cs >= 0,
            ;
        }
        let dest_base = (c - skipped) * cs;
        let mut i: usize = 0;
        while i < cs
            invariant
                c < channels,
                i <= cs,
                cs == input@.len() as int / (channels as int),
                channels * cs <= input@.len(),
                skipped == skipped_before(skip, c as int),
                !skip.contains(c as usize),
                skip == skip_channels@,
                dest_base == (c - skipped) * cs,
                dest_base + cs <= kept * cs,
                kept * cs <= o0.len(),
                output@.len() == o0.len(),
                olen == o0.len(),
                ilen == input@.len(),
                forall|c2: int, i2: int|
                    ((0 <= c2 < c && 0 <= i2 < cs) || (c2 == c && 0 <= i2 < i)) && !skip.contains(c2 as usize) ==> #[trigger] output@[planar_index(skip, cs as int, c2, i2)]
                        == wrap16(input@[c2 + i2 * channels] * boost),
                forall|j: int| kept * cs <= j < o0.len() ==> #[trigger] output@[j] == o0[j],
            decreases cs - i,
        {
            proof {
                assert(c + i * channels < channels * cs) by (nonlinear_arith)
                    requires
                        c < channels,
                        i < cs,
                ;
                assert(i * channels <= c + i * channels);
            }
            let ghost before = output@;
            output[dest_base + i] = mul16(input[c + i * channels] as i16, boost);
            proof {
                assert forall|c2: int, i2: int|
                    ((0 <= c2 < c && 0 <= i2 < cs) || (c2 == c && 0 <= i2 < i + 1)) && !skip.contains(c2 as usize) implies #[trigger] output@[planar_index(skip, cs as int, c2, i2)]
                        == wrap16(input@[c2 + i2 * channels] * boost) by {
                    let idx2 = planar_index(skip, cs as int, c2, i2);
                    if c2 == c {
                        assert(idx2 == dest_base + i2);
                        if i2 < i {
                            assert(output@[idx2] == before[idx2]);
                        }
                    }
                    if c2 < c {
                        lemma_skipped_monotone(skip, c2 + 1, c as int);
                        lemma_skipped_step(skip, c2);
                        assert(planar_index(skip, cs as int, c2, i2) < dest_base) by (nonlinear_arith)
                            requires
                                planar_index(skip, cs as int, c2, i2) == (c2 - skipped_before(skip, c2)) * cs + i2,
                                dest_base == (c - skipped) * cs,
                                c2 - skipped_before(skip, c2) + 1 <= c - skipped,
                                i2 < cs,
                        ;
                        lemma_skipped_before(skip, c2);
                        assert(0 <= idx2) by (nonlinear_arith)
                            requires
                                idx2 == (c2 - skipped_before(skip, c2)) * cs + i2,
                                c2 - skipped_before(skip, c2) >= 0,
                                cs >= 0,
                                i2 >= 0,
                        ;
                        assert(output@[idx2] == before[idx2]);
                    }
                }
            }
            i = i + 1;
        }
        proof {
            lemma_skipped_step(skip, c as int);
        }
        c = c + 1;
    }
}

/// One more channel: skipped or kept.
proof fn lemma_skipped_step(skip: Seq<usize>, c: int)
    requires
        c >= 0,
    ensures
        skipped_before(skip, c + 1) == skipped_before(skip, c) + if skip.contains(c as usize) {
            1int
        } else {
            0
        },
{
}

/// More channels skip at least as many.
proof fn lemma_skipped_monotone(skip: Seq<usize>, a: int, b: int)
    requires
        0 <= a <= b,
    ensures
        skipped_before(skip, a) <= skipped_before(skip, b),
        a - skipped_before(skip, a) <= b - skipped_before(skip, b),
    decreases b - a,
{
    if a < b {
        lemma_skipped_monotone(skip, a, b - 1);
    }
}

/// Boosting 8-bit samples into planar channels and moving them back gives
/// them back: with a boost from 1 to 128, dividing by the boost undoes it.
pub proof fn lemma_planar_roundtrip(image: Seq<u8>, boost: i16)
    requires
        1 <= boost <= 128,
    ensures
        forall|k: int| 0 <= k < image.len() ==> to_u8(wrap16(#[trigger] image[k] * boost), boost) == image[k],
{
    assert forall|k: int| 0 <= k < image.len() implies to_u8(wrap16(#[trigger] image[k] * boost), boost)
        == image[k] by {
        let v = image[k] as int;
        let b = boost as int;
        assert(0 <= v * b <= 255 * 128) by (nonlinear_arith)
            requires
                0 <= v <= 255,
                1 <= b <= 128,
        ;
        assert(wrap16(v * b) as int == v * b);
        assert((v * b) / b == v) by (nonlinear_arith)
            requires
                b >= 1,
                v >= 0,
        ;
    }
}

/// Moves planar 16-bit channels back to an interleaved 8-bit image: each
/// sample is divided by `boost` (rounding towards zero) and clamped to
/// `0..=255`. The channels listed in `skip_channels` are left as they were in
/// `output`; the planar input holds only the other channels, in order.
pub fn planar_to_interleaved(
    input: &[i16],
    channels: usize,
    boost: i16,
    output: &mut [u8],
    skip_channels: &[usize],
)
    requires
        channels >= 1,
        boost != 0,
        (channels - skipped_before(skip_channels@, channels as int)) * (old(output)@.len() as int / (channels as int))
            <= input@.len(),
    ensures
        final(output)@.len() == old(output)@.len(),
        forall|c: int, i: int|
            0 <= c < channels && 0 <= i < old(output)@.len() as int / (channels as int) ==> #[trigger] final(output)@[c + i * channels]
                == if skip_channels@.contains(c as usize) {
                old(output)@[c + i * channels]
            } else {
                to_u8(input@[planar_index(skip_channels@, old(output)@.len() as int / (channels as int), c, i)], boost)
            },
        forall|j: int|
            channels * (old(output)@.len() as int / (channels as int)) <= j < old(output)@.len() ==> #[trigger] final(output)@[j] == old(output)@[j],
{
    let cs = output.len() / channels;
    let olen = output.len();
    let ilen = input.len();
    let ghost o0 = output@;
    let ghost skip = skip_channels@;
    let ghost kept = channels - skipped_before(skip, channels as int);
    proof {
        vstd::arithmetic::div_mod::lemma_fundamental_div_mod(o0.len() as int, channels as int);
        lemma_skipped_before(skip, channels as int);
    }
    let mut skipped: usize = 0;
    let mut c: usize = 0;
    while c < channels
        invariant
            c <= channels,
            boost != 0,
            cs == o0.len() as int / (channels as int),
            channels * cs <= o0.len(),
            skipped == skipped_before(skip, c as int),
            skip == skip_channels@,
            kept == channels - skipped_before(skip, channels as int),
            kept * cs <= input@.len(),
            output@.len() == o0.len(),
            olen == o0.len(),
            ilen == input@.len(),
            forall|c2: int, i: int|
                0 <= c2 < channels && 0 <= i < cs ==> #[trigger] output@[c2 + i * channels] == if c2 < c
                    && !skip.contains(c2 as usize) {
                    to_u8(input@[planar_index(skip, cs as int, c2, i)], boost)
                } else {
                    o0[c2 + i * channels]
                },
            forall|j: int| channels * cs <= j < o0.len() ==> #[trigger] output@[j] == o0[j],
        decreases channels - c,
    {
        proof {
            lemma_skipped_before(skip, c as int);
            lemma_skipped_monotone(skip, c as int + 1, channels as int);
        }
        if contains(skip_channels, c) {
            skipped = skipped + 1;
            c = c + 1;
            continue;
        }
        proof {
            assert((c - skipped) * cs + cs <= kept * cs) by (nonlinear_arith)
                requires
                    c - skipped + 1 <= kept,
                    cs >= 0,
            ;
            assert(0 <= (c - skipped) * cs) by (nonlinear_arith)
                requires
                    c >= skipped,
                    cs >= 0,
            ;
        }
        let src_base = (c - skipped) * cs;
        let mut i: usize = 0;
        while i < cs
            invariant
                c < channels,
                boost != 0,
                i <= cs,
                cs == o0.len() as int / (channels as int),
                channels * cs <= o0.len(),
                skipped == skipped_before(skip, c as int),
                !skip.contains(c as usize),
                skip == skip_channels@,
                src_base == (c - skipped) * cs,
                src_base + cs <= kept * cs,
                kept * cs <= input@.len(),
                output@.len() == o0.len(),
                olen == o0.len(),
                ilen == input@.len(),
                forall|c2: int, i2: int|
                    0 <= c2 < channels && 0 <= i2 < cs ==> #[trigger] output@[c2 + i2 * channels] == if (c2 < c
                        && !skip.contains(c2 as usize)) || (c2 == c && i2 < i) {
                        to_u8(input@[planar_index(skip, cs as int, c2, i2)], boost)
                    } else {
                        o0[c2 + i2 * channels]
                    },
                forall|j: int| channels * cs <= j < o0.len() ==> #[trigger] output@[j] == o0[j],
            decreases cs - i,
        {
            proof {
                assert(c + i * channels < channels * cs) by (nonlinear_arith)
                    requires
                        c < channels,
                        i < cs,
                ;
                assert(i * channels <= c + i * channels);
            }
            let ghost before = output@;
            let k = c + i * channels;
            output[k] = to_u8_exec(input[src_base + i], boost);
            proof {
                assert forall|c2: int, i2: int| 0 <= c2 < channels && 0 <= i2 < cs implies #[trigger] output@[c2 + i2 * channels]
                    == if (c2 < c && !skip.contains(c2 as usize)) || (c2 == c && i2 < i + 1) {
                    to_u8(input@[planar_index(skip, cs as int, c2, i2)], boost)
                } else {
                    o0[c2 + i2 * channels]
                } by {
                    assert(c2 + i2 * channels < channels * cs) by (nonlinear_arith)
                        requires
                            c2 < channels,
                            i2 < cs,
                    ;
                    assert(0 <= i2 * channels) by (nonlinear_arith)
                        requires
                            0 <= i2,
                            0 <= channels,
                    ;
                    if c2 != c || i2 != i {
                        lemma_interleaved_distinct(channels as int, c2, i2, c as int, i as int);
                        assert(output@[c2 + i2 * channels] == before[c2 + i2 * channels]);
                    }
                }
                assert forall|j: int| channels * cs <= j < o0.len() implies #[trigger] output@[j] == o0[j] by {
                    assert(j != k);
                }
            }
            i = i + 1;
        }
        proof {
            lemma_skipped_step(skip, c as int);
        }
        c = c + 1;
    }
}

/// Two samples of an interleaved image lie at different places.
proof fn lemma_interleaved_distinct(channels: int, c1: int, i1: int, c2: int, i2: int)
    requires
        0 <= c1 < channels,
        0 <= c2 < channels,
        0 <= i1,
        0 <= i2,
        c1 != c2 || i1 != i2,
    ensures
        c1 + i1 * channels != c2 + i2 * channels,
{
    if c1 + i1 * channels == c2 + i2 * channels {
        vstd::arithmetic::div_mod::lemma_fundamental_div_mod_converse(c1 + i1 * channels, channels, i1, c1);
        vstd::arithmetic::div_mod::lemma_fundamental_div_mod_converse(c2 + i2 * channels, channels, i2, c2);
    }
}

/// Whether the factors of a transform all take channels below `n`.
fn factors_below(fs: &Vec<ChannelTransformFactor>, n: usize) -> (r: bool)
    ensures
        r == forall|j: int| 0 <= j < fs@.len() ==> (#[trigger] fs@[j]).src_channel < n,
{
    let mut j: usize = 0;
    while j < fs.len()
        invariant
            j <= fs@.len(),
            forall|i: int| 0 <= i < j ==> (#[trigger] fs@[i]).src_channel < n,
        decreases fs@.len() - j,
    {
        if fs[j].src_channel >= n {
            return false;
        }
        j = j + 1;
    }
    true
}

impl ColorTransformProgram {
    /// Whether the program can be carried out on `n` channels of `cs` samples
    /// held in `aux_len` samples: its channels are below `n`, and its
    /// denominators are not 0 at 16 bits.
    pub fn is_runnable(&self, n: usize, cs: usize, aux_len: usize) -> (r: bool)
        ensures
            r == runnable(self.transforms(), n as nat, cs as nat, aux_len as nat),
    {
        let ts = self.iter();
        let ghost specs = self.transforms();
        if n.checked_mul(cs).is_none() {
            return false;
        }
        if n * cs > aux_len {
            return false;
        }
        let mut k: usize = 0;
        while k < ts.len()
            invariant
                k <= ts@.len(),
                specs == specs_of(ts@),
                specs == self.transforms(),
                n * cs <= aux_len,
                forall|i: int|
                    0 <= i < k ==> {
                        let t = #[trigger] specs[i];
                        &&& t.dest < n
                        &&& wrap16(t.denominator as int) != 0
                        &&& forall|j: int| 0 <= j < t.factors.len() ==> (#[trigger] t.factors[j]).src_channel < n
                    },
            decreases ts@.len() - k,
        {
            let t = &ts[k];
            let d = wrap_i64(t.denominator as i64);
            proof {
                assert(specs[k as int] == t.spec());
                assert(d == wrap16(specs[k as int].denominator as int));
            }
            if t.dest_channel >= n || d == 0 {
                return false;
            }
            if !factors_below(&t.channel_factors, n) {
                proof {
                    assert(specs[k as int].factors == t.channel_factors@);
                }
                return false;
            }
            proof {
                assert(specs[k as int] == t.spec());
            }
            k = k + 1;
        }
        true
    }
}

} // verus!
