//! Channel transforms, their builder, and programs of them.
use vstd::prelude::*;

use crate::bits::{stream_bits, zeros, BitsIOReader, BitsIOWriter, BitsReader, BitsWriter};
use crate::encode::golomb::{
    lemma_signed_code_at, lemma_signed_decode_consumes, signed_code, signed_code_bits,
    signed_decode, signed_decode_spec,
};
use crate::errors::DecompressError;

verus! {

/// `factor` times source channel `src_channel`.
#[derive(Clone, Copy, Debug, PartialEq, Eq, Structural)]
pub struct ChannelTransformFactor {
    pub src_channel: usize,
    pub factor: isize,
}

/// Channel `dest_channel` plus the sum of the factors, that sum divided by
/// `denominator` (rounding towards zero).
#[derive(Clone, Debug, PartialEq)]
pub struct ChannelTransform {
    pub dest_channel: usize,
    pub channel_factors: Vec<ChannelTransformFactor>,
    pub denominator: isize,
    pub is_chroma: bool,
}

/// A channel transform as a mathematical value.
pub struct TransformSpec {
    pub dest: usize,
    pub factors: Seq<ChannelTransformFactor>,
    pub denominator: isize,
    pub is_chroma: bool,
}

impl ChannelTransform {
    pub open spec fn spec(&self) -> TransformSpec {
        TransformSpec {
            dest: self.dest_channel,
            factors: self.channel_factors@,
            denominator: self.denominator,
            is_chroma: self.is_chroma,
        }
    }
}

/// Builds a channel transform step by step.
pub struct ChannelTransformBuilder {
    dest_channel: usize,
    channel_factors: Vec<ChannelTransformFactor>,
    denominator: isize,
    is_chroma: bool,
}

impl ChannelTransformBuilder {
    /// The transform that the builder holds so far.
    pub closed spec fn spec(&self) -> TransformSpec {
        TransformSpec {
            dest: self.dest_channel,
            factors: self.channel_factors@,
            denominator: self.denominator,
            is_chroma: self.is_chroma,
        }
    }

    /// A transform of channel `dest_channel` with no factors, denominator 1,
    /// not chroma.
    pub fn with_dest_channel(dest_channel: usize) -> (r: ChannelTransformBuilder)
        ensures
            r.spec() == (TransformSpec {
                dest: dest_channel,
                factors: Seq::empty(),
                denominator: 1,
                is_chroma: false,
            }),
    {
        ChannelTransformBuilder {
            dest_channel,
            channel_factors: Vec::new(),
            denominator: 1,
            is_chroma: false,
        }
    }

    /// Marks the channel as chroma.
    pub fn set_chroma(&mut self) -> (r: &mut Self)
        ensures
            r.spec() == (TransformSpec { is_chroma: true, ..old(self).spec() }),
            *final(self) == *final(r),
    {
        self.is_chroma = true;
        self
    }

    /// Adds `factor` times channel `src_channel`.
    pub fn add_channel_factor(&mut self, src_channel: usize, factor: isize) -> (r: &mut Self)
        ensures
            r.spec() == (TransformSpec {
                factors: old(self).spec().factors.push(ChannelTransformFactor { src_channel, factor }),
                ..old(self).spec()
            }),
            *final(self) == *final(r),
    {
        self.channel_factors.push(ChannelTransformFactor { src_channel, factor });
        self
    }

    /// Sets the denominator; the denominator set so far must be positive.
    pub fn set_denominator(&mut self, denominator: isize) -> (r: &mut Self)
        requires
            old(self).spec().denominator > 0,
        ensures
            r.spec() == (TransformSpec { denominator, ..old(self).spec() }),
            *final(self) == *final(r),
    {
        self.denominator = denominator;
        self
    }

    /// The transform built.
    pub fn build(&self) -> (r: ChannelTransform)
        ensures
            r.spec() == self.spec(),
    {
        let mut factors: Vec<ChannelTransformFactor> = Vec::new();
        let mut i: usize = 0;
        while i < self.channel_factors.len()
            invariant
                i <= self.channel_factors@.len(),
                factors@ == self.channel_factors@.subrange(0, i as int),
            decreases self.channel_factors@.len() - i,
        {
            factors.push(self.channel_factors[i]);
            i = i + 1;
            assert(factors@ =~= self.channel_factors@.subrange(0, i as int));
        }
        assert(factors@ =~= self.channel_factors@);
        ChannelTransform {
            dest_channel: self.dest_channel,
            channel_factors: factors,
            denominator: self.denominator,
            is_chroma: self.is_chroma,
        }
    }
}

/// A sequence of channel transforms, carried out in order.
#[derive(Clone, Debug, PartialEq)]
pub struct ColorTransformProgram {
    channel_transforms: Vec<ChannelTransform>,
}

/// The transforms of a program as values.
pub open spec fn specs_of(ts: Seq<ChannelTransform>) -> Seq<TransformSpec> {
    Seq::new(ts.len(), |k: int| ts[k].spec())
}

/// A transform with the given values, factors given as pairs.
pub open spec fn transform_is(
    t: TransformSpec,
    dest: usize,
    factors: Seq<(usize, isize)>,
    denominator: isize,
    is_chroma: bool,
) -> bool {
    &&& t.dest == dest
    &&& t.factors.len() == factors.len()
    &&& forall|k: int|
        0 <= k < factors.len() ==> t.factors[k] == (ChannelTransformFactor {
            src_channel: #[trigger] factors[k].0,
            factor: factors[k].1,
        })
    &&& t.denominator == denominator
    &&& t.is_chroma == is_chroma
}

impl ColorTransformProgram {
    /// The transforms of the program, in order.
    pub closed spec fn transforms(&self) -> Seq<TransformSpec> {
        specs_of(self.channel_transforms@)
    }

    /// The empty program.
    pub fn new() -> (r: Self)
        ensures
            r.transforms() == Seq::<TransformSpec>::empty(),
    {
        ColorTransformProgram { channel_transforms: Vec::new() }
    }

    /// Adds a transform at the end.
    pub fn add_channel_transform(&mut self, channel_transform: ChannelTransform) -> (r: &mut Self)
        ensures
            r.transforms() == old(self).transforms().push(channel_transform.spec()),
            *final(self) == *final(r),
    {
        let ghost before = self.channel_transforms@;
        self.channel_transforms.push(channel_transform);
        assert(specs_of(self.channel_transforms@) =~= specs_of(before).push(channel_transform.spec()));
        self
    }

    /// The transforms of the program.
    pub fn iter(&self) -> (r: &[ChannelTransform])
        ensures
            specs_of(r@) == self.transforms(),
    {
        self.channel_transforms.as_slice()
    }

    /// Whether some transform of `channel` has factors or a denominator
    /// above 1.
    pub fn is_channel_has_transform(&self, channel: usize) -> (r: bool)
        ensures
            r == exists|k: int|
                0 <= k < self.transforms().len() && #[trigger] self.transforms()[k].dest == channel
                    && (self.transforms()[k].denominator > 1
                    || self.transforms()[k].factors.len() > 0),
    {
        let mut i: usize = 0;
        while i < self.channel_transforms.len()
            invariant
                i <= self.channel_transforms@.len(),
                forall|k: int|
                    0 <= k < i ==> !(#[trigger] self.transforms()[k].dest == channel && (
                    self.transforms()[k].denominator > 1 || self.transforms()[k].factors.len()
                        > 0)),
            decreases self.channel_transforms@.len() - i,
        {
            let t = &self.channel_transforms[i];
            if t.dest_channel == channel && (t.denominator > 1 || t.channel_factors.len() > 0) {
                assert(self.transforms()[i as int].dest == channel);
                return true;
            }
            i = i + 1;
        }
        false
    }

    /// Keeps the input as YUV 4:4:4: marks channels 1 and 2 as chroma.
    pub fn yuv444_to_yuv444() -> (r: Self)
        ensures
            r.transforms().len() == 2,
            transform_is(r.transforms()[0], 1, seq![], 1, true),
            transform_is(r.transforms()[1], 2, seq![], 1, true),
    {
        let mut program = Self::new();
        program.add_channel_transform(ChannelTransformBuilder::with_dest_channel(1).set_chroma().build());
        program.add_channel_transform(ChannelTransformBuilder::with_dest_channel(2).set_chroma().build());
        program
    }

    /// RGB as an approximate YUV 4:4:4 (in the order U, Y, V): R -= G
    /// (chroma), B -= G (chroma), G += (R + B) / 4 (luma).
    pub fn rgb_to_yuv() -> (r: Self)
        ensures
            r.transforms().len() == 3,
            transform_is(r.transforms()[0], 0, seq![(1usize, -1isize)], 1, true),
            transform_is(r.transforms()[1], 2, seq![(1usize, -1isize)], 1, true),
            transform_is(r.transforms()[2], 1, seq![(0usize, 1isize), (2usize, 1isize)], 4, false),
    {
        let mut program = Self::new();
        program.add_channel_transform(
            ChannelTransformBuilder::with_dest_channel(0).add_channel_factor(1, -1).set_chroma().build(),
        );
        program.add_channel_transform(
            ChannelTransformBuilder::with_dest_channel(2).add_channel_factor(1, -1).set_chroma().build(),
        );
        program.add_channel_transform(
            ChannelTransformBuilder::with_dest_channel(1).add_channel_factor(0, 1).add_channel_factor(
                2,
                1,
            ).set_denominator(4).build(),
        );
        program
    }

    /// BGR as an approximate A710: R -= G (chroma), B -= (G * 2 + R) / 2
    /// (chroma), G += (B * 2 + R * 3) / 8 (luma).
    pub fn bgr_to_a710() -> (r: Self)
        ensures
            r.transforms().len() == 3,
            transform_is(r.transforms()[0], 2, seq![(1usize, -1isize)], 1, true),
            transform_is(r.transforms()[1], 0, seq![(1usize, -2isize), (2usize, -1isize)], 2, true),
            transform_is(r.transforms()[2], 1, seq![(0usize, 2isize), (2usize, 3isize)], 8, false),
    {
        let mut program = Self::new();
        program.add_channel_transform(
            ChannelTransformBuilder::with_dest_channel(2).add_channel_factor(1, -1).set_chroma().build(),
        );
        program.add_channel_transform(
            ChannelTransformBuilder::with_dest_channel(0).add_channel_factor(1, -2).add_channel_factor(
                2,
                -1,
            ).set_denominator(2).set_chroma().build(),
        );
        program.add_channel_transform(
            ChannelTransformBuilder::with_dest_channel(1).add_channel_factor(0, 2).add_channel_factor(
                2,
                3,
            ).set_denominator(8).build(),
        );
        program
    }

    /// RGB as an approximate A710: R -= G (chroma), B -= (G * 2 + R) / 2
    /// (chroma), G += (B * 2 + R * 3) / 8 (luma).
    pub fn rgb_to_a710() -> (r: Self)
        ensures
            r.transforms().len() == 3,
            transform_is(r.transforms()[0], 0, seq![(1usize, -1isize)], 1, true),
            transform_is(r.transforms()[1], 2, seq![(1usize, -2isize), (0usize, -1isize)], 2, true),
            transform_is(r.transforms()[2], 1, seq![(2usize, 2isize), (0usize, 3isize)], 8, false),
    {
        let mut program = Self::new();
        program.add_channel_transform(
            ChannelTransformBuilder::with_dest_channel(0).add_channel_factor(1, -1).set_chroma().build(),
        );
        program.add_channel_transform(
            ChannelTransformBuilder::with_dest_channel(2).add_channel_factor(1, -2).add_channel_factor(
                0,
                -1,
            ).set_denominator(2).set_chroma().build(),
        );
        program.add_channel_transform(
            ChannelTransformBuilder::with_dest_channel(1).add_channel_factor(2, 2).add_channel_factor(
                0,
                3,
            ).set_denominator(8).build(),
        );
        program
    }
}

// ---------------------------------------------------------------------------
// Coding programs.

/// The bits of a list of factors: for each, its source channel and its
/// factor, with the signed code of exponent 2.
pub open spec fn factors_bits(fs: Seq<ChannelTransformFactor>) -> Seq<bool>
    decreases fs.len(),
{
    if fs.len() == 0 {
        Seq::empty()
    } else {
        factors_bits(fs.drop_last()) + signed_code_bits(fs.last().src_channel as i32, 2)
            + signed_code_bits(fs.last().factor as i32, 2)
    }
}

/// The bits of a transform: its channel, its factors, `-1`, its
/// denominator, and 1 or 0 for chroma.
pub open spec fn transform_bits(t: TransformSpec) -> Seq<bool> {
    signed_code_bits(t.dest as i32, 2) + factors_bits(t.factors) + signed_code_bits(-1i32, 2)
        + signed_code_bits(t.denominator as i32, 2) + signed_code_bits(
        if t.is_chroma {
            1i32
        } else {
            0i32
        },
        2,
    )
}

/// The bits of the transforms of a program, without the final `-1`.
pub open spec fn transforms_bits(ts: Seq<TransformSpec>) -> Seq<bool>
    decreases ts.len(),
{
    if ts.len() == 0 {
        Seq::empty()
    } else {
        transforms_bits(ts.drop_last()) + transform_bits(ts.last())
    }
}

/// The bits of a program: its transforms, then `-1`.
pub open spec fn program_bits(ts: Seq<TransformSpec>) -> Seq<bool> {
    transforms_bits(ts) + signed_code_bits(-1i32, 2)
}

/// The chroma flags that coding a program reports for `n` channels.
pub open spec fn chroma_flags(ts: Seq<TransformSpec>, n: nat) -> Seq<bool>
    decreases ts.len(),
{
    if ts.len() == 0 {
        Seq::new(n, |i: int| false)
    } else {
        chroma_flags(ts.drop_last(), n).update(ts.last().dest as int, ts.last().is_chroma)
    }
}

/// The programs that can be coded for `n` channels: channels below `n`, and
/// numbers that the signed code of 32-bit numbers takes.
pub open spec fn codable(ts: Seq<TransformSpec>, n: nat) -> bool {
    forall|k: int|
        0 <= k < ts.len() ==> {
            let t = #[trigger] ts[k];
            &&& t.dest < n
            &&& t.dest <= i32::MAX
            &&& i32::MIN < t.denominator <= i32::MAX
            &&& forall|j: int|
                0 <= j < t.factors.len() ==> {
                    let f = #[trigger] t.factors[j];
                    &&& f.src_channel <= i32::MAX
                    &&& i32::MIN < f.factor <= i32::MAX
                }
        }
}

/// Where the bits of a word-aligned stream end: `len` bits take
/// `4 * ceil(len / 32)` bytes.
pub open spec fn padded_bytes(len: int) -> int {
    4 * ((len + 31) / 32)
}

/// What parsing a program gives: the transforms and the position after the
/// final `-1`, or why it stopped.
pub enum ProgramParse {
    Done(Seq<TransformSpec>, int),
    Truncated,
    Malformed,
}

/// Parses a list of factors up to the `-1` that ends it.
pub open spec fn parse_factors(bits: Seq<bool>, pos: int) -> Option<(Seq<ChannelTransformFactor>, int)>
    decreases bits.len() - pos,
{
    if pos < 0 {
        None
    } else {
        match signed_decode_spec(bits, pos, 2) {
            None => None,
            Some((src, c)) => if src < 0 {
                Some((Seq::empty(), pos + c))
            } else {
                match signed_decode_spec(bits, pos + c, 2) {
                    None => None,
                    Some((f, c2)) => {
                        proof {
                            lemma_signed_decode_consumes(bits, pos, 2);
                            lemma_signed_decode_consumes(bits, pos + c, 2);
                        }
                        match parse_factors(bits, pos + c + c2) {
                            None => None,
                            Some((rest, p)) => Some(
                                (
                                    seq![ChannelTransformFactor { src_channel: src as usize, factor: f as isize }]
                                        + rest,
                                    p,
                                ),
                            ),
                        }
                    },
                }
            },
        }
    }
}

pub proof fn lemma_parse_factors_advances(bits: Seq<bool>, pos: int)
    ensures
        parse_factors(bits, pos) matches Some((fs, p)) ==> pos < p <= bits.len(),
    decreases bits.len() - pos,
{
    if pos >= 0 {
        lemma_signed_decode_consumes(bits, pos, 2);
        match signed_decode_spec(bits, pos, 2) {
            None => {},
            Some((src, c)) => {
                if src >= 0 {
                    lemma_signed_decode_consumes(bits, pos + c, 2);
                    match signed_decode_spec(bits, pos + c, 2) {
                        None => {},
                        Some((f, c2)) => {
                            lemma_parse_factors_advances(bits, pos + c + c2);
                        },
                    }
                }
            },
        }
    }
}

/// Parses what follows the channel of a transform: its factors, its
/// denominator and its chroma flag.
pub open spec fn parse_transform_rest(bits: Seq<bool>, pos: int, dest: i32) -> Option<(TransformSpec, int)> {
    match parse_factors(bits, pos) {
        None => None,
        Some((fs, p1)) => match signed_decode_spec(bits, p1, 2) {
            None => None,
            Some((den, c2)) => match signed_decode_spec(bits, p1 + c2, 2) {
                None => None,
                Some((ch, c3)) => Some(
                    (
                        TransformSpec {
                            dest: dest as usize,
                            factors: fs,
                            denominator: den as isize,
                            is_chroma: ch != 0,
                        },
                        p1 + c2 + c3,
                    ),
                ),
            },
        },
    }
}

pub proof fn lemma_parse_transform_rest_advances(bits: Seq<bool>, pos: int, dest: i32)
    ensures
        parse_transform_rest(bits, pos, dest) matches Some((t, p)) ==> pos < p <= bits.len(),
{
    lemma_parse_factors_advances(bits, pos);
    match parse_factors(bits, pos) {
        None => {},
        Some((fs, p1)) => {
            lemma_signed_decode_consumes(bits, p1, 2);
            match signed_decode_spec(bits, p1, 2) {
                None => {},
                Some((den, c2)) => {
                    lemma_signed_decode_consumes(bits, p1 + c2, 2);
                },
            }
        },
    }
}

/// Parses the transforms of a program for `n` channels up to the `-1` that
/// ends them.
#[verifier::opaque]
pub open spec fn parse_program(bits: Seq<bool>, pos: int, n: nat) -> ProgramParse
    decreases bits.len() - pos,
{
    if pos < 0 {
        ProgramParse::Truncated
    } else {
        match signed_decode_spec(bits, pos, 2) {
            None => ProgramParse::Truncated,
            Some((dest, c)) => if dest < 0 {
                ProgramParse::Done(Seq::empty(), pos + c)
            } else if dest as int >= n {
                ProgramParse::Malformed
            } else {
                match parse_transform_rest(bits, pos + c, dest) {
                    None => ProgramParse::Truncated,
                    Some((t, p)) => {
                        proof {
                            lemma_signed_decode_consumes(bits, pos, 2);
                            lemma_parse_transform_rest_advances(bits, pos + c, dest);
                        }
                        match parse_program(bits, p, n) {
                            ProgramParse::Done(ts, p2) => ProgramParse::Done(seq![t] + ts, p2),
                            other => other,
                        }
                    },
                }
            },
        }
    }
}

/// The transforms that parse whole from `pos` on, up to the end of the
/// program or to the point where its parsing stops.
pub open spec fn parsed_transforms(bits: Seq<bool>, pos: int, n: nat) -> Seq<TransformSpec>
    decreases bits.len() - pos,
{
    if pos < 0 {
        Seq::empty()
    } else {
        match signed_decode_spec(bits, pos, 2) {
            None => Seq::empty(),
            Some((dest, c)) => if dest < 0 || dest as int >= n {
                Seq::empty()
            } else {
                match parse_transform_rest(bits, pos + c, dest) {
                    None => Seq::empty(),
                    Some((t, p)) => {
                        proof {
                            lemma_signed_decode_consumes(bits, pos, 2);
                            lemma_parse_transform_rest_advances(bits, pos + c, dest);
                        }
                        seq![t] + parsed_transforms(bits, p, n)
                    },
                }
            },
        }
    }
}

/// One step of parsing a program.
pub proof fn lemma_parse_program_unfold(bits: Seq<bool>, pos: int, n: nat)
    requires
        pos >= 0,
    ensures
        parse_program(bits, pos, n) == match signed_decode_spec(bits, pos, 2) {
            None => ProgramParse::Truncated,
            Some((dest, c)) => if dest < 0 {
                ProgramParse::Done(Seq::empty(), pos + c)
            } else if dest as int >= n {
                ProgramParse::Malformed
            } else {
                match parse_transform_rest(bits, pos + c, dest) {
                    None => ProgramParse::Truncated,
                    Some((t, p)) => prepend_parse(seq![t], parse_program(bits, p, n)),
                }
            },
        },
{
    reveal_with_fuel(parse_program, 1);
}

/// A parsed program ends inside the bits.
pub proof fn lemma_parse_program_end(bits: Seq<bool>, pos: int, n: nat)
    requires
        pos >= 0,
    ensures
        parse_program(bits, pos, n) matches ProgramParse::Done(ts, p) ==> pos < p <= bits.len(),
    decreases bits.len() - pos,
{
    lemma_parse_program_unfold(bits, pos, n);
    lemma_signed_decode_consumes(bits, pos, 2);
    match signed_decode_spec(bits, pos, 2) {
        None => {},
        Some((dest, c)) => {
            if dest >= 0 && (dest as int) < n {
                lemma_parse_transform_rest_advances(bits, pos + c, dest);
                match parse_transform_rest(bits, pos + c, dest) {
                    None => {},
                    Some((t, p)) => {
                        lemma_parse_program_end(bits, p, n);
                    },
                }
            }
        },
    }
}

/// What one more decoded transform does to the flags, the channels and the
/// rest of the parse.
proof fn lemma_decode_step(
    bits: Seq<bool>,
    n: nat,
    pos: int,
    before: Seq<TransformSpec>,
    dest: i32,
    c: nat,
    t: TransformSpec,
    p: int,
    flags0: Seq<bool>,
)
    requires
        pos >= 0,
        n == flags0.len(),
        forall|k: int| 0 <= k < before.len() ==> (#[trigger] before[k]).dest < n,
        parse_program(bits, 0, n) == prepend_parse(before, parse_program(bits, pos, n)),
        signed_decode_spec(bits, pos, 2) == Some((dest, c)),
        0 <= dest < n,
        parse_transform_rest(bits, pos + c, dest) == Some((t, p)),
    ensures
        mark_chroma(flags0, before.push(t)) == (if t.is_chroma {
            mark_chroma(flags0, before).update(t.dest as int, true)
        } else {
            mark_chroma(flags0, before)
        }),
        forall|k: int| 0 <= k < before.push(t).len() ==> (#[trigger] before.push(t)[k]).dest < n,
        parse_program(bits, 0, n) == prepend_parse(before.push(t), parse_program(bits, p, n)),
{
    assert(t.dest == dest as usize);
    lemma_mark_chroma_push(flags0, before, t);
    assert forall|k: int| 0 <= k < before.push(t).len() implies (#[trigger] before.push(t)[k]).dest < n by {
        if k < before.len() {
            assert(before.push(t)[k] == before[k]);
        }
    }
    lemma_program_step(bits, n, pos, before, dest, c, t, p);
}

/// Parsing one more transform keeps the program parsed so far in front.
proof fn lemma_program_step(
    bits: Seq<bool>,
    n: nat,
    pos: int,
    done: Seq<TransformSpec>,
    dest: i32,
    c: nat,
    t: TransformSpec,
    p: int,
)
    requires
        pos >= 0,
        parse_program(bits, 0, n) == prepend_parse(done, parse_program(bits, pos, n)),
        signed_decode_spec(bits, pos, 2) == Some((dest, c)),
        0 <= dest < n,
        parse_transform_rest(bits, pos + c, dest) == Some((t, p)),
    ensures
        parse_program(bits, 0, n) == prepend_parse(done.push(t), parse_program(bits, p, n)),
{
    lemma_parse_program_unfold(bits, pos, n);
    match parse_program(bits, p, n) {
        ProgramParse::Done(rest, p2) => {
            assert(done + (seq![t] + rest) =~= done.push(t) + rest);
        },
        _ => {},
    }
}

/// The chroma flags after decoding: set for the chroma transforms, the
/// others as they were.
#[verifier::opaque]
pub open spec fn mark_chroma(flags: Seq<bool>, ts: Seq<TransformSpec>) -> Seq<bool>
    decreases ts.len(),
{
    if ts.len() == 0 {
        flags
    } else {
        mark_chroma(
            if ts[0].is_chroma {
                flags.update(ts[0].dest as int, true)
            } else {
                flags
            },
            ts.drop_first(),
        )
    }
}

/// Writes one transform.
fn encode_transform(t: &ChannelTransform, stream: &mut BitsIOWriter)
    requires
        old(stream).writer_wf(),
        t.dest_channel <= i32::MAX,
        i32::MIN < t.denominator <= i32::MAX,
        forall|j: int|
            0 <= j < t.channel_factors@.len() ==> {
                let f = #[trigger] t.channel_factors@[j];
                &&& f.src_channel <= i32::MAX
                &&& i32::MIN < f.factor <= i32::MAX
            },
    ensures
        final(stream).writer_wf(),
        final(stream).written() == old(stream).written() + transform_bits(t.spec()),
{
    let ghost tk = t.spec();
    let ghost before = stream.written();
    let _ = signed_code(t.dest_channel as i32, stream, 2);
    let mut j: usize = 0;
    while j < t.channel_factors.len()
        invariant
            tk == t.spec(),
            forall|j: int|
                0 <= j < t.channel_factors@.len() ==> {
                    let f = #[trigger] t.channel_factors@[j];
                    &&& f.src_channel <= i32::MAX
                    &&& i32::MIN < f.factor <= i32::MAX
                },
            j <= tk.factors.len(),
            stream.writer_wf(),
            stream.written() == before + signed_code_bits(tk.dest as i32, 2) + factors_bits(
                tk.factors.subrange(0, j as int),
            ),
        decreases tk.factors.len() - j,
    {
        let f = t.channel_factors[j];
        let _ = signed_code(f.src_channel as i32, stream, 2);
        let _ = signed_code(f.factor as i32, stream, 2);
        proof {
            let sub = tk.factors.subrange(0, j + 1);
            assert(sub.drop_last() =~= tk.factors.subrange(0, j as int));
            assert(sub.last() == f);
        }
        j = j + 1;
        proof {
            assert(stream.written() =~= before + signed_code_bits(tk.dest as i32, 2) + factors_bits(
                tk.factors.subrange(0, j as int),
            ));
        }
    }
    let _ = signed_code(-1, stream, 2);
    let _ = signed_code(t.denominator as i32, stream, 2);
    let _ = signed_code(if t.is_chroma {
        1
    } else {
        0
    }, stream, 2);
    proof {
        assert(tk.factors.subrange(0, tk.factors.len() as int) =~= tk.factors);
        assert(stream.written() =~= before + transform_bits(tk));
    }
}

/// The chroma flags of a program over `n` channels are `n` flags.
pub proof fn lemma_chroma_flags_len(ts: Seq<TransformSpec>, n: nat)
    requires
        forall|k: int| 0 <= k < ts.len() ==> (#[trigger] ts[k]).dest < n,
    ensures
        chroma_flags(ts, n).len() == n,
    decreases ts.len(),
{
    if ts.len() > 0 {
        assert forall|k: int| 0 <= k < ts.drop_last().len() implies (#[trigger] ts.drop_last()[k]).dest < n by {
            assert(ts.drop_last()[k] == ts[k]);
        }
        lemma_chroma_flags_len(ts.drop_last(), n);
    }
}

impl ColorTransformProgram {
    /// Writes the program for `n` channels at the end of `buffer`, as the
    /// signed codes of its numbers padded to whole 32-bit words, and tells
    /// which channels it marks as chroma.
    pub fn encode(&self, channels: usize, buffer: &mut Vec<u8>) -> (r: Result<Vec<bool>, std::io::Error>)
        requires
            codable(self.transforms(), channels as nat),
        ensures
            r is Ok,
            r->Ok_0@ == chroma_flags(self.transforms(), channels as nat),
            final(buffer)@.len() >= old(buffer)@.len(),
            ({
                let new_bytes = final(buffer)@.subrange(old(buffer)@.len() as int, final(buffer)@.len() as int);
                let bits = program_bits(self.transforms());
                &&& final(buffer)@.subrange(0, old(buffer)@.len() as int) == old(buffer)@
                &&& new_bytes.len() == padded_bytes(bits.len() as int)
                &&& stream_bits(new_bytes) == bits + zeros(((32 - bits.len() % 32) % 32) as nat)
            }),
    {
        let ghost ts = self.transforms();
        let mut stream = BitsIOWriter::new();
        let mut is_chroma: Vec<bool> = Vec::new();
        let mut c: usize = 0;
        while c < channels
            invariant
                c <= channels,
                is_chroma@ == Seq::new(c as nat, |i: int| false),
            decreases channels - c,
        {
            is_chroma.push(false);
            c = c + 1;
            assert(is_chroma@ =~= Seq::new(c as nat, |i: int| false));
        }
        let mut k: usize = 0;
        while k < self.channel_transforms.len()
            invariant
                ts == self.transforms(),
                codable(ts, channels as nat),
                k <= ts.len(),
                stream.writer_wf(),
                stream.written() == transforms_bits(ts.subrange(0, k as int)),
                is_chroma@ == chroma_flags(ts.subrange(0, k as int), channels as nat),
            decreases ts.len() - k,
        {
            let t = &self.channel_transforms[k];
            let ghost tk = ts[k as int];
            assert(tk == t.spec());
            proof {
                let sub = ts.subrange(0, k as int);
                assert forall|i: int| 0 <= i < sub.len() implies (#[trigger] sub[i]).dest < channels by {
                    assert(sub[i] == ts[i]);
                }
                lemma_chroma_flags_len(sub, channels as nat);
                assert forall|j: int| 0 <= j < t.channel_factors@.len() implies {
                    let f = #[trigger] t.channel_factors@[j];
                    &&& f.src_channel <= i32::MAX
                    &&& i32::MIN < f.factor <= i32::MAX
                } by {
                    assert(tk.factors[j] == t.channel_factors@[j]);
                }
            }
            encode_transform(t, &mut stream);
            is_chroma.set(t.dest_channel, t.is_chroma);
            proof {
                let sub = ts.subrange(0, k + 1);
                assert(sub.drop_last() =~= ts.subrange(0, k as int));
                assert(sub.last() == tk);
            }
            k = k + 1;
            proof {
                assert(stream.written() =~= transforms_bits(ts.subrange(0, k as int)));
            }
        }
        let _ = signed_code(-1, &mut stream, 2);
        let ghost bits = stream.written();
        let _ = stream.flush_write_word();
        proof {
            assert(ts.subrange(0, k as int) =~= ts);
            stream.lemma_bytes_hold_words();
        }
        let bytes = stream.into_bytes();
        let ghost old_buffer = buffer@;
        let mut i: usize = 0;
        while i < bytes.len()
            invariant
                i <= bytes@.len(),
                buffer@ == old_buffer + bytes@.subrange(0, i as int),
            decreases bytes@.len() - i,
        {
            buffer.push(bytes[i]);
            i = i + 1;
            assert(buffer@ =~= old_buffer + bytes@.subrange(0, i as int));
        }
        proof {
            assert(bytes@.subrange(0, i as int) =~= bytes@);
            assert(buffer@.subrange(old_buffer.len() as int, buffer@.len() as int) =~= bytes@);
            assert(buffer@.subrange(0, old_buffer.len() as int) =~= old_buffer);
            assert(bits.len() + (32 - bits.len() % 32) % 32 == 32 * ((bits.len() + 31) / 32));
        }
        Ok(is_chroma)
    }
}

/// `r` after the transforms `done`.
pub open spec fn prepend_parse(done: Seq<TransformSpec>, r: ProgramParse) -> ProgramParse {
    match r {
        ProgramParse::Done(ts, p) => ProgramParse::Done(done + ts, p),
        other => other,
    }
}

/// `r` after the factors `done`.
pub open spec fn prepend_factors(
    done: Seq<ChannelTransformFactor>,
    r: Option<(Seq<ChannelTransformFactor>, int)>,
) -> Option<(Seq<ChannelTransformFactor>, int)> {
    match r {
        Some((fs, p)) => Some((done + fs, p)),
        None => None,
    }
}

proof fn lemma_mark_chroma_push(f: Seq<bool>, done: Seq<TransformSpec>, t: TransformSpec)
    requires
        forall|k: int| 0 <= k < done.len() ==> (#[trigger] done[k]).dest < f.len(),
        t.dest < f.len(),
    ensures
        mark_chroma(f, done.push(t)) == (if t.is_chroma {
            mark_chroma(f, done).update(t.dest as int, true)
        } else {
            mark_chroma(f, done)
        }),
    decreases done.len(),
{
    reveal(mark_chroma);
    let f1 = if t.is_chroma {
        f.update(t.dest as int, true)
    } else {
        f
    };
    if done.len() == 0 {
        assert(done.push(t).drop_first() =~= Seq::<TransformSpec>::empty());
        assert(done.push(t)[0] == t);
        assert(mark_chroma(f1, Seq::<TransformSpec>::empty()) == f1);
        assert(mark_chroma(f, done) == f);
    } else {
        let f2 = if done[0].is_chroma {
            f.update(done[0].dest as int, true)
        } else {
            f
        };
        assert(done.push(t).drop_first() =~= done.drop_first().push(t));
        assert(done.push(t)[0] == done[0]);
        assert forall|k: int| 0 <= k < done.drop_first().len() implies (#[trigger] done.drop_first()[k]).dest < f2.len() by {
            assert(done.drop_first()[k] == done[k + 1]);
        }
        lemma_mark_chroma_push(f2, done.drop_first(), t);
        assert(mark_chroma(f, done.push(t)) == mark_chroma(f2, done.push(t).drop_first()));
        assert(mark_chroma(f, done) == mark_chroma(f2, done.drop_first()));
    }
}

proof fn lemma_mark_chroma_len(f: Seq<bool>, ts: Seq<TransformSpec>)
    requires
        forall|k: int| 0 <= k < ts.len() ==> (#[trigger] ts[k]).dest < f.len(),
    ensures
        mark_chroma(f, ts).len() == f.len(),
    decreases ts.len(),
{
    reveal(mark_chroma);
    if ts.len() > 0 {
        let f2 = if ts[0].is_chroma {
            f.update(ts[0].dest as int, true)
        } else {
            f
        };
        assert forall|k: int| 0 <= k < ts.drop_first().len() implies (#[trigger] ts.drop_first()[k]).dest < f2.len() by {
            assert(ts.drop_first()[k] == ts[k + 1]);
        }
        lemma_mark_chroma_len(f2, ts.drop_first());
    }
}

/// Reads the factors of a transform into the builder, up to the `-1` that
/// ends them.
fn decode_factors(stream: &mut BitsIOReader, builder: &mut ChannelTransformBuilder) -> (r: Result<
    (),
    std::io::Error,
>)
    requires
        old(stream).reader_wf(),
        old(stream).position() >= 0,
    ensures
        match parse_factors(old(stream).data(), old(stream).position()) {
            None => r is Err,
            Some((fs, p)) => {
                &&& r is Ok
                &&& final(stream).reader_wf()
                &&& final(stream).data() == old(stream).data()
                &&& final(stream).position() == p
                &&& final(builder).spec() == (TransformSpec {
                    factors: old(builder).spec().factors + fs,
                    ..old(builder).spec()
                })
            },
        },
{
    let ghost bits = stream.data();
    let ghost start = stream.position();
    let ghost b0 = builder.spec();
    let ghost mut done: Seq<ChannelTransformFactor> = Seq::empty();
    loop
        invariant
            stream.reader_wf(),
            stream.data() == bits,
            stream.position() >= 0,
            bits == old(stream).data(),
            start == old(stream).position(),
            b0 == old(builder).spec(),
            builder.spec() == (TransformSpec { factors: b0.factors + done, ..b0 }),
            parse_factors(bits, start) == prepend_factors(done, parse_factors(bits, stream.position())),
        decreases bits.len() - stream.position(),
    {
        let ghost pos = stream.position();
        proof {
            lemma_signed_decode_consumes(bits, pos, 2);
        }
        let src = match signed_decode(stream, 2) {
            Ok(v) => v,
            Err(e) => {
                return Err(e);
            },
        };
        if src < 0 {
            proof {
                assert(done + Seq::<ChannelTransformFactor>::empty() =~= done);
            }
            return Ok(());
        }
        let ghost pos1 = stream.position();
        proof {
            lemma_signed_decode_consumes(bits, pos1, 2);
        }
        let factor = match signed_decode(stream, 2) {
            Ok(v) => v,
            Err(e) => {
                return Err(e);
            },
        };
        builder.add_channel_factor(src as usize, factor as isize);
        proof {
            let f = ChannelTransformFactor { src_channel: src as usize, factor: factor as isize };
            match parse_factors(bits, stream.position()) {
                Some((rest, p)) => {
                    assert(done + (seq![f] + rest) =~= done.push(f) + rest);
                },
                None => {},
            }
            assert(b0.factors + done.push(f) =~= (b0.factors + done).push(f));
            done = done.push(f);
        }
    }
}

/// Reads what follows the channel of a transform.
fn decode_transform_rest(stream: &mut BitsIOReader, dest: i32) -> (r: Result<
    (ChannelTransformBuilder, bool),
    std::io::Error,
>)
    requires
        old(stream).reader_wf(),
        old(stream).position() >= 0,
        dest >= 0,
    ensures
        match parse_transform_rest(old(stream).data(), old(stream).position(), dest) {
            None => r is Err,
            Some((t, p)) => {
                &&& r is Ok
                &&& final(stream).reader_wf()
                &&& final(stream).data() == old(stream).data()
                &&& final(stream).position() == p
                &&& r->Ok_0.0.spec() == t
                &&& r->Ok_0.1 == t.is_chroma
            },
        },
{
    let ghost bits = stream.data();
    let mut builder = ChannelTransformBuilder::with_dest_channel(dest as usize);
    proof {
        lemma_parse_factors_advances(bits, stream.position());
    }
    match decode_factors(stream, &mut builder) {
        Ok(()) => {},
        Err(e) => {
            return Err(e);
        },
    }
    let ghost p1 = stream.position();
    proof {
        lemma_signed_decode_consumes(bits, p1, 2);
        assert(builder.spec().factors =~= Seq::<ChannelTransformFactor>::empty() + parse_factors(bits, old(stream).position())->Some_0.0);
    }
    let denominator = match signed_decode(stream, 2) {
        Ok(v) => v,
        Err(e) => {
            return Err(e);
        },
    };
    builder.set_denominator(denominator as isize);
    let ghost p2 = stream.position();
    proof {
        lemma_signed_decode_consumes(bits, p2, 2);
    }
    let channel_is_chroma = match signed_decode(stream, 2) {
        Ok(v) => v,
        Err(e) => {
            return Err(e);
        },
    };
    if channel_is_chroma != 0 {
        builder.set_chroma();
    }
    Ok((builder, channel_is_chroma != 0))
}

/// The words started by `end` bits are the words up to `end` rounded up to
/// a whole word.
proof fn lemma_flushed_words(end: int)
    requires
        end >= 0,
    ensures
        4 * (((if end % 32 == 0 { end } else { end - end % 32 + 32 }) + 31) / 32) == padded_bytes(end),
{
    vstd::arithmetic::div_mod::lemma_fundamental_div_mod(end, 32);
    let q = end / 32;
    let r = end % 32;
    if r == 0 {
    } else {
        vstd::arithmetic::div_mod::lemma_fundamental_div_mod_converse(end + 31, 32, q + 1, r - 1);
        vstd::arithmetic::div_mod::lemma_fundamental_div_mod_converse(32 * q + 32 + 31, 32, q + 1, 31);
    }
}

/// Reads the next transform of a program, or the `-1` that ends it (`None`).
fn decode_step(stream: &mut BitsIOReader, n: usize) -> (r: Result<
    Option<(ChannelTransformBuilder, bool)>,
    DecompressError,
>)
    requires
        old(stream).reader_wf(),
        old(stream).position() >= 0,
    ensures
        r is Ok ==> final(stream).reader_wf() && final(stream).data() == old(stream).data()
            && final(stream).position() >= 0,
        ({
            let bits = old(stream).data();
            let pos = old(stream).position();
            match signed_decode_spec(bits, pos, 2) {
                None => r matches Err(DecompressError::IOErr(_)),
                Some((dest, c)) => if dest < 0 {
                    r matches Ok(None) && final(stream).position() == pos + c
                } else if dest as int >= n {
                    r matches Err(DecompressError::Malformed)
                } else {
                    match parse_transform_rest(bits, pos + c, dest) {
                        None => r matches Err(DecompressError::IOErr(_)),
                        Some((t, p)) => r matches Ok(Some((b, ch))) && b.spec() == t && ch == t.is_chroma
                            && final(stream).position() == p,
                    }
                },
            }
        }),
{
    let ghost bits = stream.data();
    let ghost pos = stream.position();
    proof {
        lemma_signed_decode_consumes(bits, pos, 2);
    }
    let dest = match signed_decode(stream, 2) {
        Ok(v) => v,
        Err(e) => {
            return Err(DecompressError::IOErr(e));
        },
    };
    if dest < 0 {
        return Ok(None);
    }
    if dest as usize >= n {
        return Err(DecompressError::Malformed);
    }
    proof {
        lemma_parse_transform_rest_advances(bits, stream.position(), dest);
    }
    match decode_transform_rest(stream, dest) {
        Ok(b) => Ok(Some(b)),
        Err(e) => Err(DecompressError::IOErr(e)),
    }
}

impl ColorTransformProgram {
    /// Reads a program for `is_chroma.len()` channels from the start of
    /// `buffer`, marking its chroma channels in `is_chroma`; gives the
    /// program and the number of bytes it took (whole 32-bit words).  Fails
    /// with `IOErr` when the bytes run out and with `Malformed` on a channel
    /// out of range; the chroma channels of the transforms read whole before
    /// the failure stay marked.
    #[verifier::rlimit(100)]
    #[verifier::spinoff_prover]
    pub fn decode(buffer: &[u8], is_chroma: &mut [bool]) -> (r: Result<
        (ColorTransformProgram, usize),
        DecompressError,
    >)
        ensures
            final(is_chroma)@.len() == old(is_chroma)@.len(),
            match parse_program(stream_bits(buffer@), 0, old(is_chroma)@.len()) {
                ProgramParse::Truncated => r is Err && r->Err_0 is IOErr && final(is_chroma)@ == mark_chroma(
                    old(is_chroma)@,
                    parsed_transforms(stream_bits(buffer@), 0, old(is_chroma)@.len()),
                ),
                ProgramParse::Malformed => r is Err && r->Err_0 is Malformed && final(is_chroma)@ == mark_chroma(
                    old(is_chroma)@,
                    parsed_transforms(stream_bits(buffer@), 0, old(is_chroma)@.len()),
                ),
                ProgramParse::Done(ts, p) => {
                    &&& r is Ok
                    &&& r->Ok_0.0.transforms() == ts
                    &&& r->Ok_0.1 == padded_bytes(p)
                    &&& final(is_chroma)@ == mark_chroma(old(is_chroma)@, ts)
                },
            },
    {
        let mut stream = BitsIOReader::new(buffer);
        let ghost bits = stream.data();
        let ghost n = is_chroma@.len();
        let ghost flags0 = is_chroma@;
        let mut program = ColorTransformProgram::new();
        assert(mark_chroma(flags0, program.transforms()) == flags0) by {
            reveal(mark_chroma);
        }
        assert(parsed_transforms(bits, 0, n) =~= program.transforms() + parsed_transforms(bits, 0, n));
        loop
            invariant
                stream.reader_wf(),
                stream.data() == bits,
                bits == stream_bits(buffer@),
                stream.position() >= 0,
                n == is_chroma@.len(),
                n == old(is_chroma)@.len(),
                flags0 == old(is_chroma)@,
                is_chroma@ == mark_chroma(flags0, program.transforms()),
                forall|k: int| 0 <= k < program.transforms().len() ==> (#[trigger] program.transforms()[k]).dest < n,
                parse_program(bits, 0, n) == prepend_parse(program.transforms(), parse_program(bits, stream.position(), n)),
                parsed_transforms(bits, 0, n) == program.transforms() + parsed_transforms(bits, stream.position(), n),
            decreases bits.len() - stream.position(),
        {
            let ghost pos = stream.position();
            proof {
                lemma_signed_decode_consumes(bits, pos, 2);
                lemma_parse_program_unfold(bits, pos, n);
            }
            match decode_step(&mut stream, is_chroma.len()) {
                Err(e) => {
                    assert(parsed_transforms(bits, pos, n) =~= Seq::<TransformSpec>::empty());
                    assert(parsed_transforms(bits, 0, n) =~= program.transforms());
                    return Err(e);
                },
                Ok(None) => {
                    let ghost end = stream.position();
                    stream.flush_read_word();
                    let consumed = stream.bytes_consumed();
                    proof {
                        lemma_flushed_words(end);
                        assert(program.transforms() + Seq::<TransformSpec>::empty() =~= program.transforms());
                        assert(parse_program(bits, 0, n) == ProgramParse::Done(program.transforms(), end));
                    }
                    return Ok((program, consumed));
                },
                Ok(Some((builder, channel_is_chroma))) => {
                    let ghost (dest, c) = signed_decode_spec(bits, pos, 2)->Some_0;
                    let ghost before = program.transforms();
                    let ghost p1 = stream.position();
                    assert(signed_decode_spec(bits, pos, 2) == Some((dest, c)));
                    assert(0 <= dest < n);
                    assert(parse_transform_rest(bits, pos + c, dest) == Some((builder.spec(), p1)));
                    let t = builder.build();
                    if channel_is_chroma {
                        is_chroma[t.dest_channel] = true;
                    }
                    program.add_channel_transform(t);
                    proof {
                        assert(program.transforms() == before.push(t.spec()));
                        lemma_decode_step(bits, n, pos, before, dest, c, t.spec(), stream.position(), flags0);
                        lemma_parse_transform_rest_advances(bits, pos + c, dest);
                        assert(pos < stream.position() <= bits.len());
                        assert(is_chroma@ == mark_chroma(flags0, program.transforms()));
                        assert(parsed_transforms(bits, pos, n) == seq![t.spec()] + parsed_transforms(bits, stream.position(), n));
                        assert(parsed_transforms(bits, 0, n) =~= program.transforms() + parsed_transforms(bits, stream.position(), n));
                    }
                },
            }
        }
    }
}

// ---------------------------------------------------------------------------
// Decoding what was coded.

/// Where `a + b` lies in `bits`, `a` lies and `b` follows it.
proof fn lemma_split_at(bits: Seq<bool>, pos: int, a: Seq<bool>, b: Seq<bool>)
    requires
        0 <= pos,
        pos + a.len() + b.len() <= bits.len(),
        bits.subrange(pos, pos + a.len() + b.len()) == a + b,
    ensures
        bits.subrange(pos, pos + a.len()) == a,
        bits.subrange(pos + a.len(), pos + a.len() + b.len()) == b,
{
    let whole = bits.subrange(pos, pos + a.len() + b.len());
    assert(bits.subrange(pos, pos + a.len()) =~= whole.subrange(0, a.len() as int));
    assert((a + b).subrange(0, a.len() as int) =~= a);
    assert(bits.subrange(pos + a.len(), pos + a.len() + b.len()) =~= whole.subrange(
        a.len() as int,
        (a.len() + b.len()) as int,
    ));
    assert((a + b).subrange(a.len() as int, (a.len() + b.len()) as int) =~= b);
}

/// The bits of factors, the first factor first.
proof fn lemma_factors_bits_front(fs: Seq<ChannelTransformFactor>)
    requires
        fs.len() >= 1,
    ensures
        factors_bits(fs) == signed_code_bits(fs[0].src_channel as i32, 2) + signed_code_bits(
            fs[0].factor as i32,
            2,
        ) + factors_bits(fs.drop_first()),
    decreases fs.len(),
{
    if fs.len() == 1 {
        assert(fs.drop_last() =~= Seq::<ChannelTransformFactor>::empty());
        assert(fs.drop_first() =~= Seq::<ChannelTransformFactor>::empty());
        assert(factors_bits(fs) =~= signed_code_bits(fs[0].src_channel as i32, 2) + signed_code_bits(
            fs[0].factor as i32,
            2,
        ) + factors_bits(fs.drop_first()));
    } else {
        lemma_factors_bits_front(fs.drop_last());
        assert(fs.drop_last().drop_first() =~= fs.drop_first().drop_last());
        assert(fs.drop_first().last() == fs.last());
        assert(fs.drop_last()[0] == fs[0]);
        let a = signed_code_bits(fs[0].src_channel as i32, 2);
        let b = signed_code_bits(fs[0].factor as i32, 2);
        let m = factors_bits(fs.drop_last().drop_first());
        let l = signed_code_bits(fs.last().src_channel as i32, 2) + signed_code_bits(fs.last().factor as i32, 2);
        assert(factors_bits(fs) =~= a + b + m + l);
        assert(factors_bits(fs.drop_first()) =~= m + l);
    }
}

/// The bits of transforms, the first transform first.
proof fn lemma_transforms_bits_front(ts: Seq<TransformSpec>)
    requires
        ts.len() >= 1,
    ensures
        transforms_bits(ts) == transform_bits(ts[0]) + transforms_bits(ts.drop_first()),
    decreases ts.len(),
{
    if ts.len() == 1 {
        assert(ts.drop_last() =~= Seq::<TransformSpec>::empty());
        assert(ts.drop_first() =~= Seq::<TransformSpec>::empty());
        assert(transforms_bits(ts) =~= transform_bits(ts[0]) + transforms_bits(ts.drop_first()));
    } else {
        lemma_transforms_bits_front(ts.drop_last());
        assert(ts.drop_last().drop_first() =~= ts.drop_first().drop_last());
        assert(ts.drop_first().last() == ts.last());
        assert(ts.drop_last()[0] == ts[0]);
        assert(transforms_bits(ts) =~= transform_bits(ts[0]) + transforms_bits(ts.drop_last().drop_first())
            + transform_bits(ts.last()));
    }
}

/// Factors that the signed code of 32-bit numbers takes.
pub open spec fn factors_codable(fs: Seq<ChannelTransformFactor>) -> bool {
    forall|j: int|
        0 <= j < fs.len() ==> {
            let f = #[trigger] fs[j];
            &&& f.src_channel <= i32::MAX
            &&& i32::MIN < f.factor <= i32::MAX
        }
}

/// Parsing factors where their bits and the closing `-1` lie gives them
/// back, with the position after the `-1`.
#[verifier::rlimit(50)]
proof fn lemma_parse_factors_of(bits: Seq<bool>, pos: int, fs: Seq<ChannelTransformFactor>)
    requires
        0 <= pos,
        factors_codable(fs),
        pos + factors_bits(fs).len() + signed_code_bits(-1i32, 2).len() <= bits.len(),
        bits.subrange(pos, pos + factors_bits(fs).len() + signed_code_bits(-1i32, 2).len())
            == factors_bits(fs) + signed_code_bits(-1i32, 2),
    ensures
        parse_factors(bits, pos) == Some(
            (fs, pos + factors_bits(fs).len() + signed_code_bits(-1i32, 2).len()),
        ),
    decreases fs.len(),
{
    let end = signed_code_bits(-1i32, 2);
    if fs.len() == 0 {
        assert(factors_bits(fs) =~= Seq::<bool>::empty());
        assert(factors_bits(fs) + end =~= end);
        lemma_signed_code_at(bits, pos, -1i32, 2);
        assert(fs =~= Seq::<ChannelTransformFactor>::empty());
    } else {
        lemma_factors_bits_front(fs);
        let f = fs[0];
        let a = signed_code_bits(f.src_channel as i32, 2);
        let b = signed_code_bits(f.factor as i32, 2);
        let rest = fs.drop_first();
        let r = factors_bits(rest) + end;
        assert(factors_bits(fs) + end =~= a + (b + r));
        lemma_split_at(bits, pos, a, b + r);
        lemma_split_at(bits, pos + a.len(), b, r);
        lemma_signed_code_at(bits, pos, f.src_channel as i32, 2);
        lemma_signed_code_at(bits, pos + a.len(), f.factor as i32, 2);
        assert(factors_codable(rest)) by {
            assert forall|j: int| 0 <= j < rest.len() implies {
                let g = #[trigger] rest[j];
                &&& g.src_channel <= i32::MAX
                &&& i32::MIN < g.factor <= i32::MAX
            } by {
                assert(rest[j] == fs[j + 1]);
            }
        }
        assert(bits.subrange(pos + a.len() + b.len(), pos + a.len() + b.len() + factors_bits(rest).len() + end.len())
            == factors_bits(rest) + end);
        lemma_parse_factors_of(bits, pos + a.len() + b.len(), rest);
        assert(seq![ChannelTransformFactor { src_channel: (f.src_channel as i32) as usize, factor: (f.factor as i32) as isize }]
            + rest =~= fs);
    }
}

/// The bits of a transform after its channel.
pub open spec fn transform_rest_bits(t: TransformSpec) -> Seq<bool> {
    factors_bits(t.factors) + signed_code_bits(-1i32, 2) + signed_code_bits(t.denominator as i32, 2)
        + signed_code_bits(if t.is_chroma { 1i32 } else { 0i32 }, 2)
}

/// Parsing the rest of a transform where its bits lie gives it back.
proof fn lemma_parse_transform_rest_of(bits: Seq<bool>, pos: int, t: TransformSpec)
    requires
        0 <= pos,
        t.dest <= i32::MAX,
        i32::MIN < t.denominator <= i32::MAX,
        factors_codable(t.factors),
        pos + transform_rest_bits(t).len() <= bits.len(),
        bits.subrange(pos, pos + transform_rest_bits(t).len()) == transform_rest_bits(t),
    ensures
        parse_transform_rest(bits, pos, t.dest as i32) == Some((t, pos + transform_rest_bits(t).len())),
{
    let fe = factors_bits(t.factors) + signed_code_bits(-1i32, 2);
    let d = signed_code_bits(t.denominator as i32, 2);
    let ch = signed_code_bits(if t.is_chroma { 1i32 } else { 0i32 }, 2);
    assert(transform_rest_bits(t) =~= fe + (d + ch));
    lemma_split_at(bits, pos, fe, d + ch);
    lemma_split_at(bits, pos + fe.len(), d, ch);
    lemma_parse_factors_of(bits, pos, t.factors);
    lemma_signed_code_at(bits, pos + fe.len(), t.denominator as i32, 2);
    lemma_signed_code_at(bits, pos + fe.len() + d.len(), if t.is_chroma { 1i32 } else { 0i32 }, 2);
}

/// The transforms after the first of a codable program are codable.
proof fn lemma_codable_drop_first(ts: Seq<TransformSpec>, n: nat)
    requires
        ts.len() >= 1,
        codable(ts, n),
    ensures
        codable(ts.drop_first(), n),
{
    let rest = ts.drop_first();
    assert forall|k: int| 0 <= k < rest.len() implies {
        let u = #[trigger] rest[k];
        &&& u.dest < n
        &&& u.dest <= i32::MAX
        &&& i32::MIN < u.denominator <= i32::MAX
        &&& forall|j: int|
            0 <= j < u.factors.len() ==> {
                let f = #[trigger] u.factors[j];
                &&& f.src_channel <= i32::MAX
                &&& i32::MIN < f.factor <= i32::MAX
            }
    } by {
        assert(rest[k] == ts[k + 1]);
    }
}

/// Parsing a program whose first transform was read to `p` goes on at `p`.
proof fn lemma_parse_program_cons(bits: Seq<bool>, pos: int, n: nat, dest: i32, c: nat, t: TransformSpec, p: int)
    requires
        0 <= pos,
        signed_decode_spec(bits, pos, 2) == Some((dest, c)),
        0 <= dest < n,
        parse_transform_rest(bits, pos + c, dest) == Some((t, p)),
    ensures
        parse_program(bits, pos, n) == prepend_parse(seq![t], parse_program(bits, p, n)),
{
    lemma_parse_program_unfold(bits, pos, n);
}

/// The first transform of a codable program is codable.
proof fn lemma_codable_first(ts: Seq<TransformSpec>, n: nat)
    requires
        ts.len() >= 1,
        codable(ts, n),
    ensures
        ts[0].dest < n,
        ts[0].dest <= i32::MAX,
        i32::MIN < ts[0].denominator <= i32::MAX,
        factors_codable(ts[0].factors),
{
    let t = ts[0];
    assert forall|j: int| 0 <= j < t.factors.len() implies {
        let f = #[trigger] t.factors[j];
        &&& f.src_channel <= i32::MAX
        &&& i32::MIN < f.factor <= i32::MAX
    } by {
        assert(ts[0] == t);
    }
}

/// The first transform of a coded program is read back where its bits lie.
#[verifier::rlimit(50)]
proof fn lemma_first_transform_of(bits: Seq<bool>, pos: int, ts: Seq<TransformSpec>, n: nat)
    requires
        0 <= pos,
        ts.len() >= 1,
        codable(ts, n),
        pos + program_bits(ts).len() <= bits.len(),
        bits.subrange(pos, pos + program_bits(ts).len()) == program_bits(ts),
    ensures
        signed_decode_spec(bits, pos, 2) == Some(
            (ts[0].dest as i32, signed_code_bits(ts[0].dest as i32, 2).len()),
        ),
        0 <= ts[0].dest as i32 && ts[0].dest < n,
        parse_transform_rest(bits, pos + signed_code_bits(ts[0].dest as i32, 2).len(), ts[0].dest as i32)
            == Some(
            (
                ts[0],
                pos + signed_code_bits(ts[0].dest as i32, 2).len() + transform_rest_bits(ts[0]).len(),
            ),
        ),
        program_bits(ts).len() == signed_code_bits(ts[0].dest as i32, 2).len() + transform_rest_bits(
            ts[0],
        ).len() + program_bits(ts.drop_first()).len(),
        bits.subrange(
            pos + signed_code_bits(ts[0].dest as i32, 2).len() + transform_rest_bits(ts[0]).len(),
            pos + program_bits(ts).len(),
        ) == program_bits(ts.drop_first()),
{
    lemma_transforms_bits_front(ts);
    let t = ts[0];
    let rest = ts.drop_first();
    let dbits = signed_code_bits(t.dest as i32, 2);
    let rb = transform_rest_bits(t);
    let pb = program_bits(rest);
    assert(program_bits(ts) =~= dbits + (rb + pb));
    lemma_split_at(bits, pos, dbits, rb + pb);
    lemma_split_at(bits, pos + dbits.len(), rb, pb);
    lemma_codable_first(ts, n);
    lemma_signed_code_at(bits, pos, t.dest as i32, 2);
    lemma_parse_transform_rest_of(bits, pos + dbits.len(), t);
}

/// Parsing a program where its bits lie gives it back, with the position
/// after its final `-1`.
proof fn lemma_parse_program_of(bits: Seq<bool>, pos: int, ts: Seq<TransformSpec>, n: nat)
    requires
        0 <= pos,
        codable(ts, n),
        pos + program_bits(ts).len() <= bits.len(),
        bits.subrange(pos, pos + program_bits(ts).len()) == program_bits(ts),
    ensures
        parse_program(bits, pos, n) == ProgramParse::Done(ts, pos + program_bits(ts).len()),
    decreases ts.len(),
{
    if ts.len() == 0 {
        lemma_parse_program_unfold(bits, pos, n);
        let end = signed_code_bits(-1i32, 2);
        assert(transforms_bits(ts) =~= Seq::<bool>::empty());
        assert(program_bits(ts) =~= end);
        lemma_signed_code_at(bits, pos, -1i32, 2);
        assert(ts =~= Seq::<TransformSpec>::empty());
    } else {
        let t = ts[0];
        let rest = ts.drop_first();
        let q = pos + signed_code_bits(t.dest as i32, 2).len() + transform_rest_bits(t).len();
        lemma_first_transform_of(bits, pos, ts, n);
        lemma_codable_drop_first(ts, n);
        lemma_parse_program_of(bits, q, rest, n);
        lemma_parse_program_cons(
            bits,
            pos,
            n,
            t.dest as i32,
            signed_code_bits(t.dest as i32, 2).len(),
            t,
            q,
        );
        assert(seq![t] + rest =~= ts);
    }
}

/// A coded program decodes back to itself, whatever follows its bits: the
/// parse gives its transforms and stops right after the final `-1`.
pub proof fn lemma_program_roundtrip(ts: Seq<TransformSpec>, n: nat, rest: Seq<bool>)
    requires
        codable(ts, n),
    ensures
        parse_program(program_bits(ts) + rest, 0, n) == ProgramParse::Done(ts, program_bits(ts).len() as int),
{
    let bits = program_bits(ts) + rest;
    assert(bits.subrange(0, program_bits(ts).len() as int) =~= program_bits(ts));
    lemma_parse_program_of(bits, 0, ts, n);
}


/// A channel that no transform targets is not flagged.
proof fn lemma_chroma_flags_untouched(ts: Seq<TransformSpec>, n: nat, c: int)
    requires
        0 <= c < n,
        forall|k: int| 0 <= k < ts.len() ==> (#[trigger] ts[k]).dest < n,
        forall|k: int| 0 <= k < ts.len() ==> (#[trigger] ts[k]).dest != c,
    ensures
        !chroma_flags(ts, n)[c],
    decreases ts.len(),
{
    if ts.len() > 0 {
        let d = ts.drop_last();
        assert forall|k: int| 0 <= k < d.len() implies (#[trigger] d[k]).dest < n && d[k].dest != c by {
            assert(d[k] == ts[k]);
        }
        lemma_chroma_flags_len(d, n);
        lemma_chroma_flags_untouched(d, n, c);
        assert(ts.last() == ts[ts.len() - 1]);
    }
}

/// When no two transforms share a destination, the chroma flags that
/// decoding marks are the flags that coding reports.
pub proof fn lemma_marks_match_flags(ts: Seq<TransformSpec>, n: nat)
    requires
        forall|k: int| 0 <= k < ts.len() ==> (#[trigger] ts[k]).dest < n,
        forall|a: int, b: int| 0 <= a < b < ts.len() ==> (#[trigger] ts[a]).dest != (#[trigger] ts[b]).dest,
    ensures
        mark_chroma(Seq::new(n, |i: int| false), ts) == chroma_flags(ts, n),
    decreases ts.len(),
{
    let f = Seq::new(n, |i: int| false);
    if ts.len() == 0 {
        reveal(mark_chroma);
    } else {
        let d = ts.drop_last();
        let t = ts.last();
        assert(t == ts[ts.len() - 1]);
        assert forall|k: int| 0 <= k < d.len() implies (#[trigger] d[k]).dest < n by {
            assert(d[k] == ts[k]);
        }
        assert forall|a: int, b: int| 0 <= a < b < d.len() implies (#[trigger] d[a]).dest != (#[trigger] d[b]).dest by {
            assert(d[a] == ts[a] && d[b] == ts[b]);
        }
        lemma_marks_match_flags(d, n);
        assert(d.push(t) =~= ts);
        lemma_mark_chroma_push(f, d, t);
        lemma_chroma_flags_len(d, n);
        if !t.is_chroma {
            assert forall|k: int| 0 <= k < d.len() implies (#[trigger] d[k]).dest != t.dest by {
                assert(d[k] == ts[k]);
            }
            lemma_chroma_flags_untouched(d, n, t.dest as int);
            assert(chroma_flags(d, n).update(t.dest as int, false) =~= chroma_flags(d, n));
        }
    }
}

} // verus!
