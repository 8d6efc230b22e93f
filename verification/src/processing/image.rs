//! An image of one or more channels, cut into square chunks.
use vstd::prelude::*;

use super::Range;

verus! {

/// The shape of an image stored channel after channel, each channel row
/// after row: `size` is `(width, height)`.
pub struct Image {
    data_len: usize,
    size: (usize, usize),
    channels: usize,
}

/// Where the walk over the chunks of an image stands.
pub struct ImageChunkIteratorState {
    pub chunk_size: usize,
    pub step: usize,
    pub x: usize,
    pub y: usize,
    pub channel: usize,
    pub width: usize,
    pub height: usize,
    pub channels: usize,
}

/// The chunks of an image: channel after channel, in each channel row of
/// chunks after row of chunks, each row from left to right.
pub struct ImageChunkIteratorMut {
    data_len: usize,
    state: ImageChunkIteratorState,
}

/// A chunk of one channel of an image, as ranges of columns and rows; the
/// image itself is passed to the methods that read or write through it.
/// Within the chunk, the samples that the coder of the chunk writes are its
/// top-left sample and, on rows that are multiples of `step`, the samples at
/// the positions that the wavelet of that step leaves there.
pub struct ImageChunkMut {
    pub data_len: usize,
    pub image_width: usize,
    pub channel_size: usize,
    pub channel_start: usize,
    pub x_range: Range,
    pub y_range: Range,
    pub channel: usize,
    pub step: usize,
}

/// The state after the chunk at `(x, y)` of `channel`.
pub open spec fn next_position(
    x: int,
    y: int,
    channel: int,
    chunk_size: int,
    width: int,
    height: int,
) -> (int, int, int) {
    let x1 = x + chunk_size;
    let (x2, y1) = if x1 >= width {
        (0, y + chunk_size)
    } else {
        (x1, y)
    };
    if y1 >= height {
        (x2, 0, channel + 1)
    } else {
        (x2, y1, channel)
    }
}

pub open spec fn min_int(a: int, b: int) -> int {
    if a < b {
        a
    } else {
        b
    }
}

impl Image {
    pub closed spec fn data_len(&self) -> nat {
        self.data_len as nat
    }

    pub closed spec fn size(&self) -> (usize, usize) {
        self.size
    }

    pub closed spec fn channels(&self) -> nat {
        self.channels as nat
    }

    pub fn from_slice<T>(data: &[T], size: (usize, usize), channels: usize) -> (r: Image)
        ensures
            r.data_len() == data@.len(),
            r.size() == size,
            r.channels() == channels,
    {
        Image { data_len: data.len(), size, channels }
    }

    /// The chunks of `chunk_size` by `chunk_size` samples (smaller at the
    /// right and bottom edges), for a coder of wavelet step `step`.
    pub fn into_chunks_mut(self, chunk_size: usize, step: usize) -> (r: ImageChunkIteratorMut)
        requires
            self.size().0 + chunk_size <= usize::MAX,
            self.size().1 + chunk_size <= usize::MAX,
            self.channels() * self.size().0 * self.size().1 <= usize::MAX,
        ensures
            r.wf(),
            r.data_len() == self.data_len(),
            r.dims() == (self.size().0, self.size().1, self.channels() as usize, chunk_size, step),
            r.position() == (0int, 0int, 0int),
    {
        let (width, height) = self.size;
        ImageChunkIteratorMut {
            data_len: self.data_len,
            state: ImageChunkIteratorState {
                chunk_size,
                step,
                x: 0,
                y: 0,
                channel: 0,
                width,
                height,
                channels: self.channels,
            },
        }
    }
}

impl ImageChunkIteratorState {
    pub open spec fn wf(&self) -> bool {
        &&& self.width + self.chunk_size <= usize::MAX
        &&& self.height + self.chunk_size <= usize::MAX
        &&& self.channels * self.width * self.height <= usize::MAX
        &&& self.x <= self.width
        &&& self.y <= self.height
    }

    /// The column range, the row range, the channel and the index where the
    /// channel starts, of the next chunk.
    pub fn next_chunk(&mut self) -> (r: Option<(Range, Range, usize, usize)>)
        requires
            old(self).wf(),
        ensures
            final(self).wf(),
            final(self).chunk_size == old(self).chunk_size,
            final(self).step == old(self).step,
            final(self).width == old(self).width,
            final(self).height == old(self).height,
            final(self).channels == old(self).channels,
            old(self).channel >= old(self).channels ==> r is None && *final(self) == *old(self),
            old(self).channel < old(self).channels ==> {
                let s = old(self);
                &&& r is Some
                &&& r->Some_0.0 == (s.x, min_int(s.x + s.chunk_size, s.width as int) as usize)
                &&& r->Some_0.1 == (s.y, min_int(s.y + s.chunk_size, s.height as int) as usize)
                &&& r->Some_0.2 == s.channel
                &&& r->Some_0.3 == s.channel * (s.width * s.height)
                &&& (final(self).x as int, final(self).y as int, final(self).channel as int)
                    == next_position(
                    s.x as int,
                    s.y as int,
                    s.channel as int,
                    s.chunk_size as int,
                    s.width as int,
                    s.height as int,
                )
            },
    {
        if self.channel >= self.channels {
            return None;
        }
        let (x, y) = (self.x, self.y);
        let channel = self.channel;
        proof {
            assert(channel * (self.width * self.height) <= self.channels * self.width * self.height
                && self.width * self.height <= self.channels * self.width * self.height)
                by (nonlinear_arith)
                requires
                    channel < self.channels,
            ;
        }
        let wh = self.width * self.height;
        self.x = self.x + self.chunk_size;
        if self.x >= self.width {
            self.x = 0;
            self.y = self.y + self.chunk_size;
        }
        if self.y >= self.height {
            self.y = 0;
            self.channel = self.channel + 1;
        }
        let x_end = if x + self.chunk_size < self.width {
            x + self.chunk_size
        } else {
            self.width
        };
        let y_end = if y + self.chunk_size < self.height {
            y + self.chunk_size
        } else {
            self.height
        };
        Some(((x, x_end), (y, y_end), channel, channel * wh))
    }
}

impl ImageChunkIteratorMut {
    pub closed spec fn wf(&self) -> bool {
        self.state.wf()
    }

    pub closed spec fn data_len(&self) -> nat {
        self.data_len as nat
    }

    /// Width, height, channels, chunk size and step.
    pub closed spec fn dims(&self) -> (usize, usize, usize, usize, usize) {
        (
            self.state.width,
            self.state.height,
            self.state.channels,
            self.state.chunk_size,
            self.state.step,
        )
    }

    /// The column and row where the next chunk starts, and its channel.
    pub closed spec fn position(&self) -> (int, int, int) {
        (self.state.x as int, self.state.y as int, self.state.channel as int)
    }

    /// The next chunk, if any is left.
    pub fn next(&mut self) -> (r: Option<ImageChunkMut>)
        requires
            old(self).wf(),
        ensures
            final(self).wf(),
            final(self).data_len() == old(self).data_len(),
            final(self).dims() == old(self).dims(),
            ({
                let (width, height, channels, chunk_size, step) = old(self).dims();
                let (x, y, channel) = old(self).position();
                if channel >= channels {
                    r is None && final(self).position() == old(self).position()
                } else {
                    let c = r->Some_0;
                    &&& r is Some
                    &&& c.x_range == (x as usize, min_int(x + chunk_size, width as int) as usize)
                    &&& c.y_range == (y as usize, min_int(y + chunk_size, height as int) as usize)
                    &&& c.channel == channel
                    &&& c.step == step
                    &&& c.image_width == width
                    &&& c.channel_size == width * height
                    &&& c.channel_start == channel * (width * height)
                    &&& c.data_len == old(self).data_len()
                    &&& final(self).position() == next_position(
                        x,
                        y,
                        channel,
                        chunk_size as int,
                        width as int,
                        height as int,
                    )
                }
            }),
    {
        match self.state.next_chunk() {
            None => None,
            Some((x_range, y_range, channel, channel_start)) => {
                proof {
                    assert(self.state.width * self.state.height <= self.state.channels
                        * self.state.width * self.state.height) by (nonlinear_arith)
                        requires
                            self.state.channels >= 1,
                    ;
                }
                Some(
                    ImageChunkMut {
                        data_len: self.data_len,
                        image_width: self.state.width,
                        channel_size: self.state.width * self.state.height,
                        channel_start,
                        x_range,
                        y_range,
                        channel,
                        step: self.state.step,
                    },
                )
            },
        }
    }
}

impl ImageChunkMut {
    /// The index of row `y`, column `x` of the chunk's channel.
    pub open spec fn index_of(&self, y: int, x: int) -> int {
        self.channel_start + y * self.image_width + x
    }

    /// Whether the coder of this chunk writes row `y`, column `x`.
    pub open spec fn writeable_spec(&self, y: usize, x: usize) -> bool {
        ||| y == self.y_range.0 && x == self.x_range.0
        ||| self.step > 0 && y % self.step == 0 && {
            let x_step = if (y & self.step) != 0 {
                self.step as int
            } else {
                self.step * 2
            };
            x_step > 0 && (x + (x_step - self.step)) % x_step == 0
        }
    }

    /// Whether row `y`, column `x` lies in the chunk.
    pub open spec fn owned_spec(&self, y: usize, x: usize) -> bool {
        self.x_range.0 <= x < self.x_range.1 && self.y_range.0 <= y < self.y_range.1
    }

    /// Whether the chunk may read row `y`, column `x` of its channel: its own
    /// samples, and the samples of other chunks that their coders do not
    /// write.
    pub open spec fn readable(&self, y: usize, x: usize) -> bool {
        &&& self.owned_spec(y, x) || !self.writeable_spec(y, x)
        &&& self.index_of(y as int, x as int) < self.channel_start + self.channel_size
        &&& self.index_of(y as int, x as int) < self.data_len
    }

    /// Whether the chunk may write row `y`, column `x`.
    pub open spec fn writable(&self, y: usize, x: usize) -> bool {
        &&& self.owned_spec(y, x) && self.writeable_spec(y, x)
        &&& self.index_of(y as int, x as int) < self.channel_start + self.channel_size
        &&& self.index_of(y as int, x as int) < self.data_len
    }

    fn is_writeable_zone(&self, y: usize, x: usize) -> (r: bool)
        requires
            x + 2 * self.step <= usize::MAX,
        ensures
            r == self.writeable_spec(y, x),
    {
        if y == self.y_range.0 && x == self.x_range.0 {
            return true;
        }
        if self.step > 0 && y % self.step == 0 {
            let x_step = if (y & self.step) != 0 {
                self.step
            } else {
                self.step * 2
            };
            if x_step > 0 && (x + (x_step - self.step)) % x_step == 0 {
                return true;
            }
        }
        false
    }

    fn is_owned_zone(&self, y: usize, x: usize) -> (r: bool)
        ensures
            r == self.owned_spec(y, x),
    {
        x >= self.x_range.0 && x < self.x_range.1 && y >= self.y_range.0 && y < self.y_range.1
    }

    /// Reads row `y`, column `x` of the chunk's channel of `data`.
    pub fn get<T: Copy>(&self, data: &[T], y: usize, x: usize) -> (r: T)
        requires
            data@.len() == self.data_len,
            self.readable(y, x),
        ensures
            r == data@[self.index_of(y as int, x as int)],
    {
        data[self.channel_start + y * self.image_width + x]
    }

    /// Writes row `y`, column `x` of the chunk's channel of `data`.
    pub fn set<T: Copy>(&self, data: &mut [T], y: usize, x: usize, value: T)
        requires
            old(data)@.len() == self.data_len,
            self.writable(y, x),
        ensures
            final(data)@ == old(data)@.update(self.index_of(y as int, x as int), value),
    {
        data[self.channel_start + y * self.image_width + x] = value;
    }
}

} // verus!
