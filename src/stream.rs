use vstd::prelude::*;
use crate::window::NextFrame;

verus! {

/// Sizes of a streamed vertex buffer and element buffer, and the byte range of each that
/// the last frame was written to.
#[derive(Clone, Copy, Debug, PartialEq, Eq, Structural)]
pub struct StreamRanges {
    pub vbo_size: usize,
    pub ebo_size: usize,
    pub vbo_start_byte: usize,
    pub ebo_start_byte: usize,
    pub vbo_end_byte: usize,
    pub ebo_end_byte: usize,
}

/// The size a buffer of `size` bytes is given when it must grow: four frames' worth of
/// `need` for a buffer not yet allocated, otherwise twice its size.
pub open spec fn grown(size: int, need: int) -> int {
    if size == 0 {
        need * 4
    } else {
        size * 2
    }
}

/// After a frame of `need` bytes is checked against a buffer of `size` bytes whose last range
/// is `[start, end)`: the range stays unless the frame would run past the end of the buffer,
/// in which case writing starts over at byte 0.
pub open spec fn kept_range(start: int, end: int, need: int, size: int) -> (int, int) {
    if end + need > size {
        (0, 0)
    } else {
        (start, end)
    }
}

impl StreamRanges {
    pub fn new() -> (r: StreamRanges)
        ensures
            r == (StreamRanges {
                vbo_size: 0,
                ebo_size: 0,
                vbo_start_byte: 0,
                ebo_start_byte: 0,
                vbo_end_byte: 0,
                ebo_end_byte: 0,
            }),
    {
        StreamRanges {
            vbo_size: 0,
            ebo_size: 0,
            vbo_start_byte: 0,
            ebo_start_byte: 0,
            vbo_end_byte: 0,
            ebo_end_byte: 0,
        }
    }

    pub open spec fn is_empty_frame(next: NextFrame) -> bool {
        next.vbo_size == 0 || next.ebo_size == 0
    }

    /// The buffers hold less than four frames of the given sizes.
    pub open spec fn must_grow(self, next: NextFrame) -> bool {
        self.vbo_size < next.vbo_size * 4 || self.ebo_size < next.ebo_size * 4
    }

    pub open spec fn next_vbo_size(self, next: NextFrame) -> int {
        if self.must_grow(next) && self.vbo_size < next.vbo_size {
            grown(self.vbo_size as int, next.vbo_size as int)
        } else {
            self.vbo_size as int
        }
    }

    pub open spec fn next_ebo_size(self, next: NextFrame) -> int {
        if self.must_grow(next) && self.ebo_size < next.ebo_size * 4 {
            grown(self.ebo_size as int, next.ebo_size as int)
        } else {
            self.ebo_size as int
        }
    }

    /// Writing the frame after the last one would overwrite the start of the buffer that the
    /// last frame still uses.
    pub open spec fn overwrites(start: int, end: int, need: int, size: int) -> bool {
        end + need > size && end > 0 && need > start
    }

    /// The state after `validate_or_adjust(next)`.
    pub open spec fn adjusted(self, next: NextFrame) -> StreamRanges {
        if Self::is_empty_frame(next) {
            StreamRanges {
                vbo_size: 0,
                ebo_size: 0,
                vbo_start_byte: 0,
                ebo_start_byte: 0,
                vbo_end_byte: 0,
                ebo_end_byte: 0,
            }
        } else {
            let grow = self.must_grow(next);
            let vs = if grow { 0 } else { self.vbo_start_byte as int };
            let ve = if grow { 0 } else { self.vbo_end_byte as int };
            let es = if grow { 0 } else { self.ebo_start_byte as int };
            let ee = if grow { 0 } else { self.ebo_end_byte as int };
            let vsize = self.next_vbo_size(next);
            let esize = self.next_ebo_size(next);
            let v = kept_range(vs, ve, next.vbo_size as int, vsize);
            let e = kept_range(es, ee, next.ebo_size as int, esize);
            StreamRanges {
                vbo_size: vsize as usize,
                ebo_size: esize as usize,
                vbo_start_byte: v.0 as usize,
                vbo_end_byte: v.1 as usize,
                ebo_start_byte: e.0 as usize,
                ebo_end_byte: e.1 as usize,
            }
        }
    }

    /// Fits the buffers to the frame `next` before it is written. Returns whether the buffers
    /// must be allocated again at their new sizes, which also starts both ranges over at
    /// byte 0: for a frame with nothing to draw (both sizes drop to 0), or when the buffers
    /// hold less than four frames, in which case each that is too small grows (see `grown`).
    /// A frame that would run past the end of a buffer is written from byte 0 instead; doing
    /// so must not overwrite the range of the last frame.
    pub fn validate_or_adjust(&mut self, next: &NextFrame) -> (rebind: bool)
        requires
            next.vbo_size * 4 <= usize::MAX,
            next.ebo_size * 4 <= usize::MAX,
            old(self).next_vbo_size(*next) <= usize::MAX,
            old(self).next_ebo_size(*next) <= usize::MAX,
            old(self).vbo_end_byte + next.vbo_size <= usize::MAX,
            old(self).ebo_end_byte + next.ebo_size <= usize::MAX,
            !Self::is_empty_frame(*next) && !old(self).must_grow(*next) ==> {
                &&& !Self::overwrites(
                    old(self).vbo_start_byte as int,
                    old(self).vbo_end_byte as int,
                    next.vbo_size as int,
                    old(self).vbo_size as int,
                )
                &&& !Self::overwrites(
                    old(self).ebo_start_byte as int,
                    old(self).ebo_end_byte as int,
                    next.ebo_size as int,
                    old(self).ebo_size as int,
                )
            },
        ensures
            *final(self) == old(self).adjusted(*next),
            rebind == (Self::is_empty_frame(*next) || old(self).must_grow(*next)),
    {
        if next.vbo_size == 0 || next.ebo_size == 0 {
            *self = StreamRanges::new();
            return true;
        }
        let grow = self.vbo_size < next.vbo_size * 4 || self.ebo_size < next.ebo_size * 4;
        if grow {
            if self.vbo_size < next.vbo_size {
                self.vbo_size = if self.vbo_size == 0 {
                    next.vbo_size * 4
                } else {
                    self.vbo_size * 2
                };
            }
            if self.ebo_size < next.ebo_size * 4 {
                self.ebo_size = if self.ebo_size == 0 {
                    next.ebo_size * 4
                } else {
                    self.ebo_size * 2
                };
            }
            self.vbo_start_byte = 0;
            self.ebo_start_byte = 0;
            self.vbo_end_byte = 0;
            self.ebo_end_byte = 0;
        }
        if self.vbo_end_byte + next.vbo_size > self.vbo_size {
            self.vbo_end_byte = 0;
            self.vbo_start_byte = 0;
        }
        if self.ebo_end_byte + next.ebo_size > self.ebo_size {
            self.ebo_end_byte = 0;
            self.ebo_start_byte = 0;
        }
        grow
    }

    /// Records that frame `next` was written right after the last one.
    pub fn record_frame(&mut self, next: &NextFrame)
        requires
            old(self).vbo_end_byte + next.vbo_size <= usize::MAX,
            old(self).ebo_end_byte + next.ebo_size <= usize::MAX,
        ensures
            final(self).vbo_size == old(self).vbo_size,
            final(self).ebo_size == old(self).ebo_size,
            final(self).vbo_start_byte == old(self).vbo_end_byte,
            final(self).vbo_end_byte == old(self).vbo_end_byte + next.vbo_size,
            final(self).ebo_start_byte == old(self).ebo_end_byte,
            final(self).ebo_end_byte == old(self).ebo_end_byte + next.ebo_size,
    {
        self.vbo_start_byte = self.vbo_end_byte;
        self.vbo_end_byte = self.vbo_end_byte + next.vbo_size;
        self.ebo_start_byte = self.ebo_end_byte;
        self.ebo_end_byte = self.ebo_end_byte + next.ebo_size;
    }
}

} // verus!
