//! A streaming frame parser: bytes are fed into a ring buffer as they arrive,
//! and every complete frame at its front is parsed and taken out.

use circular::Buffer;
use vstd::prelude::*;
use vstd::arithmetic::power2::lemma2_to64;
use vstd::arithmetic::power2::lemma_pow2_adds;
use vstd::arithmetic::power2::pow2;
use crate::buffer::buffer_available_data;
use crate::buffer::buffer_available_space;
use crate::buffer::buffer_capacity;
use crate::buffer::buffer_capacity_of;
use crate::buffer::buffer_consume;
use crate::buffer::buffer_data;
use crate::buffer::buffer_data_slice;
use crate::buffer::buffer_grow;
use crate::buffer::buffer_space;
use crate::buffer::buffer_with_capacity;
use crate::buffer::buffer_write;
use crate::wire::frame_full_panics;
use crate::wire::spec_frame_full;
use crate::wire::try_frame_full;
use crate::wire::Parsed;
use crate::wire::IP2;
use crate::wire::SpecIP2;

verus! {

/// The size of a new parser's buffer.
pub const INITIAL_CAPACITY: usize = 1000;

/// Frames parsed from a ring buffer that grows when a frame needs more room.
pub struct Parser {
    capacity: usize,
    buf: Buffer,
}

/// What the parser found at the front of its buffer.
pub enum FrameStep {
    /// A whole frame; its bytes have been taken out of the buffer.
    Frame(IP2),
    /// The front of the buffer is the start of a frame that needs at least
    /// this many more bytes; the buffer is unchanged.
    Incomplete(usize),
    /// The front of the buffer is no frame.
    Error,
    /// The frame's `length` header holds no number.
    InvalidLength,
}

/// `size` is `start` doubled some number of times, none included.
pub open spec fn doubled_from(start: nat, size: nat) -> bool {
    exists|k: nat| size == start * #[trigger] pow2(k)
}

/// A size is doubled from itself, none times.
pub proof fn lemma_doubled_from_same(size: nat)
    ensures
        doubled_from(size, size),
{
    lemma2_to64();
    assert(size == size * pow2(0));
}

/// Doubling once more keeps a size doubled from where it started.
pub proof fn lemma_doubled_from_twice(start: nat, size: nat)
    requires
        doubled_from(start, size),
    ensures
        doubled_from(start, size * 2),
{
    let k = choose|k: nat| size == start * #[trigger] pow2(k);
    lemma2_to64();
    lemma_pow2_adds(k, 1);
    assert(start * pow2(k) * 2 == start * (pow2(k) * pow2(1))) by (nonlinear_arith)
        requires
            pow2(1) == 2,
    ;
    assert(size * 2 == start * pow2(k + 1));
}

/// The free room after bytes are taken from the front of the data, leaving
/// `left` bytes: the data moves to the front of the buffer, and all but
/// `left` bytes are free, when the read position then lies past half the
/// size; otherwise the free room stays.
pub open spec fn space_after_taking(capacity: nat, space: nat, left: nat) -> int {
    if capacity - space - left > capacity / 2 {
        capacity - left
    } else {
        space as int
    }
}

/// How parsing the frames at the front of some bytes ends.
pub enum DrainEnd {
    /// At the start of a frame that needs at least this many more bytes.
    Needs(usize),
    /// At bytes that are no frame.
    Error,
    /// At a frame whose `length` header holds no number.
    InvalidLength,
}

/// The frames parsed one after another from the front of some bytes, how
/// the parsing ended, and the bytes left where it ended.
pub struct Drained {
    pub frames: Seq<SpecIP2>,
    pub end: DrainEnd,
    pub rest: Seq<u8>,
}

/// Parses frame after frame from the front of `data` until one is not
/// whole, or the bytes are no frame, or a `length` header holds no number.
pub open spec fn spec_drain(data: Seq<u8>) -> Drained
    decreases data.len(),
{
    if frame_full_panics(data) {
        Drained { frames: Seq::empty(), end: DrainEnd::InvalidLength, rest: data }
    } else {
        match spec_frame_full(data) {
            Parsed::Done(n, f) => if 0 < n <= data.len() {
                let d = spec_drain(data.skip(n as int));
                Drained { frames: seq![f] + d.frames, end: d.end, rest: d.rest }
            } else {
                Drained { frames: Seq::empty(), end: DrainEnd::Error, rest: data }
            },
            Parsed::Incomplete(k) => Drained {
                frames: Seq::empty(),
                end: DrainEnd::Needs(k),
                rest: data,
            },
            Parsed::Error => Drained { frames: Seq::empty(), end: DrainEnd::Error, rest: data },
        }
    }
}

/// The bytes that feeding `read` adds behind the waiting data: as many
/// leading bytes as there is free room for.
pub open spec fn fed(space: nat, read: Seq<u8>) -> Seq<u8> {
    if read.len() <= space {
        read
    } else {
        read.take(space as int)
    }
}

/// The frames' values.
pub open spec fn frames_view(frames: Seq<IP2>) -> Seq<SpecIP2> {
    frames.map_values(|f: IP2| f@)
}

/// What one round of reading a stream decided, after the bytes read were fed.
pub enum RunStep {
    /// Nothing was read and nothing waits: the stream is done.
    Stop,
    /// The whole frames at the front, taken out of the buffer, up to one that
    /// needs more bytes; when that frame needs more than the buffer holds,
    /// the buffer doubled, from the first size to the second.
    ReadMore(Vec<IP2>, Option<(usize, usize)>),
    /// The waiting bytes are no frame.
    ParseError,
    /// A frame's `length` header holds no number.
    InvalidLength,
    /// A frame needs more than the buffer holds, and the buffer cannot double
    /// beyond the largest size memory can have.
    CapacityOverflow,
}

/// Doubles the size kept beside the buffer and the buffer's own.
fn double_capacity(capacity: &mut usize, buf: &mut Buffer)
    requires
        *old(capacity) == buffer_capacity(*old(buf)),
        *old(capacity) * 2 <= isize::MAX,
        buffer_data(*old(buf)).len() + buffer_space(*old(buf)) <= buffer_capacity(*old(buf)),
    ensures
        *final(capacity) == *old(capacity) * 2,
        buffer_capacity(*final(buf)) == *final(capacity),
        buffer_data(*final(buf)) == buffer_data(*old(buf)),
        buffer_space(*final(buf)) == buffer_space(*old(buf)) + *old(capacity),
        buffer_data(*final(buf)).len() + buffer_space(*final(buf)) <= buffer_capacity(*final(buf)),
    no_unwind
{
    *capacity = *capacity * 2;
    buffer_grow(buf, *capacity);
}

impl Parser {
    /// The bytes waiting to be parsed.
    pub closed spec fn data(&self) -> Seq<u8> {
        buffer_data(self.buf)
    }

    /// The size the buffer has now.
    pub closed spec fn capacity_spec(&self) -> nat {
        self.capacity as nat
    }

    /// The free room behind the waiting bytes.
    pub closed spec fn space(&self) -> nat {
        buffer_space(self.buf)
    }

    /// The parser's size is its buffer's, the first size doubled some number
    /// of times, and data and free room fit in it.
    #[verifier::type_invariant]
    spec fn wf(self) -> bool {
        &&& buffer_capacity(self.buf) == self.capacity
        &&& doubled_from(INITIAL_CAPACITY as nat, self.capacity as nat)
        &&& buffer_data(self.buf).len() + buffer_space(self.buf) <= buffer_capacity(self.buf)
    }

    /// A parser with an empty buffer of 1000 bytes.
    pub fn new() -> (res: Parser)
        ensures
            res.data() == Seq::<u8>::empty(),
            res.capacity_spec() == INITIAL_CAPACITY,
            res.space() == INITIAL_CAPACITY,
    {
        let b = buffer_with_capacity(INITIAL_CAPACITY);
        proof {
            lemma_doubled_from_same(INITIAL_CAPACITY as nat);
        }
        Parser { capacity: INITIAL_CAPACITY, buf: b }
    }

    /// How many bytes wait to be parsed.
    pub fn available_data(&self) -> (res: usize)
        ensures
            res == self.data().len(),
    {
        proof {
            use_type_invariant(self);
        }
        buffer_available_data(&self.buf)
    }

    /// How many bytes can be fed now.
    pub fn available_space(&self) -> (res: usize)
        ensures
            res == self.space(),
    {
        proof {
            use_type_invariant(self);
        }
        buffer_available_space(&self.buf)
    }

    /// The size of the buffer: its first size doubled some number of times.
    pub fn capacity(&self) -> (res: usize)
        ensures
            res == self.capacity_spec(),
            doubled_from(INITIAL_CAPACITY as nat, res as nat),
    {
        proof {
            use_type_invariant(self);
        }
        buffer_capacity_of(&self.buf)
    }

    /// Feeds the bytes that were read: as many leading bytes as there is room
    /// for are appended to the waiting data; returns how many.
    pub fn fill(&mut self, bytes: &[u8]) -> (res: usize)
        ensures
            res == if bytes@.len() <= old(self).space() {
                bytes@.len() as int
            } else {
                old(self).space() as int
            },
            final(self).data() == old(self).data() + bytes@.take(res as int),
            final(self).capacity_spec() == old(self).capacity_spec(),
            doubled_from(old(self).capacity_spec(), final(self).capacity_spec()),
            final(self).space() == if old(self).space() - res < final(self).data().len() + res {
                final(self).capacity_spec() - final(self).data().len()
            } else {
                old(self).space() - res
            },
    {
        proof {
            use_type_invariant(&*self);
            lemma_doubled_from_same(self.capacity as nat);
        }
        buffer_write(&mut self.buf, bytes)
    }

    /// Parses the frame at the front of the buffer; a whole frame is taken out
    /// of the buffer and handed back.
    pub fn next_frame(&mut self) -> (res: FrameStep)
        ensures
            final(self).capacity_spec() == old(self).capacity_spec(),
            doubled_from(old(self).capacity_spec(), final(self).capacity_spec()),
            final(self).data() == old(self).data() ==> final(self).space() == old(self).space(),
            final(self).data() != old(self).data() ==> final(self).space() == space_after_taking(
                old(self).capacity_spec(),
                old(self).space(),
                final(self).data().len(),
            ),
            frame_full_panics(old(self).data()) ==> res is InvalidLength && final(self).data()
                == old(self).data(),
            !frame_full_panics(old(self).data()) ==> match spec_frame_full(old(self).data()) {
                Parsed::Done(n, f) => res matches FrameStep::Frame(v) && v@ == f && final(self).data() == old(self).data().skip(n as int),
                Parsed::Incomplete(k) => res matches FrameStep::Incomplete(m) && m == k && final(self).data() == old(self).data(),
                Parsed::Error => res is Error && final(self).data() == old(self).data(),
            },
    {
        proof {
            use_type_invariant(&*self);
            lemma_doubled_from_same(self.capacity as nat);
        }
        let parsed = {
            let data = buffer_data_slice(&self.buf);
            try_frame_full(data)
        };
        match parsed {
            None => FrameStep::InvalidLength,
            Some(Parsed::Done(n, frame)) => {
                proof {
                    crate::wire::lemma_frame_full_len(buffer_data(self.buf));
                }
                buffer_consume(&mut self.buf, n);
                FrameStep::Frame(frame)
            },
            Some(Parsed::Incomplete(k)) => FrameStep::Incomplete(k),
            Some(Parsed::Error) => FrameStep::Error,
        }
    }

    /// After an incomplete frame that needs `needed` more bytes: when that is
    /// more than the buffer holds, the buffer doubles, and the old and new
    /// sizes are handed back.
    pub fn grow_for(&mut self, needed: usize) -> (res: Option<(usize, usize)>)
        requires
            needed > old(self).capacity_spec() ==> old(self).capacity_spec() * 2 <= isize::MAX,
        ensures
            final(self).data() == old(self).data(),
            doubled_from(old(self).capacity_spec(), final(self).capacity_spec()),
            needed > old(self).capacity_spec() ==> {
                &&& final(self).capacity_spec() == old(self).capacity_spec() * 2
                &&& final(self).space() == old(self).space() + old(self).capacity_spec()
                &&& res == Some((old(self).capacity_spec() as usize, final(self).capacity_spec() as usize))
            },
            needed <= old(self).capacity_spec() ==> {
                &&& final(self).capacity_spec() == old(self).capacity_spec()
                &&& final(self).space() == old(self).space()
                &&& res is None
            },
    {
        proof {
            use_type_invariant(&*self);
        }
        proof {
            lemma_doubled_from_same(self.capacity as nat);
        }
        let cap = buffer_capacity_of(&self.buf);
        if needed > cap {
            proof {
                lemma_doubled_from_twice(self.capacity as nat, self.capacity as nat);
                lemma_doubled_from_twice(INITIAL_CAPACITY as nat, self.capacity as nat);
            }
            let old_capacity = self.capacity;
            double_capacity(&mut self.capacity, &mut self.buf);
            Some((old_capacity, self.capacity))
        } else {
            None
        }
    }

    /// One round of reading a stream: feeds the bytes that were read, stops
    /// when nothing waits, and otherwise takes out every whole frame at the
    /// front; at a frame that needs more bytes than the buffer holds, the
    /// buffer doubles.
    pub fn run_step(&mut self, read: &[u8]) -> (res: RunStep)
        ensures
            doubled_from(old(self).capacity_spec(), final(self).capacity_spec()),
            ({
                let d = old(self).data() + fed(old(self).space(), read@);
                let c = old(self).capacity_spec();
                let r = spec_drain(d);
                &&& d.len() == 0 ==> res is Stop && final(self).data() == d
                    && final(self).capacity_spec() == c
                &&& d.len() > 0 ==> final(self).data() == r.rest && match r.end {
                    DrainEnd::Error => res is ParseError && final(self).capacity_spec() == c,
                    DrainEnd::InvalidLength => res is InvalidLength && final(self).capacity_spec()
                        == c,
                    DrainEnd::Needs(k) => if k > c && c * 2 > isize::MAX {
                        res is CapacityOverflow && final(self).capacity_spec() == c
                    } else {
                        &&& res matches RunStep::ReadMore(frames, growth)
                        &&& frames_view(frames@) == r.frames
                        &&& growth == if k > c {
                            Some((c as usize, (c * 2) as usize))
                        } else {
                            None
                        }
                        &&& final(self).capacity_spec() == if k > c {
                            c * 2
                        } else {
                            c
                        }
                    },
                }
            }),
    {
        let ghost c = self.capacity_spec();
        proof {
            lemma_doubled_from_same(c);
        }
        let n: usize = self.fill(read);
        assert(read@.take(n as int) =~= fed(old(self).space(), read@));
        let ghost d = self.data();
        if self.available_data() == 0 {
            return RunStep::Stop;
        }
        let mut frames: Vec<IP2> = Vec::new();
        let mut needed: usize = 0;
        loop
            invariant
                self.capacity_spec() == c,
                c == old(self).capacity_spec(),
                doubled_from(c, c),
                d == old(self).data() + fed(old(self).space(), read@),
                d.len() > 0,
                spec_drain(d).end == spec_drain(self.data()).end,
                spec_drain(d).rest == spec_drain(self.data()).rest,
                spec_drain(d).frames == frames_view(frames@) + spec_drain(self.data()).frames,
            ensures
                self.capacity_spec() == c,
                spec_drain(d).end == DrainEnd::Needs(needed),
                spec_drain(d).rest == self.data(),
                spec_drain(d).frames == frames_view(frames@),
            decreases self.data().len(),
        {
            proof {
                use_type_invariant(&*self);
                crate::wire::lemma_frame_full_len(self.data());
            }
            let ghost before = self.data();
            let ghost shown = frames@;
            match self.next_frame() {
                FrameStep::Frame(f) => {
                    frames.push(f);
                    assert(frames_view(frames@) =~= frames_view(shown) + seq![f@]);
                    assert(spec_drain(d).frames =~= frames_view(frames@) + spec_drain(
                        self.data(),
                    ).frames);
                },
                FrameStep::Incomplete(k) => {
                    needed = k;
                    assert(spec_drain(before).frames =~= Seq::<SpecIP2>::empty());
                    assert(frames_view(frames@) + Seq::<SpecIP2>::empty() =~= frames_view(frames@));
                    break;
                },
                FrameStep::Error => {
                    return RunStep::ParseError;
                },
                FrameStep::InvalidLength => {
                    return RunStep::InvalidLength;
                },
            }
        }
        if needed > self.capacity() && self.capacity() > (isize::MAX as usize) / 2 {
            return RunStep::CapacityOverflow;
        }
        let growth = self.grow_for(needed);
        RunStep::ReadMore(frames, growth)
    }
}

} // verus!
