//! An incremental parser that reports the declared length of each frame.
use crate::sink::{append_lengths, SharedLengths};
use vstd::array::{spec_array_fill_for_copy_type, spec_array_update};
use vstd::prelude::*;

verus! {

/// Number of bytes in a frame header.
pub const HEADER_LEN: usize = 5;

/// Parser state: gathering a header, or skipping a payload.
///
/// `Header` holds the header bytes gathered so far in `buf[..filled]`;
/// `Payload` counts the payload bytes still to skip.
#[derive(Clone, Copy, Debug)]
pub enum ParseState {
    Header { buf: [u8; 5], filled: usize },
    Payload { remaining: u32 },
}

/// The length declared by a complete five-byte header: bytes 1 to 4, big-endian.
pub open spec fn header_length(h: Seq<u8>) -> u32 {
    (h[1] as int * 0x100_0000 + h[2] as int * 0x1_0000 + h[3] as int * 0x100 + h[4] as int) as u32
}

/// The state of a new parser, and the one a finished payload returns to.
pub open spec fn fresh() -> ParseState {
    ParseState::Header { buf: spec_array_fill_for_copy_type::<u8, 5>(0u8), filled: 0 }
}

/// The state in which the next byte is read. A full header stands for its
/// payload (or for a fresh header, when that payload is empty), and a payload
/// with nothing left stands for a fresh header.
pub open spec fn settle(s: ParseState) -> ParseState {
    match s {
        ParseState::Header { buf, filled } => if filled >= HEADER_LEN {
            if header_length(buf@) == 0 {
                fresh()
            } else {
                ParseState::Payload { remaining: header_length(buf@) }
            }
        } else {
            s
        },
        ParseState::Payload { remaining } => if remaining == 0 {
            fresh()
        } else {
            s
        },
    }
}

/// The length a full header reports when the next byte is read.
pub open spec fn settle_lengths(s: ParseState) -> Seq<u32> {
    match s {
        ParseState::Header { buf, filled } => if filled >= HEADER_LEN {
            seq![header_length(buf@)]
        } else {
            Seq::empty()
        },
        ParseState::Payload { .. } => Seq::empty(),
    }
}

/// Reading byte `x` in a settled state: store it in the header, or skip it.
pub open spec fn take(s: ParseState, x: u8) -> ParseState {
    match s {
        ParseState::Header { buf, filled } => if filled + 1 >= HEADER_LEN {
            ParseState::Payload { remaining: header_length(spec_array_update(buf, filled as int, x)@) }
        } else {
            ParseState::Header { buf: spec_array_update(buf, filled as int, x), filled: (filled + 1) as usize }
        },
        ParseState::Payload { remaining } => if remaining <= 1 {
            fresh()
        } else {
            ParseState::Payload { remaining: (remaining - 1) as u32 }
        },
    }
}

/// The length reported by reading byte `x` in a settled state: one when `x`
/// completes a header.
pub open spec fn take_lengths(s: ParseState, x: u8) -> Seq<u32> {
    match s {
        ParseState::Header { buf, filled } => if filled + 1 >= HEADER_LEN {
            seq![header_length(spec_array_update(buf, filled as int, x)@)]
        } else {
            Seq::empty()
        },
        ParseState::Payload { .. } => Seq::empty(),
    }
}

/// The state after one more byte `x`.
pub open spec fn next_state(s: ParseState, x: u8) -> ParseState {
    take(settle(s), x)
}

/// The lengths reported on one more byte `x`.
pub open spec fn next_lengths(s: ParseState, x: u8) -> Seq<u32> {
    settle_lengths(s) + take_lengths(settle(s), x)
}

/// The state after reading all of `data`, byte by byte, from `s`.
pub open spec fn run_state(s: ParseState, data: Seq<u8>) -> ParseState
    decreases data.len(),
{
    if data.len() == 0 {
        s
    } else {
        next_state(run_state(s, data.drop_last()), data.last())
    }
}

/// The lengths reported, in order, while reading all of `data` from `s`.
pub open spec fn run_lengths(s: ParseState, data: Seq<u8>) -> Seq<u32>
    decreases data.len(),
{
    if data.len() == 0 {
        Seq::empty()
    } else {
        run_lengths(s, data.drop_last()) + next_lengths(run_state(s, data.drop_last()), data.last())
    }
}

/// The lengths of all frames whose header lies in `data`, read from a fresh parser.
pub open spec fn frame_lengths(data: Seq<u8>) -> Seq<u32> {
    run_lengths(fresh(), data)
}

/// How many steps without reading a byte the parser may still take in `s`.
pub open spec fn pending_steps(s: ParseState) -> int {
    match s {
        ParseState::Header { filled, .. } => if filled >= HEADER_LEN { 2 } else { 0 },
        ParseState::Payload { .. } => 1,
    }
}

/// Reading `a` and then `b` is reading `a + b`.
pub proof fn lemma_run_append(s: ParseState, a: Seq<u8>, b: Seq<u8>)
    ensures
        run_state(s, a + b) == run_state(run_state(s, a), b),
        run_lengths(s, a + b) == run_lengths(s, a) + run_lengths(run_state(s, a), b),
    decreases b.len(),
{
    if b.len() == 0 {
        assert(a + b =~= a);
        assert(run_lengths(s, a) + Seq::<u32>::empty() =~= run_lengths(s, a));
    } else {
        assert((a + b).drop_last() =~= a + b.drop_last());
        assert((a + b).last() == b.last());
        lemma_run_append(s, a, b.drop_last());
        let t = run_state(s, a);
        assert(run_lengths(s, a) + run_lengths(t, b.drop_last()) + next_lengths(
            run_state(t, b.drop_last()),
            b.last(),
        ) =~= run_lengths(s, a) + (run_lengths(t, b.drop_last()) + next_lengths(
            run_state(t, b.drop_last()),
            b.last(),
        )));
    }
}

/// Settling twice is settling once.
proof fn lemma_settle_settled(s: ParseState)
    ensures
        settle(settle(s)) == settle(s),
        settle_lengths(settle(s)) == Seq::<u32>::empty(),
{
}

/// Reading at least one byte from `s` is reading it from `settle(s)`, after
/// the length that `s` still owes.
pub proof fn lemma_run_settled(s: ParseState, d: Seq<u8>)
    requires
        d.len() > 0,
    ensures
        run_state(s, d) == run_state(settle(s), d),
        run_lengths(s, d) == settle_lengths(s) + run_lengths(settle(s), d),
    decreases d.len(),
{
    lemma_settle_settled(s);
    let e = Seq::<u32>::empty();
    if d.len() == 1 {
        assert(d.drop_last() =~= Seq::<u8>::empty());
        assert(e + next_lengths(s, d.last()) =~= next_lengths(s, d.last()));
        assert(e + next_lengths(settle(s), d.last()) =~= next_lengths(settle(s), d.last()));
        assert(e + take_lengths(settle(s), d.last()) =~= take_lengths(settle(s), d.last()));
        assert(run_lengths(s, d.drop_last()) == e);
        assert(run_state(s, d.drop_last()) == s);
        assert(run_lengths(s, d) == e + next_lengths(s, d.last()));
        assert(run_lengths(s, d) == next_lengths(s, d.last()));
        assert(run_lengths(settle(s), d.drop_last()) == e);
        assert(run_state(settle(s), d.drop_last()) == settle(s));
        assert(run_lengths(settle(s), d) == next_lengths(settle(s), d.last()));
        assert(next_lengths(settle(s), d.last()) == take_lengths(settle(s), d.last()));
    } else {
        lemma_run_settled(s, d.drop_last());
        assert(settle_lengths(s) + run_lengths(settle(s), d.drop_last()) + next_lengths(
            run_state(settle(s), d.drop_last()),
            d.last(),
        ) =~= settle_lengths(s) + (run_lengths(settle(s), d.drop_last()) + next_lengths(
            run_state(settle(s), d.drop_last()),
            d.last(),
        )));
    }
}

/// Skipping `d` while at least `d.len()` payload bytes remain reports nothing.
proof fn lemma_skip(r: u32, d: Seq<u8>)
    requires
        0 < d.len() <= r,
    ensures
        run_state(ParseState::Payload { remaining: r }, d) == (if d.len() == r {
            fresh()
        } else {
            ParseState::Payload { remaining: (r - d.len()) as u32 }
        }),
        run_lengths(ParseState::Payload { remaining: r }, d) == Seq::<u32>::empty(),
    decreases d.len(),
{
    let s = ParseState::Payload { remaining: r };
    let e = Seq::<u32>::empty();
    assert(e + e =~= e);
    assert(e + e + e =~= e);
    if d.len() == 1 {
        assert(d.drop_last() =~= Seq::<u8>::empty());
        assert(run_state(s, d.drop_last()) == s);
        assert(run_lengths(s, d.drop_last()) == e);
        assert(next_lengths(s, d.last()) == e);
    } else {
        lemma_skip(r, d.drop_last());
        assert(next_lengths(run_state(s, d.drop_last()), d.last()) == e);
    }
}

impl Default for ParseState {
    fn default() -> (r: Self)
        ensures
            r == fresh(),
            r.wf(),
    {
        ParseState::Header { buf: [0u8; 5], filled: 0 }
    }
}

/// The length declared by a complete header.
fn declared_length(buf: &[u8; 5]) -> (r: u32)
    ensures
        r == header_length(buf@),
{
    (buf[1] as u32) * 0x100_0000 + (buf[2] as u32) * 0x1_0000 + (buf[3] as u32) * 0x100
        + buf[4] as u32
}

impl ParseState {
    /// A header never holds more than five bytes.
    pub open spec fn wf(&self) -> bool {
        match *self {
            ParseState::Header { filled, .. } => filled <= HEADER_LEN,
            ParseState::Payload { .. } => true,
        }
    }

    /// Whether this state may be handed to `feed` or `parse`.
    pub fn is_valid(&self) -> (r: bool)
        ensures
            r == self.wf(),
    {
        match *self {
            ParseState::Header { filled, .. } => filled <= HEADER_LEN,
            ParseState::Payload { .. } => true,
        }
    }

    /// Reads all of `data`, appending to `found` the length of each header completed.
    pub fn feed(&mut self, found: &mut Vec<u32>, data: &[u8])
        requires
            old(self).wf(),
        ensures
            final(self).wf(),
            *final(self) == run_state(*old(self), data@),
            final(found)@ == old(found)@ + run_lengths(*old(self), data@),
            data@.len() == 0 ==> *final(self) == *old(self),
            data@.len() == 0 ==> final(found)@ == old(found)@,
    {
        let ghost s0 = *self;
        let ghost f0 = found@;
        let mut pos: usize = 0;
        assert(data@.subrange(0, 0) =~= Seq::<u8>::empty());
        assert(f0 + Seq::<u32>::empty() =~= f0);
        while pos < data.len()
            invariant
                self.wf(),
                pos <= data.len(),
                s0 == *old(self),
                f0 == old(found)@,
                settle(*self) == settle(run_state(s0, data@.subrange(0, pos as int))),
                found@ + settle_lengths(*self) == f0 + run_lengths(s0, data@.subrange(0, pos as int))
                    + settle_lengths(run_state(s0, data@.subrange(0, pos as int))),
                pos == data.len() ==> *self == run_state(s0, data@.subrange(0, pos as int)),
                pos == data.len() ==> found@ == f0 + run_lengths(s0, data@.subrange(0, pos as int)),
            decreases data.len() - pos, pending_steps(*self),
        {
            let ghost pos0 = pos;
            let ghost t0 = run_state(s0, data@.subrange(0, pos as int));
            let ghost l0 = f0 + run_lengths(s0, data@.subrange(0, pos as int));
            proof {
                lemma_settle_settled(t0);
            }
            match *self {
                ParseState::Header { buf, filled } => {
                    let needed = HEADER_LEN - filled;
                    let available = data.len() - pos;
                    let consume = if needed < available { needed } else { available };
                    let end = pos + consume;
                    let mut b = buf;
                    let mut f = filled;
                    while pos < end
                        invariant
                            pos0 <= pos <= end <= data.len(),
                            end - pos0 <= HEADER_LEN - filled,
                            f == filled + (pos - pos0),
                            filled <= HEADER_LEN,
                            pos == pos0 ==> b == buf,
                            filled < HEADER_LEN ==> (ParseState::Header { buf, filled }) == settle(t0),
                            filled < HEADER_LEN ==> found@ == l0 + settle_lengths(t0),
                            t0 == run_state(s0, data@.subrange(0, pos0 as int)),
                            l0 == f0 + run_lengths(s0, data@.subrange(0, pos0 as int)),
                            pos > pos0 && f < HEADER_LEN ==> (ParseState::Header { buf: b, filled: f })
                                == run_state(s0, data@.subrange(0, pos as int)),
                            pos > pos0 && f < HEADER_LEN ==> found@ == f0 + run_lengths(
                                s0,
                                data@.subrange(0, pos as int),
                            ),
                            pos > pos0 && f == HEADER_LEN ==> run_state(s0, data@.subrange(0, pos as int))
                                == (ParseState::Payload { remaining: header_length(b@) }),
                            pos > pos0 && f == HEADER_LEN ==> f0 + run_lengths(
                                s0,
                                data@.subrange(0, pos as int),
                            ) == found@.push(header_length(b@)),
                        decreases end - pos,
                    {
                        let ghost prev = data@.subrange(0, pos as int);
                        let ghost tp = run_state(s0, prev);
                        let ghost bp = b;
                        let x = data[pos];
                        proof {
                            lemma_settle_settled(tp);
                            assert(settle(tp) == (ParseState::Header { buf: bp, filled: f }));
                            assert(found@ == f0 + run_lengths(s0, prev) + settle_lengths(tp));
                        }
                        b[f] = x;
                        f = f + 1;
                        pos = pos + 1;
                        proof {
                            assert(data@.subrange(0, pos as int).drop_last() =~= prev);
                            assert(b == spec_array_update(bp, (f - 1) as int, x));
                            assert(f0 + run_lengths(s0, prev) + settle_lengths(tp) + take_lengths(
                                settle(tp),
                                x,
                            ) =~= f0 + (run_lengths(s0, prev) + (settle_lengths(tp) + take_lengths(
                                settle(tp),
                                x,
                            ))));
                            assert(found@ + Seq::<u32>::empty() =~= found@);
                        }
                    }
                    if f == HEADER_LEN {
                        let len = declared_length(&b);
                        found.push(len);
                        *self = ParseState::Payload { remaining: len };
                        proof {
                            assert(found@ + Seq::<u32>::empty() =~= found@);
                        }
                    } else {
                        *self = ParseState::Header { buf: b, filled: f };
                        proof {
                            assert(found@ + Seq::<u32>::empty() =~= found@);
                        }
                    }
                },
                ParseState::Payload { remaining } => {
                    let available = data.len() - pos;
                    let consume = if (remaining as usize) < available {
                        remaining as usize
                    } else {
                        available
                    };
                    let rest = remaining - consume as u32;
                    proof {
                        if remaining > 0 {
                            let d = data@.subrange(pos as int, pos + consume);
                            lemma_skip(remaining, d);
                            lemma_run_append(s0, data@.subrange(0, pos as int), d);
                            lemma_run_settled(t0, d);
                            assert(data@.subrange(0, pos as int) + d =~= data@.subrange(
                                0,
                                pos + consume,
                            ));
                            assert(found@ + Seq::<u32>::empty() =~= found@);
                            assert(l0 + (settle_lengths(t0) + Seq::<u32>::empty()) =~= l0
                                + settle_lengths(t0));
                        }
                    }
                    pos = pos + consume;
                    if rest == 0 {
                        *self = ParseState::default();
                    } else {
                        *self = ParseState::Payload { remaining: rest };
                    }
                    proof {
                        assert(found@ + Seq::<u32>::empty() =~= found@);
                    }
                },
            }
        }
        assert(data@.subrange(0, pos as int) =~= data@);
    }
}

} // verus!

verus! {

impl ParseState {
    /// Reads all of `data` and appends the length of each header completed in
    /// it to `message_sizes`, in order, before returning.
    pub fn parse(&mut self, message_sizes: &SharedLengths, data: &[u8])
        requires
            old(self).wf(),
        ensures
            final(self).wf(),
            *final(self) == run_state(*old(self), data@),
            data@.len() == 0 ==> *final(self) == *old(self),
    {
        let mut found: Vec<u32> = Vec::new();
        self.feed(&mut found, data);
        if found.len() > 0 {
            append_lengths(message_sizes, found.as_slice());
        }
    }
}

} // verus!

verus! {

/// The state after reading each chunk in turn, as successive calls do.
pub open spec fn chunks_state(s: ParseState, chunks: Seq<Seq<u8>>) -> ParseState
    decreases chunks.len(),
{
    if chunks.len() == 0 {
        s
    } else {
        chunks_state(run_state(s, chunks[0]), chunks.drop_first())
    }
}

/// The lengths reported, in order, by reading each chunk in turn.
pub open spec fn chunks_lengths(s: ParseState, chunks: Seq<Seq<u8>>) -> Seq<u32>
    decreases chunks.len(),
{
    if chunks.len() == 0 {
        Seq::empty()
    } else {
        run_lengths(s, chunks[0]) + chunks_lengths(run_state(s, chunks[0]), chunks.drop_first())
    }
}

/// A frame boundary: a fresh header, or an empty payload that is done.
pub open spec fn at_boundary(s: ParseState) -> bool {
    s == fresh() || s == (ParseState::Payload { remaining: 0 })
}

/// Frames given as (header, payload): each header has five bytes and declares
/// the length of its payload.
pub open spec fn valid_frames(frames: Seq<(Seq<u8>, Seq<u8>)>) -> bool {
    forall|i: int|
        0 <= i < frames.len() ==> #[trigger] frames[i].0.len() == HEADER_LEN && frames[i].1.len()
            == header_length(frames[i].0) as int
}

/// The bytes of `frames`, one after the other.
pub open spec fn frames_bytes(frames: Seq<(Seq<u8>, Seq<u8>)>) -> Seq<u8>
    decreases frames.len(),
{
    if frames.len() == 0 {
        Seq::empty()
    } else {
        frames[0].0 + frames[0].1 + frames_bytes(frames.drop_first())
    }
}

/// The lengths that the headers of `frames` declare, in order.
pub open spec fn frames_lengths(frames: Seq<(Seq<u8>, Seq<u8>)>) -> Seq<u32>
    decreases frames.len(),
{
    if frames.len() == 0 {
        Seq::empty()
    } else {
        seq![header_length(frames[0].0)] + frames_lengths(frames.drop_first())
    }
}

/// However a byte stream is cut into chunks, reading the chunks one after the
/// other reports the same lengths, and ends in the same state, as reading the
/// whole stream at once.
pub proof fn lemma_chunking_invariant(s: ParseState, chunks: Seq<Seq<u8>>)
    ensures
        chunks_lengths(s, chunks) == run_lengths(s, chunks.flatten()),
        chunks_state(s, chunks) == run_state(s, chunks.flatten()),
    decreases chunks.len(),
{
    if chunks.len() == 0 {
        assert(chunks.flatten() =~= Seq::<u8>::empty());
    } else {
        let t = run_state(s, chunks[0]);
        lemma_chunking_invariant(t, chunks.drop_first());
        lemma_run_append(s, chunks[0], chunks.drop_first().flatten());
        assert(chunks.flatten() == chunks[0] + chunks.drop_first().flatten());
    }
}

/// Reading no bytes changes nothing and reports nothing.
pub proof fn lemma_empty_input(s: ParseState)
    ensures
        run_state(s, Seq::empty()) == s,
        run_lengths(s, Seq::empty()) == Seq::<u32>::empty(),
{
}

/// Fewer than five bytes from a fresh state are only gathered, after zeros:
/// no length is reported for the incomplete header.
pub proof fn lemma_truncated_header(g: Seq<u8>)
    requires
        g.len() < HEADER_LEN,
    ensures
        run_state(fresh(), g) is Header,
        run_state(fresh(), g)->filled == g.len(),
        run_state(fresh(), g)->buf@ == g + Seq::new((HEADER_LEN - g.len()) as nat, |i: int| 0u8),
        run_lengths(fresh(), g) == Seq::<u32>::empty(),
    decreases g.len(),
{
    let z = spec_array_fill_for_copy_type::<u8, 5>(0u8);
    assert(z@ =~= Seq::new(5, |i: int| 0u8));
    if g.len() == 0 {
        assert(g + Seq::new(5, |i: int| 0u8) =~= Seq::new(5, |i: int| 0u8));
    } else {
        let p = g.drop_last();
        lemma_truncated_header(p);
        let t = run_state(fresh(), p);
        assert(t->buf@.update(p.len() as int, g.last()) =~= g + Seq::new(
            (HEADER_LEN - g.len()) as nat,
            |i: int| 0u8,
        ));
        assert(Seq::<u32>::empty() + (Seq::<u32>::empty() + Seq::<u32>::empty())
            =~= Seq::<u32>::empty());
    }
}

/// A complete header read from a fresh state reports its declared length and
/// leaves that many payload bytes to skip.
pub proof fn lemma_whole_header(h: Seq<u8>)
    requires
        h.len() == HEADER_LEN,
    ensures
        run_state(fresh(), h) == (ParseState::Payload { remaining: header_length(h) }),
        run_lengths(fresh(), h) == seq![header_length(h)],
{
    let p = h.drop_last();
    lemma_truncated_header(p);
    let t = run_state(fresh(), p);
    assert(t->buf@.update(4, h.last()) =~= h);
    assert(Seq::<u32>::empty() + (Seq::<u32>::empty() + seq![header_length(h)])
        =~= seq![header_length(h)]);
}

/// A header cut in two at any point, read in two calls, reports the same
/// single length as the header read in one call.
pub proof fn lemma_header_split(h: Seq<u8>, k: int)
    requires
        h.len() == HEADER_LEN,
        0 <= k <= HEADER_LEN,
    ensures
        run_lengths(fresh(), h.take(k)) + run_lengths(run_state(fresh(), h.take(k)), h.skip(k))
            == seq![header_length(h)],
        run_lengths(fresh(), h) == seq![header_length(h)],
{
    lemma_run_append(fresh(), h.take(k), h.skip(k));
    assert(h.take(k) + h.skip(k) =~= h);
    lemma_whole_header(h);
}

/// A frame with an empty payload followed, in the same input, by the header of
/// another frame reports both lengths, in order.
pub proof fn lemma_empty_frame_then_header(h0: Seq<u8>, h1: Seq<u8>)
    requires
        h0.len() == HEADER_LEN,
        h1.len() == HEADER_LEN,
        header_length(h0) == 0,
    ensures
        frame_lengths(h0 + h1) == seq![0u32, header_length(h1)],
{
    lemma_run_append(fresh(), h0, h1);
    lemma_whole_header(h0);
    lemma_whole_header(h1);
    lemma_run_settled(ParseState::Payload { remaining: 0 }, h1);
    assert(Seq::<u32>::empty() + seq![header_length(h1)] =~= seq![header_length(h1)]);
    assert(seq![0u32] + seq![header_length(h1)] =~= seq![0u32, header_length(h1)]);
}

/// One whole frame read at a boundary reports its length and ends at a
/// boundary: a fresh header, or a done empty payload when the payload is empty.
pub proof fn lemma_one_frame(s: ParseState, h: Seq<u8>, p: Seq<u8>)
    requires
        at_boundary(s),
        h.len() == HEADER_LEN,
        p.len() == header_length(h),
    ensures
        run_state(s, h + p) == (if p.len() == 0 {
            ParseState::Payload { remaining: 0 }
        } else {
            fresh()
        }),
        run_lengths(s, h + p) == seq![header_length(h)],
{
    lemma_run_settled(s, h + p);
    assert(settle(s) == fresh());
    assert(settle_lengths(s) == Seq::<u32>::empty());
    lemma_run_append(fresh(), h, p);
    lemma_whole_header(h);
    if p.len() == 0 {
        assert(h + p =~= h);
    } else {
        lemma_skip(header_length(h), p);
    }
    assert(Seq::<u32>::empty() + seq![header_length(h)] =~= seq![header_length(h)]);
    assert(seq![header_length(h)] + Seq::<u32>::empty() =~= seq![header_length(h)]);
}

/// A sequence of whole frames read at a boundary reports the declared lengths
/// in order and ends at a boundary; after a last frame with a payload, in a
/// fresh header.
pub proof fn lemma_frames(s: ParseState, frames: Seq<(Seq<u8>, Seq<u8>)>)
    requires
        at_boundary(s),
        valid_frames(frames),
    ensures
        run_lengths(s, frames_bytes(frames)) == frames_lengths(frames),
        at_boundary(run_state(s, frames_bytes(frames))),
        frames.len() == 0 ==> run_state(s, frames_bytes(frames)) == s,
        frames.len() > 0 && frames.last().1.len() > 0 ==> run_state(s, frames_bytes(frames))
            == fresh(),
    decreases frames.len(),
{
    if frames.len() > 0 {
        let h = frames[0].0;
        let p = frames[0].1;
        let rest = frames.drop_first();
        assert(frames[0].0.len() == HEADER_LEN);
        lemma_one_frame(s, h, p);
        let t = run_state(s, h + p);
        assert(valid_frames(rest)) by {
            assert forall|i: int| 0 <= i < rest.len() implies #[trigger] rest[i].0.len()
                == HEADER_LEN && rest[i].1.len() == header_length(rest[i].0) as int by {
                assert(rest[i] == frames[i + 1]);
            }
        }
        lemma_frames(t, rest);
        lemma_run_append(s, h + p, frames_bytes(rest));
        assert(frames_bytes(frames) == h + p + frames_bytes(rest));
        if rest.len() > 0 {
            assert(rest.last() == frames.last());
        }
    }
}

/// A stream of whole frames, cut into chunks in any way and read from a fresh
/// parser, reports exactly the declared lengths in order and ends at a frame
/// boundary; after a last frame with a payload, in a fresh header.
pub proof fn lemma_chunked_frames(chunks: Seq<Seq<u8>>, frames: Seq<(Seq<u8>, Seq<u8>)>)
    requires
        valid_frames(frames),
        chunks.flatten() == frames_bytes(frames),
    ensures
        chunks_lengths(fresh(), chunks) == frames_lengths(frames),
        at_boundary(chunks_state(fresh(), chunks)),
        frames.len() > 0 && frames.last().1.len() > 0 ==> chunks_state(fresh(), chunks) == fresh(),
{
    lemma_chunking_invariant(fresh(), chunks);
    lemma_frames(fresh(), frames);
}

/// Whole frames followed by the start of a header that never completes: the
/// lengths of the whole frames are reported, none for the incomplete one, and
/// the parser holds the partial header.
pub proof fn lemma_frames_then_truncated(frames: Seq<(Seq<u8>, Seq<u8>)>, t: Seq<u8>)
    requires
        valid_frames(frames),
        0 < t.len() < HEADER_LEN,
    ensures
        frame_lengths(frames_bytes(frames) + t) == frames_lengths(frames),
        run_state(fresh(), frames_bytes(frames) + t) == run_state(fresh(), t),
        run_state(fresh(), t) is Header,
        run_state(fresh(), t)->filled == t.len(),
        run_state(fresh(), t)->buf@ == t + Seq::new((HEADER_LEN - t.len()) as nat, |i: int| 0u8),
{
    lemma_frames(fresh(), frames);
    let b = run_state(fresh(), frames_bytes(frames));
    lemma_run_append(fresh(), frames_bytes(frames), t);
    lemma_run_settled(b, t);
    assert(settle(b) == fresh());
    lemma_truncated_header(t);
    assert(frames_lengths(frames) + (Seq::<u32>::empty() + Seq::<u32>::empty())
        =~= frames_lengths(frames));
}

} // verus!
