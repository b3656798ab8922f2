//! The incremental decoder: buffer discipline, state machine, error budget
//! and recovery.
//!
//! `feed` appends the incoming bytes and then drives the state machine to
//! quiescence. The whole of that driving is captured by the specification
//! function [`drain`]; `feed`'s contract says the decoder lands exactly on
//! `drain`'s result and emits exactly its messages.

use vstd::prelude::*;
use crate::bytesx::{be32_at, read_be32, vec_consume, vec_extend, vec_range};
use crate::crc::{crc32c_of, crc32c_bytes};
use crate::error::ParseError;
use crate::frame::{
    FrameOutcome, MsgModel, ParsedMessage, frame_outcome, msg_matches, parse_frame, MIN_FRAME_LEN,
    MAX_FRAME_LEN,
};

verus! {

/// Recovery keeps at most this many buffered bytes when no sync point is
/// found: above it the buffer is cut down to the trailing kibibyte.
pub const RECOVERY_TRIM_THRESHOLD: usize = 16 * 1024;

/// What a trimmed recovery buffer is cut down to.
pub const RECOVERY_TRIM_KEEP: usize = 1024;

#[derive(Debug, Clone, Copy, PartialEq, Eq, Structural)]
pub enum DecoderState {
    Ready,
    Parsing,
    Recovering,
    Stopped,
}

/// Mathematical state of a decoder.
pub ghost struct DecoderModel {
    pub state: DecoderState,
    pub buffer: Seq<u8>,
    pub error_count: u32,
    pub max_errors: u32,
    pub validate_crc: bool,
    pub messages_parsed: u64,
    pub crc_errors: u64,
}

pub struct EventStreamDecoder {
    state: DecoderState,
    buffer: Vec<u8>,
    error_count: u32,
    max_errors: u32,
    validate_crc: bool,
    pub messages_parsed: u64,
    pub crc_errors: u64,
}

impl View for EventStreamDecoder {
    type V = DecoderModel;

    closed spec fn view(&self) -> DecoderModel {
        DecoderModel {
            state: self.state,
            buffer: self.buffer@,
            error_count: self.error_count,
            max_errors: self.max_errors,
            validate_crc: self.validate_crc,
            messages_parsed: self.messages_parsed,
            crc_errors: self.crc_errors,
        }
    }
}

/// Counter bump that can never wrap: the counters only ever grow.
pub open spec fn sat_u32(x: u32) -> u32 {
    if x == u32::MAX {
        x
    } else {
        (x + 1) as u32
    }
}

pub open spec fn sat_u64(x: u64) -> u64 {
    if x == u64::MAX {
        x
    } else {
        (x + 1) as u64
    }
}

fn sat_add_u32(x: u32) -> (r: u32)
    ensures
        r == sat_u32(x),
{
    if x == u32::MAX {
        x
    } else {
        x + 1
    }
}

fn sat_add_u64(x: u64) -> (r: u64)
    ensures
        r == sat_u64(x),
{
    if x == u64::MAX {
        x
    } else {
        x + 1
    }
}

/// A plausible frame start at offset `i`: in-range length field and a prelude
/// CRC that checks out.
pub open spec fn sync_at(b: Seq<u8>, i: int) -> bool {
    &&& MIN_FRAME_LEN <= be32_at(b, i) <= MAX_FRAME_LEN
    &&& crc32c_of(b.subrange(i, i + 8)) == be32_at(b, i + 8)
}

/// First sync point at or after offset `i`, if any.
pub open spec fn scan_from(b: Seq<u8>, i: int) -> Option<int>
    recommends
        0 <= i,
    decreases b.len() - i,
{
    if i > b.len() - 12 {
        Option::None
    } else if sync_at(b, i) {
        Option::Some(i)
    } else {
        scan_from(b, i + 1)
    }
}

/// First sync point in `b`.
pub open spec fn scan(b: Seq<u8>) -> Option<int> {
    scan_from(b, 0)
}

/// The recovery cut: keep only the trailing kibibyte of an oversized buffer.
pub open spec fn trim(b: Seq<u8>) -> Seq<u8> {
    if b.len() > RECOVERY_TRIM_THRESHOLD {
        b.skip(b.len() - RECOVERY_TRIM_KEEP)
    } else {
        b
    }
}

pub proof fn lemma_scan_bounds(b: Seq<u8>, i: int)
    requires
        0 <= i,
    ensures
        scan_from(b, i) matches Option::Some(j) ==> i <= j && j + 12 <= b.len(),
    decreases b.len() - i,
{
    if i > b.len() - 12 {
    } else if sync_at(b, i) {
    } else {
        lemma_scan_bounds(b, i + 1);
    }
}

pub open spec fn state_rank(s: DecoderState) -> int {
    match s {
        DecoderState::Recovering => 0,
        _ => 1,
    }
}

/// One quiescent run of the state machine: starting from `m`, parse frames,
/// recover and spend the error budget until more bytes are needed (or the
/// decoder stops), yielding the final state and the messages emitted, in
/// order.
pub open spec fn drain(m: DecoderModel) -> (DecoderModel, Seq<MsgModel>)
    decreases m.buffer.len(), state_rank(m.state),
    via drain_decreases
{
    if m.state is Stopped {
        (m, Seq::empty())
    } else if m.state is Recovering {
        if m.buffer.len() < 12 {
            (m, Seq::empty())
        } else {
            let b1 = m.buffer.skip(1);
            match scan(b1) {
                Option::Some(i) => drain(
                    DecoderModel { state: DecoderState::Ready, buffer: b1.skip(i), ..m },
                ),
                Option::None => (DecoderModel { buffer: trim(b1), ..m }, Seq::empty()),
            }
        }
    } else {
        if m.buffer.len() < 12 {
            (m, Seq::empty())
        } else {
            let total = be32_at(m.buffer, 0) as int;
            if total < MIN_FRAME_LEN || total > MAX_FRAME_LEN {
                let ec = sat_u32(m.error_count);
                if ec >= m.max_errors {
                    (
                        DecoderModel { state: DecoderState::Stopped, error_count: ec, ..m },
                        Seq::empty(),
                    )
                } else {
                    drain(DecoderModel { state: DecoderState::Recovering, error_count: ec, ..m })
                }
            } else if m.buffer.len() < total {
                (DecoderModel { state: DecoderState::Parsing, ..m }, Seq::empty())
            } else {
                let f = m.buffer.take(total);
                let rest = m.buffer.skip(total);
                match frame_outcome(f, m.validate_crc) {
                    FrameOutcome::Msg(mm) => {
                        let r = drain(
                            DecoderModel {
                                state: DecoderState::Ready,
                                buffer: rest,
                                error_count: 0,
                                messages_parsed: sat_u64(m.messages_parsed),
                                ..m
                            },
                        );
                        (r.0, seq![mm] + r.1)
                    },
                    outcome => {
                        let crc2 = if outcome is PreludeCrc || outcome is MessageCrc {
                            sat_u64(m.crc_errors)
                        } else {
                            m.crc_errors
                        };
                        let ec = sat_u32(m.error_count);
                        if ec >= m.max_errors {
                            (
                                DecoderModel {
                                    state: DecoderState::Stopped,
                                    buffer: rest,
                                    error_count: ec,
                                    crc_errors: crc2,
                                    ..m
                                },
                                Seq::empty(),
                            )
                        } else {
                            drain(
                                DecoderModel {
                                    state: DecoderState::Recovering,
                                    buffer: rest,
                                    error_count: ec,
                                    crc_errors: crc2,
                                    ..m
                                },
                            )
                        }
                    },
                }
            }
        }
    }
}

#[via_fn]
proof fn drain_decreases(m: DecoderModel) {
    if m.state is Recovering && m.buffer.len() >= 12 {
        lemma_scan_bounds(m.buffer.skip(1), 0);
    }
}

/// What `drain` always preserves or bounds: the configuration is untouched,
/// the cumulative counters never shrink, a stop in `Recovering` leaves at
/// most the trim threshold buffered, and a stopped decoder does nothing.
pub proof fn lemma_drain_frame(m: DecoderModel)
    ensures
        drain(m).0.max_errors == m.max_errors,
        drain(m).0.validate_crc == m.validate_crc,
        drain(m).0.messages_parsed >= m.messages_parsed,
        drain(m).0.crc_errors >= m.crc_errors,
        drain(m).0.state is Recovering ==> drain(m).0.buffer.len() <= RECOVERY_TRIM_THRESHOLD,
        m.state is Stopped ==> drain(m).0 == m && drain(m).1 == Seq::<MsgModel>::empty(),
    decreases m.buffer.len(), state_rank(m.state),
{
    if m.state is Stopped {
    } else if m.state is Recovering {
        if m.buffer.len() >= 12 {
            let b1 = m.buffer.skip(1);
            match scan(b1) {
                Option::Some(i) => {
                    lemma_scan_bounds(b1, 0);
                    lemma_drain_frame(
                        DecoderModel { state: DecoderState::Ready, buffer: b1.skip(i), ..m },
                    );
                },
                Option::None => {},
            }
        }
    } else {
        if m.buffer.len() >= 12 {
            let total = be32_at(m.buffer, 0) as int;
            if total < MIN_FRAME_LEN || total > MAX_FRAME_LEN {
                let ec = sat_u32(m.error_count);
                if ec < m.max_errors {
                    lemma_drain_frame(
                        DecoderModel { state: DecoderState::Recovering, error_count: ec, ..m },
                    );
                }
            } else if m.buffer.len() >= total {
                let f = m.buffer.take(total);
                let rest = m.buffer.skip(total);
                match frame_outcome(f, m.validate_crc) {
                    FrameOutcome::Msg(mm) => {
                        lemma_drain_frame(
                            DecoderModel {
                                state: DecoderState::Ready,
                                buffer: rest,
                                error_count: 0,
                                messages_parsed: sat_u64(m.messages_parsed),
                                ..m
                            },
                        );
                    },
                    outcome => {
                        let crc2 = if outcome is PreludeCrc || outcome is MessageCrc {
                            sat_u64(m.crc_errors)
                        } else {
                            m.crc_errors
                        };
                        let ec = sat_u32(m.error_count);
                        if ec < m.max_errors {
                            lemma_drain_frame(
                                DecoderModel {
                                    state: DecoderState::Recovering,
                                    buffer: rest,
                                    error_count: ec,
                                    crc_errors: crc2,
                                    ..m
                                },
                            );
                        }
                    },
                }
            }
        }
    }
}

/// Whether each executable message agrees with its model, in order.
pub open spec fn msgs_match(v: Seq<ParsedMessage>, ms: Seq<MsgModel>) -> bool {
    &&& v.len() == ms.len()
    &&& forall|i: int| 0 <= i < v.len() ==> msg_matches(v[i], ms[i])
}

/// The model after appending newly fed bytes to the buffer.
pub open spec fn with_input(m: DecoderModel, data: Seq<u8>) -> DecoderModel {
    DecoderModel { buffer: m.buffer + data, ..m }
}

/// Finds the first sync point of the buffer, as `scan` names it.
fn scan_buffer(v: &Vec<u8>) -> (r: Option<usize>)
    ensures
        (match r {
            Option::Some(i) => scan(v@) == Option::Some(i as int),
            Option::None => scan(v@) is None,
        }),
{
    let len: usize = v.len();
    if len < 12 {
        return None;
    }
    let mut i: usize = 0;
    while i <= len - 12
        invariant
            12 <= len,
            len == v@.len(),
            i <= len,
            scan_from(v@, 0) == scan_from(v@, i as int),
        decreases len - i,
    {
        let cand = read_be32(v, i);
        if cand >= MIN_FRAME_LEN && cand <= MAX_FRAME_LEN {
            let prelude = vec_range(v, i, i + 8);
            let crc = crc32c_bytes(&prelude);
            let declared = read_be32(v, i + 8);
            if crc == declared {
                proof {
                    assert(sync_at(v@, i as int));
                }
                return Some(i);
            }
        }
        proof {
            assert(!sync_at(v@, i as int));
        }
        i = i + 1;
    }
    None
}

impl EventStreamDecoder {
    /// A fresh decoder: `Ready`, empty buffer, zero counters.
    pub fn new(max_errors: u32, validate_crc: bool) -> (d: EventStreamDecoder)
        ensures
            d@.state == DecoderState::Ready,
            d@.buffer == Seq::<u8>::empty(),
            d@.error_count == 0,
            d@.max_errors == max_errors,
            d@.validate_crc == validate_crc,
            d@.messages_parsed == 0,
            d@.crc_errors == 0,
    {
        EventStreamDecoder {
            state: DecoderState::Ready,
            buffer: Vec::new(),
            error_count: 0,
            max_errors,
            validate_crc,
            messages_parsed: 0,
            crc_errors: 0,
        }
    }

    pub fn state(&self) -> (s: DecoderState)
        ensures
            s == self@.state,
    {
        self.state
    }

    /// Appends `data` to the buffer and drives the state machine until more
    /// bytes are needed or the decoder stops.
    ///
    /// Everything `feed` does is pinned by `drain`: the decoder lands on
    /// `drain`'s state and returns its messages. Stopped is a no-op; the
    /// cumulative counters never decrease; staying in `Recovering` leaves at
    /// most the trim threshold buffered.
    #[verifier::rlimit(100)]
    pub fn feed(&mut self, data: &[u8]) -> (msgs: Vec<ParsedMessage>)
        ensures
            old(self)@.state is Stopped ==> final(self)@ == old(self)@ && msgs@.len() == 0,
            !(old(self)@.state is Stopped) ==> final(self)@ == drain(
                with_input(old(self)@, data@),
            ).0 && msgs_match(msgs@, drain(with_input(old(self)@, data@)).1),
            final(self)@.messages_parsed >= old(self)@.messages_parsed,
            final(self)@.crc_errors >= old(self)@.crc_errors,
            final(self)@.max_errors == old(self)@.max_errors,
            final(self)@.validate_crc == old(self)@.validate_crc,
            final(self)@.state is Recovering ==> final(self)@.buffer.len()
                <= RECOVERY_TRIM_THRESHOLD,
    {
        if self.state == DecoderState::Stopped {
            return Vec::new();
        }
        vec_extend(&mut self.buffer, data);
        let ghost m0 = self@;
        proof {
            lemma_drain_frame(m0);
        }
        let mut msgs: Vec<ParsedMessage> = Vec::new();
        let ghost mut models: Seq<MsgModel> = Seq::empty();
        let mut done = false;
        proof {
            assert(models + drain(m0).1 =~= drain(m0).1);
        }
        while !done
            invariant
                msgs_match(msgs@, models),
                !done ==> drain(m0).0 == drain(self@).0 && drain(m0).1 == models + drain(self@).1
                    && !(self@.state is Stopped),
                done ==> drain(m0).0 == self@ && drain(m0).1 == models,
            decreases
                    self.buffer.len(),
                    state_rank(self@.state),
                    (if done {
                        0int
                    } else {
                        1int
                    }),
        {
            let ghost cur = self@;
            if self.state == DecoderState::Recovering {
                let progress = self.step_recover();
                if !progress {
                    done = true;
                    proof {
                        assert(models + Seq::<MsgModel>::empty() =~= models);
                    }
                }
            } else if self.buffer.len() < 12 {
                done = true;
                proof {
                    assert(drain(cur) == (cur, Seq::<MsgModel>::empty()));
                    assert(models + Seq::<MsgModel>::empty() =~= models);
                }
            } else {
                let ghost old_models = models;
                let (stop, msg_opt) = self.step_parse();
                match msg_opt {
                    Option::Some(msg) => {
                        proof {
                            let total = be32_at(cur.buffer, 0) as int;
                            let f = cur.buffer.take(total);
                            let mm = frame_outcome(f, cur.validate_crc)->Msg_0;
                            let r = drain(self@);
                            assert(drain(cur) == (r.0, seq![mm] + r.1));
                            assert(old_models + (seq![mm] + r.1) =~= old_models.push(mm) + r.1);
                            models = old_models.push(mm);
                        }
                        msgs.push(msg);
                    },
                    Option::None => {
                        if stop {
                            done = true;
                            proof {
                                assert(models + Seq::<MsgModel>::empty() =~= models);
                            }
                        }
                    },
                }
            }
        }
        proof {
            assert(drain(m0).1 =~= models);
        }
        msgs
    }

    /// One recovery attempt: skip a byte, look for a sync point, cut the
    /// buffer down if none is found. Returns whether the head was re-aligned.
    fn step_recover(&mut self) -> (progress: bool)
        requires
            old(self)@.state is Recovering,
        ensures
            progress ==> drain(old(self)@) == drain(final(self)@) && final(self)@.buffer.len()
                < old(self)@.buffer.len() && final(self)@.state is Ready,
            !progress ==> drain(old(self)@) == (final(self)@, Seq::<MsgModel>::empty())
                && final(self)@.buffer.len() <= old(self)@.buffer.len()
                && final(self)@.state is Recovering,
    {
        let ghost cur = self@;
        if self.buffer.len() < 12 {
            proof {
                assert(drain(cur) == (cur, Seq::<MsgModel>::empty()));
            }
            return false;
        }
        vec_consume(&mut self.buffer, 1);
        let ghost b1 = cur.buffer.skip(1);
        match scan_buffer(&self.buffer) {
            Option::Some(i) => {
                proof {
                    lemma_scan_bounds(b1, 0);
                }
                vec_consume(&mut self.buffer, i);
                self.state = DecoderState::Ready;
                proof {
                    assert(self@ == (DecoderModel {
                        state: DecoderState::Ready,
                        buffer: b1.skip(i as int),
                        ..cur
                    }));
                    assert(drain(cur) == drain(self@));
                }
                true
            },
            Option::None => {
                if self.buffer.len() > RECOVERY_TRIM_THRESHOLD {
                    let l = self.buffer.len();
                    vec_consume(&mut self.buffer, l - RECOVERY_TRIM_KEEP);
                }
                proof {
                    assert(self@.buffer == trim(b1));
                    assert(self@ == (DecoderModel { buffer: trim(b1), ..cur }));
                    assert(drain(cur) == (self@, Seq::<MsgModel>::empty()));
                }
                false
            },
        }
    }

    /// One parse attempt at the buffer head: length check, split, frame
    /// parse, budget bookkeeping. Returns `(stop, message)`: `stop` says the
    /// machine needs more bytes or stopped; `message` is the frame's message
    /// if one was validated.
    #[verifier::rlimit(100)]
    fn step_parse(&mut self) -> (r: (bool, Option<ParsedMessage>))
        requires
            old(self)@.state is Ready || old(self)@.state is Parsing,
            old(self)@.buffer.len() >= 12,
        ensures
            (r.1 matches Option::Some(message) ==> ({
                let total = be32_at(old(self)@.buffer, 0) as int;
                let f = old(self)@.buffer.take(total);
                &&& frame_outcome(f, old(self)@.validate_crc) matches FrameOutcome::Msg(mm)
                    && msg_matches(message, mm) && drain(old(self)@) == (
                    drain(final(self)@).0,
                    seq![mm] + drain(final(self)@).1,
                )
                &&& r.0 == false
                &&& final(self)@.buffer.len() < old(self)@.buffer.len()
                &&& final(self)@.state is Ready
            })),
            r.1 is None && !r.0 ==> drain(old(self)@) == drain(final(self)@)
                && final(self)@.buffer.len() <= old(self)@.buffer.len()
                && final(self)@.state is Recovering,
            r.1 is None && r.0 ==> drain(old(self)@) == (final(self)@, Seq::<MsgModel>::empty())
                && final(self)@.buffer.len() <= old(self)@.buffer.len()
                && !(final(self)@.state is Recovering),
    {
        let ghost cur = self@;
        let total32 = read_be32(&self.buffer, 0);
        if total32 < MIN_FRAME_LEN || total32 > MAX_FRAME_LEN {
            self.error_count = sat_add_u32(self.error_count);
            if self.error_count >= self.max_errors {
                self.state = DecoderState::Stopped;
                proof {
                    assert(drain(cur) == (self@, Seq::<MsgModel>::empty()));
                }
                (true, None)
            } else {
                self.state = DecoderState::Recovering;
                proof {
                    assert(drain(cur) == drain(self@));
                }
                (false, None)
            }
        } else {
            let total = total32 as usize;
            if self.buffer.len() < total {
                self.state = DecoderState::Parsing;
                proof {
                    assert(drain(cur) == (self@, Seq::<MsgModel>::empty()));
                }
                (true, None)
            } else {
                let frm = vec_range(&self.buffer, 0, total);
                vec_consume(&mut self.buffer, total);
                proof {
                    assert(frm@ =~= cur.buffer.take(total as int));
                }
                match parse_frame(&frm, self.validate_crc) {
                    Ok(msg) => {
                        self.state = DecoderState::Ready;
                        self.error_count = 0;
                        self.messages_parsed = sat_add_u64(self.messages_parsed);
                        proof {
                            let r2 = drain(self@);
                            let mm = frame_outcome(frm@, cur.validate_crc)->Msg_0;
                            assert(drain(cur) == (r2.0, seq![mm] + r2.1));
                        }
                        (false, Some(msg))
                    },
                    Err(e) => {
                        let is_crc = match e {
                            ParseError::PreludeCrcMismatch { .. } => true,
                            ParseError::MessageCrcMismatch { .. } => true,
                            _ => false,
                        };
                        if is_crc {
                            self.crc_errors = sat_add_u64(self.crc_errors);
                        }
                        self.error_count = sat_add_u32(self.error_count);
                        if self.error_count >= self.max_errors {
                            self.state = DecoderState::Stopped;
                            proof {
                                assert(drain(cur) == (self@, Seq::<MsgModel>::empty()));
                            }
                            (true, None)
                        } else {
                            self.state = DecoderState::Recovering;
                            proof {
                                assert(drain(cur) == drain(self@));
                            }
                            (false, None)
                        }
                    },
                }
            }
        }
    }

    /// Clears the buffer and the error budget, back to `Ready`. The
    /// cumulative counters are preserved.
    pub fn reset(&mut self)
        ensures
            final(self)@.state == DecoderState::Ready,
            final(self)@.buffer == Seq::<u8>::empty(),
            final(self)@.error_count == 0,
            final(self)@.messages_parsed == old(self)@.messages_parsed,
            final(self)@.crc_errors == old(self)@.crc_errors,
            final(self)@.max_errors == old(self)@.max_errors,
            final(self)@.validate_crc == old(self)@.validate_crc,
    {
        self.state = DecoderState::Ready;
        self.buffer.truncate(0);
        self.error_count = 0;
        proof {
            assert(self@.buffer =~= Seq::<u8>::empty());
        }
    }
}

} // verus!
