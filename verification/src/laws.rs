//! The library's stated laws, proved against the contracts of the decoder:
//! last-wins header mapping, total-length accounting, CRC-bypass
//! equivalence, and chunk-size independence on clean streams.

use vstd::prelude::*;
use crate::bytesx::be32_at;
use crate::crc::crc32c_of;
use crate::decoder::{drain, with_input, DecoderModel, DecoderState};
use crate::frame::{
    FrameOutcome, MsgModel, frame_outcome, MIN_FRAME_LEN, MAX_FRAME_LEN,
};
use crate::headers::{
    HVal, TriplesResult, assoc_of, decode_triples, key_index, lookup, upsert, lemma_key_index,
};

verus! {

// ---------------------------------------------------------------------------
// Header mapping: last-wins and uniqueness.
// ---------------------------------------------------------------------------

/// No name occurs twice in the mapping.
pub open spec fn distinct_keys(m: Seq<(Seq<char>, HVal)>) -> bool {
    forall|i: int, j: int| 0 <= i < j < m.len() ==> m[i].0 != m[j].0
}

/// Index of the last triple named `k`, or -1.
pub open spec fn last_key_index(ts: Seq<(Seq<char>, HVal)>, k: Seq<char>) -> int
    decreases ts.len(),
{
    if ts.len() == 0 {
        -1
    } else if ts.last().0 == k {
        ts.len() - 1
    } else {
        last_key_index(ts.drop_last(), k)
    }
}

/// If `m[i]` is the first pair named `k`, `key_index` finds exactly `i`.
proof fn lemma_key_index_char(m: Seq<(Seq<char>, HVal)>, k: Seq<char>, i: int)
    requires
        0 <= i < m.len(),
        m[i].0 == k,
        forall|j: int| 0 <= j < i ==> m[j].0 != k,
    ensures
        key_index(m, k) == i,
    decreases i,
{
    if i > 0 {
        assert forall|j: int| 0 <= j < i - 1 implies m.skip(1)[j].0 != k by {
            assert(m.skip(1)[j] == m[j + 1]);
        }
        assert(m.skip(1)[i - 1] == m[i]);
        lemma_key_index_char(m.skip(1), k, i - 1);
    }
}

/// Replacing the value at the first occurrence of `k` keeps `lookup`
/// pointing there; appending a fresh name binds it at the end.
proof fn lemma_lookup_upsert_same(m: Seq<(Seq<char>, HVal)>, k: Seq<char>, v: HVal)
    ensures
        lookup(upsert(m, k, v), k) == Option::Some(v),
{
    lemma_key_index(m, k);
    let i = key_index(m, k);
    if i < 0 {
        let m2 = m.push((k, v));
        assert forall|j: int| 0 <= j < m2.len() - 1 implies m2[j].0 != k by {
            assert(m2[j] == m[j]);
        }
        lemma_key_index_char(m2, k, m.len() as int);
    } else {
        let m2 = m.update(i, (k, v));
        assert forall|j: int| 0 <= j < i implies m2[j].0 != k by {
            assert(m2[j] == m[j]);
        }
        lemma_key_index_char(m2, k, i);
    }
}

proof fn lemma_lookup_upsert_other(
    m: Seq<(Seq<char>, HVal)>,
    k: Seq<char>,
    v: HVal,
    k2: Seq<char>,
)
    requires
        k2 != k,
    ensures
        lookup(upsert(m, k, v), k2) == lookup(m, k2),
{
    lemma_key_index(m, k);
    lemma_key_index(m, k2);
    let i = key_index(m, k);
    let i2 = key_index(m, k2);
    if i < 0 {
        let m2 = m.push((k, v));
        if i2 < 0 {
            if key_index(m2, k2) >= 0 {
                lemma_key_index(m2, k2);
                let j = key_index(m2, k2);
                if j < m.len() {
                    assert(m2[j] == m[j]);
                    assert(false);
                } else {
                    assert(m2[j] == (k, v));
                    assert(false);
                }
            }
        } else {
            assert forall|j: int| 0 <= j < i2 implies m2[j].0 != k2 by {
                assert(m2[j] == m[j]);
            }
            assert(m2[i2] == m[i2]);
            lemma_key_index_char(m2, k2, i2);
        }
    } else {
        let m2 = m.update(i, (k, v));
        if i2 < 0 {
            if key_index(m2, k2) >= 0 {
                lemma_key_index(m2, k2);
                let j = key_index(m2, k2);
                if j == i {
                    assert(m2[j].0 == k);
                    assert(false);
                } else {
                    assert(m2[j] == m[j]);
                    assert(false);
                }
            }
        } else {
            assert(i2 != i);
            assert forall|j: int| 0 <= j < i2 implies m2[j].0 != k2 by {
                if j == i {
                    assert(m2[j].0 == k);
                } else {
                    assert(m2[j] == m[j]);
                }
            }
            assert(m2[i2] == m[i2]);
            lemma_key_index_char(m2, k2, i2);
        }
    }
}

proof fn lemma_upsert_distinct(m: Seq<(Seq<char>, HVal)>, k: Seq<char>, v: HVal)
    requires
        distinct_keys(m),
    ensures
        distinct_keys(upsert(m, k, v)),
{
    lemma_key_index(m, k);
    let i = key_index(m, k);
    if i < 0 {
        let m2 = m.push((k, v));
        assert forall|a: int, b: int| 0 <= a < b < m2.len() implies m2[a].0 != m2[b].0 by {
            if b == m2.len() - 1 {
                assert(m2[a] == m[a]);
                assert(m2[b].0 == k);
            } else {
                assert(m2[a] == m[a] && m2[b] == m[b]);
            }
        }
    } else {
        let m2 = m.update(i, (k, v));
        assert forall|a: int, b: int| 0 <= a < b < m2.len() implies m2[a].0 != m2[b].0 by {
            lemma_key_index(m, k);
            if a == i {
                assert(m2[a].0 == k && m2[b] == m[b]);
                assert(m[a].0 == k);
            } else if b == i {
                assert(m2[b].0 == k && m2[a] == m[a]);
                assert(m[b].0 == k);
            } else {
                assert(m2[a] == m[a] && m2[b] == m[b]);
            }
        }
    }
}

proof fn lemma_last_key_index_bounds(ts: Seq<(Seq<char>, HVal)>, k: Seq<char>)
    ensures
        -1 <= last_key_index(ts, k) < ts.len(),
        last_key_index(ts, k) >= 0 ==> ts[last_key_index(ts, k)].0 == k,
    decreases ts.len(),
{
    if ts.len() > 0 && ts.last().0 != k {
        lemma_last_key_index_bounds(ts.drop_last(), k);
    }
}

/// Header last-wins. For any run of decoded triples: the mapping they build
/// never holds a name twice, and a name that occurs binds exactly the value
/// of its last triple.
pub proof fn lemma_header_last_wins(ts: Seq<(Seq<char>, HVal)>, k: Seq<char>)
    ensures
        distinct_keys(assoc_of(ts)),
        last_key_index(ts, k) >= 0 ==> lookup(assoc_of(ts), k) == Option::Some(
            ts[last_key_index(ts, k)].1,
        ),
        last_key_index(ts, k) < 0 ==> lookup(assoc_of(ts), k) is None,
    decreases ts.len(),
{
    if ts.len() == 0 {
    } else {
        let prev = ts.drop_last();
        let last = ts.last();
        lemma_header_last_wins(prev, k);
        lemma_upsert_distinct(assoc_of(prev), last.0, last.1);
        if last.0 == k {
            lemma_lookup_upsert_same(assoc_of(prev), last.0, last.1);
        } else {
            lemma_lookup_upsert_other(assoc_of(prev), last.0, last.1, k);
            lemma_last_key_index_bounds(prev, k);
            assert(last_key_index(ts, k) == last_key_index(prev, k));
            assert forall|j: int| 0 <= j < prev.len() implies prev[j] == ts[j] by {}
        }
    }
}

// ---------------------------------------------------------------------------
// Total-length accounting.
// ---------------------------------------------------------------------------

/// Total-length accounting. A validated frame's message reports exactly the
/// length of the frame it was split from — which is exactly what the decoder
/// consumes to produce it.
pub proof fn lemma_total_length_accounting(f: Seq<u8>, validate: bool)
    requires
        MIN_FRAME_LEN <= f.len() <= MAX_FRAME_LEN,
        frame_outcome(f, validate) is Msg,
    ensures
        frame_outcome(f, validate)->Msg_0.total_length == f.len(),
{
}

// ---------------------------------------------------------------------------
// Clean streams: well-formed frames, their concatenations, and what `drain`
// does on them.
// ---------------------------------------------------------------------------

/// A fully well-formed frame: in-range declared length that matches its
/// byte count, both CRCs correct, headers segment in bounds and free of hard
/// errors.
pub open spec fn wf_frame(f: Seq<u8>) -> bool {
    &&& MIN_FRAME_LEN <= f.len() <= MAX_FRAME_LEN
    &&& be32_at(f, 0) == f.len()
    &&& be32_at(f, 8) == crc32c_of(f.subrange(0, 8))
    &&& be32_at(f, f.len() - 4) == crc32c_of(f.subrange(0, f.len() - 4))
    &&& 12 + be32_at(f, 4) <= f.len() - 4
    &&& decode_triples(f.subrange(12, 12 + be32_at(f, 4))) is Triples
}

pub open spec fn all_wf(fs: Seq<Seq<u8>>) -> bool {
    forall|i: int| 0 <= i < fs.len() ==> wf_frame(fs[i])
}

/// The concatenation of a run of byte sequences, in order — used both for
/// frame runs and for chunk partitions.
pub open spec fn concat_all(parts: Seq<Seq<u8>>) -> Seq<u8>
    decreases parts.len(),
{
    if parts.len() == 0 {
        Seq::empty()
    } else {
        parts[0] + concat_all(parts.skip(1))
    }
}

/// The message of a well-formed frame (CRC setting immaterial).
pub open spec fn msg_of(f: Seq<u8>) -> MsgModel {
    frame_outcome(f, false)->Msg_0
}

pub open spec fn msgs_of_frames(fs: Seq<Seq<u8>>) -> Seq<MsgModel>
    decreases fs.len(),
{
    if fs.len() == 0 {
        Seq::empty()
    } else {
        seq![msg_of(fs[0])] + msgs_of_frames(fs.skip(1))
    }
}

/// A buffer tail on which a clean decoder idles: too short to read a length,
/// or declaring an in-range length larger than what is buffered.
pub open spec fn pending_ok(p: Seq<u8>) -> bool {
    p.len() >= 12 ==> (MIN_FRAME_LEN <= be32_at(p, 0) && be32_at(p, 0) <= MAX_FRAME_LEN
        && p.len() < be32_at(p, 0))
}

/// On a well-formed frame both CRC checks pass, so validating and
/// non-validating parses agree, and succeed.
pub proof fn lemma_wf_frame_outcome(f: Seq<u8>, validate: bool)
    requires
        wf_frame(f),
    ensures
        frame_outcome(f, validate) == FrameOutcome::Msg(msg_of(f)),
{
}

/// What `drain` does to a clean stream: it emits every complete frame's
/// message, in order, leaves exactly the pending tail buffered, touches no
/// error counter, and rests in `Ready` or `Parsing`.
pub proof fn lemma_drain_clean(m: DecoderModel, fs: Seq<Seq<u8>>, partial: Seq<u8>)
    requires
        m.state is Ready || m.state is Parsing,
        all_wf(fs),
        pending_ok(partial),
        m.buffer == concat_all(fs) + partial,
    ensures
        drain(m).1 == msgs_of_frames(fs),
        drain(m).0.buffer == partial,
        drain(m).0.state is Ready || drain(m).0.state is Parsing,
        drain(m).0.error_count == (if fs.len() == 0 {
            m.error_count
        } else {
            0u32
        }),
        drain(m).0.crc_errors == m.crc_errors,
        drain(m).0.max_errors == m.max_errors,
        drain(m).0.validate_crc == m.validate_crc,
        drain(m).0.messages_parsed >= m.messages_parsed,
    decreases fs.len(),
{
    if fs.len() == 0 {
        assert(m.buffer =~= partial);
        if m.buffer.len() < 12 {
        } else {
            assert(drain(m) == (DecoderModel { state: DecoderState::Parsing, ..m }, Seq::<
                MsgModel,
            >::empty()));
        }
    } else {
        let f0 = fs[0];
        let rest = concat_all(fs.skip(1)) + partial;
        assert(wf_frame(f0));
        assert(m.buffer =~= f0 + rest);
        let total = f0.len() as int;
        assert(forall|j: int| 0 <= j < total ==> m.buffer[j] == f0[j]);
        assert(be32_at(m.buffer, 0) == be32_at(f0, 0));
        assert(m.buffer.len() == total + rest.len());
        assert(m.buffer.take(total) =~= f0);
        assert(m.buffer.skip(total) =~= rest);
        lemma_wf_frame_outcome(f0, m.validate_crc);
        let m2 = DecoderModel {
            state: DecoderState::Ready,
            buffer: rest,
            error_count: 0,
            messages_parsed: crate::decoder::sat_u64(m.messages_parsed),
            ..m
        };
        lemma_drain_clean(m2, fs.skip(1), partial);
        assert(drain(m) == (drain(m2).0, seq![msg_of(f0)] + drain(m2).1));
    }
}

/// CRC-bypass equivalence. On a stream of well-formed frames, a decoder
/// with CRC validation off emits the same messages as one with it on, and
/// neither touches `crc_errors`.
pub proof fn lemma_crc_bypass_equivalence(
    m1: DecoderModel,
    m2: DecoderModel,
    fs: Seq<Seq<u8>>,
    partial: Seq<u8>,
)
    requires
        m1.state is Ready,
        m2.state is Ready,
        m1.validate_crc == true,
        m2.validate_crc == false,
        all_wf(fs),
        pending_ok(partial),
        m1.buffer == concat_all(fs) + partial,
        m2.buffer == m1.buffer,
    ensures
        drain(m1).1 == drain(m2).1,
        drain(m1).0.crc_errors == m1.crc_errors,
        drain(m2).0.crc_errors == m2.crc_errors,
{
    lemma_drain_clean(m1, fs, partial);
    lemma_drain_clean(m2, fs, partial);
}

// ---------------------------------------------------------------------------
// Chunk-size independence on clean streams.
// ---------------------------------------------------------------------------

/// What a chain of `feed` calls does, one chunk per call: each chunk is
/// appended and drained (a stopped decoder ignores it), and the emitted
/// messages accumulate in order. This is exactly `feed`'s contract iterated.
pub open spec fn feed_seq(m: DecoderModel, chunks: Seq<Seq<u8>>) -> (DecoderModel, Seq<MsgModel>)
    decreases chunks.len(),
{
    if chunks.len() == 0 {
        (m, Seq::empty())
    } else {
        let r0 = if m.state is Stopped {
            (m, Seq::<MsgModel>::empty())
        } else {
            drain(with_input(m, chunks[0]))
        };
        let r1 = feed_seq(r0.0, chunks.skip(1));
        (r1.0, r0.1 + r1.1)
    }
}

/// The buffered leftover between feeds of a clean stream: nothing, or a
/// strict prefix of the next frame.
pub open spec fn partial_prefix(p: Seq<u8>, fs: Seq<Seq<u8>>) -> bool {
    if fs.len() == 0 {
        p.len() == 0
    } else {
        p.len() < fs[0].len() && p == fs[0].take(p.len() as int)
    }
}

proof fn lemma_partial_prefix_pending(p: Seq<u8>, fs: Seq<Seq<u8>>)
    requires
        all_wf(fs),
        partial_prefix(p, fs),
    ensures
        pending_ok(p),
{
    if fs.len() > 0 && p.len() >= 12 {
        let f0 = fs[0];
        assert(forall|j: int| 0 <= j < p.len() ==> p[j] == f0[j]);
        assert(be32_at(p, 0) == be32_at(f0, 0));
    }
}

proof fn lemma_concat_all_split(parts: Seq<Seq<u8>>, k: int)
    requires
        0 <= k <= parts.len(),
    ensures
        concat_all(parts) == concat_all(parts.take(k)) + concat_all(parts.skip(k)),
    decreases k,
{
    if k == 0 {
        assert(parts.take(0) =~= Seq::<Seq<u8>>::empty());
        assert(parts.skip(0) =~= parts);
        assert(concat_all(parts.take(0)) + concat_all(parts) =~= concat_all(parts));
    } else {
        let t = parts.skip(1);
        lemma_concat_all_split(t, k - 1);
        assert(parts.take(k)[0] == parts[0]);
        assert(parts.take(k).skip(1) =~= t.take(k - 1));
        assert(parts.skip(k) =~= t.skip(k - 1));
        assert(concat_all(parts.take(k)) == parts[0] + concat_all(t.take(k - 1)));
        assert((parts[0] + concat_all(t.take(k - 1))) + concat_all(t.skip(k - 1)) =~= parts[0] + (
        concat_all(t.take(k - 1)) + concat_all(t.skip(k - 1))));
    }
}

proof fn lemma_msgs_of_split(fs: Seq<Seq<u8>>, k: int)
    requires
        0 <= k <= fs.len(),
    ensures
        msgs_of_frames(fs) == msgs_of_frames(fs.take(k)) + msgs_of_frames(fs.skip(k)),
    decreases k,
{
    if k == 0 {
        assert(fs.take(0) =~= Seq::<Seq<u8>>::empty());
        assert(fs.skip(0) =~= fs);
        assert(msgs_of_frames(fs.take(0)) + msgs_of_frames(fs) =~= msgs_of_frames(fs));
    } else {
        let t = fs.skip(1);
        lemma_msgs_of_split(t, k - 1);
        assert(fs.take(k)[0] == fs[0]);
        assert(fs.take(k).skip(1) =~= t.take(k - 1));
        assert(fs.skip(k) =~= t.skip(k - 1));
        assert(msgs_of_frames(fs.take(k)) == seq![msg_of(fs[0])] + msgs_of_frames(t.take(k - 1)));
        assert((seq![msg_of(fs[0])] + msgs_of_frames(t.take(k - 1))) + msgs_of_frames(
            t.skip(k - 1),
        ) =~= seq![msg_of(fs[0])] + (msgs_of_frames(t.take(k - 1)) + msgs_of_frames(t.skip(k - 1))));
    }
}

/// Splits a prefix of a frame run into the frames it covers whole and the
/// strict prefix of the next frame that is left over.
proof fn split_stream(buf: Seq<u8>, fs: Seq<Seq<u8>>) -> (r: (int, Seq<u8>))
    requires
        all_wf(fs),
        buf.len() <= concat_all(fs).len(),
        buf == concat_all(fs).take(buf.len() as int),
    ensures
        0 <= r.0 <= fs.len(),
        buf == concat_all(fs.take(r.0)) + r.1,
        partial_prefix(r.1, fs.skip(r.0)),
    decreases fs.len(),
{
    if fs.len() == 0 {
        assert(buf =~= Seq::<u8>::empty());
        assert(fs.take(0) =~= fs);
        assert(concat_all(fs.take(0)) + buf =~= buf);
        (0, buf)
    } else {
        let f0 = fs[0];
        let c = concat_all(fs);
        assert(c == f0 + concat_all(fs.skip(1)));
        assert(forall|j: int| 0 <= j < buf.len() ==> buf[j] == c[j]);
        if buf.len() < f0.len() {
            assert(buf =~= f0.take(buf.len() as int));
            assert(fs.take(0) =~= Seq::<Seq<u8>>::empty());
            assert(concat_all(fs.take(0)) + buf =~= buf);
            assert(fs.skip(0) =~= fs);
            (0, buf)
        } else {
            let tail = buf.skip(f0.len() as int);
            let c1 = concat_all(fs.skip(1));
            assert(tail =~= c1.take(tail.len() as int));
            let (k, p) = split_stream(tail, fs.skip(1));
            assert(tail == concat_all(fs.skip(1).take(k)) + p);
            assert(fs.take(k + 1)[0] == f0);
            assert(fs.take(k + 1).skip(1) =~= fs.skip(1).take(k));
            assert(concat_all(fs.take(k + 1)) == f0 + concat_all(fs.skip(1).take(k)));
            assert(buf =~= f0 + tail);
            assert((f0 + concat_all(fs.skip(1).take(k))) + p =~= f0 + (concat_all(
                fs.skip(1).take(k),
            ) + p));
            assert(fs.skip(k + 1) =~= fs.skip(1).skip(k));
            (k + 1, p)
        }
    }
}

/// The clean-stream induction behind chunk-size independence: feeding any
/// chunking of the rest of a well-formed frame run to a decoder that holds a
/// strict prefix of the next frame yields every frame's message, in order.
pub proof fn lemma_feed_seq_clean(m: DecoderModel, chunks: Seq<Seq<u8>>, fs: Seq<Seq<u8>>)
    requires
        m.state is Ready || m.state is Parsing,
        all_wf(fs),
        partial_prefix(m.buffer, fs),
        m.buffer + concat_all(chunks) == concat_all(fs),
    ensures
        feed_seq(m, chunks).1 == msgs_of_frames(fs),
    decreases chunks.len(),
{
    if chunks.len() == 0 {
        if fs.len() > 0 {
            assert(concat_all(fs) == fs[0] + concat_all(fs.skip(1)));
            assert(m.buffer + concat_all(chunks) =~= m.buffer);
            assert(false);
        } else {
            assert(feed_seq(m, chunks).1 =~= msgs_of_frames(fs));
        }
    } else {
        let c = chunks[0];
        let buf = m.buffer + c;
        let whole = concat_all(fs);
        assert(concat_all(chunks) == c + concat_all(chunks.skip(1)));
        assert((m.buffer + (c + concat_all(chunks.skip(1)))) =~= (buf + concat_all(
            chunks.skip(1),
        )));
        assert(buf + concat_all(chunks.skip(1)) == whole);
        assert(buf.len() <= whole.len());
        assert(buf =~= whole.take(buf.len() as int));
        let (k, p) = split_stream(buf, fs);
        assert forall|i: int| 0 <= i < k implies wf_frame(fs.take(k)[i]) by {
            assert(fs.take(k)[i] == fs[i]);
        }
        assert forall|i: int| 0 <= i < fs.len() - k implies wf_frame(fs.skip(k)[i]) by {
            assert(fs.skip(k)[i] == fs[i + k]);
        }
        lemma_partial_prefix_pending(p, fs.skip(k));
        let fed = with_input(m, c);
        assert(fed.buffer == buf);
        lemma_drain_clean(fed, fs.take(k), p);
        let m1 = drain(fed).0;
        lemma_concat_all_split(fs, k);
        let a = concat_all(fs.take(k));
        assert((a + p) + concat_all(chunks.skip(1)) =~= a + (p + concat_all(chunks.skip(1))));
        assert(a + (p + concat_all(chunks.skip(1))) == a + concat_all(fs.skip(k)));
        assert((a + (p + concat_all(chunks.skip(1)))).skip(a.len() as int) =~= p + concat_all(
            chunks.skip(1),
        ));
        assert((a + concat_all(fs.skip(k))).skip(a.len() as int) =~= concat_all(fs.skip(k)));
        assert(p + concat_all(chunks.skip(1)) == concat_all(fs.skip(k)));
        lemma_feed_seq_clean(m1, chunks.skip(1), fs.skip(k));
        lemma_msgs_of_split(fs, k);
    }
}

/// Chunk-size independence. Two fresh decoders fed any two chunkings of the
/// same stream of well-formed frames emit the same messages: those of the
/// frames, in order. The decoders' configurations need not even agree.
pub proof fn lemma_chunk_size_independence(
    m1: DecoderModel,
    m2: DecoderModel,
    chunks1: Seq<Seq<u8>>,
    chunks2: Seq<Seq<u8>>,
    fs: Seq<Seq<u8>>,
)
    requires
        m1.state is Ready,
        m1.buffer == Seq::<u8>::empty(),
        m2.state is Ready,
        m2.buffer == Seq::<u8>::empty(),
        all_wf(fs),
        concat_all(chunks1) == concat_all(fs),
        concat_all(chunks2) == concat_all(fs),
    ensures
        feed_seq(m1, chunks1).1 == feed_seq(m2, chunks2).1,
        feed_seq(m1, chunks1).1 == msgs_of_frames(fs),
{
    if fs.len() > 0 {
        assert(m1.buffer =~= fs[0].take(0));
    }
    assert(m1.buffer + concat_all(chunks1) =~= concat_all(chunks1));
    assert(m2.buffer + concat_all(chunks2) =~= concat_all(chunks2));
    lemma_feed_seq_clean(m1, chunks1, fs);
    lemma_feed_seq_clean(m2, chunks2, fs);
}

} // verus!
