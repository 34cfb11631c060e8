use vstd::prelude::*;

use crate::bufvec::lemma_buf_chunks;
use crate::bufvec::lemma_flatten_split;
use crate::bufvec::BufVec;
use crate::error::EncodeError;
use crate::error::IoFault;
use crate::sink::flat_of;
use crate::sink::Sink;
use crate::types::TypeId;
use crate::wire::build_definition_frame;
use crate::wire::build_value_header;
use crate::wire::definition_frame;
use crate::wire::int_wire;
use crate::wire::value_frame;

verus! {

/// How many descriptors one vectored write hands to the sink at most.
pub const GATHER_LIMIT: usize = 16;

/// One frame on the wire, as the stream's ghost record of what it has
/// written: a type definition or a value, each with the identifier it
/// carries and its payload bytes.
pub enum Frame {
    Definition { type_id: i64, body: Seq<u8> },
    Value { type_id: i64, body: Seq<u8> },
}

/// Whether a frame defines the given type.
pub open spec fn is_definition_of(f: Frame, tid: i64) -> bool {
    match f {
        Frame::Definition { type_id, .. } => type_id == tid,
        Frame::Value { .. } => false,
    }
}

/// Whether a frame is a value of the given type.
pub open spec fn is_value_of(f: Frame, tid: i64) -> bool {
    match f {
        Frame::Definition { .. } => false,
        Frame::Value { type_id, .. } => type_id == tid,
    }
}

/// The bytes a frame stands for on the wire.
pub open spec fn frame_bytes(f: Frame) -> Seq<u8> {
    match f {
        Frame::Definition { type_id, body } => definition_frame(type_id as int, body),
        Frame::Value { type_id, body } => value_frame(type_id as int, body),
    }
}

/// How many definition frames for a type a frame row holds.
pub open spec fn count_definitions(frames: Seq<Frame>, tid: i64) -> nat
    decreases frames.len(),
{
    if frames.len() == 0 {
        0
    } else {
        count_definitions(frames.drop_last(), tid) + if is_definition_of(frames.last(), tid) {
            1nat
        } else {
            0nat
        }
    }
}

proof fn lemma_count_definitions_push(frames: Seq<Frame>, f: Frame, tid: i64)
    ensures
        count_definitions(frames.push(f), tid) == count_definitions(frames, tid) + if is_definition_of(
            f,
            tid,
        ) {
            1nat
        } else {
            0nat
        },
{
    assert(frames.push(f).drop_last() =~= frames);
    assert(frames.push(f).last() == f);
}

proof fn lemma_push_contains(s: Seq<i64>, x: i64, t: i64)
    ensures
        s.push(x).contains(t) <==> (s.contains(t) || t == x),
{
    if s.contains(t) {
        let i = choose|i: int| 0 <= i < s.len() && s[i] == t;
        assert(s.push(x)[i] == t);
    }
    if t == x {
        assert(s.push(x)[s.len() as int] == t);
    }
    if s.push(x).contains(t) && t != x {
        let i = choose|i: int| 0 <= i < s.push(x).len() && s.push(x)[i] == t;
        assert(s[i] == t);
    }
}

proof fn lemma_count_positive_member(frames: Seq<Frame>, tid: i64)
    requires
        count_definitions(frames, tid) > 0,
    ensures
        exists|j: int| 0 <= j < frames.len() && is_definition_of(#[trigger] frames[j], tid),
    decreases frames.len(),
{
    if frames.len() == 0 {
        assert(false);
    } else if is_definition_of(frames.last(), tid) {
        assert(is_definition_of(frames[frames.len() - 1], tid));
    } else {
        lemma_count_positive_member(frames.drop_last(), tid);
        let j = choose|j: int|
            0 <= j < frames.drop_last().len() && is_definition_of(
                #[trigger] frames.drop_last()[j],
                tid,
            );
        assert(is_definition_of(frames[j], tid));
    }
}

/// Wraps a byte sink and owns, for its own lifetime, the set of type
/// identifiers whose wire definition it has already written. The ghost
/// frame row records every complete frame written through the stream,
/// in order.
pub struct Stream<S: Sink> {
    sink: S,
    sent: Vec<i64>,
    history: Ghost<Seq<Frame>>,
}

impl<S: Sink> Stream<S> {
    /// The complete frames written through this stream, in order.
    pub closed spec fn frames(&self) -> Seq<Frame> {
        self.history@
    }

    /// The bytes the underlying sink has accepted.
    pub closed spec fn out(&self) -> Seq<u8> {
        self.sink.out()
    }

    /// Whether the stream has fully written the definition frame for a
    /// type identifier.
    pub closed spec fn is_sent(&self, tid: i64) -> bool {
        self.sent@.contains(tid)
    }

    /// The sent set mirrors the frame row: a type is marked sent
    /// exactly when its definition frame was written, a definition is
    /// written at most once, and every value frame is preceded by the
    /// definition of its type.
    pub closed spec fn wf(&self) -> bool {
        &&& forall|tid: i64|
            count_definitions(self.frames(), tid) == if self.is_sent(tid) {
                1nat
            } else {
                0nat
            }
        &&& forall|i: int|
            0 <= i < self.frames().len() ==> match #[trigger] self.frames()[i] {
                Frame::Value { type_id, .. } => count_definitions(
                    self.frames().take(i),
                    type_id,
                ) == 1,
                Frame::Definition { .. } => true,
            }
    }

    /// Wraps a sink. No definitions have been sent yet.
    pub fn new(sink: S) -> (r: Stream<S>)
        ensures
            r.wf(),
            r.frames() == Seq::<Frame>::empty(),
            r.out() == sink.out(),
            forall|tid: i64| !r.is_sent(tid),
    {
        let r = Stream { sink, sent: Vec::new(), history: Ghost(Seq::empty()) };
        proof {
            assert(forall|tid: i64| !r.sent@.contains(tid));
        }
        r
    }

    /// Gives the sink back, ending the stream.
    pub fn into_sink(self) -> (r: S)
        ensures
            r.out() == self.out(),
    {
        self.sink
    }

    /// Whether the definition frame for this identifier has been fully
    /// written.
    pub fn has_sent(&self, type_id: TypeId) -> (r: bool)
        ensures
            r == self.is_sent(type_id.0),
    {
        let mut i: usize = 0;
        while i < self.sent.len()
            invariant
                i <= self.sent@.len(),
                forall|j: int| 0 <= j < i ==> self.sent@[j] != type_id.0,
            decreases self.sent@.len() - i,
        {
            if self.sent[i] == type_id.0 {
                return true;
            }
            i = i + 1;
        }
        proof {
            assert(!self.sent@.contains(type_id.0));
        }
        false
    }

    /// Writes one frame or one value message to completion: repeatedly
    /// gathers descriptors from the buffer, hands them to the sink, and
    /// advances by what the sink accepted. On failure the sink holds
    /// the already-accepted prefix of the buffer's bytes.
    #[verifier::loop_isolation(false)]
    fn write_buf(sink: &mut S, buf: BufVec) -> (r: Result<(), IoFault>)
        requires
            buf.wf(),
        ensures
            match r {
                Ok(_) => final(sink).out() == old(sink).out() + buf@,
                Err(_) => exists|k: int|
                    0 <= k < buf@.len() && final(sink).out() == old(sink).out() + buf@.take(k),
            },
    {
        let ghost orig = buf@;
        let ghost base = sink.out();
        let mut buf = buf;
        proof {
            assert(base + orig =~= sink.out() + buf@);
        }
        while buf.remaining() > 0
            invariant
                buf.wf(),
                buf@.len() <= orig.len(),
                base + orig == sink.out() + buf@,
            decreases buf@.len(),
        {
            let n: usize;
            {
                let ghost pre_chunks = buf.chunks();
                let ghost pre_content = buf@;
                let ghost pre_out = sink.out();
                let descs = buf.gather(GATHER_LIMIT);
                let ghost k = descs@.len() as int;
                proof {
                    lemma_buf_chunks(&buf);
                    if pre_chunks.len() == 0 {
                        assert(pre_chunks.flatten() == Seq::<u8>::empty());
                        assert(false);
                    }
                    assert(descs@.map_values(|s: &[u8]| s@) =~= pre_chunks.take(k));
                    lemma_flatten_split(pre_chunks, k);
                    assert(flat_of(descs@) == pre_chunks.take(k).flatten());
                    assert(flat_of(descs@).len() <= pre_content.len());
                    assert(flat_of(descs@) =~= pre_content.take(flat_of(descs@).len() as int));
                    assert(k >= 1);
                    assert(pre_chunks.take(k).flatten().len() >= pre_chunks[0].len()) by {
                        assert(pre_chunks.take(k).first() == pre_chunks[0]);
                        assert(pre_chunks.take(k).flatten() == pre_chunks.take(k).first()
                            + pre_chunks.take(k).drop_first().flatten());
                    }
                }
                match sink.write_vectored(&descs) {
                    Ok(m) => {
                        proof {
                            assert(flat_of(descs@).take(m as int) =~= pre_content.take(m as int));
                            assert(sink.out() == pre_out + pre_content.take(m as int));
                        }
                        n = m;
                    },
                    Err(e) => {
                        proof {
                            let k_done = orig.len() - pre_content.len();
                            let out_now = sink.out();
                            assert(out_now == pre_out);
                            assert(pre_out + pre_content == base + orig);
                            assert((pre_out + pre_content).len() == pre_out.len()
                                + pre_content.len());
                            assert((base + orig).len() == base.len() + orig.len());
                            assert(out_now.len() == base.len() + k_done);
                            assert(out_now =~= base + orig.take(k_done)) by {
                                assert forall|i: int| 0 <= i < out_now.len() implies out_now[i]
                                    == (base + orig.take(k_done))[i] by {
                                    assert(out_now[i] == (out_now + pre_content)[i]);
                                    assert((base + orig)[i] == if i < base.len() {
                                        base[i]
                                    } else {
                                        orig[i - base.len()]
                                    });
                                }
                            }
                            assert(exists|k: int|
                                0 <= k < orig.len() && out_now == base + orig.take(k));
                        }
                        return Err(e);
                    },
                }
            }
            buf.advance(n);
            proof {
                assert(base + orig =~= sink.out() + buf@);
            }
        }
        proof {
            assert(buf@ =~= Seq::<u8>::empty());
            assert(sink.out() =~= base + orig);
        }
        Ok(())
    }

    /// The frames this flush writes on the wire, in order, if nothing
    /// fails: the type's definition frame where it is not yet sent,
    /// then the length-prefixed value frame.
    pub open spec fn planned_bytes(&self, type_id: TypeId, def: Seq<u8>, payload: Seq<u8>)
        -> Seq<u8> {
        if self.is_sent(type_id.0) {
            frame_bytes(Frame::Value { type_id: type_id.0, body: payload })
        } else {
            frame_bytes(Frame::Definition { type_id: type_id.0, body: def }) + frame_bytes(
                Frame::Value { type_id: type_id.0, body: payload },
            )
        }
    }

    /// Flushes one encoded value. If the type's wire definition has not
    /// been written on this stream, its definition frame goes first,
    /// and the type is marked sent only once that frame is complete;
    /// then the value frame is written by vectored writes straight out
    /// of the scatter buffer. A sink failure is surfaced verbatim; the
    /// frame row grows exactly by the frames fully written, and the
    /// sink ends holding a prefix of the planned bytes.
    pub fn flush(&mut self, type_id: TypeId, definition: &Vec<u8>, value: BufVec) -> (r: Result<
        (),
        EncodeError,
    >)
        requires
            old(self).wf(),
            value.wf(),
            type_id.valid(),
            definition@.len() + 18 <= usize::MAX,
            value@.len() + 18 <= usize::MAX,
        ensures
            final(self).wf(),
            match r {
                Ok(_) => {
                    &&& final(self).out() == old(self).out() + old(self).planned_bytes(
                        type_id,
                        definition@,
                        value@,
                    )
                    &&& final(self).frames() == old(self).frames() + (if old(self).is_sent(
                        type_id.0,
                    ) {
                        seq![(Frame::Value { type_id: type_id.0, body: value@ })]
                    } else {
                        seq![
                            (Frame::Definition { type_id: type_id.0, body: definition@ }),
                            (Frame::Value { type_id: type_id.0, body: value@ }),
                        ]
                    })
                    &&& forall|t: i64|
                        final(self).is_sent(t) <==> (old(self).is_sent(t) || t == type_id.0)
                },
                Err(e) => {
                    &&& e matches EncodeError::Io(_)
                    &&& exists|k: int|
                        0 <= k <= old(self).planned_bytes(type_id, definition@, value@).len()
                            && final(self).out() == old(self).out() + old(self).planned_bytes(
                            type_id,
                            definition@,
                            value@,
                        ).take(k)
                    &&& (final(self).frames() == old(self).frames() || (!old(self).is_sent(
                        type_id.0,
                    ) && final(self).frames() == old(self).frames().push(
                        (Frame::Definition { type_id: type_id.0, body: definition@ }),
                    )))
                },
            },
    {
        let ghost planned = old(self).planned_bytes(type_id, definition@, value@);
        let ghost def_bytes = definition_frame(type_id.0 as int, definition@);
        let ghost val_bytes = value_frame(type_id.0 as int, value@);
        let already = self.has_sent(type_id);
        if !already {
            let frame = build_definition_frame(type_id, definition);
            let mut fbuf = BufVec::new();
            let frame_len = frame.len();
            proof {
                assert(frame@.len() == frame_len);
            }
            fbuf.push(frame);
            proof {
                assert(fbuf@ =~= def_bytes);
            }
            match Self::write_buf(&mut self.sink, fbuf) {
                Ok(_) => {
                    let ghost pre_sent = self.sent@;
                    let ghost pre_frames = self.frames();
                    let ghost def_frame = Frame::Definition {
                        type_id: type_id.0,
                        body: definition@,
                    };
                    self.sent.push(type_id.0);
                    self.history = Ghost(self.history@.push(def_frame));
                    proof {
                        assert forall|t: i64|
                            self.is_sent(t) <==> (old(self).is_sent(t) || t == type_id.0) by {
                            lemma_push_contains(pre_sent, type_id.0, t);
                        }
                        assert forall|t: i64|
                            count_definitions(self.frames(), t) == (if self.is_sent(t) {
                                1nat
                            } else {
                                0nat
                            }) by {
                            lemma_count_definitions_push(pre_frames, def_frame, t);
                            lemma_push_contains(pre_sent, type_id.0, t);
                        }
                        assert forall|i: int| 0 <= i < self.frames().len() implies match #[trigger] self.frames()[i] {
                            Frame::Value { type_id: t, .. } => count_definitions(
                                self.frames().take(i),
                                t,
                            ) == 1,
                            Frame::Definition { .. } => true,
                        } by {
                            if i < pre_frames.len() {
                                assert(self.frames().take(i) =~= pre_frames.take(i));
                                assert(self.frames()[i] == pre_frames[i]);
                            }
                        }
                    }
                },
                Err(e) => {
                    proof {
                        let k0 = choose|k: int|
                            0 <= k < def_bytes.len() && self.sink.out() == old(self).out()
                                + def_bytes.take(k);
                        assert(planned.take(k0) =~= def_bytes.take(k0));
                        assert(self.out() == old(self).out() + planned.take(k0));
                    }
                    return Err(EncodeError::Io(e));
                },
            }
        }
        let ghost mid_out = self.out();
        let ghost mid_frames = self.frames();
        let ghost val_frame_g = Frame::Value { type_id: type_id.0, body: value@ };
        let header = build_value_header(type_id, value.remaining());
        let mut out_buf = BufVec::new();
        proof {
            crate::wire::lemma_int_wire_len(type_id.0 as int);
            crate::wire::lemma_uint_wire_len(
                (int_wire(type_id.0 as int).len() + value@.len()) as nat,
            );
        }
        let header_len = header.len();
        proof {
            assert(header@.len() == header_len);
        }
        out_buf.push(header);
        out_buf.append(value);
        proof {
            assert(out_buf@ =~= val_bytes);
        }
        match Self::write_buf(&mut self.sink, out_buf) {
            Ok(_) => {
                let ghost pre_sent = self.sent@;
                self.history = Ghost(self.history@.push(val_frame_g));
                proof {
                    assert forall|t: i64|
                        count_definitions(self.frames(), t) == (if self.is_sent(t) {
                            1nat
                        } else {
                            0nat
                        }) by {
                        lemma_count_definitions_push(mid_frames, val_frame_g, t);
                    }
                    assert(self.is_sent(type_id.0));
                    assert forall|i: int| 0 <= i < self.frames().len() implies match #[trigger] self.frames()[i] {
                        Frame::Value { type_id: t, .. } => count_definitions(
                            self.frames().take(i),
                            t,
                        ) == 1,
                        Frame::Definition { .. } => true,
                    } by {
                        if i < mid_frames.len() {
                            assert(self.frames().take(i) =~= mid_frames.take(i));
                            assert(self.frames()[i] == mid_frames[i]);
                        } else {
                            assert(self.frames().take(i) =~= mid_frames);
                        }
                    }
                    if already {
                        assert(self.frames() =~= old(self).frames() + seq![val_frame_g]);
                        assert(self.out() == old(self).out() + planned);
                    } else {
                        let ghost def_frame = Frame::Definition {
                            type_id: type_id.0,
                            body: definition@,
                        };
                        assert(self.frames() =~= old(self).frames() + seq![
                            def_frame,
                            val_frame_g,
                        ]);
                        assert(self.out() =~= old(self).out() + planned);
                    }
                }
                Ok(())
            },
            Err(e) => {
                proof {
                    let k0 = choose|k: int|
                        0 <= k < val_bytes.len() && self.sink.out() == mid_out + val_bytes.take(
                            k,
                        );
                    if already {
                        assert(planned.take(k0) =~= val_bytes.take(k0));
                        assert(self.out() == old(self).out() + planned.take(k0));
                    } else {
                        assert(planned.take(def_bytes.len() + k0) =~= def_bytes + val_bytes.take(
                            k0,
                        ));
                        assert(self.out() =~= old(self).out() + planned.take(
                            def_bytes.len() + k0,
                        ));
                    }
                }
                Err(EncodeError::Io(e))
            },
        }
    }
}

/// For one stream, a type's definition frame is on the wire at most
/// once — exactly once from the moment the type is marked sent — and
/// it strictly precedes every value frame carrying that type.
pub proof fn lemma_at_most_once_definition<S: Sink>(stream: &Stream<S>, tid: i64)
    requires
        stream.wf(),
    ensures
        count_definitions(stream.frames(), tid) <= 1,
        count_definitions(stream.frames(), tid) == if stream.is_sent(tid) {
            1nat
        } else {
            0nat
        },
        forall|i: int|
            0 <= i < stream.frames().len() && is_value_of(#[trigger] stream.frames()[i], tid)
                ==> exists|j: int| 0 <= j < i && is_definition_of(#[trigger] stream.frames()[j], tid),
{
    assert forall|i: int|
        0 <= i < stream.frames().len() && is_value_of(#[trigger] stream.frames()[i], tid) implies exists|
    j: int,
    | 0 <= j < i && is_definition_of(#[trigger] stream.frames()[j], tid) by {
        assert(count_definitions(stream.frames().take(i), tid) == 1);
        lemma_count_positive_member(stream.frames().take(i), tid);
        let j = choose|j: int|
            0 <= j < stream.frames().take(i).len() && is_definition_of(
                #[trigger] stream.frames().take(i)[j],
                tid,
            );
        assert(is_definition_of(stream.frames()[j], tid));
    }
}

} // verus!
