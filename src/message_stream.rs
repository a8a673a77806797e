use vstd::prelude::*;
use crate::domain::{EnvelopeModel, SmlMessages};
use crate::parser::{body_spec, message_spec, parse_body};
use crate::transport::{
    BuilderModel, SMLMessageBuilder, end_at, end_prefix, frames, lemma_record_frames,
    lemma_single_frame, record_spec, start_seq,
};

verus! {

/// The messages of each frame whose body parses, in frame order; frames whose
/// body does not parse are dropped.
pub open spec fn decoded(fs: Seq<Seq<u8>>) -> Seq<Seq<EnvelopeModel>>
    decreases fs.len(),
{
    if fs.len() == 0 {
        Seq::empty()
    } else {
        let last = match body_spec(fs.last()) {
            Some(m) => seq![m],
            None => Seq::empty(),
        };
        decoded(fs.drop_last()) + last
    }
}

/// The models of a sequence of decoded frames.
pub open spec fn messages_view(v: Seq<SmlMessages>) -> Seq<Seq<EnvelopeModel>> {
    v.map_values(|m: SmlMessages| m@)
}

/// Feeds one chunk read from the byte source to the builder, and returns the
/// messages of every frame that it completes, in order.
///
/// After each complete frame the builder is reset and the bytes that followed
/// the frame are fed back in; a frame whose body does not parse is dropped.
pub fn feed_chunk(builder: &mut SMLMessageBuilder, chunk: &[u8]) -> (out: Vec<SmlMessages>)
    requires
        old(builder)@.wf(),
        !old(builder)@.is_complete(),
    ensures
        final(builder)@ == frames(old(builder)@, chunk@).1,
        final(builder)@.wf(),
        !final(builder)@.is_complete(),
        messages_view(out@) == decoded(frames(old(builder)@, chunk@).0),
{
    let mut out: Vec<SmlMessages> = Vec::new();
    let ghost st0 = builder@;
    let ghost mut prev_st = builder@;
    let ghost mut prev_c = chunk@;
    let ghost mut done: Seq<Seq<u8>> = Seq::empty();
    builder.record(chunk);
    proof {
        assert(messages_view(out@) =~= decoded(done));
        assert(frames(st0, chunk@).0 =~= done + frames(prev_st, prev_c).0);
    }
    loop
        invariant
            st0 == old(builder)@,
            builder@ == record_spec(prev_st, prev_c),
            prev_st.wf(),
            !prev_st.is_complete(),
            builder@.wf(),
            frames(st0, chunk@) == (
                done + frames(prev_st, prev_c).0,
                frames(prev_st, prev_c).1,
            ),
            messages_view(out@) == decoded(done),
        decreases prev_c.len(),
    {
        proof {
            lemma_record_frames(prev_st, prev_c);
        }
        let mut cur = SMLMessageBuilder::Empty;
        std::mem::swap(builder, &mut cur);
        match cur {
            SMLMessageBuilder::Complete { data, rest } => {
                let ghost before = out@;
                match parse_body(data.as_slice()) {
                    Ok(m) => {
                        out.push(m);
                    },
                    Err(_) => {},
                }
                proof {
                    let nd = done.push(data@);
                    assert(nd.drop_last() =~= done);
                    if body_spec(data@) is Some {
                        assert(messages_view(out@) =~= messages_view(before).push(
                            body_spec(data@).unwrap(),
                        ));
                    } else {
                        assert(out@ == before);
                    }
                    assert(messages_view(out@) =~= decoded(nd));
                    assert(done + (seq![data@] + frames(BuilderModel::Empty, rest@).0) =~= nd
                        + frames(BuilderModel::Empty, rest@).0);
                    done = nd;
                    prev_st = BuilderModel::Empty;
                    prev_c = rest@;
                }
                builder.record(rest.as_slice());
            },
            other => {
                *builder = other;
                proof {
                    assert(frames(prev_st, prev_c) == (Seq::<Seq<u8>>::empty(), builder@));
                    assert(done + Seq::<Seq<u8>>::empty() =~= done);
                }
                return out;
            },
        }
    }
}

proof fn lemma_decoded_one(f: Seq<u8>, m: Seq<EnvelopeModel>)
    requires
        body_spec(f) == Some(m),
    ensures
        decoded(seq![f]) == seq![m],
{
    assert(seq![f].drop_last() =~= Seq::<Seq<u8>>::empty());
    assert(seq![f].last() == f);
    assert(decoded(Seq::<Seq<u8>>::empty()) == Seq::<Seq<EnvelopeModel>>::empty());
    assert(Seq::<Seq<EnvelopeModel>>::empty() + seq![m] =~= seq![m]);
}

/// A body that parses, framed by the start sequence and by the end sequence
/// with any three trailer bytes, yields the same messages through framing and
/// body parsing as through `parse_message`: those of the body. The body must
/// not hold an end sequence of its own, or framing would cut it there.
pub proof fn lemma_framed_body(body: Seq<u8>, trailer: Seq<u8>)
    requires
        body_spec(body) is Some,
        trailer.len() == 3,
        forall|i: int| 0 <= i < body.len() ==> !end_at(body + end_prefix() + trailer, i),
    ensures
        decoded(frames(BuilderModel::Empty, start_seq() + body + end_prefix() + trailer).0)
            == seq![body_spec(body).unwrap()],
        frames(BuilderModel::Empty, start_seq() + body + end_prefix() + trailer).1
            == BuilderModel::Empty,
        message_spec(start_seq() + body + end_prefix() + trailer) == body_spec(body),
{
    lemma_single_frame(body, trailer);
    lemma_decoded_one(body, body_spec(body).unwrap());
    let s = start_seq() + body + end_prefix() + trailer;
    assert(s.take(8) =~= start_seq());
    assert(s.subrange(s.len() - 8, s.len() - 3) =~= end_prefix());
    assert(s.subrange(8, s.len() - 8) =~= body);
}

} // verus!
