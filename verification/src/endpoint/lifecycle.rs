//! What an endpoint sends at a time, and what it reports over its life.

use vstd::prelude::*;

use super::model::{EndpointState, HostAction, Outcome, Reaction, Received};
use super::segment_rx::{segment_bytes, Segment};
use super::segment_tx::total;
use super::{StateId, DISCONNECT_TIMEOUT_MS};
use crate::frame::serial::{
    decode_datagram, frame_payload, frame_type, law_frame_round_trip, lemma_block_sizes,
    BlockSerial, SimplePayloadRead, DATAGRAM_HEADER_SIZE, STREAM_ACK_SIZE,
    STREAM_SEGMENT_HEADER_SIZE,
};
use crate::frame::{FrameType, StreamAck, StreamSegmentHeader, StreamSync};
use crate::id::{advance, lemma_advance_sum};
use crate::SendMode;

verus! {

/// The frames which are sent, in order.
pub open spec fn frames_of(actions: Seq<HostAction>) -> Seq<Seq<u8>>
    decreases actions.len(),
{
    if actions.len() == 0 {
        Seq::empty()
    } else {
        let before = frames_of(actions.drop_last());
        match actions.last() {
            HostAction::SendFrame(frame) => before.push(frame),
            _ => before,
        }
    }
}

/// The type of a stream frame.
pub open spec fn stream_type(has_ack: bool, has_segment: bool) -> FrameType {
    if !has_ack {
        FrameType::StreamSegment
    } else if !has_segment {
        FrameType::StreamAck
    } else {
        FrameType::StreamSegmentAck
    }
}

/// Whether a stream frame begins with an acknowledgement.
pub open spec fn carries_ack(frame: Seq<u8>, ack: StreamAck) -> bool {
    &&& frame_payload(frame).len() >= STREAM_ACK_SIZE
    &&& StreamAck::decode(frame_payload(frame)) == ack
}

/// Whether a stream frame holds a segment, behind the acknowledgement if there is one.
pub open spec fn carries_segment(
    frame: Seq<u8>,
    has_ack: bool,
    header: StreamSegmentHeader,
) -> bool {
    let payload = frame_payload(frame);
    let rest = if has_ack {
        payload.skip(STREAM_ACK_SIZE as int)
    } else {
        payload
    };
    &&& header.encode().len() <= rest.len()
    &&& StreamSegmentHeader::decode(rest) == header
}

/// One frame is sent, with what it should hold.
proof fn lemma_one_frame(
    state: EndpointState,
    send_ack: bool,
    ack_rel: bool,
    nonce: bool,
    now_ms: u64,
    earlier: Seq<HostAction>,
) -> (frame: Seq<u8>)
    requires
        send_ack || state.can_send_data(now_ms),
    ensures
        ({
            let sent = state.after_stream_frame(send_ack, ack_rel, nonce, now_ms);
            let data = state.can_send_data(now_ms);
            let next_id = state.segment_tx.next_id;
            &&& frames_of(earlier + sent.actions) == frames_of(earlier).push(frame)
            &&& frame_type(frame) == Some(stream_type(send_ack, data))
            &&& send_ack ==> carries_ack(frame, state.next_ack(ack_rel))
            &&& data ==> carries_segment(
                frame,
                send_ack,
                StreamSegmentHeader { id: next_id, nonce },
            )
            &&& sent.state.segment_tx.next_id == if data {
                advance(next_id, 1)
            } else {
                next_id
            }
            &&& data || state.rto_timer is Some ==> sent.state.rto_timer is Some
            &&& sent.state.state_id == state.state_id
            &&& !data ==> sent.state == state.current(now_ms)
        }),
{
    reveal(EndpointState::after_stream_frame);
    reveal_with_fuel(frames_of, 3);
    lemma_block_sizes();
    let sent = state.after_stream_frame(send_ack, ack_rel, nonce, now_ms);
    let data = state.can_send_data(now_ms);
    let ack = state.next_ack(ack_rel);
    let ack_bytes = if send_ack {
        ack.encode()
    } else {
        Seq::empty()
    };
    let header = StreamSegmentHeader { id: state.segment_tx.next_id, nonce };
    let flushed = state.current(now_ms).fragment_tx.flushed(
        EndpointState::segment_room(send_ack),
        now_ms,
    );
    let payload = if data {
        ack_bytes + header.encode() + flushed.bytes
    } else {
        ack_bytes
    };
    law_frame_round_trip(stream_type(send_ack, data), payload);
    let frame = sent.actions.last()->SendFrame_0;
    let all = earlier + sent.actions;
    assert(all.drop_last() =~= earlier + sent.actions.drop_last());
    if sent.actions.len() == 2 {
        assert(all.drop_last().drop_last() =~= earlier);
    } else {
        assert(all.drop_last() =~= earlier);
    }
    let x = state.segment_rx.rx_history;
    assert((x & 0x1F) as u8 <= 0x1F) by (bit_vector);
    if send_ack {
        ack.round_trip(if data { header.encode() + flushed.bytes } else { Seq::empty() });
        assert(payload =~= ack.encode() + if data { header.encode() + flushed.bytes } else {
            Seq::empty()
        });
    }
    if data {
        header.round_trip(flushed.bytes);
        let rest = if send_ack { payload.skip(STREAM_ACK_SIZE as int) } else { payload };
        if send_ack {
            assert(rest =~= header.encode() + flushed.bytes);
        } else {
            assert(rest =~= header.encode() + flushed.bytes);
        }
    }
    frame
}

/// What is known of the frames sent so far.
spec fn are_stream_frames(
    state: EndpointState,
    send_ack: bool,
    ack_rel: bool,
    nonces: Seq<bool>,
    now_ms: u64,
    frames: Seq<Seq<u8>>,
) -> bool {
    let data = state.can_send_data(now_ms);
    let first_id = state.segment_tx.next_id;
    &&& frames.len() == nonces.len()
    &&& forall|i: int|
        0 <= i < frames.len() ==> frame_type(#[trigger] frames[i]) == Some(
            stream_type(send_ack && i == 0, data),
        )
    &&& send_ack && frames.len() > 0 ==> carries_ack(frames[0], state.next_ack(ack_rel))
    &&& data ==> forall|i: int|
        0 <= i < frames.len() ==> carries_segment(
            #[trigger] frames[i],
            send_ack && i == 0,
            StreamSegmentHeader { id: advance(first_id, i), nonce: nonces[i] },
        )
}

proof fn lemma_stream_frames(
    state: EndpointState,
    send_ack: bool,
    ack_rel: bool,
    nonces: Seq<bool>,
    now_ms: u64,
)
    requires
        forall|n: int|
            0 <= n < nonces.len() ==> state.goes_on(
                send_ack,
                ack_rel,
                #[trigger] nonces.take(n),
                now_ms,
            ),
    ensures
        ({
            let sent = state.after_stream_frames(send_ack, ack_rel, nonces, now_ms);
            let data = state.can_send_data(now_ms);
            let first_id = state.segment_tx.next_id;
            &&& are_stream_frames(
                state,
                send_ack,
                ack_rel,
                nonces,
                now_ms,
                frames_of(sent.actions),
            )
            &&& !data ==> nonces.len() <= 1
            &&& sent.state.segment_tx.next_id == if data {
                advance(first_id, nonces.len() as int)
            } else {
                first_id
            }
            &&& data && nonces.len() > 0 || state.rto_timer is Some ==> sent.state.rto_timer is Some
            &&& sent.state.state_id == state.state_id
            &&& !data && nonces.len() > 0 ==> sent.state == state.current(now_ms)
        }),
    decreases nonces.len(),
{
    if nonces.len() == 0 {
        assert(advance(state.segment_tx.next_id, 0) == state.segment_tx.next_id);
    } else {
        let shorter = nonces.drop_last();
        let n = nonces.len() - 1;
        assert forall|m: int| 0 <= m < shorter.len() implies state.goes_on(
            send_ack,
            ack_rel,
            #[trigger] shorter.take(m),
            now_ms,
        ) by {
            assert(shorter.take(m) =~= nonces.take(m));
        }
        lemma_stream_frames(state, send_ack, ack_rel, shorter, now_ms);
        assert(nonces.take(n) =~= shorter);
        assert(state.goes_on(send_ack, ack_rel, nonces.take(n), now_ms));
        let before = state.after_stream_frames(send_ack, ack_rel, shorter, now_ms);
        let data = state.can_send_data(now_ms);
        if n == 0 {
            assert(before.state == state);
        } else {
            assert(before.state.can_send_data(now_ms));
            if !data {
                lemma_current_twice(state, now_ms);
            }
        }
        let frame = lemma_one_frame(
            before.state,
            send_ack && n == 0,
            ack_rel,
            nonces.last(),
            now_ms,
            before.actions,
        );
        lemma_advance_sum(state.segment_tx.next_id, n, 1);
        assert(advance(state.segment_tx.next_id, 0) == state.segment_tx.next_id);
        let sent = state.after_stream_frames(send_ack, ack_rel, nonces, now_ms);
        let earlier = frames_of(before.actions);
        let frames = frames_of(sent.actions);
        assert(frames == earlier.push(frame));
        assert forall|i: int| 0 <= i < frames.len() implies frame_type(#[trigger] frames[i])
            == Some(stream_type(send_ack && i == 0, data)) by {
            if i < n {
                assert(frames[i] == earlier[i]);
            }
        }
        if data {
            assert forall|i: int| 0 <= i < frames.len() implies carries_segment(
                #[trigger] frames[i],
                send_ack && i == 0,
                StreamSegmentHeader {
                    id: advance(state.segment_tx.next_id, i),
                    nonce: nonces[i],
                },
            ) by {
                if i < n {
                    assert(frames[i] == earlier[i]);
                    assert(nonces[i] == shorter[i]);
                }
            }
        }
    }
}

/// Nothing expires twice.
pub(crate) proof fn lemma_current_twice(state: EndpointState, now_ms: u64)
    ensures
        state.current(now_ms).can_send_data(now_ms) == state.can_send_data(now_ms),
{
    crate::buffer::unreliable::law_unexpired(state.fragment_tx.unrel.queue, now_ms);
}

/// Of the frames which are sent at a time, the first one carries an acknowledgement if one is wanted,
/// and no other does. All others carry segments, with consecutive IDs. Sending stops only once the
/// segment window or the congestion window is exhausted, or there is nothing to send. Once a segment
/// is on its way, the timer is running.
pub proof fn law_flush(
    state: EndpointState,
    send_ack: bool,
    ack_rel: bool,
    nonces: Seq<bool>,
    now_ms: u64,
)
    requires
        state.is_flush(send_ack, ack_rel, nonces, now_ms),
    ensures
        ({
            let flushed = state.after_flush(send_ack, ack_rel, nonces, now_ms);
            let frames = frames_of(flushed.actions);
            let data = state.can_send_data(now_ms);
            let first_id = state.segment_tx.next_id;
            let after = flushed.state;
            &&& frames.len() == nonces.len()
            &&& !data ==> frames.len() == if send_ack {
                1int
            } else {
                0
            }
            &&& data ==> frames.len() > 0
            &&& forall|i: int|
                0 <= i < frames.len() ==> frame_type(#[trigger] frames[i]) == Some(
                    stream_type(send_ack && i == 0, data),
                )
            &&& send_ack ==> carries_ack(frames[0], state.next_ack(ack_rel))
            &&& data ==> forall|i: int|
                0 <= i < frames.len() ==> carries_segment(
                    #[trigger] frames[i],
                    send_ack && i == 0,
                    StreamSegmentHeader { id: advance(first_id, i), nonce: nonces[i] },
                )
            &&& after.segment_tx.next_id == if data {
                advance(first_id, frames.len() as int)
            } else {
                first_id
            }
            &&& !after.segment_tx.can_send() || total(after.segment_tx.transit)
                >= after.cc.window() || !after.fragment_tx.has_data()
            &&& data ==> after.rto_timer is Some
        }),
{
    lemma_stream_frames(state, send_ack, ack_rel, nonces, now_ms);
    if nonces.len() == 0 {
        assert(state.after_stream_frames(send_ack, ack_rel, nonces, now_ms).state == state);
    } else {
        assert(nonces.take(0) =~= Seq::empty());
        assert(state.goes_on(send_ack, ack_rel, nonces.take(0), now_ms));
    }
}

proof fn lemma_frames_sum(a: Seq<HostAction>, b: Seq<HostAction>)
    ensures
        frames_of(a + b) == frames_of(a) + frames_of(b),
    decreases b.len(),
{
    if b.len() == 0 {
        assert(a + b =~= a);
        assert(frames_of(a) + frames_of(b) =~= frames_of(a));
    } else {
        assert((a + b).drop_last() =~= a + b.drop_last());
        lemma_frames_sum(a, b.drop_last());
        assert(frames_of(a + b) =~= frames_of(a) + frames_of(b));
    }
}

proof fn lemma_segment_sends_nothing(received: Received, bytes: Seq<u8>)
    ensures
        frames_of(received.after_segment(bytes).actions) == frames_of(received.actions),
    decreases bytes.len(),
{
    if let Some(datagram) = decode_datagram(bytes) {
        let next = received.after_datagram(datagram);
        if let Some(packet) = received.packet(datagram) {
            assert(next.actions.drop_last() =~= received.actions);
        }
        lemma_segment_sends_nothing(
            next,
            bytes.skip(DATAGRAM_HEADER_SIZE + datagram.data.len() as int),
        );
    }
}

proof fn lemma_segments_send_nothing(received: Received, segments: Seq<Seq<u8>>)
    ensures
        frames_of(received.after_segments(segments).actions) == frames_of(received.actions),
    decreases segments.len(),
{
    if segments.len() > 0 {
        lemma_segments_send_nothing(received, segments.drop_last());
        lemma_segment_sends_nothing(
            received.after_segments(segments.drop_last()),
            segments.last(),
        );
    }
}

/// A frame which holds a segment is always answered by an acknowledgement, also if the segment is
/// held back until others have come in.
pub proof fn law_segments_are_acknowledged(
    state: EndpointState,
    has_ack: bool,
    payload: Seq<u8>,
    now_ms: u64,
    rto_estimate_ms: u64,
    after: EndpointState,
    actions: Seq<HostAction>,
)
    requires
        state.state_id is Active,
        payload.len() >= STREAM_SEGMENT_HEADER_SIZE + if has_ack {
            STREAM_ACK_SIZE as int
        } else {
            0
        },
        state.on_frame(
            stream_type(has_ack, true),
            payload,
            now_ms,
            rto_estimate_ms,
        ).ends_in(now_ms, after, Seq::empty(), actions),
    ensures
        ({
            let reaction = state.on_frame(
                stream_type(has_ack, true),
                payload,
                now_ms,
                rto_estimate_ms,
            );
            let frames = frames_of(actions);
            &&& reaction.flush matches Some((send_ack, ack_rel)) && send_ack && frames.len() > 0
                && carries_ack(frames[0], reaction.outcome.state.next_ack(ack_rel))
        }),
{
    reveal_with_fuel(frames_of, 2);
    let reaction = state.on_frame(
        stream_type(has_ack, true),
        payload,
        now_ms,
        rto_estimate_ms,
    );
    assert(reaction == state.on_stream_frame(has_ack, true, payload, now_ms, rto_estimate_ms));
    let acked = if has_ack {
        state.after_ack(StreamAck::decode(payload), now_ms, rto_estimate_ms)
    } else {
        Outcome { state, actions: Seq::empty() }
    };
    let rest = if has_ack {
        payload.skip(STREAM_ACK_SIZE as int)
    } else {
        payload
    };
    let header = StreamSegmentHeader::decode(rest);
    let segment = Segment {
        id: header.id,
        nonce: header.nonce,
        data: rest.skip(STREAM_SEGMENT_HEADER_SIZE as int),
    };
    lemma_segments_send_nothing(
        acked.state.receiving(),
        segment_bytes(acked.state.segment_rx.delivery(segment)),
    );
    let taken = acked.state.on_segment(rest).outcome.actions;
    lemma_frames_sum(acked.actions, taken);
    assert(frames_of(acked.actions) =~= Seq::empty());
    assert(frames_of(reaction.outcome.actions) =~= Seq::empty());
    let reached = reaction.outcome.state;
    let (send_ack, ack_rel) = reaction.flush->0;
    let nonces = choose|nonces: Seq<bool>|
        {
            let flushed = reached.after_flush(send_ack, ack_rel, nonces, now_ms);
            &&& #[trigger] reached.is_flush(send_ack, ack_rel, nonces, now_ms)
            &&& after == flushed.state
            &&& actions == Seq::<HostAction>::empty() + reaction.outcome.actions + flushed.actions
        };
    let flushed = reached.after_flush(send_ack, ack_rel, nonces, now_ms);
    law_flush(reached, send_ack, ack_rel, nonces, now_ms);
    assert(Seq::<HostAction>::empty() + reaction.outcome.actions =~= reaction.outcome.actions);
    lemma_frames_sum(reaction.outcome.actions, flushed.actions);
    assert(frames_of(actions) =~= frames_of(flushed.actions));
}

/// How often a disconnect is reported.
pub open spec fn disconnects(actions: Seq<HostAction>) -> nat
    decreases actions.len(),
{
    if actions.len() == 0 {
        0
    } else {
        disconnects(actions.drop_last()) + if actions.last() is Disconnect {
            1nat
        } else {
            0
        }
    }
}

proof fn lemma_disconnects_sum(a: Seq<HostAction>, b: Seq<HostAction>)
    ensures
        disconnects(a + b) == disconnects(a) + disconnects(b),
    decreases b.len(),
{
    if b.len() == 0 {
        assert(a + b =~= a);
    } else {
        assert((a + b).drop_last() =~= a + b.drop_last());
        lemma_disconnects_sum(a, b.drop_last());
    }
}

/// Sending reports nothing.
proof fn lemma_frames_report_nothing(
    state: EndpointState,
    send_ack: bool,
    ack_rel: bool,
    nonces: Seq<bool>,
    now_ms: u64,
)
    ensures
        ({
            let sent = state.after_stream_frames(send_ack, ack_rel, nonces, now_ms);
            disconnects(sent.actions) == 0 && sent.state.state_id == state.state_id
        }),
    decreases nonces.len(),
{
    if nonces.len() > 0 {
        let shorter = nonces.drop_last();
        lemma_frames_report_nothing(state, send_ack, ack_rel, shorter, now_ms);
        let before = state.after_stream_frames(send_ack, ack_rel, shorter, now_ms);
        let last = before.state.after_stream_frame(
            send_ack && nonces.len() == 1,
            ack_rel,
            nonces.last(),
            now_ms,
        );
        reveal(EndpointState::after_stream_frame);
        reveal_with_fuel(disconnects, 3);
        lemma_disconnects_sum(before.actions, last.actions);
        assert(disconnects(last.actions) == 0);
    }
}

/// Taking in segments reports packets, and nothing else.
proof fn lemma_segment_reports_packets(received: Received, bytes: Seq<u8>)
    ensures
        disconnects(received.after_segment(bytes).actions) == disconnects(received.actions),
    decreases bytes.len(),
{
    if let Some(datagram) = decode_datagram(bytes) {
        let next = received.after_datagram(datagram);
        if let Some(packet) = received.packet(datagram) {
            assert(next.actions.drop_last() =~= received.actions);
        }
        lemma_segment_reports_packets(
            next,
            bytes.skip(DATAGRAM_HEADER_SIZE + datagram.data.len() as int),
        );
    }
}

proof fn lemma_segments_report_packets(received: Received, segments: Seq<Seq<u8>>)
    ensures
        disconnects(received.after_segments(segments).actions) == disconnects(received.actions),
    decreases segments.len(),
{
    if segments.len() > 0 {
        lemma_segments_report_packets(received, segments.drop_last());
        lemma_segment_reports_packets(
            received.after_segments(segments.drop_last()),
            segments.last(),
        );
    }
}

/// Something which happens to an endpoint.
pub enum Input {
    /// The connection is up.
    Init,
    /// A packet is to be sent.
    Enqueue(Seq<u8>, SendMode),
    /// What can be sent is to be sent.
    Flush,
    /// The connection is to be closed.
    Disconnect,
    /// A frame has come in. The number is the estimated retransmission timeout.
    Frame(FrameType, Seq<u8>, u64),
    /// The timer has fired.
    Timer,
}

/// Whether the connection has been closed, or given up.
pub open spec fn is_over(state: EndpointState) -> bool {
    state.state_id is Closed || state.state_id is Zombie
}

/// Whether an input can lead from a state to another, with these requests to the host.
pub open spec fn leads_to(
    before: EndpointState,
    input: Input,
    now_ms: u64,
    after: EndpointState,
    actions: Seq<HostAction>,
) -> bool {
    match input {
        Input::Init => {
            &&& before.state_id is PreInit
            &&& after == EndpointState { state_id: StateId::Active, ..before }
            &&& actions == seq![HostAction::Connect]
        },
        Input::Enqueue(packet, mode) => {
            &&& after == before.after_enqueue(packet, mode, now_ms)
            &&& actions == Seq::<HostAction>::empty()
        },
        Input::Flush => before.on_flush().ends_in(now_ms, after, Seq::empty(), actions),
        Input::Disconnect => before.on_disconnect(now_ms).ends_in(
            now_ms,
            after,
            Seq::empty(),
            actions,
        ),
        Input::Frame(kind, payload, rto_estimate_ms) => before.on_frame(
            kind,
            payload,
            now_ms,
            rto_estimate_ms,
        ).ends_in(now_ms, after, Seq::empty(), actions),
        Input::Timer => before.on_timer(now_ms).ends_in(now_ms, after, Seq::empty(), actions),
    }
}

/// What is sent after a reaction reports nothing.
proof fn lemma_reaction_reports(
    reaction: Reaction,
    now_ms: u64,
    after: EndpointState,
    actions: Seq<HostAction>,
)
    requires
        reaction.ends_in(now_ms, after, Seq::empty(), actions),
    ensures
        disconnects(actions) == disconnects(reaction.outcome.actions),
        after.state_id == reaction.outcome.state.state_id,
{
    let reached = reaction.outcome.state;
    assert(Seq::<HostAction>::empty() + reaction.outcome.actions =~= reaction.outcome.actions);
    if let Some((send_ack, ack_rel)) = reaction.flush {
        let nonces = choose|nonces: Seq<bool>|
            {
                let flushed = reached.after_flush(send_ack, ack_rel, nonces, now_ms);
                &&& #[trigger] reached.is_flush(send_ack, ack_rel, nonces, now_ms)
                &&& after == flushed.state
                &&& actions == Seq::<HostAction>::empty() + reaction.outcome.actions
                    + flushed.actions
            };
        lemma_frames_report_nothing(reached, send_ack, ack_rel, nonces, now_ms);
        lemma_disconnects_sum(
            reaction.outcome.actions,
            reached.after_flush(send_ack, ack_rel, nonces, now_ms).actions,
        );
    }
}

proof fn lemma_stream_frame_reports_packets(
    state: EndpointState,
    has_ack: bool,
    has_segment: bool,
    payload: Seq<u8>,
    now_ms: u64,
    rto_estimate_ms: u64,
)
    ensures
        ({
            let outcome = state.on_stream_frame(
                has_ack,
                has_segment,
                payload,
                now_ms,
                rto_estimate_ms,
            ).outcome;
            disconnects(outcome.actions) == 0 && outcome.state.state_id == state.state_id
        }),
{
    reveal_with_fuel(disconnects, 2);
    if !has_ack || payload.len() >= STREAM_ACK_SIZE {
        let acked = if has_ack {
            state.after_ack(StreamAck::decode(payload), now_ms, rto_estimate_ms)
        } else {
            Outcome { state, actions: Seq::empty() }
        };
        let rest = if has_ack {
            payload.skip(STREAM_ACK_SIZE as int)
        } else {
            payload
        };
        let reaction = acked.state.on_segment(rest);
        if rest.len() >= STREAM_SEGMENT_HEADER_SIZE {
            let header = StreamSegmentHeader::decode(rest);
            let segment = Segment {
                id: header.id,
                nonce: header.nonce,
                data: rest.skip(STREAM_SEGMENT_HEADER_SIZE as int),
            };
            lemma_segments_report_packets(
                acked.state.receiving(),
                segment_bytes(acked.state.segment_rx.delivery(segment)),
            );
        }
        assert(disconnects(acked.actions) == 0);
        lemma_disconnects_sum(acked.actions, reaction.outcome.actions);
    }
}

/// A disconnect is reported when the connection gets closed, and at no other time. What is over stays
/// over.
pub proof fn law_disconnect_is_reported_on_closing(
    before: EndpointState,
    input: Input,
    now_ms: u64,
    after: EndpointState,
    actions: Seq<HostAction>,
)
    requires
        leads_to(before, input, now_ms, after, actions),
    ensures
        is_over(before) ==> is_over(after),
        disconnects(actions) == if !is_over(before) && after.state_id is Closed {
            1nat
        } else {
            0
        },
{
    reveal_with_fuel(disconnects, 4);
    match input {
        Input::Init => {},
        Input::Enqueue(_, _) => {},
        Input::Flush => {
            lemma_reaction_reports(before.on_flush(), now_ms, after, actions);
        },
        Input::Disconnect => {
            lemma_reaction_reports(before.on_disconnect(now_ms), now_ms, after, actions);
        },
        Input::Frame(kind, payload, rto_estimate_ms) => {
            let reaction = before.on_frame(kind, payload, now_ms, rto_estimate_ms);
            lemma_reaction_reports(reaction, now_ms, after, actions);
            if before.state_id is Active {
                match kind {
                    FrameType::StreamSegment => {
                        lemma_stream_frame_reports_packets(
                            before,
                            false,
                            true,
                            payload,
                            now_ms,
                            rto_estimate_ms,
                        );
                    },
                    FrameType::StreamAck => {
                        lemma_stream_frame_reports_packets(
                            before,
                            true,
                            false,
                            payload,
                            now_ms,
                            rto_estimate_ms,
                        );
                    },
                    FrameType::StreamSegmentAck => {
                        lemma_stream_frame_reports_packets(
                            before,
                            true,
                            true,
                            payload,
                            now_ms,
                            rto_estimate_ms,
                        );
                    },
                    FrameType::StreamSync => {
                        if let Some(sync) = StreamSync::in_payload(payload) {
                            lemma_segments_report_packets(
                                before.receiving(),
                                segment_bytes(
                                    before.segment_rx.sync_delivery(sync.next_segment_id),
                                ),
                            );
                        }
                    },
                    _ => {},
                }
            }
            if kind is Close {
                let closed = before.after_closed(now_ms).actions;
                lemma_disconnects_sum(
                    seq![HostAction::SendFrame(before.close_ack_frame())],
                    closed,
                );
                assert(closed.drop_last() =~= seq![HostAction::Disconnect]);
            }
        },
        Input::Timer => {
            lemma_reaction_reports(before.on_timer(now_ms), now_ms, after, actions);
        },
    }
}

/// How often a disconnect is reported in the course of some steps.
pub open spec fn total_disconnects(steps: Seq<Seq<HostAction>>) -> nat
    decreases steps.len(),
{
    if steps.len() == 0 {
        0
    } else {
        total_disconnects(steps.drop_last()) + disconnects(steps.last())
    }
}

/// Whatever happens to an endpoint, it reports a disconnect at most once, and only once the
/// connection is over.
pub proof fn law_disconnect_is_reported_once(
    states: Seq<EndpointState>,
    inputs: Seq<(Input, u64)>,
    steps: Seq<Seq<HostAction>>,
)
    requires
        states.len() == steps.len() + 1,
        inputs.len() == steps.len(),
        forall|i: int|
            0 <= i < steps.len() ==> leads_to(
                states[i],
                inputs[i].0,
                inputs[i].1,
                states[i + 1],
                #[trigger] steps[i],
            ),
    ensures
        total_disconnects(steps) <= 1,
        total_disconnects(steps) == 1 ==> is_over(states.last()),
        is_over(states.first()) ==> is_over(states.last()) && total_disconnects(steps) == 0,
    decreases steps.len(),
{
    if steps.len() > 0 {
        let n = steps.len() - 1;
        let shorter = steps.drop_last();
        assert forall|i: int| 0 <= i < shorter.len() implies leads_to(
            states.drop_last()[i],
            inputs.drop_last()[i].0,
            inputs.drop_last()[i].1,
            states.drop_last()[i + 1],
            #[trigger] shorter[i],
        ) by {
            assert(shorter[i] == steps[i]);
        }
        law_disconnect_is_reported_once(states.drop_last(), inputs.drop_last(), shorter);
        assert(leads_to(states[n], inputs[n].0, inputs[n].1, states[n + 1], steps[n]));
        law_disconnect_is_reported_on_closing(
            states[n],
            inputs[n].0,
            inputs[n].1,
            states[n + 1],
            steps[n],
        );
    }
}

/// An endpoint which is closing, or closed, answers each valid request to close with one
/// confirmation. A valid confirmation closes it. No other frame has any effect, be it one with the
/// wrong nonce: nothing is taken in, handed out or sent.
pub proof fn law_closing_endpoints_only_close(
    state: EndpointState,
    kind: FrameType,
    payload: Seq<u8>,
    now_ms: u64,
    rto_estimate_ms: u64,
)
    requires
        state.state_id is Closing || state.state_id is Closed,
    ensures
        ({
            let reaction = state.on_frame(kind, payload, now_ms, rto_estimate_ms);
            let outcome = reaction.outcome;
            let confirms = kind is Close && state.is_valid_close(payload);
            let confirmed = kind is CloseAck && state.state_id is Closing
                && state.is_valid_close_ack(payload);
            let timer = HostAction::SetRtoTimer((now_ms + DISCONNECT_TIMEOUT_MS) as u64);
            &&& reaction.flush is None
            &&& confirms && state.state_id is Closing ==> {
                &&& outcome.state.state_id is Closed
                &&& outcome.actions == seq![
                    HostAction::SendFrame(state.close_ack_frame()),
                    HostAction::Disconnect,
                    timer,
                ]
            }
            &&& confirms && state.state_id is Closed ==> {
                &&& outcome.state == state
                &&& outcome.actions == seq![HostAction::SendFrame(state.close_ack_frame())]
            }
            &&& confirmed ==> {
                &&& outcome.state.state_id is Closed
                &&& outcome.actions == seq![HostAction::Disconnect, timer]
            }
            &&& !confirms && !confirmed ==> {
                &&& outcome.state == state
                &&& outcome.actions.len() == 0
            }
        }),
{
    let outcome = state.on_frame(kind, payload, now_ms, rto_estimate_ms).outcome;
    if kind is Close && state.is_valid_close(payload) && state.state_id is Closing {
        assert(outcome.actions =~= seq![
            HostAction::SendFrame(state.close_ack_frame()),
            HostAction::Disconnect,
            HostAction::SetRtoTimer((now_ms + DISCONNECT_TIMEOUT_MS) as u64),
        ]);
    }
}

} // verus!
