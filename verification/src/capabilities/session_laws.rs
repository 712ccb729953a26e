//! What holds of a session as a whole.

use vstd::prelude::*;

use crate::capabilities::decoder::{drained, ended, fresh, with_bytes};
use crate::capabilities::decoder_laws::{ends, is_end, law_feed_ends, law_finish_ends};
use crate::capabilities::events::EventView;
use crate::capabilities::session::{
    has_done, session_step, InputView, Next, SessionView, MAX_STREAM_ATTEMPTS,
};

verus! {

/// A request is sent anew only after a failure, while no event has come of the
/// body, and not more often than the limit says. So no event is made twice.
pub proof fn law_retry(s: SessionView, i: InputView)
    requires
        s.valid(),
        s.expects(i),
    ensures
        ({
            let (events, next, t) = session_step(s, i);
            &&& t.valid()
            &&& (next is Retry) == (i is Failed && !s.emitted_any && s.attempt
                < MAX_STREAM_ATTEMPTS)
            &&& next is Retry ==> events.len() == 0 && t.failure is Some
            &&& i is Reopened ==> !s.emitted_any && t.attempt == s.attempt + 1
            &&& !(i is Reopened) ==> t.attempt == s.attempt && (s.emitted_any ==> t.emitted_any)
            &&& i is Chunk && events.len() > 0 ==> t.emitted_any
        }),
{
}

/// Where a session stops, its last event ends the stream.
pub proof fn law_stop(s: SessionView, i: InputView)
    requires
        s.valid(),
        s.expects(i),
        !s.decoder.done,
    ensures
        ({
            let (events, next, _) = session_step(s, i);
            next == Next::Stop ==> ends(events)
        }),
{
    let (events, next, _) = session_step(s, i);
    match i {
        InputView::End => {
            law_finish_ends(s.decoder);
        },
        InputView::Chunk(bytes) => {
            let d = with_bytes(s.decoder, bytes);
            law_feed_ends(d);
            if has_done(events) {
                let k = choose|k: int| 0 <= k < events.len() && #[trigger] events[k] is Done;
                assert(is_end(events[k]));
            }
        },
        _ => {
            if next == Next::Stop {
                assert(events.drop_last().len() == 0);
            }
        },
    }
}

/// A session reads on as long as the answer is not complete.
pub proof fn law_reads_on(s: SessionView, bytes: Seq<u8>)
    requires
        s.valid(),
        s.failure is None,
        !s.decoder.done,
    ensures
        ({
            let (events, next, t) = session_step(s, InputView::Chunk(bytes));
            &&& !t.decoder.done ==> next == Next::Read
            &&& next == Next::Stop ==> t.decoder.done && events.last() is Done
        }),
{
    let (events, next, _) = session_step(s, InputView::Chunk(bytes));
    law_feed_ends(with_bytes(s.decoder, bytes));
    if has_done(events) {
        let k = choose|k: int| 0 <= k < events.len() && #[trigger] events[k] is Done;
        assert(is_end(events[k]));
        if k < events.len() - 1 {
            assert(events.drop_last()[k] == events[k]);
        }
    }
}

/// What comes of each thing that can happen: the events of the decoder are handed
/// on, all of them, and each failure is reported by its reason.
pub proof fn law_outcomes(s: SessionView, bytes: Seq<u8>, message: Seq<char>)
    ensures
        session_step(s, InputView::Idle) == (
            seq![EventView::Error { retryable: false, message: "stream idle timeout"@ }],
            Next::Stop,
            s,
        ),
        session_step(s, InputView::End).0 == ended(s.decoder).0,
        session_step(s, InputView::End).1 == Next::Stop,
        session_step(s, InputView::Chunk(bytes)).0 == drained(with_bytes(s.decoder, bytes)).0,
        session_step(s, InputView::Chunk(bytes)).2.decoder == drained(
            with_bytes(s.decoder, bytes),
        ).1,
        session_step(s, InputView::Chunk(bytes)).2.failure == s.failure,
        session_step(s, InputView::Chunk(bytes)).1 == Next::Stop <==> exists|i: int|
            0 <= i < drained(with_bytes(s.decoder, bytes)).0.len() && #[trigger] drained(
                with_bytes(s.decoder, bytes),
            ).0[i] is Done,
        session_step(s, InputView::Chunk(bytes)).1 == Next::Stop || session_step(
            s,
            InputView::Chunk(bytes),
        ).1 == Next::Read,
        s.emitted_any || s.attempt >= 3 ==> session_step(s, InputView::Failed { message }) == (
            seq![EventView::Error { retryable: false, message }],
            Next::Stop,
            s,
        ),
        !s.emitted_any && s.attempt < 3 ==> session_step(s, InputView::Failed { message }) == (
            Seq::<EventView>::empty(),
            Next::Retry { attempt: s.attempt },
            SessionView { failure: Some(message), ..s },
        ),
        s.failure matches Some(reason) ==> session_step(s, InputView::ReopenFailed).0 == seq![
            EventView::Error { retryable: false, message: reason },
        ] && session_step(s, InputView::ReopenFailed).1 == Next::Stop,
        session_step(s, InputView::Reopened).0.len() == 0,
        session_step(s, InputView::Reopened).1 == Next::Read,
        session_step(s, InputView::Reopened).2.decoder == fresh(),
        session_step(s, InputView::Reopened).2.failure is None,
        !session_step(s, InputView::Reopened).2.emitted_any,
{
}

/// While a request is sent anew a session hears what came of that, and else what
/// comes of the body; nothing else is asked of it, but that its attempts are
/// counted.
pub proof fn law_expected(s: SessionView, i: InputView)
    ensures
        s.failure is Some ==> (s.expects(i) <==> i is Reopened || i is ReopenFailed),
        s.failure is None ==> (s.expects(i) <==> i is Idle || i is End || i is Failed || i is Chunk),
        s.failure is None ==> (s.valid() <==> 1 <= s.attempt <= 3),
        s.failure is Some ==> (s.valid() <==> 1 <= s.attempt < 3 && !s.emitted_any),
{
}

/// A session knows whether the present body has brought an event.
pub proof fn law_events_noted(s: SessionView, bytes: Seq<u8>)
    ensures
        ({
            let (events, _, t) = session_step(s, InputView::Chunk(bytes));
            t.emitted_any <==> s.emitted_any || events.len() > 0
        }),
{
}

} // verus!
