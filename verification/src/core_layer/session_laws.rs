//! What holds of a session as a whole.

use vstd::prelude::*;
use vstd::utf8::decode_utf8;

use crate::bytes::{bytes_of_pieces, valid_len};
use crate::core_layer::events::EventView;
use crate::core_layer::session::{
    connecting, look, session_step, InputView, NextView, Phase, SessionView,
};
use crate::core_layer::stream::{
    chunk_step, end_step, next_line_of, received, ChunkView, StreamView,
};
use crate::core_layer::stream_laws::{
    ends, goes_on, law_done_ends, law_lines_kept, law_two_pieces,
    lemma_goes_on_add, lemma_next_line_shrinks,
};
use crate::scanner::start;
use crate::text::lemma_find;

verus! {

/// What to do next agrees with what the session waits for.
pub open spec fn agree(next: NextView, phase: Phase) -> bool {
    match next {
        NextView::Read => phase == Phase::Reading,
        NextView::Parse { .. } => phase == Phase::Parsing,
        NextView::Stop => phase == Phase::Stopped,
    }
}

/// A session stops with the event that ends the stream, and not before. What to
/// do next agrees with what the session then waits for.
pub proof fn law_step_ends(s: SessionView, i: InputView)
    ensures
        ({
            let (events, next, t) = session_step(s, i);
            &&& agree(next, t.phase)
            &&& t.phase == Phase::Stopped ==> ends(events)
            &&& t.phase != Phase::Stopped ==> goes_on(events)
        }),
{
    let (events, _, _) = session_step(s, i);
    match i {
        InputView::Line(Some(c)) => {
            law_done_ends(s.stream.replayer, c);
        },
        InputView::End => {
            law_done_ends(
                s.stream.replayer,
                ChunkView { message: None, done: true, prompt_eval_count: 0, eval_count: 0 },
            );
        },
        _ => {
            if events.len() > 0 {
                assert(events.drop_last() =~= Seq::<EventView>::empty());
            }
        },
    }
}

/// What comes of inputs, one behind the other.
pub open spec fn run(s: SessionView, inputs: Seq<InputView>) -> (Seq<EventView>, SessionView)
    decreases inputs.len(),
{
    if inputs.len() == 0 {
        (Seq::empty(), s)
    } else {
        let (first, mid) = run(s, inputs.drop_last());
        let (second, _, end) = session_step(mid, inputs.last());
        (first + second, end)
    }
}

/// Each of the inputs can happen in the state in which it comes.
pub open spec fn expected(s: SessionView, inputs: Seq<InputView>) -> bool
    decreases inputs.len(),
{
    inputs.len() > 0 ==> expected(s, inputs.drop_last()) && run(s, inputs.drop_last()).1.expects(
        inputs.last(),
    )
}

/// A run sends one `Done` or one `Error`, and sends it last: none has been sent
/// before the session stops, and nothing comes behind it.
pub proof fn law_one_end(inputs: Seq<InputView>)
    requires
        expected(connecting(), inputs),
    ensures
        ({
            let (events, end) = run(connecting(), inputs);
            &&& end.phase == Phase::Stopped ==> ends(events)
            &&& end.phase != Phase::Stopped ==> goes_on(events)
        }),
    decreases inputs.len(),
{
    if inputs.len() > 0 {
        let front = inputs.drop_last();
        law_one_end(front);
        let (first, mid) = run(connecting(), front);
        assert(mid.phase != Phase::Stopped);
        law_step_ends(mid, inputs.last());
        lemma_goes_on_add(first, session_step(mid, inputs.last()).0);
    }
}

/// What comes of the lines that a session holds, from the one that it has just
/// handed out on, where `read` says what each line is read as.
pub open spec fn settled(
    read: spec_fn(Seq<char>) -> Option<ChunkView>,
    next: NextView,
    s: SessionView,
) -> (Seq<EventView>, SessionView)
    decreases s.stream.text.len(),
{
    proof {
        lemma_next_line_shrinks(s.stream.text);
    }
    match next {
        NextView::Parse { line } => {
            let (events, following, t) = session_step(s, InputView::Line(read(line)));
            if following is Parse {
                let (more, end) = settled(read, following, t);
                (events + more, end)
            } else {
                (events, t)
            }
        },
        _ => (Seq::empty(), s),
    }
}

/// What comes of bytes of the body, and of the lines that they complete.
pub open spec fn fed(
    read: spec_fn(Seq<char>) -> Option<ChunkView>,
    s: SessionView,
    bytes: Seq<u8>,
) -> (Seq<EventView>, SessionView) {
    let (_, next, t) = session_step(s, InputView::Bytes(bytes));
    settled(read, next, t)
}

/// What comes of a body that arrives in pieces. Once the session has stopped,
/// no more of it is read.
pub open spec fn body_read(
    read: spec_fn(Seq<char>) -> Option<ChunkView>,
    s: SessionView,
    pieces: Seq<Seq<u8>>,
) -> (Seq<EventView>, SessionView)
    decreases pieces.len(),
{
    if pieces.len() == 0 {
        (Seq::empty(), s)
    } else {
        let (first, mid) = body_read(read, s, pieces.drop_last());
        if mid.phase == Phase::Stopped {
            (first, mid)
        } else {
            let (second, end) = fed(read, mid, pieces.last());
            (first + second, end)
        }
    }
}

/// The events of a body that arrives in pieces and then ends.
pub open spec fn answer(
    read: spec_fn(Seq<char>) -> Option<ChunkView>,
    s: SessionView,
    pieces: Seq<Seq<u8>>,
) -> Seq<EventView> {
    let (events, end) = body_read(read, s, pieces);
    if end.phase == Phase::Stopped {
        events
    } else {
        events + session_step(end, InputView::End).0
    }
}

/// What comes of the lines in `s`.
spec fn drained(read: spec_fn(Seq<char>) -> Option<ChunkView>, s: StreamView) -> (
    Seq<EventView>,
    SessionView,
) {
    let (next, t) = look(s);
    settled(read, next, t)
}

/// One line of [`drained`].
proof fn lemma_drained(read: spec_fn(Seq<char>) -> Option<ChunkView>, s: StreamView)
    ensures
        match next_line_of(s.text) {
            (None, rest) => drained(read, s) == (
                Seq::<EventView>::empty(),
                SessionView { stream: StreamView { text: rest, ..s }, phase: Phase::Reading },
            ),
            (Some(line), rest) => {
                let t = StreamView { text: rest, ..s };
                match read(line) {
                    None => drained(read, s) == drained(read, t),
                    Some(c) => {
                        let (events, replayer, complete) = chunk_step(s.replayer, c);
                        let u = StreamView { replayer, ..t };
                        if complete {
                            drained(read, s) == (
                                events,
                                SessionView { stream: u, phase: Phase::Stopped },
                            )
                        } else {
                            let (more, end) = drained(read, u);
                            drained(read, s) == (events + more, end)
                        }
                    },
                }
            },
        },
{
    let none = Seq::<EventView>::empty();
    if let (Some(line), rest) = next_line_of(s.text) {
        let t = StreamView { text: rest, ..s };
        match read(line) {
            None => {
                assert(none + drained(read, t).0 =~= drained(read, t).0);
            },
            Some(c) => {
                let (events, replayer, _) = chunk_step(s.replayer, c);
                assert(events + none =~= events);
            },
        }
    }
}

/// Text that comes later does not change what comes of the lines before it.
proof fn lemma_drained_add(
    read: spec_fn(Seq<char>) -> Option<ChunkView>,
    s: StreamView,
    text: Seq<char>,
    bytes: Seq<u8>,
)
    ensures
        ({
            let (first, mid) = drained(read, s);
            let (whole, end) = drained(read, StreamView { text: s.text + text, bytes, ..s });
            let (second, last) = drained(
                read,
                StreamView { text: mid.stream.text + text, bytes, ..mid.stream },
            );
            &&& mid.stream.bytes == s.bytes
            &&& mid.phase == Phase::Stopped || mid.phase == Phase::Reading
            &&& mid.phase == Phase::Stopped ==> whole == first && end.phase == Phase::Stopped
            &&& mid.phase == Phase::Reading ==> (whole, end) == (first + second, last)
        }),
    decreases s.text.len(),
{
    let all = StreamView { text: s.text + text, bytes, ..s };
    lemma_drained(read, s);
    lemma_drained(read, all);
    law_lines_kept(s.text, text);
    lemma_next_line_shrinks(s.text);
    let none = Seq::<EventView>::empty();
    match next_line_of(s.text) {
        (None, rest) => {
            let behind = StreamView { text: rest + text, bytes, ..s };
            lemma_drained(read, behind);
            assert(none + drained(read, behind).0 =~= drained(read, behind).0);
            assert(look(all) == look(behind));
        },
        (Some(line), rest) => {
            let t = StreamView { text: rest, ..s };
            match read(line) {
                None => {
                    lemma_drained_add(read, t, text, bytes);
                },
                Some(c) => {
                    let (events, replayer, complete) = chunk_step(s.replayer, c);
                    if !complete {
                        let u = StreamView { replayer, ..t };
                        lemma_drained_add(read, u, text, bytes);
                        let (first, mid) = drained(read, u);
                        let second = drained(
                            read,
                            StreamView { text: mid.stream.text + text, bytes, ..mid.stream },
                        ).0;
                        assert(events + (first + second) =~= (events + first) + second);
                    }
                },
            }
        },
    }
}

/// Bytes that come in two pieces come to the same as all of them at once.
proof fn lemma_fed_twice(
    read: spec_fn(Seq<char>) -> Option<ChunkView>,
    s: SessionView,
    a: Seq<u8>,
    b: Seq<u8>,
)
    ensures
        ({
            let (first, mid) = fed(read, s, a);
            let (second, last) = fed(read, mid, b);
            let (whole, end) = fed(read, s, a + b);
            &&& mid.phase == Phase::Stopped || mid.phase == Phase::Reading
            &&& mid.phase == Phase::Stopped ==> whole == first && end.phase == Phase::Stopped
            &&& mid.phase == Phase::Reading ==> (whole, end) == (first + second, last)
        }),
{
    law_two_pieces(s.stream, a, b);
    let one = received(s.stream, a);
    let all = one.bytes + b;
    let n = valid_len(all) as int;
    let text = decode_utf8(all.take(n));
    lemma_drained_add(read, one, text, all.skip(n));
}

/// A body in pieces comes to the same as the whole body at once.
proof fn lemma_body_whole(
    read: spec_fn(Seq<char>) -> Option<ChunkView>,
    s: SessionView,
    pieces: Seq<Seq<u8>>,
)
    requires
        pieces.len() > 0,
        s.phase == Phase::Reading,
    ensures
        ({
            let (events, end) = body_read(read, s, pieces);
            let (whole, last) = fed(read, s, bytes_of_pieces(pieces));
            &&& events == whole
            &&& (end.phase == Phase::Stopped) == (last.phase == Phase::Stopped)
            &&& end.phase != Phase::Stopped ==> end == last
        }),
    decreases pieces.len(),
{
    let front = pieces.drop_last();
    let b = pieces.last();
    if pieces.len() == 1 {
        assert(front =~= Seq::<Seq<u8>>::empty());
        assert(bytes_of_pieces(front) =~= Seq::<u8>::empty());
        assert(bytes_of_pieces(front) + b =~= b);
        assert(body_read(read, s, front) == (Seq::<EventView>::empty(), s));
        assert(Seq::<EventView>::empty() + fed(read, s, b).0 =~= fed(read, s, b).0);
    } else {
        lemma_body_whole(read, s, front);
        lemma_fed_twice(read, s, bytes_of_pieces(front), b);
    }
}

/// Where the body of an answer is cut cannot be seen in its events, whatever
/// its lines are read as: two bodies with the same bytes, cut at different places,
/// within a character too, bring the same events in the same order.
pub proof fn law_cuts_not_seen(
    read: spec_fn(Seq<char>) -> Option<ChunkView>,
    a: Seq<Seq<u8>>,
    b: Seq<Seq<u8>>,
)
    requires
        bytes_of_pieces(a) == bytes_of_pieces(b),
    ensures
        ({
            let opened = session_step(connecting(), InputView::Opened).2;
            answer(read, opened, a) == answer(read, opened, b)
        }),
{
    lemma_answer_whole(read, a);
    lemma_answer_whole(read, b);
}

proof fn lemma_answer_whole(
    read: spec_fn(Seq<char>) -> Option<ChunkView>,
    pieces: Seq<Seq<u8>>,
)
    ensures
        ({
            let opened = session_step(connecting(), InputView::Opened).2;
            answer(read, opened, pieces) == answer(read, opened, seq![bytes_of_pieces(pieces)])
        }),
{
    let opened = session_step(connecting(), InputView::Opened).2;
    let whole = bytes_of_pieces(pieces);
    let one = seq![whole];
    assert(one.drop_last() =~= Seq::<Seq<u8>>::empty());
    assert(bytes_of_pieces(one.drop_last()) + whole =~= whole);
    assert(bytes_of_pieces(one) == whole);
    lemma_body_whole(read, opened, one);
    if pieces.len() > 0 {
        lemma_body_whole(read, opened, pieces);
    } else {
        let s = opened.stream;
        assert(s.bytes + whole =~= s.bytes);
        assert(s.bytes.skip(0) =~= s.bytes);
        assert(s.bytes.take(0) =~= s.bytes);
        assert(s.text + decode_utf8(s.bytes.take(0)) =~= s.text);
        assert(received(s, whole) == s);
        reveal_strlit("\n");
        lemma_find(s.text, "\n"@);
        lemma_drained(read, s);
        assert(fed(read, opened, whole) == (Seq::<EventView>::empty(), opened));
    }
}

proof fn lemma_settled_ends(
    read: spec_fn(Seq<char>) -> Option<ChunkView>,
    next: NextView,
    s: SessionView,
)
    requires
        s.phase != Phase::Stopped,
        agree(next, s.phase),
    ensures
        ({
            let (events, end) = settled(read, next, s);
            &&& end.phase == Phase::Stopped ==> ends(events)
            &&& end.phase != Phase::Stopped ==> goes_on(events)
        }),
    decreases s.stream.text.len(),
{
    lemma_next_line_shrinks(s.stream.text);
    if let NextView::Parse { line } = next {
        let i = InputView::Line(read(line));
        law_step_ends(s, i);
        let (events, following, t) = session_step(s, i);
        if following is Parse {
            lemma_settled_ends(read, following, t);
            lemma_goes_on_add(events, settled(read, following, t).0);
        }
    }
}

proof fn lemma_body_ends(
    read: spec_fn(Seq<char>) -> Option<ChunkView>,
    s: SessionView,
    pieces: Seq<Seq<u8>>,
)
    requires
        s.phase == Phase::Reading,
    ensures
        ({
            let (events, end) = body_read(read, s, pieces);
            &&& end.phase == Phase::Stopped ==> ends(events)
            &&& end.phase != Phase::Stopped ==> goes_on(events)
        }),
    decreases pieces.len(),
{
    if pieces.len() > 0 {
        let front = pieces.drop_last();
        lemma_body_ends(read, s, front);
        let (first, mid) = body_read(read, s, front);
        if mid.phase != Phase::Stopped {
            let i = InputView::Bytes(pieces.last());
            law_step_ends(mid, i);
            let (_, next, t) = session_step(mid, i);
            lemma_settled_ends(read, next, t);
            lemma_goes_on_add(first, fed(read, mid, pieces.last()).0);
        }
    }
}

/// An answer whose body is read to its end, or to the line that completes it, has
/// one event that ends the stream, and that is the last.
pub proof fn law_answer_ends(
    read: spec_fn(Seq<char>) -> Option<ChunkView>,
    pieces: Seq<Seq<u8>>,
)
    ensures
        ends(answer(read, session_step(connecting(), InputView::Opened).2, pieces)),
{
    let opened = session_step(connecting(), InputView::Opened).2;
    lemma_body_ends(read, opened, pieces);
    let (events, end) = body_read(read, opened, pieces);
    if end.phase != Phase::Stopped {
        law_step_ends(end, InputView::End);
        lemma_goes_on_add(events, session_step(end, InputView::End).0);
    }
}

/// What comes of each thing that can happen: each failure is reported by its
/// reason, bytes go to the stream, and a line that was read is taken in. Behind
/// bytes and behind a line that does not complete the answer, the next line is
/// handed out where there is one.
pub proof fn law_outcomes(
    s: SessionView,
    text: Seq<char>,
    status: Seq<char>,
    bytes: Seq<u8>,
    c: ChunkView,
)
    ensures
        ({
            let (events, next, _) = session_step(s, InputView::Unreachable { reason: text });
            events == seq![EventView::Error("Connection failed: "@ + text)] && next
                == NextView::Stop
        }),
        ({
            let (events, next, _) = session_step(s, InputView::Refused { status, reason: text });
            events == seq![EventView::Error("MiniCPM error ("@ + status + "): "@ + text)] && next
                == NextView::Stop
        }),
        session_step(s, InputView::Opened) == (
            Seq::<EventView>::empty(),
            NextView::Read,
            SessionView { phase: Phase::Reading, ..s },
        ),
        ({
            let (events, next, _) = session_step(s, InputView::ReadFailed { message: text });
            events == seq![EventView::Error(text)] && next == NextView::Stop
        }),
        ({
            let (events, next, t) = session_step(s, InputView::Bytes(bytes));
            &&& events.len() == 0
            &&& handed_out(received(s.stream, bytes), next, t)
        }),
        ({
            let (events, next, t) = session_step(s, InputView::Line(None));
            &&& events.len() == 0
            &&& handed_out(s.stream, next, t)
        }),
        ({
            let (events, next, t) = session_step(s, InputView::Line(Some(c)));
            let (made, replayer, complete) = chunk_step(s.stream.replayer, c);
            &&& events == made
            &&& complete ==> next == NextView::Stop
            &&& !complete ==> handed_out(StreamView { replayer, ..s.stream }, next, t)
        }),
        ({
            let (events, next, _) = session_step(s, InputView::End);
            events == end_step(s.stream.replayer).0 && next == NextView::Stop
        }),
{
}

/// The first line of `before` is handed out, or more is read where it has none;
/// nothing else of the stream changes.
pub open spec fn handed_out(before: StreamView, next: NextView, after: SessionView) -> bool {
    let (line, rest) = next_line_of(before.text);
    &&& line matches Some(l) ==> next == NextView::Parse { line: l }
    &&& line is None ==> next == NextView::Read
    &&& after.stream == (StreamView { text: rest, ..before })
}

/// A session hears what came of its request first, then what comes of the body,
/// and of each line that it has handed out; nothing else is asked of it.
pub proof fn law_expected(s: SessionView, i: InputView)
    ensures
        s.phase == Phase::Connecting ==> (s.expects(i) <==> i is Unreachable || i is Refused || i is
            Opened),
        s.phase == Phase::Reading ==> (s.expects(i) <==> i is ReadFailed || i is Bytes || i is End),
        s.phase == Phase::Parsing ==> (s.expects(i) <==> i is Line),
        s.phase == Phase::Stopped ==> !s.expects(i),
{
}

/// A session starts with nothing received, and nothing counted.
pub proof fn law_connecting()
    ensures
        connecting().phase == Phase::Connecting,
        connecting().stream.bytes.len() == 0,
        connecting().stream.text.len() == 0,
        connecting().stream.replayer.scan == start(),
        connecting().stream.replayer.counter == 0,
{
}

} // verus!
