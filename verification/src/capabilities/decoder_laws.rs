//! What holds of the decoder as a whole.

use vstd::prelude::*;

use crate::bytes::{
    bytes_of_pieces, lemma_line_end, lemma_line_end_append, line_end, lossy_text,
};
use crate::capabilities::chat_line::{line_of, LineView};
use crate::capabilities::decoder::{
    call_id, done_step, drained, emitted, ended, event_of, fresh, line_step, message_step,
    native_flushes, next_number, raw_line_step, text_line_step, usage_of, with_bytes, DecoderView,
};
use crate::capabilities::events::EventView;
use crate::capabilities::replayer::{finished, pushed, FlushView};
use crate::decimal::{decimal, lemma_decimal_injective};
use crate::json::json_of;
use crate::text::trim;

verus! {

/// The event ends the stream.
pub open spec fn is_end(e: EventView) -> bool {
    e is Done || e is Error
}

/// No event ends the stream.
pub open spec fn goes_on(events: Seq<EventView>) -> bool {
    forall|i: int| 0 <= i < events.len() ==> !is_end(#[trigger] events[i])
}

/// The stream ends with the last event, and not before.
pub open spec fn ends(events: Seq<EventView>) -> bool {
    events.len() > 0 && is_end(events.last()) && goes_on(events.drop_last())
}

proof fn lemma_goes_on_add(a: Seq<EventView>, b: Seq<EventView>)
    requires
        goes_on(a),
    ensures
        goes_on(b) ==> goes_on(a + b),
        ends(b) ==> ends(a + b),
{
    if goes_on(b) {
        assert forall|i: int| 0 <= i < (a + b).len() implies !is_end(#[trigger] (a + b)[i]) by {
            if i < a.len() {
                assert((a + b)[i] == a[i]);
            } else {
                assert((a + b)[i] == b[i - a.len()]);
            }
        }
    }
    if ends(b) {
        let front = b.drop_last();
        assert((a + b).drop_last() =~= a + front);
        assert forall|i: int| 0 <= i < (a + front).len() implies !is_end(
            #[trigger] (a + front)[i],
        ) by {
            if i < a.len() {
                assert((a + front)[i] == a[i]);
            } else {
                assert((a + front)[i] == front[i - a.len()]);
            }
        }
    }
}

proof fn lemma_emitted_goes_on(n: u32, flushes: Seq<FlushView>)
    ensures
        goes_on(emitted(n, flushes).0),
    decreases flushes.len(),
{
    if flushes.len() > 0 {
        lemma_emitted_goes_on(n, flushes.drop_last());
        let (front, m) = emitted(n, flushes.drop_last());
        let all = front.push(event_of(m, flushes.last()));
        assert forall|i: int| 0 <= i < all.len() implies !is_end(#[trigger] all[i]) by {
            if i < front.len() {
                assert(all[i] == front[i]);
            }
        }
    }
}

/// A line ends the stream where it says that the answer is complete, or where
/// it brings an error; and then with its last event.
pub proof fn law_line_ends(d: DecoderView, l: LineView)
    requires
        !d.done,
    ensures
        ({
            let (events, end) = line_step(d, l);
            &&& end.done == (l.error is Some || l.done)
            &&& end.done ==> ends(events)
            &&& !end.done ==> goes_on(events)
            &&& l.error is None && l.done ==> events.last() == EventView::Done {
                truncated: d.truncated || l.cut_short,
            }
        }),
{
    match l.error {
        Some(_) => {
            let events = line_step(d, l).0;
            assert(events.drop_last() =~= Seq::<EventView>::empty());
        },
        None => {
            let (flushes, _) = if l.content.len() > 0 {
                pushed(d.scan, l.content)
            } else {
                (Seq::empty(), d.scan)
            };
            let (replayed, n) = emitted(d.tool_index, flushes);
            lemma_emitted_goes_on(d.tool_index, flushes);
            lemma_emitted_goes_on(n, native_flushes(l.calls));
            let reasoning = if l.thinking.len() > 0 {
                seq![EventView::Reasoning(l.thinking)]
            } else {
                Seq::empty()
            };
            lemma_goes_on_add(replayed, reasoning);
            lemma_goes_on_add(replayed + reasoning, emitted(n, native_flushes(l.calls)).0);
            let (events, mid) = message_step(d, l.content, l.thinking, l.calls);
            if l.done {
                let (last, _) = done_step(mid, l);
                lemma_emitted_goes_on(mid.tool_index, finished(mid.scan));
                lemma_goes_on_add(emitted(mid.tool_index, finished(mid.scan)).0, usage_of(l));
                assert(last.drop_last() =~= emitted(mid.tool_index, finished(mid.scan)).0
                    + usage_of(l));
                lemma_goes_on_add(events, last);
            }
        },
    }
}

/// A decoder is done when it has made the event that ends the stream, and not
/// before; and that event is the last.
pub proof fn law_feed_ends(d: DecoderView)
    requires
        !d.done,
    ensures
        ({
            let (events, end) = drained(d);
            &&& end.done ==> ends(events)
            &&& !end.done ==> goes_on(events)
        }),
    decreases d.buf.len(),
{
    lemma_line_end(d.buf);
    if let Some(i) = line_end(d.buf) {
        let rest = DecoderView { buf: d.buf.skip(i + 1), ..d };
        let raw = d.buf.take(i + 1);
        lemma_raw_line_ends(rest, raw);
        lemma_line_keeps_buf(rest, raw, rest.buf);
        let (events, mid) = raw_line_step(rest, raw);
        if !mid.done {
            law_feed_ends(mid);
            lemma_goes_on_add(events, drained(mid).0);
        }
    }
}

proof fn lemma_raw_line_ends(d: DecoderView, raw: Seq<u8>)
    requires
        !d.done,
    ensures
        ({
            let (events, end) = raw_line_step(d, raw);
            &&& end.done ==> ends(events)
            &&& !end.done ==> goes_on(events)
        }),
{
    reveal(text_line_step);
    if let Some(j) = json_of(trim(lossy_text(raw))) {
        law_line_ends(d, line_of(j));
    }
}

/// The end of the body ends the stream, where that has not been done yet.
pub proof fn law_finish_ends(d: DecoderView)
    ensures
        ({
            let (events, end) = ended(d);
            &&& end.done
            &&& !d.done ==> ends(events) && events.last() == EventView::Done {
                truncated: d.truncated,
            }
            &&& d.done ==> goes_on(events)
        }),
{
    let flushed = emitted(d.tool_index, finished(d.scan)).0;
    lemma_emitted_goes_on(d.tool_index, finished(d.scan));
    if !d.done {
        assert(ended(d).0.drop_last() =~= flushed);
    }
}

/// What becomes of a line does not depend on the bytes behind it.
proof fn lemma_line_keeps_buf(d: DecoderView, raw: Seq<u8>, buf: Seq<u8>)
    ensures
        raw_line_step(d, raw).1.buf == d.buf,
        raw_line_step(DecoderView { buf, ..d }, raw) == (
            raw_line_step(d, raw).0,
            DecoderView { buf, ..raw_line_step(d, raw).1 },
        ),
{
    reveal(text_line_step);
}

/// Where the bytes of the body are cut does not matter: to feed `a` and then
/// `b` makes the same events as to feed them at once, and leaves the decoder in
/// the same state. Once the stream has ended nothing is made of the bytes behind.
pub proof fn law_two_feeds(d: DecoderView, a: Seq<u8>, b: Seq<u8>)
    requires
        !d.done,
    ensures
        ({
            let (first, mid) = drained(with_bytes(d, a));
            let (second, end) = drained(with_bytes(mid, b));
            drained(with_bytes(d, a + b)) == if mid.done {
                (first, with_bytes(mid, b))
            } else {
                (first + second, end)
            }
        }),
{
    lemma_feeds(with_bytes(d, a), b);
    assert(d.buf + a + b =~= d.buf + (a + b));
}

proof fn lemma_feeds(d: DecoderView, b: Seq<u8>)
    ensures
        ({
            let (first, mid) = drained(d);
            let (second, end) = drained(with_bytes(mid, b));
            drained(with_bytes(d, b)) == if line_end(d.buf) is Some && mid.done {
                (first, with_bytes(mid, b))
            } else {
                (first + second, end)
            }
        }),
    decreases d.buf.len(),
{
    lemma_line_end(d.buf);
    match line_end(d.buf) {
        None => {
            let second = drained(with_bytes(d, b)).0;
            assert(Seq::<EventView>::empty() + second =~= second);
        },
        Some(i) => {
            lemma_line_end_append(d.buf, b);
            let all = with_bytes(d, b);
            let raw = d.buf.take(i + 1);
            let rest = DecoderView { buf: d.buf.skip(i + 1), ..d };
            assert(all.buf.take(i + 1) =~= raw);
            assert(all.buf.skip(i + 1) =~= rest.buf + b);
            lemma_line_keeps_buf(rest, raw, rest.buf + b);
            let (events, mid) = raw_line_step(rest, raw);
            assert(DecoderView { buf: all.buf.skip(i + 1), ..all } == (DecoderView {
                buf: rest.buf + b,
                ..rest
            }));
            if !mid.done {
                lemma_feeds(mid, b);
                let (first, between) = drained(mid);
                let second = drained(with_bytes(between, b)).0;
                assert(events + (first + second) =~= (events + first) + second);
            }
        },
    }
}

/// What comes of a body that arrives in pieces, up to the event that ends the
/// stream.
pub open spec fn body_read(d: DecoderView, pieces: Seq<Seq<u8>>) -> (Seq<EventView>, DecoderView)
    decreases pieces.len(),
{
    if pieces.len() == 0 {
        (Seq::empty(), d)
    } else {
        let (first, mid) = body_read(d, pieces.drop_last());
        if mid.done {
            (first, mid)
        } else {
            let (second, end) = drained(with_bytes(mid, pieces.last()));
            (first + second, end)
        }
    }
}

/// The events of a body that arrives in pieces and then ends, up to the one that
/// ends the stream.
pub open spec fn answer(pieces: Seq<Seq<u8>>) -> Seq<EventView> {
    let (events, end) = body_read(fresh(), pieces);
    if end.done {
        events
    } else {
        events + ended(end).0
    }
}

proof fn lemma_body_whole(d: DecoderView, pieces: Seq<Seq<u8>>)
    requires
        !d.done,
        line_end(d.buf) is None,
    ensures
        ({
            let (events, end) = body_read(d, pieces);
            let (whole, last) = drained(with_bytes(d, bytes_of_pieces(pieces)));
            &&& events == whole
            &&& end.done == last.done
            &&& !end.done ==> end == last
        }),
    decreases pieces.len(),
{
    if pieces.len() == 0 {
        assert(d.buf + bytes_of_pieces(pieces) =~= d.buf);
    } else {
        let front = pieces.drop_last();
        lemma_body_whole(d, front);
        law_two_feeds(d, bytes_of_pieces(front), pieces.last());
    }
}

/// Where the body of an answer is cut cannot be seen in its events: two bodies
/// with the same bytes, cut at different places, within a character too, bring the
/// same events in the same order, up to the one that ends the stream.
pub proof fn law_cuts_not_seen(a: Seq<Seq<u8>>, b: Seq<Seq<u8>>)
    requires
        bytes_of_pieces(a) == bytes_of_pieces(b),
    ensures
        answer(a) == answer(b),
{
    lemma_body_whole(fresh(), a);
    lemma_body_whole(fresh(), b);
}

/// The identifiers of the calls.
pub open spec fn ids_in(events: Seq<EventView>) -> Seq<Seq<char>>
    decreases events.len(),
{
    if events.len() == 0 {
        Seq::empty()
    } else {
        match events.last() {
            EventView::ToolCall { id, .. } => ids_in(events.drop_last()).push(id),
            _ => ids_in(events.drop_last()),
        }
    }
}

/// The calls among the events are numbered in their order, from `n` on, and `m`
/// is the number behind them; as far as there are numbers enough.
pub open spec fn numbered(n: u32, events: Seq<EventView>, m: u32) -> bool {
    let ids = ids_in(events);
    n + ids.len() <= u32::MAX ==> ids == Seq::new(ids.len(), |i: int| call_id((n + i) as u32)) && m
        == n + ids.len()
}

proof fn lemma_ids_add(a: Seq<EventView>, b: Seq<EventView>)
    ensures
        ids_in(a + b) == ids_in(a) + ids_in(b),
    decreases b.len(),
{
    if b.len() == 0 {
        assert(a + b =~= a);
        assert(ids_in(a) + ids_in(b) =~= ids_in(a));
    } else {
        assert((a + b).drop_last() =~= a + b.drop_last());
        assert((a + b).last() == b.last());
        lemma_ids_add(a, b.drop_last());
        assert(ids_in(a + b) =~= ids_in(a) + ids_in(b));
    }
}

proof fn lemma_numbered_add(n: u32, a: Seq<EventView>, m: u32, b: Seq<EventView>, k: u32)
    requires
        numbered(n, a, m),
        numbered(m, b, k),
    ensures
        numbered(n, a + b, k),
{
    lemma_ids_add(a, b);
    let ids = ids_in(a + b);
    if n + ids.len() <= u32::MAX {
        let wanted = Seq::new(ids.len(), |i: int| call_id((n + i) as u32));
        assert forall|i: int| 0 <= i < ids.len() implies ids[i] == wanted[i] by {
            if i < ids_in(a).len() {
                assert(ids[i] == ids_in(a)[i]);
            } else {
                assert(ids[i] == ids_in(b)[i - ids_in(a).len()]);
                assert(n + i == m + (i - ids_in(a).len()));
            }
        }
        assert(ids =~= wanted);
    }
}

/// Events without a call leave the numbers as they are.
proof fn lemma_numbered_none(n: u32, events: Seq<EventView>)
    requires
        forall|i: int| 0 <= i < events.len() ==> !(#[trigger] events[i] is ToolCall),
    ensures
        numbered(n, events, n),
    decreases events.len(),
{
    if events.len() > 0 {
        let front = events.drop_last();
        assert forall|i: int| 0 <= i < front.len() implies !(#[trigger] front[i] is ToolCall) by {
            assert(front[i] == events[i]);
        }
        lemma_numbered_none(n, front);
        assert(!(events[events.len() - 1] is ToolCall));
    } else {
        assert(ids_in(events) =~= Seq::new(0, |i: int| call_id((n + i) as u32)));
    }
}

/// The calls among the flushes are numbered in their order.
pub proof fn law_calls_numbered(n: u32, flushes: Seq<FlushView>)
    ensures
        numbered(n, emitted(n, flushes).0, emitted(n, flushes).1),
    decreases flushes.len(),
{
    if flushes.len() == 0 {
        lemma_numbered_none(n, emitted(n, flushes).0);
    } else {
        law_calls_numbered(n, flushes.drop_last());
        let (front, m) = emitted(n, flushes.drop_last());
        let one = seq![event_of(m, flushes.last())];
        let after = emitted(n, flushes).1;
        assert(one.drop_last() =~= Seq::<EventView>::empty());
        if flushes.last() is ToolCall {
            reveal_with_fuel(ids_in, 2);
            assert(ids_in(one) =~= seq![call_id(m)]);
            assert(numbered(m, one, after)) by {
                assert(seq![call_id(m)] =~= Seq::new(1, |i: int| call_id((m + i) as u32)));
            }
        } else {
            lemma_numbered_none(m, one);
        }
        lemma_numbered_add(n, front, m, one, after);
        assert(front + one =~= emitted(n, flushes).0);
    }
}

/// The calls of a line are numbered in their order, on from the calls of the
/// lines before.
pub proof fn law_line_numbered(d: DecoderView, l: LineView)
    ensures
        numbered(d.tool_index, line_step(d, l).0, line_step(d, l).1.tool_index),
{
    let n = d.tool_index;
    match l.error {
        Some(_) => {
            lemma_numbered_none(n, line_step(d, l).0);
        },
        None => {
            let (flushes, _) = if l.content.len() > 0 {
                pushed(d.scan, l.content)
            } else {
                (Seq::empty(), d.scan)
            };
            let (replayed, m) = emitted(n, flushes);
            law_calls_numbered(n, flushes);
            let reasoning = if l.thinking.len() > 0 {
                seq![EventView::Reasoning(l.thinking)]
            } else {
                Seq::empty()
            };
            lemma_numbered_none(m, reasoning);
            lemma_numbered_add(n, replayed, m, reasoning, m);
            let (native, k) = emitted(m, native_flushes(l.calls));
            law_calls_numbered(m, native_flushes(l.calls));
            lemma_numbered_add(n, replayed + reasoning, m, native, k);
            let (events, mid) = message_step(d, l.content, l.thinking, l.calls);
            if l.done {
                let (last, end) = done_step(mid, l);
                let (flushed, j) = emitted(k, finished(mid.scan));
                law_calls_numbered(k, finished(mid.scan));
                let close = usage_of(l).push(
                    EventView::Done { truncated: mid.truncated || l.cut_short },
                );
                lemma_numbered_none(j, close);
                lemma_numbered_add(k, flushed, j, close, j);
                assert(flushed + close =~= last);
                lemma_numbered_add(n, events, k, last, j);
            }
        },
    }
}

/// The calls of the lines that a decoder holds are numbered in their order. So
/// no two calls of an answer have one identifier: see [`law_ids_distinct`].
pub proof fn law_feed_numbered(d: DecoderView)
    ensures
        numbered(d.tool_index, drained(d).0, drained(d).1.tool_index),
    decreases d.buf.len(),
{
    lemma_line_end(d.buf);
    match line_end(d.buf) {
        None => {
            lemma_numbered_none(d.tool_index, Seq::empty());
        },
        Some(i) => {
            let rest = DecoderView { buf: d.buf.skip(i + 1), ..d };
            let raw = d.buf.take(i + 1);
            lemma_line_keeps_buf(rest, raw, rest.buf);
            let (events, mid) = raw_line_step(rest, raw);
            assert(numbered(d.tool_index, events, mid.tool_index)) by {
                reveal(text_line_step);
                let line = trim(lossy_text(raw));
                lemma_numbered_none(d.tool_index, Seq::empty());
                if let Some(j) = json_of(line) {
                    law_line_numbered(rest, line_of(j));
                }
            }
            if !mid.done {
                law_feed_numbered(mid);
                let (more, end) = drained(mid);
                lemma_numbered_add(d.tool_index, events, mid.tool_index, more, end.tool_index);
            }
        },
    }
}

/// The calls that come with the end of the body are numbered on.
pub proof fn law_finish_numbered(d: DecoderView)
    ensures
        numbered(d.tool_index, ended(d).0, ended(d).1.tool_index),
{
    let (flushed, n) = emitted(d.tool_index, finished(d.scan));
    law_calls_numbered(d.tool_index, finished(d.scan));
    if !d.done {
        let close = seq![EventView::Done { truncated: d.truncated }];
        lemma_numbered_none(n, close);
        lemma_numbered_add(d.tool_index, flushed, n, close, n);
        assert(flushed + close =~= ended(d).0);
    }
}

/// Two calls with different numbers have different identifiers.
pub proof fn law_ids_distinct(a: u32, b: u32)
    requires
        a != b,
    ensures
        call_id(a) != call_id(b),
{
    let head = "minicpm_call_"@;
    lemma_decimal_injective(a as nat, b as nat);
    if call_id(a) == call_id(b) {
        assert(call_id(a).skip(head.len() as int) =~= decimal(a as nat));
        assert(call_id(b).skip(head.len() as int) =~= decimal(b as nat));
    }
}

/// An identifier is a fixed word with the number in decimal notation behind it,
/// and the numbers count up by one.
pub proof fn law_id_form(n: u32)
    ensures
        call_id(n) == "minicpm_call_"@ + decimal(n as nat),
        n < u32::MAX ==> next_number(n) == n + 1,
{
}

} // verus!
