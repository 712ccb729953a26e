//! What holds of the stream as a whole.

use vstd::prelude::*;
use vstd::utf8::{decode_utf8, valid_utf8};

use crate::bytes::{
    bytes_of_pieces, lemma_utf8_behind, lemma_valid_len, lemma_valid_len_behind, valid_len,
};
use crate::core_layer::events::EventView;
use crate::core_layer::replayer::{finished, pushed, FlushView, ReplayerView};
use crate::core_layer::stream::{
    call_id, chunk_step, content_step, end_step, events_of, next_line_of, next_number, received,
    rest_step, sent, usage_of, ChunkView, StreamView,
};
use crate::decimal::{decimal, lemma_decimal_injective};
use crate::text::{find, lemma_find, lemma_find_append, trim};

verus! {

/// Where the bytes of the body are cut does not matter, not even within a
/// character: no text is lost and none is broken.
pub proof fn law_two_pieces(s: StreamView, a: Seq<u8>, b: Seq<u8>)
    ensures
        received(received(s, a), b) == received(s, a + b),
{
    let first = s.bytes + a;
    let n = valid_len(first) as int;
    let rest = first.skip(n);
    let m = valid_len(rest + b) as int;
    let all = s.bytes + (a + b);
    lemma_valid_len(first);
    lemma_valid_len(rest + b);
    assert(all =~= first.take(n) + (rest + b));
    lemma_valid_len_behind(first.take(n), rest + b);
    assert(all.take(n + m) =~= first.take(n) + (rest + b).take(m));
    lemma_utf8_behind(first.take(n), (rest + b).take(m));
    assert(all.skip(n + m) =~= (rest + b).skip(m));
    assert((s.text + decode_utf8(first.take(n))) + decode_utf8((rest + b).take(m)) =~= s.text + (
    decode_utf8(first.take(n)) + decode_utf8((rest + b).take(m))));
}

/// A body that is UTF-8 comes out as the text that it is, once all of it has
/// come.
pub proof fn law_utf8_body(s: StreamView, body: Seq<u8>)
    requires
        s.bytes.len() == 0,
        valid_utf8(body),
    ensures
        received(s, body) == (StreamView { text: s.text + decode_utf8(body), ..s }),
{
    assert(s.bytes + body =~= body);
    assert(body.take(body.len() as int) =~= body);
    assert(body.skip(body.len() as int) =~= s.bytes);
}

/// A line that can be handed out is not changed by text that comes later, and
/// where none can be, the lines that were skipped do not matter.
pub proof fn law_lines_kept(text: Seq<char>, more: Seq<char>)
    ensures
        match next_line_of(text) {
            (Some(line), rest) => next_line_of(text + more) == (Some(line), rest + more),
            (None, rest) => next_line_of(text + more) == next_line_of(rest + more),
        },
    decreases text.len(),
{
    reveal_strlit("\n");
    lemma_find(text, "\n"@);
    if let Some(i) = find(text, "\n"@) {
        lemma_find_append(text, more, "\n"@);
        assert((text + more).take(i) =~= text.take(i));
        assert((text + more).skip(i + 1) =~= text.skip(i + 1) + more);
        if trim(text.take(i)).len() == 0 {
            law_lines_kept(text.skip(i + 1), more);
        }
    }
}

/// The lines of `text` that are complete and not blank, in their order, and
/// what is left behind them.
pub open spec fn lines_of(text: Seq<char>) -> (Seq<Seq<char>>, Seq<char>)
    decreases text.len(),
{
    proof {
        lemma_next_line_shrinks(text);
    }
    match next_line_of(text) {
        (Some(line), rest) => {
            let (more, left) = lines_of(rest);
            (seq![line] + more, left)
        },
        (None, rest) => (Seq::empty(), rest),
    }
}

/// A line that is handed out makes the text shorter.
pub proof fn lemma_next_line_shrinks(text: Seq<char>)
    ensures
        next_line_of(text).1.len() <= text.len(),
        next_line_of(text).0 is Some ==> next_line_of(text).1.len() < text.len(),
    decreases text.len(),
{
    reveal_strlit("\n");
    lemma_find(text, "\n"@);
    if let Some(i) = find(text, "\n"@) {
        if trim(text.take(i)).len() == 0 {
            lemma_next_line_shrinks(text.skip(i + 1));
        }
    }
}

/// The lines of two texts are those of the first, and then those of what it
/// left with the second behind it.
proof fn lemma_lines_add(text: Seq<char>, more: Seq<char>)
    ensures
        ({
            let (first, left) = lines_of(text);
            let (second, rest) = lines_of(left + more);
            lines_of(text + more) == (first + second, rest)
        }),
    decreases text.len(),
{
    law_lines_kept(text, more);
    lemma_next_line_shrinks(text);
    match next_line_of(text) {
        (Some(line), rest) => {
            lemma_lines_add(rest, more);
            let (first, left) = lines_of(rest);
            let second = lines_of(left + more).0;
            assert(seq![line] + (first + second) =~= (seq![line] + first) + second);
        },
        (None, rest) => {
            let second = lines_of(rest + more).0;
            assert(Seq::<Seq<char>>::empty() + second =~= second);
        },
    }
}

/// The lines that are handed out when the pieces come one by one, and all lines
/// are taken behind each of them; and the state then.
pub open spec fn lines_of_pieces(s: StreamView, pieces: Seq<Seq<u8>>) -> (
    Seq<Seq<char>>,
    StreamView,
)
    decreases pieces.len(),
{
    if pieces.len() == 0 {
        (Seq::empty(), s)
    } else {
        let (first, mid) = lines_of_pieces(s, pieces.drop_last());
        let all = received(mid, pieces.last());
        let (second, left) = lines_of(all.text);
        (first + second, StreamView { text: left, ..all })
    }
}

/// Where the bytes of a body are cut cannot be seen in its lines: the pieces
/// bring the same lines in the same order as the whole body at once.
pub proof fn law_lines_of_body(s: StreamView, pieces: Seq<Seq<u8>>)
    requires
        pieces.len() > 0,
    ensures
        lines_of_pieces(s, pieces) == lines_of_pieces(s, seq![bytes_of_pieces(pieces)]),
    decreases pieces.len(),
{
    let front = pieces.drop_last();
    let whole = bytes_of_pieces(pieces);
    assert(seq![whole].drop_last() =~= Seq::<Seq<u8>>::empty());
    assert(seq![whole].last() == whole);
    let none = Seq::<Seq<char>>::empty();
    assert(lines_of_pieces(s, Seq::empty()) == (none, s));
    if pieces.len() == 1 {
        assert(front =~= Seq::<Seq<u8>>::empty());
        assert(bytes_of_pieces(front) =~= Seq::<u8>::empty());
        assert(bytes_of_pieces(front) + pieces.last() =~= pieces.last());
        assert(seq![whole] =~= pieces);
    } else {
        let a = bytes_of_pieces(front);
        let b = pieces.last();
        law_lines_of_body(s, front);
        assert(seq![a].drop_last() =~= Seq::<Seq<u8>>::empty());
        assert(seq![a].last() == a);
        law_two_pieces(s, a, b);
        let one = received(s, a);
        let (first, left) = lines_of(one.text);
        let mid = StreamView { text: left, ..one };
        assert(none + first =~= first);
        assert(lines_of_pieces(s, front) == (first, mid));
        let two = received(mid, b);
        let behind = decode_utf8((one.bytes + b).take(valid_len(one.bytes + b) as int));
        assert(received(one, b).text == one.text + behind);
        assert(two.text == left + behind);
        lemma_lines_add(one.text, behind);
        let (second, rest) = lines_of(two.text);
        assert(none + (first + second) =~= first + second);
        assert(lines_of_pieces(s, pieces) == (
            first + second,
            StreamView { text: rest, ..two },
        ));
    }
}

/// The event ends the stream.
pub open spec fn is_end(e: EventView) -> bool {
    e is Done || e is Error
}

/// No event ends the stream.
pub open spec fn goes_on(events: Seq<EventView>) -> bool {
    forall|i: int| 0 <= i < events.len() ==> !is_end(#[trigger] events[i])
}

/// The stream ends with the last event, and not before.
pub open spec fn ends(events: Seq<EventView>) -> bool {
    events.len() > 0 && is_end(events.last()) && goes_on(events.drop_last())
}

/// What goes on, and then goes on or ends, does so as a whole.
pub proof fn lemma_goes_on_add(a: Seq<EventView>, b: Seq<EventView>)
    requires
        goes_on(a),
    ensures
        goes_on(b) ==> goes_on(a + b),
        ends(b) ==> ends(a + b),
{
    if goes_on(b) {
        assert forall|i: int| 0 <= i < (a + b).len() implies !is_end(#[trigger] (a + b)[i]) by {
            if i < a.len() {
                assert((a + b)[i] == a[i]);
            } else {
                assert((a + b)[i] == b[i - a.len()]);
            }
        }
    }
    if ends(b) {
        let front = b.drop_last();
        assert((a + b).drop_last() =~= a + front);
        assert forall|i: int| 0 <= i < (a + front).len() implies !is_end(
            #[trigger] (a + front)[i],
        ) by {
            if i < a.len() {
                assert((a + front)[i] == a[i]);
            } else {
                assert((a + front)[i] == front[i - a.len()]);
            }
        }
    }
}

proof fn lemma_sent_goes_on(n: u32, flushes: Seq<FlushView>)
    ensures
        goes_on(sent(n, flushes).0),
    decreases flushes.len(),
{
    if flushes.len() > 0 {
        lemma_sent_goes_on(n, flushes.drop_last());
        let (front, m) = sent(n, flushes.drop_last());
        lemma_goes_on_add(front, events_of(m, flushes.last()));
    }
}

/// The stream is complete when its end has been sent, and not before; the end
/// comes last and once.
pub proof fn law_done_ends(r: ReplayerView, c: ChunkView)
    ensures
        ({
            let (events, _, complete) = chunk_step(r, c);
            &&& complete ==> ends(events) && events.last() == EventView::Done { truncated: false }
            &&& !complete ==> goes_on(events)
        }),
        ({
            let (events, _) = end_step(r);
            ends(events) && events.last() == EventView::Done { truncated: false }
        }),
{
    lemma_rest_goes_on(r);
    assert(end_step(r).0.drop_last() =~= rest_step(r).0);
    let (events, mid) = match c.message {
        Some(content) => content_step(r, content),
        None => (Seq::empty(), r),
    };
    if let Some(content) = c.message {
        lemma_sent_goes_on(r.counter, pushed(r.scan, Seq::empty(), content).0);
    }
    lemma_rest_goes_on(mid);
    let rest = rest_step(mid).0;
    lemma_goes_on_add(rest, usage_of(c));
    let close = (rest + usage_of(c)).push(EventView::Done { truncated: false });
    assert(close.drop_last() =~= rest + usage_of(c));
    lemma_goes_on_add(events, close);
}

proof fn lemma_rest_goes_on(r: ReplayerView)
    ensures
        goes_on(rest_step(r).0),
{
    lemma_sent_goes_on(r.counter, finished(r.scan, Seq::empty()));
}

/// The identifiers of the calls that are complete.
pub open spec fn ids_in(events: Seq<EventView>) -> Seq<Seq<char>>
    decreases events.len(),
{
    if events.len() == 0 {
        Seq::empty()
    } else {
        match events.last() {
            EventView::ToolCallDone { id, .. } => ids_in(events.drop_last()).push(id),
            _ => ids_in(events.drop_last()),
        }
    }
}

proof fn lemma_ids_add(a: Seq<EventView>, b: Seq<EventView>)
    ensures
        ids_in(a + b) == ids_in(a) + ids_in(b),
    decreases b.len(),
{
    if b.len() == 0 {
        assert(a + b =~= a);
        assert(ids_in(a) + ids_in(b) =~= ids_in(a));
    } else {
        assert((a + b).drop_last() =~= a + b.drop_last());
        assert((a + b).last() == b.last());
        lemma_ids_add(a, b.drop_last());
        assert(ids_in(a + b) =~= ids_in(a) + ids_in(b));
    }
}

/// The calls among the events are numbered in their order, on from the `n` calls
/// that have come before, and `m` is the number of calls behind them; as far as
/// there are numbers enough.
pub open spec fn numbered(n: u32, events: Seq<EventView>, m: u32) -> bool {
    let ids = ids_in(events);
    n + ids.len() <= u32::MAX ==> ids == Seq::new(ids.len(), |i: int| call_id((n + 1 + i) as u32))
        && m == n + ids.len()
}

proof fn lemma_numbered_add(n: u32, a: Seq<EventView>, m: u32, b: Seq<EventView>, k: u32)
    requires
        numbered(n, a, m),
        numbered(m, b, k),
    ensures
        numbered(n, a + b, k),
{
    lemma_ids_add(a, b);
    let ids = ids_in(a + b);
    if n + ids.len() <= u32::MAX {
        let wanted = Seq::new(ids.len(), |i: int| call_id((n + 1 + i) as u32));
        assert forall|i: int| 0 <= i < ids.len() implies ids[i] == wanted[i] by {
            if i < ids_in(a).len() {
                assert(ids[i] == ids_in(a)[i]);
            } else {
                assert(ids[i] == ids_in(b)[i - ids_in(a).len()]);
                assert(n + 1 + i == m + 1 + (i - ids_in(a).len()));
            }
        }
        assert(ids =~= wanted);
    }
}

/// Events without a call leave the numbers as they are.
proof fn lemma_numbered_none(n: u32, events: Seq<EventView>)
    requires
        forall|i: int| 0 <= i < events.len() ==> !(#[trigger] events[i] is ToolCallDone),
    ensures
        numbered(n, events, n),
    decreases events.len(),
{
    if events.len() > 0 {
        let front = events.drop_last();
        assert forall|i: int| 0 <= i < front.len() implies !(#[trigger] front[i] is ToolCallDone) by {
            assert(front[i] == events[i]);
        }
        lemma_numbered_none(n, front);
        assert(!(events[events.len() - 1] is ToolCallDone));
    } else {
        assert(ids_in(events) =~= Seq::new(0, |i: int| call_id((n + 1 + i) as u32)));
    }
}

/// The calls among the flushes are numbered in their order.
pub proof fn law_calls_numbered(n: u32, flushes: Seq<FlushView>)
    ensures
        numbered(n, sent(n, flushes).0, sent(n, flushes).1),
    decreases flushes.len(),
{
    if flushes.len() == 0 {
        lemma_numbered_none(n, sent(n, flushes).0);
    } else {
        let front = flushes.drop_last();
        law_calls_numbered(n, front);
        let (events, m) = sent(n, front);
        let last = events_of(m, flushes.last());
        let after = sent(n, flushes).1;
        if flushes.last() is ToolCall {
            let before = last.drop_last();
            let call = seq![last.last()];
            lemma_numbered_none(m, before);
            reveal_with_fuel(ids_in, 2);
            assert(call.drop_last() =~= Seq::<EventView>::empty());
            assert(ids_in(call) =~= seq![call_id(next_number(m))]);
            assert(numbered(m, call, after)) by {
                if m < u32::MAX {
                    assert(seq![call_id(next_number(m))] =~= Seq::new(
                        1,
                        |i: int| call_id((m + 1 + i) as u32),
                    ));
                }
            }
            lemma_numbered_add(m, before, m, call, after);
            assert(before + call =~= last);
        } else {
            lemma_numbered_none(m, last);
        }
        lemma_numbered_add(n, events, m, last, after);
    }
}

/// The calls of a line, and those that come with the end of the body, are
/// numbered in their order, on from the calls before. So no two calls of an answer
/// have one identifier: see [`law_ids_distinct`].
pub proof fn law_line_numbered(r: ReplayerView, c: ChunkView)
    ensures
        numbered(r.counter, chunk_step(r, c).0, chunk_step(r, c).1.counter),
        numbered(r.counter, end_step(r).0, end_step(r).1.counter),
{
    let n = r.counter;
    lemma_rest_numbered(r, Seq::empty());
    assert(rest_step(r).0 + (Seq::<EventView>::empty()).push(EventView::Done { truncated: false })
        =~= end_step(r).0);
    lemma_numbered_none(n, Seq::empty());
    let (events, mid) = match c.message {
        Some(content) => content_step(r, content),
        None => (Seq::empty(), r),
    };
    if let Some(content) = c.message {
        law_calls_numbered(n, pushed(r.scan, Seq::empty(), content).0);
    }
    lemma_rest_numbered(mid, usage_of(c));
    let rest = rest_step(mid).0;
    let close = usage_of(c).push(EventView::Done { truncated: false });
    lemma_numbered_add(n, events, mid.counter, rest + close, rest_step(mid).1.counter);
    assert(rest + close =~= (rest + usage_of(c)).push(EventView::Done { truncated: false }));
}

proof fn lemma_rest_numbered(r: ReplayerView, usage: Seq<EventView>)
    requires
        forall|i: int| 0 <= i < usage.len() ==> !(#[trigger] usage[i] is ToolCallDone),
    ensures
        ({
            let (rest, end) = rest_step(r);
            numbered(
                r.counter,
                rest + usage.push(EventView::Done { truncated: false }),
                end.counter,
            )
        }),
{
    let (rest, end) = rest_step(r);
    law_calls_numbered(r.counter, finished(r.scan, Seq::empty()));
    let close = usage.push(EventView::Done { truncated: false });
    lemma_numbered_none(end.counter, close);
    lemma_numbered_add(r.counter, rest, end.counter, close, end.counter);
}

/// Two calls with different numbers have different identifiers.
pub proof fn law_ids_distinct(a: u32, b: u32)
    requires
        a != b,
    ensures
        call_id(a) != call_id(b),
{
    let head = "call_"@;
    lemma_decimal_injective(a as nat, b as nat);
    if call_id(a) == call_id(b) {
        assert(call_id(a).skip(head.len() as int) =~= decimal(a as nat));
        assert(call_id(b).skip(head.len() as int) =~= decimal(b as nat));
    }
}

/// An identifier is a fixed word with the number in decimal notation behind it,
/// and the numbers count up by one.
pub proof fn law_id_form(n: u32)
    ensures
        call_id(n) == "call_"@ + decimal(n as nat),
        n < u32::MAX ==> next_number(n) == n + 1,
{
}

} // verus!
