//! What holds of the capabilities layer as a whole.

use vstd::prelude::*;

use crate::call::{call_of, CallView};
use crate::capabilities::replayer::{
    after_finish, finished, flush_of, flushes, pushed, FlushView,
};
use crate::markup::Cdata;
use crate::scanner::{fed, reasoning_piece, scan, start, Mode, PieceView, ScanView};
use crate::scanner_laws;
use crate::scanner_laws::{
    all_text, holding, law_function_block, law_no_empty_piece, law_nothing_of_nothing,
    law_open_function, law_open_tag_waits, law_open_think, law_plain_text_kept, law_think_block,
    opens_nothing, texts, think_block,
};
use crate::streaming::{collect, joins_up, law_chunks, text_of_chunks};
use crate::text::{find, lacks, lemma_find};

verus! {

/// `out` with `f` behind it, where a text goes on with the text before it, and
/// a reasoning with the reasoning before it.
pub open spec fn merged_with(out: Seq<FlushView>, f: FlushView) -> Seq<FlushView> {
    if out.len() == 0 {
        seq![f]
    } else {
        match (out.last(), f) {
            (FlushView::Text(a), FlushView::Text(b)) => out.drop_last().push(
                FlushView::Text(a + b),
            ),
            (FlushView::Reasoning(a), FlushView::Reasoning(b)) => out.drop_last().push(
                FlushView::Reasoning(a + b),
            ),
            _ => out.push(f),
        }
    }
}

/// The flushes with every run of texts, and every run of reasonings, made one.
pub open spec fn merged(fs: Seq<FlushView>) -> Seq<FlushView>
    decreases fs.len(),
{
    if fs.len() == 0 {
        Seq::empty()
    } else {
        merged_with(merged(fs.drop_last()), fs.last())
    }
}

/// The calls among the flushes.
pub open spec fn calls_in(fs: Seq<FlushView>) -> Seq<CallView>
    decreases fs.len(),
{
    if fs.len() == 0 {
        Seq::empty()
    } else {
        match fs.last() {
            FlushView::ToolCall(c) => calls_in(fs.drop_last()).push(c),
            _ => calls_in(fs.drop_last()),
        }
    }
}

/// Collects pieces as merged flushes.
pub open spec fn merging() -> spec_fn(Seq<FlushView>, PieceView) -> Seq<FlushView> {
    |out: Seq<FlushView>, p: PieceView|
        if flush_of(p).len() == 0 {
            out
        } else {
            merged_with(out, flush_of(p)[0])
        }
}

/// Collects the calls out of pieces.
pub open spec fn calling() -> spec_fn(Seq<CallView>, PieceView) -> Seq<CallView> {
    |out: Seq<CallView>, p: PieceView| out + calls_in(flush_of(p))
}

proof fn lemma_merging_joins()
    ensures
        joins_up(merging()),
{
    let f = merging();
    assert forall|o: Seq<FlushView>, a: Seq<char>, b: Seq<char>, joins: bool|
        a.len() > 0 && b.len() > 0 implies #[trigger] f(
        f(o, PieceView::Text { text: a, joins }),
        PieceView::Text { text: b, joins: true },
    ) == f(o, PieceView::Text { text: a + b, joins }) by {
        let x = merged_with(o, FlushView::Text(a));
        assert(merged_with(x, FlushView::Text(b)) =~= merged_with(o, FlushView::Text(a + b))) by {
            if o.len() > 0 && o.last() is Text {
                assert(o.last()->Text_0 + (a + b) =~= (o.last()->Text_0 + a) + b);
                assert(x.drop_last() =~= o.drop_last());
            } else {
                assert(x.drop_last() =~= o);
            }
        }
    }
    assert forall|o: Seq<FlushView>, a: Seq<char>, b: Seq<char>, joins: bool|
        a.len() > 0 && b.len() > 0 implies #[trigger] f(
        f(o, PieceView::Reasoning { text: a, joins }),
        PieceView::Reasoning { text: b, joins: true },
    ) == f(o, PieceView::Reasoning { text: a + b, joins }) by {
        let x = merged_with(o, FlushView::Reasoning(a));
        assert(merged_with(x, FlushView::Reasoning(b)) =~= merged_with(
            o,
            FlushView::Reasoning(a + b),
        )) by {
            if o.len() > 0 && o.last() is Reasoning {
                assert(o.last()->Reasoning_0 + (a + b) =~= (o.last()->Reasoning_0 + a) + b);
                assert(x.drop_last() =~= o.drop_last());
            } else {
                assert(x.drop_last() =~= o);
            }
        }
    }
}

proof fn lemma_calling_joins()
    ensures
        joins_up(calling()),
{
    let f = calling();
    assert forall|o: Seq<CallView>, p: PieceView| !(p is Block) implies #[trigger] f(o, p) == o by {
        assert(flush_of(p).len() == 1);
        assert(flush_of(p).drop_last() =~= Seq::<FlushView>::empty());
        reveal_with_fuel(calls_in, 2);
        assert(calls_in(flush_of(p)) =~= Seq::<CallView>::empty());
        assert(o + calls_in(flush_of(p)) =~= o);
    }
}

/// Merging goes from front to back.
proof fn lemma_merged_pieces(pieces: Seq<PieceView>, out: Seq<FlushView>)
    ensures
        collect(merging(), merged(out), pieces) == merged(out + flushes(pieces)),
    decreases pieces.len(),
{
    if pieces.len() == 0 {
        assert(out + flushes(pieces) =~= out);
    } else {
        let p = pieces.last();
        let front = pieces.drop_last();
        lemma_merged_pieces(front, out);
        let all = out + flushes(pieces);
        if flush_of(p).len() == 0 {
            assert(all =~= out + flushes(front));
        } else {
            assert(flush_of(p).len() == 1);
            assert(all.drop_last() =~= out + flushes(front));
            assert(all.last() == flush_of(p)[0]);
        }
    }
}

/// The calls of a list are those of its parts.
pub proof fn lemma_calls_add(a: Seq<FlushView>, b: Seq<FlushView>)
    ensures
        calls_in(a + b) == calls_in(a) + calls_in(b),
    decreases b.len(),
{
    if b.len() == 0 {
        assert(a + b =~= a);
        assert(calls_in(a) + calls_in(b) =~= calls_in(a));
    } else {
        assert((a + b).drop_last() =~= a + b.drop_last());
        lemma_calls_add(a, b.drop_last());
        assert((a + b).last() == b.last());
        assert(calls_in(a + b) =~= calls_in(a) + calls_in(b));
    }
}

proof fn lemma_calls_pieces(pieces: Seq<PieceView>, out: Seq<CallView>)
    ensures
        collect(calling(), out, pieces) == out + calls_in(flushes(pieces)),
    decreases pieces.len(),
{
    if pieces.len() == 0 {
        assert(out + calls_in(flushes(pieces)) =~= out);
    } else {
        let front = pieces.drop_last();
        lemma_calls_pieces(front, out);
        lemma_calls_add(flushes(front), flush_of(pieces.last()));
        assert(collect(calling(), out, pieces) =~= out + calls_in(flushes(pieces)));
    }
}

/// Where a chunk ends does not matter: to push `a` and then `b` leaves the
/// replayer in the same state as to push them as one chunk, makes the same
/// calls, and the same flushes once runs of texts and runs of reasonings are
/// made one.
pub proof fn law_two_chunks(s: ScanView, a: Seq<char>, b: Seq<char>)
    ensures
        ({
            let (first, between) = pushed(s, a);
            let (second, end) = pushed(between, b);
            let (whole, last) = pushed(s, a + b);
            &&& end == last
            &&& calls_in(first + second) == calls_in(whole)
            &&& merged(first + second) == merged(whole)
        }),
{
    lemma_merging_joins();
    lemma_calling_joins();
    let t = fed(s, a);
    let (p, between) = scan(true, t);
    let (q, end) = scan(true, fed(between, b));
    let (w, last) = scan(true, fed(t, b));
    assert((s.pending + a) + b =~= s.pending + (a + b));
    let none = Seq::<FlushView>::empty();
    law_chunks(merging(), merged(none), true, t, b);
    lemma_merged_pieces(p, none);
    lemma_merged_pieces(q, flushes(p));
    lemma_merged_pieces(w, none);
    assert(none + flushes(p) =~= flushes(p));
    assert(none + flushes(w) =~= flushes(w));
    let no_calls = Seq::<CallView>::empty();
    law_chunks(calling(), no_calls, true, t, b);
    lemma_calls_pieces(p, no_calls);
    lemma_calls_pieces(q, no_calls + calls_in(flushes(p)));
    lemma_calls_pieces(w, no_calls);
    assert(no_calls + calls_in(flushes(p)) =~= calls_in(flushes(p)));
    assert(no_calls + calls_in(flushes(w)) =~= calls_in(flushes(w)));
    lemma_calls_add(flushes(p), flushes(q));
}

/// What a list of chunks comes to, pushed one by one.
pub open spec fn pushed_all(s: ScanView, chunks: Seq<Seq<char>>) -> (Seq<FlushView>, ScanView)
    decreases chunks.len(),
{
    if chunks.len() == 0 {
        (Seq::empty(), s)
    } else {
        let (first, between) = pushed_all(s, chunks.drop_last());
        let (second, end) = pushed(between, chunks.last());
        (first + second, end)
    }
}

/// What is merged may be merged again with more behind it.
proof fn lemma_merged_add(a: Seq<FlushView>, b: Seq<FlushView>, c: Seq<FlushView>)
    requires
        merged(a) == merged(b),
    ensures
        merged(a + c) == merged(b + c),
    decreases c.len(),
{
    if c.len() == 0 {
        assert(a + c =~= a);
        assert(b + c =~= b);
    } else {
        lemma_merged_add(a, b, c.drop_last());
        assert((a + c).drop_last() =~= a + c.drop_last());
        assert((b + c).drop_last() =~= b + c.drop_last());
    }
}

/// An answer that is streamed in chunks of any size, down to single
/// characters, makes the same calls as the whole answer at once, and the same
/// flushes once runs of texts and runs of reasonings are made one.
pub proof fn law_streamed_as_whole(s: ScanView, chunks: Seq<Seq<char>>)
    requires
        chunks.len() > 0,
    ensures
        ({
            let (streamed, end) = pushed_all(s, chunks);
            let (whole, last) = pushed(s, text_of_chunks(chunks));
            &&& end == last
            &&& calls_in(streamed + finished(end)) == calls_in(whole + finished(last))
            &&& merged(streamed + finished(end)) == merged(whole + finished(last))
        }),
    decreases chunks.len(),
{
    lemma_streamed(s, chunks);
    let (streamed, end) = pushed_all(s, chunks);
    let (whole, last) = pushed(s, text_of_chunks(chunks));
    lemma_calls_add(streamed, finished(end));
    lemma_calls_add(whole, finished(end));
    lemma_merged_add(streamed, whole, finished(end));
}

proof fn lemma_streamed(s: ScanView, chunks: Seq<Seq<char>>)
    requires
        chunks.len() > 0,
    ensures
        ({
            let (streamed, end) = pushed_all(s, chunks);
            let (whole, last) = pushed(s, text_of_chunks(chunks));
            &&& end == last
            &&& calls_in(streamed) == calls_in(whole)
            &&& merged(streamed) == merged(whole)
        }),
    decreases chunks.len(),
{
    let front = chunks.drop_last();
    if chunks.len() == 1 {
        assert(front =~= Seq::<Seq<char>>::empty());
        assert(text_of_chunks(front) + chunks.last() =~= chunks.last());
        let second = pushed(s, chunks.last()).0;
        assert(pushed_all(s, front) == (Seq::<FlushView>::empty(), s));
        assert(Seq::<FlushView>::empty() + second =~= second);
    } else {
        lemma_streamed(s, front);
        law_two_chunks(s, text_of_chunks(front), chunks.last());
        let (first, between) = pushed_all(s, front);
        let (whole, _) = pushed(s, text_of_chunks(front));
        let second = pushed(between, chunks.last()).0;
        lemma_calls_add(first, second);
        lemma_calls_add(whole, second);
        lemma_merged_add(first, whole, second);
    }
}

/// The flush that holds `text`; none where it is empty.
pub open spec fn text_flush(text: Seq<char>) -> Seq<FlushView> {
    if text.len() == 0 {
        Seq::empty()
    } else {
        seq![FlushView::Text(text)]
    }
}

/// The flush that holds the reasoning `text`; none where it is empty.
pub open spec fn reasoning_flush(text: Seq<char>) -> Seq<FlushView> {
    if text.len() == 0 {
        Seq::empty()
    } else {
        seq![FlushView::Reasoning(text)]
    }
}

proof fn lemma_merged_texts(pieces: Seq<PieceView>)
    requires
        all_text(pieces),
    ensures
        pieces.len() == 0 ==> merged(flushes(pieces)) == Seq::<FlushView>::empty(),
        pieces.len() > 0 ==> merged(flushes(pieces)) == seq![FlushView::Text(texts(pieces))],
    decreases pieces.len(),
{
    if pieces.len() > 0 {
        let front = pieces.drop_last();
        assert forall|i: int| 0 <= i < front.len() implies #[trigger] front[i] is Text by {
            assert(pieces[i] is Text);
        }
        lemma_merged_texts(front);
        assert(pieces[pieces.len() - 1] is Text);
        let text = pieces.last()->Text_text;
        let all = flushes(pieces);
        assert(all.drop_last() =~= flushes(front));
        assert(all.last() == FlushView::Text(text));
        if front.len() == 0 {
            assert(texts(front) =~= Seq::<char>::empty());
            assert(texts(front) + text =~= text);
            assert(merged(all) =~= seq![FlushView::Text(text)]);
        } else {
            assert(merged(all) =~= seq![FlushView::Text(texts(pieces))]);
        }
    }
}

/// An answer that opens no block comes out as the text that it is.
pub proof fn law_plain_text(answer: Seq<char>)
    requires
        opens_nothing(answer),
    ensures
        ({
            let (made, end) = pushed(start(), answer);
            merged(made + finished(end)) == text_flush(answer)
        }),
{
    let s = fed(start(), answer);
    assert(s.pending =~= answer);
    law_plain_text_kept(true, s);
    let (pieces, end) = scan(true, s);
    lemma_merged_texts(pieces);
    let made = flushes(pieces);
    if end.pending.len() > 0 {
        let all = made + finished(end);
        assert(all.drop_last() =~= made);
        assert(all.last() == FlushView::Text(end.pending));
        if pieces.len() == 0 {
            assert(texts(pieces) + end.pending =~= end.pending);
        }
        assert(merged(all) =~= text_flush(answer));
    } else {
        assert(made + finished(end) =~= made);
        assert(texts(pieces) + end.pending =~= texts(pieces));
        if answer.len() == 0 {
            reveal_strlit("<");
            lemma_find(answer, "<"@);
            assert(pieces =~= Seq::<PieceView>::empty());
        }
    }
}

proof fn lemma_flushes_add(a: Seq<PieceView>, b: Seq<PieceView>)
    ensures
        flushes(a + b) == flushes(a) + flushes(b),
    decreases b.len(),
{
    if b.len() == 0 {
        assert(a + b =~= a);
        assert(flushes(a) + flushes(b) =~= flushes(a));
    } else {
        lemma_flushes_add(a, b.drop_last());
        assert((a + b).drop_last() =~= a + b.drop_last());
        assert((a + b).last() == b.last());
        assert(flushes(a + b) =~= flushes(a) + flushes(b));
    }
}

proof fn lemma_flushes_one(p: PieceView)
    ensures
        flushes(seq![p]) == flush_of(p),
{
    reveal_with_fuel(flushes, 2);
    assert(seq![p].drop_last() =~= Seq::<PieceView>::empty());
    assert(flushes(seq![p]) =~= flush_of(p));
}

/// A think block comes out as reasoning, and what follows it as if it stood
/// alone.
pub proof fn law_think(attrs: Seq<char>, body: Seq<char>, rest: Seq<char>)
    requires
        lacks(attrs, ">"@),
        lacks(body, "</think>"@),
    ensures
        ({
            let (made, end) = pushed(start(), rest);
            pushed(start(), think_block(attrs, body) + rest) == (reasoning_flush(body) + made, end)
        }),
{
    law_think_block(true, false, attrs, body, rest);
    let answer = think_block(attrs, body) + rest;
    assert(fed(start(), answer) == holding(answer)) by {
        assert(start().pending + answer =~= answer);
    }
    assert(fed(start(), rest) == holding(rest)) by {
        assert(start().pending + rest =~= rest);
    }
    let first = reasoning_piece(body, false);
    lemma_flushes_add(first, scan(true, holding(rest)).0);
    if body.len() > 0 {
        lemma_flushes_one(first[0]);
    }
}

/// A function block that can be read comes out as the call that it makes, one
/// that is broken does not come out, and what follows it comes out as if it
/// stood alone.
pub proof fn law_function(raw: Seq<char>, rest: Seq<char>)
    requires
        "<function"@.is_prefix_of(raw),
        find(raw, ">"@) is Some,
        lacks(raw, "</function>"@),
    ensures
        ({
            let (made, end) = pushed(start(), rest);
            pushed(start(), raw + "</function>"@ + rest) == (match call_of(Cdata::Lenient, raw) {
                Some(call) => (seq![FlushView::ToolCall(call)] + made, end),
                None => (made, end),
            })
        }),
{
    law_function_block(true, false, raw, rest);
    let answer = raw + "</function>"@ + rest;
    assert(fed(start(), answer) == holding(answer)) by {
        assert(start().pending + answer =~= answer);
    }
    assert(fed(start(), rest) == holding(rest)) by {
        assert(start().pending + rest =~= rest);
    }
    let pieces = scan(true, holding(rest)).0;
    let block = PieceView::Block(raw);
    lemma_flushes_add(seq![block], pieces);
    lemma_flushes_one(block);
    if call_of(Cdata::Lenient, raw) is None {
        assert(flush_of(block) + flushes(pieces) =~= flushes(pieces));
    }
}

/// The flush is a call, or it has text in it.
pub open spec fn not_empty(f: FlushView) -> bool {
    match f {
        FlushView::Text(text) => text.len() > 0,
        FlushView::Reasoning(text) => text.len() > 0,
        FlushView::ToolCall(_) => true,
    }
}

proof fn lemma_flushes_not_empty(pieces: Seq<PieceView>)
    requires
        forall|i: int| 0 <= i < pieces.len() ==> scanner_laws::not_empty(#[trigger] pieces[i]),
    ensures
        forall|i: int|
            0 <= i < flushes(pieces).len() ==> not_empty(#[trigger] flushes(pieces)[i]),
    decreases pieces.len(),
{
    if pieces.len() > 0 {
        let front = pieces.drop_last();
        assert forall|i: int| 0 <= i < front.len() implies scanner_laws::not_empty(#[trigger] front[i]) by {
            assert(front[i] == pieces[i]);
        }
        lemma_flushes_not_empty(front);
        assert(scanner_laws::not_empty(pieces[pieces.len() - 1]));
        let last = flush_of(pieces.last());
        let all = flushes(front) + last;
        assert forall|i: int| 0 <= i < all.len() implies not_empty(#[trigger] all[i]) by {
            if i < flushes(front).len() {
                assert(all[i] == flushes(front)[i]);
            } else {
                assert(all[i] == last[i - flushes(front).len()]);
            }
        }
    }
}

/// Every text and every reasoning that comes out has something in it, at the end
/// of the answer too.
pub proof fn law_nothing_empty(s: ScanView, chunk: Seq<char>)
    ensures
        forall|i: int|
            0 <= i < pushed(s, chunk).0.len() ==> not_empty(#[trigger] pushed(s, chunk).0[i]),
        forall|i: int| 0 <= i < finished(s).len() ==> not_empty(#[trigger] finished(s)[i]),
{
    law_no_empty_piece(true, fed(s, chunk));
    lemma_flushes_not_empty(scan(true, fed(s, chunk)).0);
}

/// An empty chunk behind any other makes nothing, and leaves the replayer as it
/// is.
pub proof fn law_empty_chunk(s: ScanView, chunk: Seq<char>)
    ensures
        ({
            let end = pushed(s, chunk).1;
            pushed(end, Seq::empty()) == (Seq::<FlushView>::empty(), end)
        }),
{
    law_nothing_of_nothing(true, fed(s, chunk));
}

/// Nothing of a think block that has not ended when the answer ends is lost:
/// what comes out of it, one behind the other, is what stood in it.
pub proof fn law_open_think_kept(attrs: Seq<char>, body: Seq<char>)
    requires
        lacks(attrs, ">"@),
        lacks(body, "</think>"@),
    ensures
        ({
            let (made, end) = pushed(start(), "<think"@ + attrs + ">"@ + body);
            merged(made + finished(end)) == reasoning_flush(body)
        }),
{
    let answer = "<think"@ + attrs + ">"@ + body;
    law_open_think(true, false, attrs, body);
    assert(start().pending + answer =~= answer);
    let (pieces, end) = scan(true, fed(start(), answer));
    let n = body.len() - end.pending.len();
    let made = flushes(pieces);
    assert(body.take(n) + body.skip(n) =~= body);
    if n > 0 {
        lemma_flushes_one(pieces[0]);
        assert(made =~= seq![FlushView::Reasoning(body.take(n))]);
        assert(made.drop_last() =~= Seq::<FlushView>::empty());
        reveal_with_fuel(merged, 2);
        assert(merged(made) =~= made);
    }
    let all = made + finished(end);
    if end.pending.len() > 0 {
        assert(all.drop_last() =~= made);
        assert(all.last() == FlushView::Reasoning(end.pending));
        assert(merged(all) == merged_with(merged(made), FlushView::Reasoning(end.pending)));
        if n > 0 {
            assert(merged(made).drop_last() =~= Seq::<FlushView>::empty());
        } else {
            assert(body.skip(0) =~= body);
            assert(made =~= Seq::<FlushView>::empty());
        }
        assert(merged(all) =~= reasoning_flush(body));
    } else {
        assert(all =~= made);
        assert(body.take(n) =~= body);
    }
}

/// A function block that has not ended when the answer ends makes its call where
/// it can be read, and is text, all of it, where not.
pub proof fn law_open_function_kept(raw: Seq<char>)
    requires
        "<function"@.is_prefix_of(raw),
        lacks(raw, "</function>"@),
    ensures
        ({
            let (made, end) = pushed(start(), raw);
            made + finished(end) == match call_of(Cdata::Lenient, raw) {
                Some(call) => seq![FlushView::ToolCall(call)],
                None => seq![FlushView::Text(raw)],
            }
        }),
{
    reveal_strlit("<function");
    law_open_function(true, false, raw);
    assert(start().pending + raw =~= raw);
    let (made, end) = pushed(start(), raw);
    assert(made + finished(end) =~= finished(end));
}

/// A tag that has not ended when the answer ends is text, all of it.
pub proof fn law_open_tag_kept(tag: Seq<char>)
    requires
        tag.len() > 0,
        tag[0] == '<',
        lacks(tag, ">"@),
        !"<function"@.is_prefix_of(tag),
    ensures
        ({
            let (made, end) = pushed(start(), tag);
            made + finished(end) == seq![FlushView::Text(tag)]
        }),
{
    law_open_tag_waits(true, false, tag);
    assert(start().pending + tag =~= tag);
    let (made, end) = pushed(start(), tag);
    assert(made + finished(end) =~= seq![FlushView::Text(tag)]);
}

/// What the replayer holds when the answer ends comes out as what it belongs to,
/// whatever came before, and the replayer is in no block then.
pub proof fn law_rest_comes_out(s: ScanView)
    ensures
        s.mode == Mode::Think ==> finished(s) == reasoning_flush(s.pending),
        s.mode == Mode::Text ==> finished(s) == text_flush(s.pending),
        s.mode == Mode::Function ==> finished(s) == match call_of(Cdata::Lenient, s.pending) {
            Some(call) => seq![FlushView::ToolCall(call)],
            None => text_flush(s.pending),
        },
        after_finish(s).mode == Mode::Text,
        !after_finish(s).open,
        after_finish(s).pending == if s.mode == Mode::Function && call_of(Cdata::Lenient, s.pending) is
            Some {
            s.pending
        } else {
            Seq::empty()
        },
{
}

} // verus!
