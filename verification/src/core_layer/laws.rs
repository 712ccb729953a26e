//! What holds of the core layer as a whole.

use vstd::prelude::*;

use crate::call::call_of;
use crate::core_layer::replayer::{
    after_finish, finished, pushed, put, put_all, putting, with_delta, with_reasoning, FlushView,
};
use crate::markup::Cdata;
use crate::scanner::{fed, reasoning_piece, scan, start, Mode, PieceView, ScanView};
use crate::scanner_laws;
use crate::scanner_laws::{
    all_text, holding, law_function_block, law_no_empty_piece, law_nothing_of_nothing,
    law_only_first_goes_on, law_open_function, law_open_tag_waits, law_open_think,
    law_plain_text_kept, law_think_block, opens_nothing, texts, think_block,
};
use crate::streaming::{joins_up, law_chunks, lemma_collect_add, text_of_chunks};
use crate::text::{find, lacks};

verus! {

/// A text or a reasoning that comes in two pieces is joined up.
pub proof fn lemma_put_joins()
    ensures
        joins_up(putting()),
{
    let f = putting();
    assert forall|o: Seq<FlushView>, a: Seq<char>, b: Seq<char>, joins: bool|
        a.len() > 0 && b.len() > 0 implies #[trigger] f(
        f(o, PieceView::Text { text: a, joins }),
        PieceView::Text { text: b, joins: true },
    ) == f(o, PieceView::Text { text: a + b, joins }) by {
        let x = with_delta(o, a, joins);
        assert(x.last() is Delta);
        assert(with_delta(x, b, true) =~= with_delta(o, a + b, joins)) by {
            if joins && o.len() > 0 && o.last() is Delta {
                assert(o.last()->Delta_0 + (a + b) =~= (o.last()->Delta_0 + a) + b);
                assert(x.drop_last() =~= o.drop_last());
            } else {
                assert(x.drop_last() =~= o);
            }
        }
    }
    assert forall|o: Seq<FlushView>, a: Seq<char>, b: Seq<char>, joins: bool|
        a.len() > 0 && b.len() > 0 implies #[trigger] f(
        f(o, PieceView::Reasoning { text: a, joins }),
        PieceView::Reasoning { text: b, joins: true },
    ) == f(o, PieceView::Reasoning { text: a + b, joins }) by {
        let x = with_reasoning(o, a, joins);
        assert(x.last() is Reasoning);
        assert(with_reasoning(x, b, true) =~= with_reasoning(o, a + b, joins)) by {
            if joins && o.len() > 0 && o.last() is Reasoning {
                assert(o.last()->Reasoning_0 + (a + b) =~= (o.last()->Reasoning_0 + a) + b);
                assert(x.drop_last() =~= o.drop_last());
            } else {
                assert(x.drop_last() =~= o);
            }
        }
    }
}

/// Where a chunk ends does not matter: to push `a` and then `b` brings the same
/// to a list, and leaves the replayer in the same state, as to push them as one
/// chunk.
pub proof fn law_two_chunks(s: ScanView, out: Seq<FlushView>, a: Seq<char>, b: Seq<char>)
    ensures
        ({
            let (first, between) = pushed(s, out, a);
            pushed(between, first, b) == pushed(s, out, a + b)
        }),
{
    lemma_put_joins();
    law_chunks(putting(), out, false, fed(s, a), b);
    assert((s.pending + a) + b =~= s.pending + (a + b));
}

/// What a list of chunks brings to `out`, pushed one by one.
pub open spec fn pushed_all(s: ScanView, out: Seq<FlushView>, chunks: Seq<Seq<char>>) -> (
    Seq<FlushView>,
    ScanView,
)
    decreases chunks.len(),
{
    if chunks.len() == 0 {
        (out, s)
    } else {
        let (first, between) = pushed_all(s, out, chunks.drop_last());
        pushed(between, first, chunks.last())
    }
}

/// An answer that is streamed in chunks of any size, down to single
/// characters, comes to the same as the whole answer at once, before the end of
/// the answer and after it.
pub proof fn law_streamed_as_whole(s: ScanView, out: Seq<FlushView>, chunks: Seq<Seq<char>>)
    requires
        chunks.len() > 0,
    ensures
        pushed_all(s, out, chunks) == pushed(s, out, text_of_chunks(chunks)),
        ({
            let (streamed, end) = pushed_all(s, out, chunks);
            let (whole, last) = pushed(s, out, text_of_chunks(chunks));
            finished(end, streamed) == finished(last, whole)
        }),
    decreases chunks.len(),
{
    let front = chunks.drop_last();
    if chunks.len() == 1 {
        assert(front =~= Seq::<Seq<char>>::empty());
        assert(text_of_chunks(front) + chunks.last() =~= chunks.last());
        assert(pushed_all(s, out, front) == (out, s));
    } else {
        law_streamed_as_whole(s, out, front);
        law_two_chunks(s, out, text_of_chunks(front), chunks.last());
    }
}

/// All entries are assistant text.
pub open spec fn all_delta(out: Seq<FlushView>) -> bool {
    forall|i: int| 0 <= i < out.len() ==> #[trigger] out[i] is Delta
}

/// The assistant text of the entries, one behind the other.
pub open spec fn delta_text(out: Seq<FlushView>) -> Seq<char>
    decreases out.len(),
{
    if out.len() == 0 {
        Seq::empty()
    } else {
        delta_text(out.drop_last()) + match out.last() {
            FlushView::Delta(text) => text,
            _ => Seq::empty(),
        }
    }
}

proof fn lemma_delta_put(out: Seq<FlushView>, text: Seq<char>, joins: bool)
    requires
        all_delta(out),
    ensures
        all_delta(with_delta(out, text, joins)),
        delta_text(with_delta(out, text, joins)) == delta_text(out) + text,
{
    let next = with_delta(out, text, joins);
    if joins && out.len() > 0 && out.last() is Delta {
        assert(next.drop_last() =~= out.drop_last());
        assert forall|i: int| 0 <= i < next.len() implies #[trigger] next[i] is Delta by {
            if i < out.len() - 1 {
                assert(out[i] is Delta);
            }
        }
        assert(delta_text(next) =~= delta_text(out) + text);
    } else {
        assert(next.drop_last() =~= out);
    }
}

proof fn lemma_delta_pieces(out: Seq<FlushView>, pieces: Seq<PieceView>)
    requires
        all_delta(out),
        all_text(pieces),
    ensures
        all_delta(put_all(out, pieces)),
        delta_text(put_all(out, pieces)) == delta_text(out) + texts(pieces),
    decreases pieces.len(),
{
    if pieces.len() == 0 {
        assert(delta_text(out) + texts(pieces) =~= delta_text(out));
    } else {
        let front = pieces.drop_last();
        assert forall|i: int| 0 <= i < front.len() implies #[trigger] front[i] is Text by {
            assert(pieces[i] is Text);
        }
        lemma_delta_pieces(out, front);
        assert(pieces[pieces.len() - 1] is Text);
        let (text, joins) = (pieces.last()->Text_text, pieces.last()->Text_joins);
        lemma_delta_put(put_all(out, front), text, joins);
        assert(delta_text(out) + texts(pieces) =~= (delta_text(out) + texts(front)) + text);
    }
}

/// An answer that opens no block comes out as text, nothing is lost of it and
/// nothing is changed.
pub proof fn law_plain_text(answer: Seq<char>)
    requires
        opens_nothing(answer),
    ensures
        ({
            let (made, end) = pushed(start(), Seq::empty(), answer);
            let all = finished(end, made);
            all_delta(all) && delta_text(all) == answer
        }),
{
    let s = fed(start(), answer);
    assert(s.pending =~= answer);
    law_plain_text_kept(false, s);
    let (pieces, end) = scan(false, s);
    let none = Seq::<FlushView>::empty();
    lemma_delta_pieces(none, pieces);
    let made = put_all(none, pieces);
    assert(delta_text(made) =~= texts(pieces));
    if end.pending.len() > 0 {
        lemma_delta_put(made, end.pending, end.open);
    } else {
        assert(texts(pieces) + end.pending =~= texts(pieces));
    }
}

/// An answer without any tag comes out as one text.
pub proof fn law_one_text(answer: Seq<char>)
    requires
        lacks(answer, "<"@),
        answer.len() > 0,
    ensures
        ({
            let (made, end) = pushed(start(), Seq::empty(), answer);
            finished(end, made) == seq![FlushView::Delta(answer)]
        }),
{
    let s = fed(start(), answer);
    assert(s.pending =~= answer);
    let piece = PieceView::Text { text: answer, joins: false };
    assert(scan(false, s).0 =~= seq![piece]);
    lemma_put_one(Seq::empty(), piece);
    assert(put(Seq::empty(), piece) =~= seq![FlushView::Delta(answer)]);
}

/// To put one piece.
pub proof fn lemma_put_one(out: Seq<FlushView>, p: PieceView)
    ensures
        put_all(out, seq![p]) == put(out, p),
{
    reveal_with_fuel(Seq::fold_left, 2);
    assert(seq![p].drop_last() =~= Seq::<PieceView>::empty());
    assert(seq![p].last() == p);
}

/// A think block comes out as reasoning, and what follows it as if it stood
/// alone.
pub proof fn law_think(out: Seq<FlushView>, attrs: Seq<char>, body: Seq<char>, rest: Seq<char>)
    requires
        lacks(attrs, ">"@),
        lacks(body, "</think>"@),
    ensures
        pushed(start(), out, think_block(attrs, body) + rest) == pushed(
            start(),
            if body.len() == 0 {
                out
            } else {
                out.push(FlushView::Reasoning(body))
            },
            rest,
        ),
{
    law_think_block(false, false, attrs, body, rest);
    let answer = think_block(attrs, body) + rest;
    assert(fed(start(), answer) == holding(answer)) by {
        assert(start().pending + answer =~= answer);
    }
    assert(fed(start(), rest) == holding(rest)) by {
        assert(start().pending + rest =~= rest);
    }
    let first = reasoning_piece(body, false);
    lemma_collect_add(putting(), out, first, scan(false, holding(rest)).0);
    if body.len() > 0 {
        lemma_put_one(out, first[0]);
    }
}

/// The state of a replayer that is in no block and holds nothing; with `open`,
/// the text that came out last may still go on.
pub open spec fn between_blocks(open: bool) -> ScanView {
    ScanView { open, ..start() }
}

/// A function block that can be read comes out as the call that it makes, one
/// that is broken does not come out, and what follows it comes out as if it
/// stood alone.
pub proof fn law_function(open: bool, out: Seq<FlushView>, raw: Seq<char>, rest: Seq<char>)
    requires
        "<function"@.is_prefix_of(raw),
        find(raw, ">"@) is Some,
        lacks(raw, "</function>"@),
    ensures
        pushed(between_blocks(open), out, raw + "</function>"@ + rest) == pushed(
            start(),
            match call_of(Cdata::Strict, raw) {
                Some(call) => out.push(FlushView::ToolCall(call)),
                None => out,
            },
            rest,
        ),
{
    law_function_block(false, open, raw, rest);
    let answer = raw + "</function>"@ + rest;
    assert(start().pending + answer =~= answer);
    assert(fed(start(), rest) == holding(rest)) by {
        assert(start().pending + rest =~= rest);
    }
    let block = PieceView::Block(raw);
    lemma_collect_add(putting(), out, seq![block], scan(false, holding(rest)).0);
    lemma_put_one(out, block);
}

/// The entry is a call, or it has text in it.
pub open spec fn not_empty(f: FlushView) -> bool {
    match f {
        FlushView::Delta(text) => text.len() > 0,
        FlushView::Reasoning(text) => text.len() > 0,
        FlushView::ToolCall(_) => true,
    }
}

/// `b` is `a`, or the text or the reasoning `a` with more behind it.
pub open spec fn grown(a: FlushView, b: FlushView) -> bool {
    match (a, b) {
        (FlushView::Delta(x), FlushView::Delta(y)) => x.is_prefix_of(y),
        (FlushView::Reasoning(x), FlushView::Reasoning(y)) => x.is_prefix_of(y),
        _ => a == b,
    }
}

/// `made` is `out` with more behind it; only the last entry of `out` may have
/// grown. What is new has something in it.
pub open spec fn extends(out: Seq<FlushView>, made: Seq<FlushView>) -> bool {
    &&& out.len() <= made.len()
    &&& forall|i: int| 0 <= i < out.len() - 1 ==> made[i] == #[trigger] out[i]
    &&& out.len() > 0 ==> grown(out.last(), made[out.len() - 1])
    &&& forall|i: int| out.len() <= i < made.len() ==> not_empty(#[trigger] made[i])
}

proof fn lemma_put_extends(out: Seq<FlushView>, mid: Seq<FlushView>, p: PieceView)
    requires
        extends(out, mid),
        scanner_laws::not_empty(p),
    ensures
        extends(out, put(mid, p)),
        !scanner_laws::goes_on(p) ==> mid.is_prefix_of(put(mid, p)),
{
    let made = put(mid, p);
    if made.len() == mid.len() && made.len() > 0 {
        let n = mid.len() - 1;
        assert(forall|i: int| 0 <= i < n ==> made[i] == mid[i]);
        assert(grown(mid[n], made[n])) by {
            match (mid[n], made[n]) {
                (FlushView::Delta(x), FlushView::Delta(y)) => {
                    assert(y.subrange(0, x.len() as int) =~= x);
                },
                (FlushView::Reasoning(x), FlushView::Reasoning(y)) => {
                    assert(y.subrange(0, x.len() as int) =~= x);
                },
                _ => {},
            }
        }
        if out.len() == mid.len() {
            match (out[n], mid[n], made[n]) {
                (FlushView::Delta(x), FlushView::Delta(y), FlushView::Delta(z)) => {
                    assert(z.subrange(0, x.len() as int) =~= y.subrange(0, x.len() as int));
                },
                (FlushView::Reasoning(x), FlushView::Reasoning(y), FlushView::Reasoning(z)) => {
                    assert(z.subrange(0, x.len() as int) =~= y.subrange(0, x.len() as int));
                },
                _ => {},
            }
        }
    }
    if !scanner_laws::goes_on(p) {
        assert(made.subrange(0, mid.len() as int) =~= mid);
    }
}

proof fn lemma_all_extends(out: Seq<FlushView>, pieces: Seq<PieceView>)
    requires
        forall|i: int| 0 <= i < pieces.len() ==> scanner_laws::not_empty(#[trigger] pieces[i]),
    ensures
        extends(out, put_all(out, pieces)),
        (forall|i: int| 0 <= i < pieces.len() ==> !scanner_laws::goes_on(#[trigger] pieces[i]))
            ==> out.is_prefix_of(put_all(out, pieces)),
    decreases pieces.len(),
{
    if pieces.len() == 0 {
        assert(out.subrange(0, out.len() as int) =~= out);
        if out.len() > 0 {
            match out.last() {
                FlushView::Delta(x) => {
                    assert(x.subrange(0, x.len() as int) =~= x);
                },
                FlushView::Reasoning(x) => {
                    assert(x.subrange(0, x.len() as int) =~= x);
                },
                _ => {},
            }
        }
    } else {
        let front = pieces.drop_last();
        assert forall|i: int| 0 <= i < front.len() implies scanner_laws::not_empty(
            #[trigger] front[i],
        ) by {
            assert(front[i] == pieces[i]);
        }
        lemma_all_extends(out, front);
        let mid = put_all(out, front);
        assert(scanner_laws::not_empty(pieces[pieces.len() - 1]));
        lemma_put_extends(out, mid, pieces.last());
        if forall|i: int| 0 <= i < pieces.len() ==> !scanner_laws::goes_on(#[trigger] pieces[i]) {
            assert forall|i: int| 0 <= i < front.len() implies !scanner_laws::goes_on(
                #[trigger] front[i],
            ) by {
                assert(front[i] == pieces[i]);
            }
            assert(!scanner_laws::goes_on(pieces[pieces.len() - 1]));
            let made = put_all(out, pieces);
            assert(made.subrange(0, out.len() as int) =~= mid.subrange(0, out.len() as int)) by {
                assert(made.subrange(0, mid.len() as int) == mid);
                assert(forall|i: int|
                    0 <= i < mid.len() ==> made.subrange(0, mid.len() as int)[i] == made[i]);
            }
        }
    }
}

/// A chunk adds to the list that it is put to: what is new has something in it,
/// and of what was there only the last entry may grow, where it may still go on.
pub proof fn law_list_extended(s: ScanView, out: Seq<FlushView>, chunk: Seq<char>)
    ensures
        extends(out, pushed(s, out, chunk).0),
        !s.open ==> out.is_prefix_of(pushed(s, out, chunk).0),
{
    law_no_empty_piece(false, fed(s, chunk));
    law_only_first_goes_on(false, fed(s, chunk));
    lemma_all_extends(out, scan(false, fed(s, chunk)).0);
}

/// An empty chunk behind any other makes nothing, and leaves the replayer as it
/// is.
pub proof fn law_empty_chunk(s: ScanView, out: Seq<FlushView>, chunk: Seq<char>)
    ensures
        ({
            let (made, end) = pushed(s, out, chunk);
            pushed(end, made, Seq::empty()) == (made, end)
        }),
{
    law_nothing_of_nothing(false, fed(s, chunk));
}

/// Nothing of a think block that has not ended when the answer ends is lost: it
/// comes out as one reasoning.
pub proof fn law_open_think_kept(
    open: bool,
    out: Seq<FlushView>,
    attrs: Seq<char>,
    body: Seq<char>,
)
    requires
        lacks(attrs, ">"@),
        lacks(body, "</think>"@),
    ensures
        ({
            let (made, end) = pushed(between_blocks(open), out, "<think"@ + attrs + ">"@ + body);
            finished(end, made) == out.push(FlushView::Reasoning(body))
        }),
{
    let answer = "<think"@ + attrs + ">"@ + body;
    law_open_think(false, open, attrs, body);
    assert(start().pending + answer =~= answer);
    let (pieces, end) = scan(false, fed(between_blocks(open), answer));
    let n = body.len() - end.pending.len();
    assert(body.take(n) + body.skip(n) =~= body);
    let made = put_all(out, pieces);
    if n > 0 {
        lemma_put_one(out, pieces[0]);
        assert(made == out.push(FlushView::Reasoning(body.take(n))));
        assert(made.drop_last() =~= out);
    } else {
        assert(made == out);
    }
    assert(finished(end, made) =~= out.push(FlushView::Reasoning(body)));
}

/// A function block that has not ended when the answer ends makes its call where
/// it can be read, and is text, all of it, where not.
pub proof fn law_open_function_kept(open: bool, out: Seq<FlushView>, raw: Seq<char>)
    requires
        "<function"@.is_prefix_of(raw),
        find(raw, ">"@) is Some,
        lacks(raw, "</function>"@),
    ensures
        ({
            let (made, end) = pushed(between_blocks(open), out, raw);
            finished(end, made) == match call_of(Cdata::Strict, raw) {
                Some(call) => out.push(FlushView::ToolCall(call)),
                None => out.push(FlushView::Delta(raw)),
            }
        }),
{
    law_open_function(false, open, raw);
    assert(start().pending + raw =~= raw);
}

/// A tag that has not ended when the answer ends is text, all of it; that of a
/// function or of a think block too.
pub proof fn law_open_tag_kept(out: Seq<FlushView>, tag: Seq<char>)
    requires
        tag.len() > 0,
        tag[0] == '<',
        lacks(tag, ">"@),
    ensures
        ({
            let (made, end) = pushed(start(), out, tag);
            finished(end, made) == out.push(FlushView::Delta(tag))
        }),
{
    law_open_tag_waits(false, false, tag);
    assert(start().pending + tag =~= tag);
}

/// What the replayer holds when the answer ends comes out as what it belongs to,
/// whatever came before, and the replayer is in no block then.
pub proof fn law_rest_comes_out(s: ScanView, out: Seq<FlushView>)
    ensures
        s.mode == Mode::Function ==> finished(s, out) == match call_of(Cdata::Strict, s.pending) {
            Some(call) => out.push(FlushView::ToolCall(call)),
            None => out.push(FlushView::Delta(s.pending)),
        },
        s.mode == Mode::Think && !(s.open && out.len() > 0 && out.last() is Reasoning)
            ==> finished(s, out) == out.push(FlushView::Reasoning(s.pending)),
        s.mode == Mode::Think && s.open && out.len() > 0 ==> (out.last() matches
            FlushView::Reasoning(before) ==> finished(s, out) == out.drop_last().push(
            FlushView::Reasoning(before + s.pending),
        )),
        s.mode == Mode::Text && s.pending.len() == 0 ==> finished(s, out) == out,
        s.mode == Mode::Text && s.pending.len() > 0 && !(s.open && out.len() > 0 && out.last() is
            Delta) ==> finished(s, out) == out.push(FlushView::Delta(s.pending)),
        s.mode == Mode::Text && s.pending.len() > 0 && s.open && out.len() > 0 ==> (
        out.last() matches FlushView::Delta(before) ==> finished(s, out) == out.drop_last().push(
            FlushView::Delta(before + s.pending),
        )),
        after_finish(s).mode == Mode::Text,
        !after_finish(s).open,
        after_finish(s).pending == if s.mode == Mode::Function && call_of(Cdata::Strict, s.pending) is
            Some {
            s.pending
        } else {
            Seq::empty()
        },
{
}

} // verus!
