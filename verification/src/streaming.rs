//! Where the chunks of an answer end does not matter.

use vstd::prelude::*;
use vstd::utf8::is_ascii_chars;

use crate::scanner::{
    fed, held_back, lemma_step_shrinks, measure, reasoning_piece, scan, step, text_piece, Mode,
    PieceView, ScanView, StepView,
};
use crate::text::{
    find, lemma_find, lemma_find_append, lemma_find_skip, lemma_release, lemma_release_append,
    lemma_release_before, release,
};

verus! {

/// What becomes of `out` when the pieces are put to it one by one.
pub open spec fn collect<O>(
    put: spec_fn(O, PieceView) -> O,
    out: O,
    pieces: Seq<PieceView>,
) -> O {
    pieces.fold_left(out, put)
}

/// The text that the chunks make.
pub open spec fn text_of_chunks(chunks: Seq<Seq<char>>) -> Seq<char>
    decreases chunks.len(),
{
    if chunks.len() == 0 {
        Seq::empty()
    } else {
        text_of_chunks(chunks.drop_last()) + chunks.last()
    }
}

/// `put` makes no difference between a text that comes in one piece, and one
/// that comes in two of which the second joins the first.
pub open spec fn joins_up<O>(put: spec_fn(O, PieceView) -> O) -> bool {
    &&& forall|o: O, a: Seq<char>, b: Seq<char>, joins: bool|
        a.len() > 0 && b.len() > 0 ==> #[trigger] put(
            put(o, PieceView::Text { text: a, joins }),
            PieceView::Text { text: b, joins: true },
        ) == put(o, PieceView::Text { text: a + b, joins })
    &&& forall|o: O, a: Seq<char>, b: Seq<char>, joins: bool|
        a.len() > 0 && b.len() > 0 ==> #[trigger] put(
            put(o, PieceView::Reasoning { text: a, joins }),
            PieceView::Reasoning { text: b, joins: true },
        ) == put(o, PieceView::Reasoning { text: a + b, joins })
}

/// To put two lists is to put the one that they make.
pub proof fn lemma_collect_add<O>(
    put: spec_fn(O, PieceView) -> O,
    out: O,
    a: Seq<PieceView>,
    b: Seq<PieceView>,
)
    ensures
        collect(put, collect(put, out, a), b) == collect(put, out, a + b),
    decreases b.len(),
{
    if b.len() == 0 {
        assert(a + b =~= a);
    } else {
        assert((a + b).drop_last() =~= a + b.drop_last());
        lemma_collect_add(put, out, a, b.drop_last());
    }
}

/// A list of one.
proof fn lemma_collect_one<O>(put: spec_fn(O, PieceView) -> O, out: O, p: PieceView)
    ensures
        collect(put, out, seq![p]) == put(out, p),
        collect(put, out, Seq::empty()) == out,
{
    assert(seq![p].drop_last() =~= Seq::<PieceView>::empty());
    reveal_with_fuel(Seq::fold_left, 2);
}

/// A plain text in two pieces of which either may be empty.
proof fn lemma_text_joins<O>(
    put: spec_fn(O, PieceView) -> O,
    out: O,
    a: Seq<char>,
    b: Seq<char>,
    joins: bool,
)
    requires
        joins_up(put),
    ensures
        collect(put, collect(put, out, text_piece(a, joins)), text_piece(b, joins || a.len() > 0))
            == collect(put, out, text_piece(a + b, joins)),
{
    if a.len() == 0 {
        assert(a + b =~= b);
        lemma_collect_one(put, out, PieceView::Block(a));
    } else if b.len() == 0 {
        assert(a + b =~= a);
        lemma_collect_one(
            put,
            collect(put, out, text_piece(a, joins)),
            PieceView::Block(a),
        );
    } else {
        let p = PieceView::Text { text: a, joins };
        let q = PieceView::Text { text: b, joins: true };
        lemma_collect_one(put, out, p);
        lemma_collect_one(put, put(out, p), q);
        lemma_collect_one(put, out, PieceView::Text { text: a + b, joins });
        assert(put(put(out, p), q) == put(out, PieceView::Text { text: a + b, joins }));
    }
}

/// A reasoning in two pieces of which either may be empty.
proof fn lemma_reasoning_joins<O>(
    put: spec_fn(O, PieceView) -> O,
    out: O,
    a: Seq<char>,
    b: Seq<char>,
    joins: bool,
)
    requires
        joins_up(put),
    ensures
        collect(
            put,
            collect(put, out, reasoning_piece(a, joins)),
            reasoning_piece(b, joins || a.len() > 0),
        ) == collect(put, out, reasoning_piece(a + b, joins)),
{
    if a.len() == 0 {
        assert(a + b =~= b);
        lemma_collect_one(put, out, PieceView::Block(a));
    } else if b.len() == 0 {
        assert(a + b =~= a);
        lemma_collect_one(
            put,
            collect(put, out, reasoning_piece(a, joins)),
            PieceView::Block(a),
        );
    } else {
        let p = PieceView::Reasoning { text: a, joins };
        let q = PieceView::Reasoning { text: b, joins: true };
        lemma_collect_one(put, out, p);
        lemma_collect_one(put, put(out, p), q);
        lemma_collect_one(put, out, PieceView::Reasoning { text: a + b, joins });
        assert(put(put(out, p), q) == put(out, PieceView::Reasoning { text: a + b, joins }));
    }
}

/// A scan is its first step, and the scan of what that leaves.
pub proof fn lemma_scan_step<O>(
    put: spec_fn(O, PieceView) -> O,
    out: O,
    eager: bool,
    s: ScanView,
)
    requires
        step(eager, s).more,
    ensures
        scan(eager, s).1 == scan(eager, step(eager, s).next).1,
        collect(put, out, scan(eager, s).0) == collect(
            put,
            collect(put, out, step(eager, s).pieces),
            scan(eager, step(eager, s).next).0,
        ),
{
    let st = step(eager, s);
    lemma_collect_add(put, out, st.pieces, scan(eager, st.next).0);
}

/// Where a step can be made, more text at the back does not change it.
proof fn lemma_step_append(eager: bool, s: ScanView, b: Seq<char>)
    requires
        step(eager, s).more,
    ensures
        step(eager, fed(s, b)) == (StepView {
            next: fed(step(eager, s).next, b),
            ..step(eager, s)
        }),
{
    let p = s.pending;
    lemma_find(p, "</think>"@);
    lemma_find(p, "</function>"@);
    lemma_find(p, ">"@);
    lemma_find(p, "<"@);
    lemma_find_append(p, b, "</think>"@);
    lemma_find_append(p, b, "</function>"@);
    lemma_find_append(p, b, ">"@);
    lemma_find_append(p, b, "<"@);
    assert forall|k: int| 0 <= k <= p.len() implies #[trigger] (p + b).take(k) == p.take(k) by {
        assert((p + b).take(k) =~= p.take(k));
    }
    assert forall|k: int| 0 <= k <= p.len() implies #[trigger] (p + b).skip(k) == p.skip(k) + b by {
        assert((p + b).skip(k) =~= p.skip(k) + b);
    }
    reveal_strlit("</think>");
    reveal_strlit("</function>");
    reveal_strlit(">");
    reveal_strlit("<");
    lemma_prefix_append(p, b, "<think"@);
    lemma_prefix_append(p, b, "<function"@);
    if s.mode == Mode::Text {
        if let Some(gt) = find(p, ">"@) {
            lemma_prefix_decided(p, b, "<think"@, gt);
            lemma_prefix_decided(p, b, "<function"@, gt);
        } else {
            // Only an eager `<function` can be decided on here.
            if find(p, "<"@) == Some(0int) {
                assert("<function"@.is_prefix_of(p));
                reveal_strlit("<think");
                reveal_strlit("<function");
                assert(p[1] == "<function"@[1]);
                assert((p + b)[1] == p[1]);
                if "<think"@.is_prefix_of(p + b) {
                    assert((p + b)[1] == "<think"@[1]);
                }
            }
        }
    }
}

/// A prefix stays one.
proof fn lemma_prefix_append(p: Seq<char>, b: Seq<char>, w: Seq<char>)
    ensures
        w.is_prefix_of(p) ==> w.is_prefix_of(p + b),
        w.len() <= p.len() ==> w.is_prefix_of(p + b) == w.is_prefix_of(p),
{
    if w.len() <= p.len() {
        assert(p.subrange(0, w.len() as int) =~= (p + b).subrange(0, w.len() as int));
    }
}

/// When a `>` has come, it is settled whether the text begins with a word
/// that has no `>`.
proof fn lemma_prefix_decided(p: Seq<char>, b: Seq<char>, w: Seq<char>, gt: int)
    requires
        find(p, ">"@) == Some(gt),
        w == "<think"@ || w == "<function"@,
    ensures
        w.is_prefix_of(p + b) == w.is_prefix_of(p),
{
    reveal_strlit(">");
    reveal_strlit("<think");
    reveal_strlit("<function");
    lemma_find(p, ">"@);
    lemma_prefix_append(p, b, w);
    assert(p[gt] == p.subrange(gt, gt + 1)[0]);
    assert(p[gt] == '>');
    if w.len() > p.len() && w.is_prefix_of(p + b) {
        assert((p + b).subrange(0, w.len() as int)[gt] == w[gt]);
        assert((p + b)[gt] == p[gt]);
        assert(w[gt] == '>');
    }
}

/// Where the scanner has to wait, what it makes of the text so far and then of
/// more text is what it makes of the whole.
proof fn lemma_wait_append<O>(
    put: spec_fn(O, PieceView) -> O,
    out: O,
    eager: bool,
    s: ScanView,
    b: Seq<char>,
)
    requires
        joins_up(put),
        !step(eager, s).more,
    ensures
        ({
            let st = step(eager, s);
            let (rest, end) = scan(eager, fed(st.next, b));
            let (whole, last) = scan(eager, fed(s, b));
            end == last && collect(put, collect(put, out, st.pieces), rest) == collect(
                put,
                out,
                whole,
            )
        }),
{
    let p = s.pending;
    let st = step(eager, s);
    lemma_collect_one(put, out, PieceView::Block(p));
    match s.mode {
        Mode::Function => {},
        Mode::Think => {
            lemma_think_append(put, out, eager, s, b);
        },
        Mode::Text => {
            if find(p, "<"@) is None {
                lemma_text_append(put, out, eager, s, b);
            }
        },
    }
}

/// The case of a think block that has not ended.
proof fn lemma_think_append<O>(
    put: spec_fn(O, PieceView) -> O,
    out: O,
    eager: bool,
    s: ScanView,
    b: Seq<char>,
)
    requires
        joins_up(put),
        s.mode == Mode::Think,
        find(s.pending, "</think>"@) is None,
    ensures
        ({
            let st = step(eager, s);
            let (rest, end) = scan(eager, fed(st.next, b));
            let (whole, last) = scan(eager, fed(s, b));
            end == last && collect(put, collect(put, out, st.pieces), rest) == collect(
                put,
                out,
                whole,
            )
        }),
{
    let p = s.pending;
    let tag = "</think>"@;
    reveal_strlit("</think>");
    let k = release(p, held_back());
    lemma_release(p, held_back());
    let st = step(eager, s);
    let t = p.skip(k) + b;
    assert(t =~= (p + b).skip(k));
    assert(is_ascii_chars(tag));
    lemma_release_before(p, b, tag, held_back());
    lemma_find(p + b, tag);
    lemma_find_skip(p + b, tag, k);
    let far = step(eager, fed(s, b));
    let near = step(eager, fed(st.next, b));
    match find(p + b, tag) {
        Some(e) => {
            assert((p + b).take(e) =~= p.take(k) + t.take(e - k));
            assert((p + b).skip(e + tag.len()) =~= t.skip(e - k + tag.len()));
            lemma_reasoning_joins(put, out, p.take(k), t.take(e - k), s.open);
            lemma_scan_step(put, out, eager, fed(s, b));
            lemma_scan_step(put, collect(put, out, st.pieces), eager, fed(st.next, b));
            assert(far.next == near.next);
        },
        None => {
            lemma_release_append(p, b, held_back());
            let m = release(t, held_back());
            lemma_release(t, held_back());
            assert((p + b).take(k + m) =~= p.take(k) + t.take(m));
            assert((p + b).skip(k + m) =~= t.skip(m));
            lemma_reasoning_joins(put, out, p.take(k), t.take(m), s.open);
            assert(far.next == near.next);
        },
    }
}

/// The case of plain text with no tag in it.
proof fn lemma_text_append<O>(
    put: spec_fn(O, PieceView) -> O,
    out: O,
    eager: bool,
    s: ScanView,
    b: Seq<char>,
)
    requires
        joins_up(put),
        s.mode == Mode::Text,
        find(s.pending, "<"@) is None,
    ensures
        ({
            let st = step(eager, s);
            let (rest, end) = scan(eager, fed(st.next, b));
            let (whole, last) = scan(eager, fed(s, b));
            end == last && collect(put, collect(put, out, st.pieces), rest) == collect(
                put,
                out,
                whole,
            )
        }),
{
    let p = s.pending;
    let n = p.len() as int;
    reveal_strlit("<");
    let st = step(eager, s);
    assert(st.next.pending + b =~= b);
    assert((p + b).skip(n) =~= b);
    lemma_find_append(p, b, "<"@);
    lemma_find(p + b, "<"@);
    lemma_find_skip(p + b, "<"@, n);
    let far = step(eager, fed(s, b));
    let near = step(eager, fed(st.next, b));
    match find(p + b, "<"@) {
        Some(lt) => {
            assert((p + b).take(lt) =~= p + b.take(lt - n));
            assert((p + b).skip(lt) =~= b.skip(lt - n));
            if n == 0 {
                assert(p + b =~= b);
                assert(fed(s, b) == fed(st.next, b));
                lemma_collect_one(put, out, PieceView::Block(p));
            } else {
                lemma_text_joins(put, out, p, b.take(lt - n), s.open);
                lemma_scan_step(put, out, eager, fed(s, b));
                if lt > n {
                    lemma_scan_step(put, collect(put, out, st.pieces), eager, fed(st.next, b));
                    assert(far.next == near.next);
                } else {
                    assert(b.take(0) =~= Seq::<char>::empty());
                    assert(far.next == fed(st.next, b)) by {
                        assert(b.skip(0) =~= b);
                    }
                    lemma_collect_one(
                        put,
                        collect(put, out, st.pieces),
                        PieceView::Block(p),
                    );
                }
            }
        },
        None => {
            lemma_text_joins(put, out, p, b, s.open);
            assert(far.next == near.next);
        },
    }
}

/// Where the chunks of an answer end does not matter: to scan a text, and then
/// what it left over with `b` behind it, brings the same to `out`, and leaves
/// the scanner in the same state, as to scan the whole at once. This holds of
/// every way to collect the pieces that joins up those that go on.
pub proof fn law_chunks<O>(
    put: spec_fn(O, PieceView) -> O,
    out: O,
    eager: bool,
    s: ScanView,
    b: Seq<char>,
)
    requires
        joins_up(put),
    ensures
        ({
            let (first, between) = scan(eager, s);
            let (second, end) = scan(eager, fed(between, b));
            let (whole, last) = scan(eager, fed(s, b));
            end == last && collect(put, collect(put, out, first), second) == collect(
                put,
                out,
                whole,
            )
        }),
    decreases measure(s),
{
    let st = step(eager, s);
    if st.more {
        lemma_step_shrinks(eager, s);
        lemma_step_append(eager, s, b);
        lemma_scan_step(put, out, eager, s);
        lemma_scan_step(put, out, eager, fed(s, b));
        law_chunks(put, collect(put, out, st.pieces), eager, st.next, b);
    } else {
        lemma_wait_append(put, out, eager, s, b);
    }
}

} // verus!
