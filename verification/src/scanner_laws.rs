//! What the scanner makes of plain text, of a think block, and of a function
//! block.

use vstd::prelude::*;

use crate::scanner::{
    fed, held_back, lemma_step_shrinks, measure, reasoning_piece, scan, step, text_piece, Mode,
    PieceView, ScanView,
};
use crate::text::{
    byte_len, find, lacks, lemma_find, lemma_find_append, lemma_find_behind, lemma_find_is, lemma_find_skip,
    lemma_lacks_char, lemma_lacks_part, lemma_release, lemma_release_is, occurs_at, release,
};

verus! {

/// All pieces are plain text.
pub open spec fn all_text(pieces: Seq<PieceView>) -> bool {
    forall|i: int| 0 <= i < pieces.len() ==> #[trigger] pieces[i] is Text
}

/// The plain text of the pieces, one behind the other.
pub open spec fn texts(pieces: Seq<PieceView>) -> Seq<char>
    decreases pieces.len(),
{
    if pieces.len() == 0 {
        Seq::empty()
    } else {
        texts(pieces.drop_last()) + match pieces.last() {
            PieceView::Text { text, .. } => text,
            _ => Seq::empty(),
        }
    }
}

/// `t` opens no block.
pub open spec fn opens_nothing(t: Seq<char>) -> bool {
    lacks(t, "<think"@) && lacks(t, "<function"@)
}

proof fn lemma_texts_add(a: Seq<PieceView>, b: Seq<PieceView>)
    ensures
        texts(a + b) == texts(a) + texts(b),
    decreases b.len(),
{
    if b.len() == 0 {
        assert(a + b =~= a);
        assert(texts(a) + texts(b) =~= texts(a));
    } else {
        assert((a + b).drop_last() =~= a + b.drop_last());
        assert((a + b).last() == b.last());
        lemma_texts_add(a, b.drop_last());
        assert(texts(a + b) =~= texts(a) + texts(b));
    }
}

/// One step on text that opens no block takes plain text off its front.
proof fn lemma_plain_step(eager: bool, s: ScanView) -> (k: int)
    requires
        s.mode == Mode::Text,
        opens_nothing(s.pending),
    ensures
        0 <= k <= s.pending.len(),
        step(eager, s).pieces == text_piece(s.pending.take(k), s.open) || step(eager, s).pieces
            == text_piece(s.pending.take(k), false),
        step(eager, s).next.pending == s.pending.skip(k),
        step(eager, s).next.mode == Mode::Text,
{
    let p = s.pending;
    reveal_strlit("<");
    reveal_strlit(">");
    lemma_find(p, "<"@);
    lemma_find(p, ">"@);
    lemma_find(p, "<think"@);
    lemma_find(p, "<function"@);
    assert(!"<think"@.is_prefix_of(p)) by {
        if "<think"@.is_prefix_of(p) {
            assert("<think"@ =~= p.subrange(0, "<think"@.len() as int));
            assert(occurs_at(p, "<think"@, 0));
        }
    }
    assert(!"<function"@.is_prefix_of(p)) by {
        if "<function"@.is_prefix_of(p) {
            assert("<function"@ =~= p.subrange(0, "<function"@.len() as int));
            assert(occurs_at(p, "<function"@, 0));
        }
    }
    match find(p, "<"@) {
        Some(lt) => if lt > 0 {
            lt
        } else {
            match find(p, ">"@) {
                Some(gt) => gt + 1,
                None => {
                    assert(p.skip(0) =~= p);
                    0
                },
            }
        },
        None => {
            assert(p.take(p.len() as int) =~= p);
            assert(p.skip(p.len() as int) =~= Seq::<char>::empty());
            p.len() as int
        },
    }
}

/// Where no block is opened, nothing is lost and nothing is changed: what
/// leaves the scanner is plain text, and with what it still holds it is the text
/// that went in. That goes for a bare `<` too.
pub proof fn law_plain_text_kept(eager: bool, s: ScanView)
    requires
        s.mode == Mode::Text,
        opens_nothing(s.pending),
    ensures
        ({
            let (pieces, end) = scan(eager, s);
            &&& all_text(pieces)
            &&& texts(pieces) + end.pending == s.pending
            &&& end.mode == Mode::Text
            &&& opens_nothing(end.pending)
        }),
    decreases measure(s),
{
    let p = s.pending;
    let k = lemma_plain_step(eager, s);
    let (front, next, more) = (
        step(eager, s).pieces,
        step(eager, s).next,
        step(eager, s).more,
    );
    lemma_step_shrinks(eager, s);
    assert(next.pending =~= p.subrange(k, p.len() as int));
    lemma_lacks_part(p, "<think"@, k, p.len() as int);
    lemma_lacks_part(p, "<function"@, k, p.len() as int);
    reveal_with_fuel(texts, 2);
    assert(texts(front) =~= p.take(k)) by {
        if front.len() > 0 {
            assert(front.drop_last() =~= Seq::<PieceView>::empty());
        }
    }
    assert(p.take(k) + p.skip(k) =~= p);
    if more {
        law_plain_text_kept(eager, next);
        let (pieces, end) = scan(eager, next);
        lemma_texts_add(front, pieces);
        assert(texts(front + pieces) + end.pending =~= p.take(k) + (texts(pieces) + end.pending));
    }
}

/// The state of a scanner that holds `text` and is in no block.
pub open spec fn holding(text: Seq<char>) -> ScanView {
    ScanView { pending: text, mode: Mode::Text, open: false }
}

/// The markup of a think block.
pub open spec fn think_block(attrs: Seq<char>, body: Seq<char>) -> Seq<char> {
    "<think"@ + attrs + ">"@ + body + "</think>"@
}

/// The inside of a think block is reasoning, and what follows is scanned as if
/// it stood alone.
pub proof fn law_think_block(
    eager: bool,
    open: bool,
    attrs: Seq<char>,
    body: Seq<char>,
    rest: Seq<char>,
)
    requires
        lacks(attrs, ">"@),
        lacks(body, "</think>"@),
    ensures
        ({
            let s = ScanView { open, ..holding(think_block(attrs, body) + rest) };
            let (pieces, end) = scan(eager, holding(rest));
            scan(eager, s) == (reasoning_piece(body, false) + pieces, end)
        }),
{
    reveal_strlit("<");
    reveal_strlit(">");
    reveal_strlit("<think");
    reveal_strlit("</think>");
    let s = ScanView { open, ..holding(think_block(attrs, body) + rest) };
    let p = s.pending;
    let head = "<think"@ + attrs;
    let inside = body + "</think>"@ + rest;
    assert(p =~= head + ">"@ + inside);
    assert(p.subrange(0, 1) =~= "<"@);
    lemma_find_is(p, "<"@, 0);
    assert(">"@ =~= seq!['>']);
    lemma_lacks_char(attrs, '>');
    lemma_lacks_char(head, '>');
    assert(!head.contains('>')) by {
        assert forall|i: int| 0 <= i < head.len() implies head[i] != '>' by {
            if i >= 6 {
                assert(head[i] == attrs[i - 6]);
            }
        }
    }
    lemma_find_behind(head, ">"@, inside);
    let gt = head.len() as int;
    assert("<think"@.is_prefix_of(p)) by {
        assert(p.subrange(0, "<think"@.len() as int) =~= "<think"@);
    }
    let t = step(eager, s).next;
    assert(p.skip(gt + 1) =~= inside);
    assert(t == (ScanView { pending: inside, mode: Mode::Think, open: false }));
    lemma_find_behind(body, "</think>"@, rest);
    let u = step(eager, t);
    assert(inside.take(body.len() as int) =~= body);
    assert(inside.skip(body.len() as int + 8) =~= rest);
    assert(u.next == holding(rest));
    let (pieces, end) = scan(eager, holding(rest));
    assert(scan(eager, t) == (reasoning_piece(body, false) + pieces, end));
    assert(Seq::<PieceView>::empty() + (reasoning_piece(body, false) + pieces)
        =~= reasoning_piece(body, false) + pieces);
}

/// A function block leaves the scanner as it stands, and what follows is
/// scanned as if it stood alone.
pub proof fn law_function_block(eager: bool, open: bool, raw: Seq<char>, rest: Seq<char>)
    requires
        "<function"@.is_prefix_of(raw),
        find(raw, ">"@) is Some,
        lacks(raw, "</function>"@),
    ensures
        ({
            let s = ScanView { open, ..holding(raw + "</function>"@ + rest) };
            let (pieces, end) = scan(eager, holding(rest));
            scan(eager, s) == (seq![PieceView::Block(raw)] + pieces, end)
        }),
{
    reveal_strlit("<");
    reveal_strlit("<think");
    reveal_strlit("<function");
    reveal_strlit("</function>");
    let s = ScanView { open, ..holding(raw + "</function>"@ + rest) };
    let p = s.pending;
    assert(raw[0] == "<function"@[0]);
    assert(p.subrange(0, 1) =~= "<"@);
    lemma_find_is(p, "<"@, 0);
    assert(raw[1] == "<function"@[1]);
    assert(p[1] == raw[1]);
    assert(!"<think"@.is_prefix_of(p)) by {
        if "<think"@.is_prefix_of(p) {
            assert(p[1] == "<think"@[1]);
        }
    }
    assert("<function"@.is_prefix_of(p)) by {
        assert(p.subrange(0, "<function"@.len() as int) =~= raw.subrange(
            0,
            "<function"@.len() as int,
        ));
    }
    lemma_find_append(raw, "</function>"@ + rest, ">"@);
    assert(p =~= raw + ("</function>"@ + rest));
    let t = step(eager, s).next;
    assert(t == (ScanView { pending: p, mode: Mode::Function, open: false }));
    lemma_find_behind(raw, "</function>"@, rest);
    let u = step(eager, t);
    assert(p.take(raw.len() as int) =~= raw);
    assert(p.skip(raw.len() as int + 11) =~= rest);
    assert(u.next == holding(rest));
    let (pieces, end) = scan(eager, holding(rest));
    assert(scan(eager, t) == (seq![PieceView::Block(raw)] + pieces, end));
    assert(Seq::<PieceView>::empty() + (seq![PieceView::Block(raw)] + pieces) =~= seq![
        PieceView::Block(raw),
    ] + pieces);
}

/// The piece is a block, or it has text in it.
pub open spec fn not_empty(p: PieceView) -> bool {
    match p {
        PieceView::Text { text, .. } => text.len() > 0,
        PieceView::Reasoning { text, .. } => text.len() > 0,
        PieceView::Block(_) => true,
    }
}

/// The piece goes on where the piece before it ended.
pub open spec fn goes_on(p: PieceView) -> bool {
    match p {
        PieceView::Text { joins, .. } => joins,
        PieceView::Reasoning { joins, .. } => joins,
        PieceView::Block(_) => false,
    }
}

proof fn lemma_step_not_empty(eager: bool, s: ScanView)
    ensures
        forall|i: int|
            0 <= i < step(eager, s).pieces.len() ==> not_empty(#[trigger] step(eager, s).pieces[i]),
{
    reveal_strlit("<");
    reveal_strlit(">");
    lemma_find(s.pending, "<"@);
    lemma_find(s.pending, ">"@);
}

/// Every text and every reasoning that leaves the scanner has something in it.
pub proof fn law_no_empty_piece(eager: bool, s: ScanView)
    ensures
        forall|i: int|
            0 <= i < scan(eager, s).0.len() ==> not_empty(#[trigger] scan(eager, s).0[i]),
    decreases measure(s),
{
    lemma_step_shrinks(eager, s);
    lemma_step_not_empty(eager, s);
    let st = step(eager, s);
    if st.more {
        law_no_empty_piece(eager, st.next);
        let rest = scan(eager, st.next).0;
        let all = st.pieces + rest;
        assert forall|i: int| 0 <= i < all.len() implies not_empty(#[trigger] all[i]) by {
            if i < st.pieces.len() {
                assert(all[i] == st.pieces[i]);
            } else {
                assert(all[i] == rest[i - st.pieces.len()]);
            }
        }
    }
}

/// What has been scanned is not scanned again: where no more text has come,
/// nothing leaves the scanner, and its state stays as it is.
pub proof fn law_nothing_of_nothing(eager: bool, s: ScanView)
    ensures
        ({
            let end = scan(eager, s).1;
            scan(eager, fed(end, Seq::empty())) == (Seq::<PieceView>::empty(), end)
        }),
    decreases measure(s),
{
    lemma_step_shrinks(eager, s);
    let st = step(eager, s);
    if st.more {
        law_nothing_of_nothing(eager, st.next);
    } else {
        let p = s.pending;
        let end = st.next;
        let q = end.pending;
        assert(fed(end, Seq::empty()) == end) by {
            assert(q + Seq::<char>::empty() =~= q);
        }
        match s.mode {
            Mode::Think => {
                let k = release(p, held_back());
                lemma_release(p, held_back());
                lemma_find_skip(p, "</think>"@, k);
                assert(q.skip(0) =~= q);
                assert(q.take(0) =~= Seq::<char>::empty());
                if q.len() > 0 {
                    assert(q.skip(1) =~= p.skip(k + 1));
                }
                lemma_release_is(q, held_back(), 0);
            },
            Mode::Function => {},
            Mode::Text => {
                if find(p, "<"@) is None {
                    reveal_strlit("<");
                    lemma_find(q, "<"@);
                }
            },
        }
    }
}

/// Only the first piece goes on with what left the scanner before, and only
/// where that may still go on.
pub proof fn law_only_first_goes_on(eager: bool, s: ScanView)
    ensures
        forall|i: int|
            0 <= i < scan(eager, s).0.len() && goes_on(#[trigger] scan(eager, s).0[i]) ==> i == 0
                && s.open,
{
    lemma_first_goes_on(eager, s);
}

proof fn lemma_first_goes_on(eager: bool, s: ScanView)
    ensures
        forall|i: int|
            0 <= i < scan(eager, s).0.len() && goes_on(#[trigger] scan(eager, s).0[i]) ==> i == 0
                && s.open && !(s.mode == Mode::Text && find(s.pending, "<"@) == Some(0int)),
    decreases measure(s),
{
    lemma_step_shrinks(eager, s);
    let st = step(eager, s);
    if st.more {
        lemma_first_goes_on(eager, st.next);
        let rest = scan(eager, st.next).0;
        let all = st.pieces + rest;
        let p = s.pending;
        if s.mode == Mode::Text {
            lemma_find(p, "<"@);
            if let Some(lt) = find(p, "<"@) {
                lemma_find_skip(p, "<"@, lt);
            }
        }
        assert forall|i: int| 0 <= i < all.len() && goes_on(#[trigger] all[i]) implies i == 0
            && s.open && !(s.mode == Mode::Text && find(s.pending, "<"@) == Some(0int)) by {
            if i < st.pieces.len() {
                assert(all[i] == st.pieces[i]);
            } else {
                assert(all[i] == rest[i - st.pieces.len()]);
            }
        }
    }
}

/// Text in front of a tag leaves as it is, and the tag is scanned behind it.
pub proof fn law_text_before_tag(eager: bool, open: bool, text: Seq<char>, rest: Seq<char>)
    requires
        text.len() > 0,
        lacks(text, "<"@),
        rest.len() > 0,
        rest[0] == '<',
    ensures
        ({
            let s = ScanView { open, ..holding(text + rest) };
            let (pieces, end) = scan(eager, ScanView { open: true, ..holding(rest) });
            scan(eager, s) == (seq![PieceView::Text { text, joins: open }] + pieces, end)
        }),
{
    reveal_strlit("<");
    let p = text + rest;
    let tail = rest.drop_first();
    assert(p =~= text + "<"@ + tail);
    lemma_find_behind(text, "<"@, tail);
    assert(p.take(text.len() as int) =~= text);
    assert(p.skip(text.len() as int) =~= rest);
}

/// Text without any tag leaves at once, all of it.
pub proof fn law_text_alone(eager: bool, open: bool, text: Seq<char>)
    requires
        lacks(text, "<"@),
    ensures
        scan(eager, ScanView { open, ..holding(text) }) == (
            if text.len() == 0 {
                Seq::empty()
            } else {
                seq![PieceView::Text { text, joins: open }]
            },
            ScanView { open: open || text.len() > 0, ..holding(Seq::empty()) },
        ),
{
}

/// A tag that is neither of the two is text, and what follows is scanned as if
/// it stood alone.
pub proof fn law_other_tag(eager: bool, open: bool, tag: Seq<char>, rest: Seq<char>)
    requires
        tag.len() > 0,
        tag[0] == '<',
        find(tag, ">"@) == Some(tag.len() - 1),
        !"<think"@.is_prefix_of(tag),
        !"<function"@.is_prefix_of(tag),
    ensures
        ({
            let s = ScanView { open, ..holding(tag + rest) };
            let (pieces, end) = scan(eager, holding(rest));
            scan(eager, s) == (seq![PieceView::Text { text: tag, joins: false }] + pieces, end)
        }),
{
    reveal_strlit("<");
    reveal_strlit(">");
    reveal_strlit("<think");
    reveal_strlit("<function");
    let p = tag + rest;
    let gt = tag.len() - 1;
    assert(p.subrange(0, 1) =~= "<"@);
    lemma_find_is(p, "<"@, 0);
    lemma_find(tag, ">"@);
    lemma_find_append(tag, rest, ">"@);
    assert(tag.subrange(gt, gt + 1)[0] == tag[gt]);
    assert forall|w: Seq<char>|
        (w == "<think"@ || w == "<function"@) && !w.is_prefix_of(tag) implies !#[trigger] w.is_prefix_of(
        p,
    ) by {
        if w.is_prefix_of(p) {
            if w.len() <= tag.len() {
                assert(tag.subrange(0, w.len() as int) =~= p.subrange(0, w.len() as int));
            } else {
                assert(p.subrange(0, w.len() as int)[gt] == p[gt]);
                assert(gt == 0 || gt == 1 || gt == 2 || gt == 3 || gt == 4 || gt == 5 || gt == 6
                    || gt == 7);
            }
        }
    }
    assert(p.take(gt + 1) =~= tag);
    assert(p.skip(gt + 1) =~= rest);
}

/// A tag whose end has not come waits, and nothing leaves; only an eager scanner
/// does not wait for the end of a function's tag.
pub proof fn law_open_tag_waits(eager: bool, open: bool, tag: Seq<char>)
    requires
        tag.len() > 0,
        tag[0] == '<',
        lacks(tag, ">"@),
        !eager || !"<function"@.is_prefix_of(tag),
    ensures
        ({
            let s = ScanView { open, ..holding(tag) };
            scan(eager, s) == (Seq::<PieceView>::empty(), s)
        }),
{
    reveal_strlit("<");
    assert(tag.subrange(0, 1) =~= "<"@);
    lemma_find_is(tag, "<"@, 0);
}

/// A function block that has not ended is held back as a whole.
pub proof fn law_open_function(eager: bool, open: bool, raw: Seq<char>)
    requires
        "<function"@.is_prefix_of(raw),
        eager || find(raw, ">"@) is Some,
        lacks(raw, "</function>"@),
    ensures
        scan(eager, ScanView { open, ..holding(raw) }) == (
            Seq::<PieceView>::empty(),
            ScanView { pending: raw, mode: Mode::Function, open: false },
        ),
{
    reveal_strlit("<");
    reveal_strlit("<think");
    reveal_strlit("<function");
    assert(raw[0] == "<function"@[0]);
    assert(raw[1] == "<function"@[1]);
    assert(raw.subrange(0, 1) =~= "<"@);
    lemma_find_is(raw, "<"@, 0);
    assert(!"<think"@.is_prefix_of(raw)) by {
        if "<think"@.is_prefix_of(raw) {
            assert(raw[1] == "<think"@[1]);
        }
    }
    let s = ScanView { open, ..holding(raw) };
    let t = step(eager, s).next;
    assert(t == (ScanView { pending: raw, mode: Mode::Function, open: false }));
    assert(scan(eager, t) == (Seq::<PieceView>::empty(), t));
    assert(Seq::<PieceView>::empty() + Seq::<PieceView>::empty() =~= Seq::<PieceView>::empty());
}

/// Nothing of a think block that has not ended is lost: a front of it leaves as
/// one reasoning, and the rest is held back.
pub proof fn law_open_think(eager: bool, open: bool, attrs: Seq<char>, body: Seq<char>)
    requires
        lacks(attrs, ">"@),
        lacks(body, "</think>"@),
    ensures
        ({
            let (pieces, end) = scan(
                eager,
                ScanView { open, ..holding("<think"@ + attrs + ">"@ + body) },
            );
            let n = body.len() - end.pending.len();
            &&& end.mode == Mode::Think
            &&& 0 <= n
            &&& end.pending == body.skip(n)
            &&& end.open == (n > 0)
            &&& pieces == if n > 0 {
                seq![PieceView::Reasoning { text: body.take(n), joins: false }]
            } else {
                Seq::empty()
            }
        }),
{
    reveal_strlit("<");
    reveal_strlit(">");
    reveal_strlit("<think");
    let s = ScanView { open, ..holding("<think"@ + attrs + ">"@ + body) };
    let p = s.pending;
    let head = "<think"@ + attrs;
    assert(p =~= head + ">"@ + body);
    assert(p.subrange(0, 1) =~= "<"@);
    lemma_find_is(p, "<"@, 0);
    assert(">"@ =~= seq!['>']);
    lemma_lacks_char(attrs, '>');
    assert(!head.contains('>')) by {
        assert forall|i: int| 0 <= i < head.len() implies head[i] != '>' by {
            if i >= 6 {
                assert(head[i] == attrs[i - 6]);
            }
        }
    }
    lemma_lacks_char(head, '>');
    lemma_find_behind(head, ">"@, body);
    assert("<think"@.is_prefix_of(p)) by {
        assert(p.subrange(0, "<think"@.len() as int) =~= "<think"@);
    }
    let t = step(eager, s).next;
    assert(p.skip(head.len() as int + 1) =~= body);
    assert(t == (ScanView { pending: body, mode: Mode::Think, open: false }));
    let k = release(body, held_back());
    lemma_release(body, held_back());
    let inner = scan(eager, t).0;
    assert(inner == reasoning_piece(body.take(k), false));
    assert(Seq::<PieceView>::empty() + inner =~= inner);
}

/// Nothing is held back without need: in plain text only a tag that has not
/// ended, in a think block only what may be the front of its end tag, and in a
/// function block the block as long as it has not ended.
pub proof fn law_held_back(eager: bool, s: ScanView)
    ensures
        ({
            let end = scan(eager, s).1;
            let p = end.pending;
            match end.mode {
                Mode::Text => p.len() > 0 ==> p[0] == '<' && lacks(p, ">"@) && (eager
                    ==> !"<function"@.is_prefix_of(p)),
                Mode::Think => lacks(p, "</think>"@) && (p.len() > 0 ==> byte_len(p.drop_first())
                    < 7),
                Mode::Function => lacks(p, "</function>"@),
            }
        }),
    decreases measure(s),
{
    lemma_step_shrinks(eager, s);
    let st = step(eager, s);
    if st.more {
        law_held_back(eager, st.next);
    } else {
        let p = s.pending;
        match s.mode {
            Mode::Think => {
                let k = release(p, held_back());
                lemma_release(p, held_back());
                lemma_find_skip(p, "</think>"@, k);
                if k < p.len() {
                    assert(p.skip(k).drop_first() =~= p.skip(k + 1));
                }
            },
            Mode::Function => {},
            Mode::Text => {
                reveal_strlit("<");
                lemma_find(p, "<"@);
                if let Some(lt) = find(p, "<"@) {
                    assert(lt == 0);
                    assert(p.subrange(0, 1)[0] == p[0]);
                    if "<think"@.is_prefix_of(p) && "<function"@.is_prefix_of(p) {
                        reveal_strlit("<think");
                        reveal_strlit("<function");
                        assert(p[1] == "<think"@[1]);
                        assert(p[1] == "<function"@[1]);
                    }
                }
            },
        }
    }
}

} // verus!
