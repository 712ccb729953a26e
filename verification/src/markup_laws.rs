//! What holds of the markup of a function block, whatever the block.

use vstd::prelude::*;

use crate::call::call_of;
use crate::markup::{
    attr_value, block_of, decoded, lemma_param_bounds, normalised, params_of, unwrapped, up_to,
    Cdata,
};
use crate::text::{
    find, lacks, lemma_find, lemma_find_append, lemma_find_behind, lemma_find_is,
    lemma_find_none, lemma_lacks_char, lemma_lacks_part, lemma_replace_lacking, occurs_at,
    replace_all,
};

verus! {

/// Text in front in which nothing is to be replaced stays as it is.
pub proof fn lemma_replace_behind(a: Seq<char>, s: Seq<char>, from: Seq<char>, to: Seq<char>)
    requires
        from.len() > 0,
        forall|j: int| 0 <= j < a.len() ==> !#[trigger] occurs_at(a + s, from, j),
    ensures
        replace_all(a + s, from, to) == a + replace_all(s, from, to),
{
    let t = a + s;
    let n = a.len() as int;
    lemma_find(s, from);
    assert forall|j: int| n <= j <= t.len() implies (#[trigger] occurs_at(t, from, j) <==> occurs_at(
        s,
        from,
        j - n,
    )) by {
        if j + from.len() <= t.len() {
            assert(t.subrange(j, j + from.len()) =~= s.subrange(j - n, j - n + from.len()));
        }
    }
    match find(s, from) {
        Some(i) => {
            lemma_find_is(t, from, n + i);
            assert(t.take(n + i) =~= a + s.take(i));
            assert(t.skip(n + i + from.len()) =~= s.skip(i + from.len()));
            assert(replace_all(t, from, to) =~= a + replace_all(s, from, to));
        },
        None => {
            lemma_find_none(t, from);
        },
    }
}

/// What is replaced does not occur any more, where it is a single character
/// and what it is replaced by is free of it.
pub proof fn lemma_replaced_lacks(s: Seq<char>, c: char, to: Seq<char>)
    requires
        !to.contains(c),
    ensures
        lacks(replace_all(s, seq![c], to), seq![c]),
    decreases s.len(),
{
    let from = seq![c];
    lemma_find(s, from);
    match find(s, from) {
        Some(i) => {
            let rest = s.skip(i + from.len());
            lemma_replaced_lacks(rest, c, to);
            let front = s.take(i);
            assert forall|k: int| 0 <= k < front.len() implies front[k] != c by {
                if s[k] == c {
                    assert(s.subrange(k, k + 1) =~= from);
                    assert(occurs_at(s, from, k));
                }
            }
            let all = front + to + replace_all(rest, from, to);
            lemma_lacks_char(replace_all(rest, from, to), c);
            assert forall|k: int| 0 <= k < all.len() implies all[k] != c by {
                if k < front.len() {
                    assert(all[k] == front[k]);
                } else if k < front.len() + to.len() {
                    assert(all[k] == to[k - front.len()]);
                } else {
                    assert(all[k] == replace_all(rest, from, to)[k - front.len() - to.len()]);
                }
            }
            lemma_lacks_char(all, c);
        },
        None => {},
    }
}

/// A block with the space marker U+0120 makes the same call as one with a
/// space in its place.
pub proof fn law_space_marker(rule: Cdata, raw: Seq<char>)
    ensures
        call_of(rule, raw) == call_of(rule, replace_all(raw, "\u{0120}"@, " "@)),
{
    reveal_strlit("\u{0120}");
    reveal_strlit(" ");
    let spaced = replace_all(raw, "\u{0120}"@, " "@);
    assert("\u{0120}"@ =~= seq!['\u{0120}']);
    lemma_replaced_lacks(raw, '\u{0120}', " "@);
    lemma_replace_lacking(spaced, "\u{0120}"@, " "@);
    assert(normalised(spaced) == normalised(raw));
}

/// A block that begins with `<functionname=` makes the same call as one that
/// begins with `<function name=`.
pub proof fn law_missing_space(rule: Cdata, rest: Seq<char>)
    ensures
        call_of(rule, "<functionname="@ + rest) == call_of(rule, "<function name="@ + rest),
{
    reveal_strlit("<functionname=");
    reveal_strlit("<function name=");
    reveal_strlit("\u{0120}");
    let marker = "\u{0120}"@;
    let bad = "<functionname="@;
    let good = "<function name="@;
    let body = replace_all(rest, marker, " "@);
    assert forall|j: int| 0 <= j < bad.len() implies !#[trigger] occurs_at(bad + rest, marker, j) by {
        if occurs_at(bad + rest, marker, j) {
            assert((bad + rest).subrange(j, j + 1)[0] == marker[0]);
            assert((bad + rest)[j] == bad[j]);
        }
    }
    assert forall|j: int| 0 <= j < good.len() implies !#[trigger] occurs_at(
        good + rest,
        marker,
        j,
    ) by {
        if occurs_at(good + rest, marker, j) {
            assert((good + rest).subrange(j, j + 1)[0] == marker[0]);
            assert((good + rest)[j] == good[j]);
        }
    }
    lemma_replace_behind(bad, rest, marker, " "@);
    lemma_replace_behind(good, rest, marker, " "@);
    assert((bad + body).subrange(0, bad.len() as int) =~= bad);
    lemma_find_is(bad + body, bad, 0);
    assert((bad + body).skip(bad.len() as int) =~= body);
    assert((bad + body).take(0) + good =~= good);
    assert forall|j: int| 0 <= j < good.len() implies !#[trigger] occurs_at(good + body, bad, j) by {
        if occurs_at(good + body, bad, j) {
            let found = (good + body).subrange(j, j + bad.len());
            assert(found[0] == bad[0]);
            assert(found[9] == bad[9]);
            assert((good + body)[j] == good[j]);
            assert(j == 0);
            assert((good + body)[9] == good[9]);
        }
    }
    lemma_replace_behind(good, body, bad, good);
}

/// Text without `&` holds no entity.
pub proof fn law_no_entity(s: Seq<char>)
    requires
        lacks(s, "&"@),
    ensures
        decoded(s) == s,
{
    reveal_strlit("&");
    reveal_strlit("&lt;");
    reveal_strlit("&gt;");
    reveal_strlit("&quot;");
    reveal_strlit("&apos;");
    reveal_strlit("&amp;");
    assert("&"@ =~= seq!['&']);
    lemma_lacks_char(s, '&');
    assert forall|p: Seq<char>| p.len() > 0 && p[0] == '&' implies #[trigger] lacks(s, p) by {
        lemma_find(s, p);
        if let Some(i) = find(s, p) {
            assert(s.subrange(i, i + p.len())[0] == s[i]);
        }
    }
    assert(lacks(s, "&lt;"@));
    assert(lacks(s, "&gt;"@));
    assert(lacks(s, "&quot;"@));
    assert(lacks(s, "&apos;"@));
    assert(lacks(s, "&amp;"@));
}

/// A CDATA section holds the text between its marks, whatever the text.
pub proof fn law_cdata(rule: Cdata, text: Seq<char>)
    ensures
        unwrapped(rule, "<![CDATA["@ + text + "]]>"@) == text,
{
    reveal_strlit("<![CDATA[");
    reveal_strlit("]]>");
    let raw = "<![CDATA["@ + text + "]]>"@;
    assert(raw.take(9) =~= "<![CDATA["@);
    let inner = raw.skip(9);
    assert(inner =~= text + "]]>"@);
    assert(inner.skip(inner.len() - 3) =~= "]]>"@);
    assert(inner.take(inner.len() - 3) =~= text);
}

/// A text ends like its suffix.
proof fn lemma_suffix_end(p: Seq<char>, s: Seq<char>)
    requires
        p.is_suffix_of(s),
    ensures
        forall|i: int| 1 <= i <= p.len() ==> s[s.len() - i] == #[trigger] p[p.len() - i],
{
    let tail = s.subrange(s.len() - p.len(), s.len() as int);
    assert(tail == p);
    assert forall|i: int| 1 <= i <= p.len() implies s[s.len() - i] == #[trigger] p[p.len() - i] by {
        assert(tail[p.len() - i] == s[s.len() - i]);
    }
}

/// A CDATA section that was cut short within its end mark holds the text up to
/// there, as far as the text does not end like an end mark itself.
pub proof fn law_cut_cdata(text: Seq<char>)
    ensures
        unwrapped(Cdata::Lenient, "<![CDATA["@ + text + "]]"@) == text,
        text.len() == 0 || text.last() != ']' ==> unwrapped(
            Cdata::Lenient,
            "<![CDATA["@ + text + "]"@,
        ) == text,
        !"]]>"@.is_suffix_of(text) && (text.len() == 0 || text.last() != ']') ==> unwrapped(
            Cdata::Lenient,
            "<![CDATA["@ + text,
        ) == text,
{
    reveal_strlit("<![CDATA[");
    reveal_strlit("]]>");
    reveal_strlit("]]");
    reveal_strlit("]");
    let open = "<![CDATA["@;
    assert forall|t: Seq<char>| #[trigger] open.is_prefix_of(open + t) && (open + t).skip(9) == t by {
        assert((open + t).take(9) =~= open);
        assert((open + t).skip(9) =~= t);
    }
    let two = text + "]]"@;
    assert(open + text + "]]"@ =~= open + two);
    if "]]>"@.is_suffix_of(two) {
        lemma_suffix_end("]]>"@, two);
        assert("]]>"@[3 - 1] == two[two.len() - 1]);
    }
    assert(two.subrange(two.len() - 2, two.len() as int) =~= "]]"@);
    assert(two.take(two.len() - 2) =~= text);
    let one = text + "]"@;
    assert(open + text + "]"@ =~= open + one);
    if "]]>"@.is_suffix_of(one) {
        lemma_suffix_end("]]>"@, one);
        assert("]]>"@[3 - 1] == one[one.len() - 1]);
    }
    if "]]"@.is_suffix_of(one) {
        lemma_suffix_end("]]"@, one);
        assert("]]"@[2 - 2] == one[one.len() - 2]);
    }
    assert(one.subrange(one.len() - 1, one.len() as int) =~= "]"@);
    assert(one.take(one.len() - 1) =~= text);
    if "]]"@.is_suffix_of(text) {
        lemma_suffix_end("]]"@, text);
        assert("]]"@[2 - 1] == text[text.len() - 1]);
    }
    if "]"@.is_suffix_of(text) {
        lemma_suffix_end("]"@, text);
        assert("]"@[1 - 1] == text[text.len() - 1]);
    }
    assert(open.is_prefix_of(open + text));
}

/// The entity that stands for `c` in a text, or `c` itself where it needs none.
pub open spec fn escape_of(c: char) -> Seq<char> {
    match c {
        '<' => "&lt;"@,
        '>' => "&gt;"@,
        '"' => "&quot;"@,
        '\'' => "&apos;"@,
        '&' => "&amp;"@,
        _ => seq![c],
    }
}

/// `t` with the five characters that have an entity replaced by it, in one pass.
pub open spec fn escaped(t: Seq<char>) -> Seq<char>
    decreases t.len(),
{
    if t.len() == 0 {
        Seq::empty()
    } else {
        escape_of(t[0]) + escaped(t.drop_first())
    }
}

/// The place of `c` in the order in which the entities are decoded.
spec fn rank(c: char) -> int {
    match c {
        '<' => 0,
        '>' => 1,
        '"' => 2,
        '\'' => 3,
        '&' => 4,
        _ => -1,
    }
}

/// `t` with the entities before the `k`th decoded again.
spec fn escaped_from(k: int, t: Seq<char>) -> Seq<char>
    decreases t.len(),
{
    if t.len() == 0 {
        Seq::empty()
    } else {
        (if rank(t[0]) >= k {
            escape_of(t[0])
        } else {
            seq![t[0]]
        }) + escaped_from(k, t.drop_first())
    }
}

/// An entity occurs where it stands for its character, and nowhere else.
proof fn lemma_entity_found(k: int, c: char, d: char, rest: Seq<char>)
    requires
        0 <= k < 5,
        rank(d) == k,
    ensures
        rank(c) > k ==> forall|j: int|
            0 <= j < escape_of(c).len() ==> !#[trigger] occurs_at(
                escape_of(c) + rest,
                escape_of(d),
                j,
            ),
        rank(c) < k ==> forall|j: int|
            0 <= j < 1 ==> !#[trigger] occurs_at(seq![c] + rest, escape_of(d), j),
{
    reveal_strlit("&lt;");
    reveal_strlit("&gt;");
    reveal_strlit("&quot;");
    reveal_strlit("&apos;");
    reveal_strlit("&amp;");
    let from = escape_of(d);
    assert(from.len() >= 4 && from[0] == '&');
    if rank(c) > k {
        let e = escape_of(c);
        let all = e + rest;
        assert forall|j: int| 0 <= j < e.len() implies !#[trigger] occurs_at(all, from, j) by {
            if occurs_at(all, from, j) {
                let found = all.subrange(j, j + from.len());
                assert(found[0] == all[j]);
                assert(all[j] == e[j]);
                assert(j == 0 || j == 1 || j == 2 || j == 3 || j == 4 || j == 5);
                assert(j == 0);
                assert(found[1] == all[1] && all[1] == e[1]);
                assert(found[2] == all[2] && all[2] == e[2]);
            }
        }
    }
    if rank(c) < k {
        let all = seq![c] + rest;
        assert forall|j: int| 0 <= j < 1 implies !#[trigger] occurs_at(all, from, j) by {
            if occurs_at(all, from, j) {
                assert(all.subrange(j, j + from.len())[0] == all[0]);
            }
        }
    }
}

/// To decode one entity.
proof fn lemma_entity_decoded(k: int, d: char, t: Seq<char>)
    requires
        0 <= k < 5,
        rank(d) == k,
    ensures
        replace_all(escaped_from(k, t), escape_of(d), seq![d]) == escaped_from(k + 1, t),
    decreases t.len(),
{
    reveal_strlit("&lt;");
    reveal_strlit("&gt;");
    reveal_strlit("&quot;");
    reveal_strlit("&apos;");
    reveal_strlit("&amp;");
    let from = escape_of(d);
    let s = escaped_from(k, t);
    if t.len() == 0 {
        lemma_find(s, from);
    } else {
        let c = t[0];
        let rest = escaped_from(k, t.drop_first());
        lemma_entity_decoded(k, d, t.drop_first());
        if rank(c) == k {
            assert(c == d);
            assert(s.subrange(0, from.len() as int) =~= from);
            lemma_find_is(s, from, 0);
            assert(s.take(0) + seq![d] =~= seq![d]);
            assert(s.skip(from.len() as int) =~= rest);
        } else {
            lemma_entity_found(k, c, d, rest);
            let front = if rank(c) > k {
                escape_of(c)
            } else {
                seq![c]
            };
            lemma_replace_behind(front, rest, from, seq![d]);
        }
    }
}

proof fn lemma_escaped_ends(t: Seq<char>)
    ensures
        escaped_from(0, t) == escaped(t),
        escaped_from(5, t) == t,
    decreases t.len(),
{
    if t.len() > 0 {
        lemma_escaped_ends(t.drop_first());
        assert(seq![t[0]] + t.drop_first() =~= t);
    }
}

/// Decoding undoes escaping, whatever the text.
pub proof fn law_decoding_undoes_escaping(t: Seq<char>)
    ensures
        decoded(escaped(t)) == t,
{
    reveal_strlit("<");
    reveal_strlit(">");
    reveal_strlit("\"");
    reveal_strlit("'");
    reveal_strlit("&");
    assert("<"@ =~= seq!['<']);
    assert(">"@ =~= seq!['>']);
    assert("\""@ =~= seq!['"']);
    assert("'"@ =~= seq!['\'']);
    assert("&"@ =~= seq!['&']);
    lemma_escaped_ends(t);
    lemma_entity_decoded(0, '<', t);
    lemma_entity_decoded(1, '>', t);
    lemma_entity_decoded(2, '"', t);
    lemma_entity_decoded(3, '\'', t);
    lemma_entity_decoded(4, '&', t);
}

/// No `p` in `a + b` lies on both sides of the cut.
spec fn cut_clean(a: Seq<char>, b: Seq<char>, p: Seq<char>) -> bool {
    forall|j: int| 0 <= j < a.len() && #[trigger] occurs_at(a + b, p, j) ==> j + p.len() <= a.len()
}

/// A cut behind a character that `p` does not hold.
proof fn lemma_cut_behind(a: Seq<char>, b: Seq<char>, p: Seq<char>)
    requires
        a.len() > 0,
        !p.contains(a.last()),
    ensures
        cut_clean(a, b, p),
{
    let n = a.len() as int;
    assert forall|j: int| 0 <= j < n && #[trigger] occurs_at(a + b, p, j) implies j + p.len()
        <= n by {
        if j + p.len() > n {
            assert((a + b).subrange(j, j + p.len())[n - 1 - j] == (a + b)[n - 1]);
            assert(p[n - 1 - j] == a.last());
        }
    }
}

/// A cut before a character with which `p` can only begin.
proof fn lemma_cut_before(a: Seq<char>, b: Seq<char>, p: Seq<char>)
    requires
        b.len() > 0,
        forall|i: int| 0 < i < p.len() ==> #[trigger] p[i] != b[0],
    ensures
        cut_clean(a, b, p),
{
    let n = a.len() as int;
    assert forall|j: int| 0 <= j < n && #[trigger] occurs_at(a + b, p, j) implies j + p.len()
        <= n by {
        if j + p.len() > n {
            assert((a + b).subrange(j, j + p.len())[n - j] == (a + b)[n]);
            assert(p[n - j] == b[0]);
        }
    }
}

/// At a clean cut, the parts can be searched one by one.
proof fn lemma_find_cut(a: Seq<char>, b: Seq<char>, p: Seq<char>)
    requires
        p.len() > 0,
        cut_clean(a, b, p),
    ensures
        find(a + b, p) == (match (find(a, p), find(b, p)) {
            (Some(i), _) => Some(i),
            (None, Some(i)) => Some(a.len() + i),
            (None, None) => None,
        }),
{
    let t = a + b;
    let n = a.len() as int;
    lemma_find(a, p);
    lemma_find(b, p);
    lemma_find_append(a, b, p);
    if find(a, p) is None {
        assert forall|j: int| 0 <= j < n implies !occurs_at(t, p, j) by {
            if occurs_at(t, p, j) {
                assert(a.subrange(j, j + p.len()) =~= t.subrange(j, j + p.len()));
                assert(occurs_at(a, p, j));
            }
        }
        assert forall|j: int| n <= j <= t.len() implies occurs_at(t, p, j) == occurs_at(
            b,
            p,
            j - n,
        ) by {
            if j + p.len() <= t.len() {
                assert(t.subrange(j, j + p.len()) =~= b.subrange(j - n, j - n + p.len()));
            }
        }
        match find(b, p) {
            Some(i) => {
                assert(occurs_at(t, p, n + i));
                lemma_find_is(t, p, n + i);
            },
            None => {
                lemma_find_none(t, p);
            },
        }
    }
}

/// At a clean cut, the parts can be rewritten one by one.
proof fn lemma_replace_cut(a: Seq<char>, b: Seq<char>, from: Seq<char>, to: Seq<char>)
    requires
        from.len() > 0,
        cut_clean(a, b, from),
    ensures
        replace_all(a + b, from, to) == replace_all(a, from, to) + replace_all(b, from, to),
    decreases a.len(),
{
    lemma_find(a, from);
    match find(a, from) {
        Some(i) => {
            let k = i + from.len();
            let rest = a.skip(k);
            lemma_find_append(a, b, from);
            assert((a + b).take(i) =~= a.take(i));
            assert((a + b).skip(k) =~= rest + b);
            assert forall|j: int| 0 <= j < rest.len() && #[trigger] occurs_at(
                rest + b,
                from,
                j,
            ) implies j + from.len() <= rest.len() by {
                assert((a + b).subrange(k + j, k + j + from.len()) =~= (rest + b).subrange(
                    j,
                    j + from.len(),
                ));
                assert(occurs_at(a + b, from, k + j));
            }
            lemma_replace_cut(rest, b, from, to);
            assert(replace_all(a + b, from, to) =~= replace_all(a, from, to) + replace_all(
                b,
                from,
                to,
            ));
        },
        None => {
            assert forall|j: int| 0 <= j < a.len() implies !#[trigger] occurs_at(a + b, from, j) by {
                if occurs_at(a + b, from, j) {
                    assert(a.subrange(j, j + from.len()) =~= (a + b).subrange(j, j + from.len()));
                    assert(occurs_at(a, from, j));
                }
            }
            lemma_replace_behind(a, b, from, to);
        },
    }
}

/// A character that was not there is not there after a replacement without it.
proof fn lemma_replaced_free(s: Seq<char>, from: Seq<char>, to: Seq<char>, c: char)
    requires
        !s.contains(c),
        !to.contains(c),
    ensures
        !replace_all(s, from, to).contains(c),
    decreases s.len(),
{
    lemma_find(s, from);
    if let Some(i) = find(s, from) {
        if from.len() > 0 {
            let rest = s.skip(i + from.len());
            assert forall|k: int| 0 <= k < rest.len() implies rest[k] != c by {
                assert(s.contains(s[k + i + from.len()]));
            }
            lemma_replaced_free(rest, from, to, c);
            let more = replace_all(rest, from, to);
            let all = s.take(i) + to + more;
            assert forall|k: int| 0 <= k < all.len() implies all[k] != c by {
                if k < i {
                    assert(s.contains(s[k]));
                } else if k < i + to.len() {
                    assert(to.contains(to[k - i]));
                } else {
                    assert(more.contains(more[k - i - to.len()]));
                }
            }
        }
    }
}

/// The quirks are put right part by part, behind a `>` and before a `<`.
proof fn lemma_normalised_parts(a: Seq<char>, b: Seq<char>)
    requires
        (a.len() > 0 && a.last() == '>') || (b.len() > 0 && b[0] == '<'),
    ensures
        normalised(a + b) == normalised(a) + normalised(b),
{
    reveal_strlit("\u{0120}");
    reveal_strlit(" ");
    reveal_strlit("<functionname=");
    let marker = "\u{0120}"@;
    let bad = "<functionname="@;
    let good = "<function name="@;
    assert(cut_clean(a, b, marker));
    lemma_replace_cut(a, b, marker, " "@);
    let x = replace_all(a, marker, " "@);
    let y = replace_all(b, marker, " "@);
    if a.len() > 0 && a.last() == '>' {
        let front = a.drop_last();
        assert(a =~= front + seq!['>']);
        assert(cut_clean(front, seq!['>'], marker));
        lemma_replace_cut(front, seq!['>'], marker, " "@);
        lemma_find(seq!['>'], marker);
        if let Some(i) = find(seq!['>'], marker) {
            assert(seq!['>'].subrange(i, i + 1)[0] == seq!['>'][i]);
        }
        assert(replace_all(seq!['>'], marker, " "@) =~= seq!['>']);
        assert(x.last() == '>');
        assert forall|k: int| 0 <= k < bad.len() implies bad[k] != '>' by {
            lemma_below_fourteen(k);
        }
        lemma_cut_behind(x, y, bad);
    } else {
        let tail = b.drop_first();
        assert(b =~= seq!['<'] + tail);
        assert(cut_clean(seq!['<'], tail, marker));
        lemma_replace_cut(seq!['<'], tail, marker, " "@);
        lemma_find(seq!['<'], marker);
        if let Some(i) = find(seq!['<'], marker) {
            assert(seq!['<'].subrange(i, i + 1)[0] == seq!['<'][i]);
        }
        assert(replace_all(seq!['<'], marker, " "@) =~= seq!['<']);
        assert(y[0] == '<');
        assert forall|k: int| 0 < k < bad.len() implies #[trigger] bad[k] != y[0] by {
            lemma_below_fourteen(k);
        }
        lemma_cut_before(x, y, bad);
    }
    lemma_replace_cut(x, y, bad, good);
}

proof fn lemma_below_fourteen(k: int)
    requires
        0 <= k < 14,
    ensures
        k == 0 || k == 1 || k == 2 || k == 3 || k == 4 || k == 5 || k == 6 || k == 7 || k == 8 || k
            == 9 || k == 10 || k == 11 || k == 12 || k == 13,
{
}

/// The tag of the arguments has no quirk in it.
proof fn lemma_normalised_tags()
    ensures
        normalised("<arguments>"@) == "<arguments>"@,
        normalised("</arguments>"@) == "</arguments>"@,
{
    reveal_strlit("<arguments>");
    reveal_strlit("</arguments>");
    reveal_strlit("\u{0120}");
    reveal_strlit("<functionname=");
    assert forall|s: Seq<char>| s == "<arguments>"@ || s == "</arguments>"@ implies #[trigger] lacks(
        s,
        "\u{0120}"@,
    ) && lacks(s, "<functionname="@) by {
        lemma_find(s, "\u{0120}"@);
        if let Some(i) = find(s, "\u{0120}"@) {
            assert(s.subrange(i, i + 1)[0] == s[i]);
            lemma_below_fourteen(i);
        }
        lemma_find(s, "<functionname="@);
    }
    assert(lacks("<arguments>"@, "\u{0120}"@));
    assert(lacks("</arguments>"@, "\u{0120}"@));
}

/// An opening tag keeps its only `>` at its end.
proof fn lemma_normalised_open(open: Seq<char>)
    requires
        find(open, ">"@) == Some(open.len() - 1),
    ensures
        find(normalised(open), ">"@) == Some(normalised(open).len() - 1),
{
    reveal_strlit(">");
    reveal_strlit(" ");
    reveal_strlit("\u{0120}");
    reveal_strlit("<functionname=");
    reveal_strlit("<function name=");
    let c = seq!['>'];
    assert(">"@ =~= c);
    lemma_find(open, ">"@);
    let front = open.drop_last();
    assert(open.subrange(open.len() - 1, open.len() as int)[0] == open.last());
    assert(open =~= front + c);
    assert(!front.contains('>')) by {
        if front.contains('>') {
            let i = choose|i: int| 0 <= i < front.len() && front[i] == '>';
            assert(open.subrange(i, i + 1) =~= ">"@);
            assert(occurs_at(open, ">"@, i));
        }
    }
    assert forall|k: int| 0 <= k < "<function name="@.len() implies "<function name="@[k] != '>' by {
        assert(k == 14 || k < 14);
        if k < 14 {
            lemma_below_fourteen(k);
        }
    }
    let marker = "\u{0120}"@;
    let bad = "<functionname="@;
    let good = "<function name="@;
    assert(cut_clean(front, c, marker));
    lemma_replace_cut(front, c, marker, " "@);
    lemma_find(c, marker);
    if let Some(i) = find(c, marker) {
        assert(c.subrange(i, i + 1)[0] == c[i]);
    }
    let x = replace_all(front, marker, " "@);
    lemma_replaced_free(front, marker, " "@, '>');
    lemma_find(c, bad);
    assert forall|j: int| 0 <= j < x.len() && #[trigger] occurs_at(x + c, bad, j) implies j
        + bad.len() <= x.len() by {
        if j + bad.len() > x.len() {
            assert((x + c).subrange(j, j + bad.len())[x.len() - j] == '>');
            lemma_below_fourteen(x.len() - j);
        }
    }
    lemma_replace_cut(x, c, bad, good);
    let y = replace_all(x, bad, good);
    lemma_replaced_free(x, bad, good, '>');
    assert(normalised(open) == y + c);
    lemma_lacks_char(y, '>');
    lemma_find_behind(y, c, Seq::empty());
    assert(y + c + Seq::<char>::empty() =~= y + c);
}

/// The value of an attribute ends before the tag of the arguments.
proof fn lemma_attr_before_tag(tag: Seq<char>)
    ensures
        attr_value(tag + "</arguments>"@, "name"@) == attr_value(tag, "name"@),
{
    reveal_strlit("</arguments>");
    reveal_strlit("name");
    reveal_strlit("=\"");
    reveal_strlit("='");
    reveal_strlit("\"");
    reveal_strlit("'");
    let double = "name"@ + "=\""@;
    let single = "name"@ + "='"@;
    lemma_quote_before_tag(tag, double, "\""@);
    lemma_quote_before_tag(tag, single, "'"@);
}

proof fn lemma_quote_before_tag(tag: Seq<char>, mark: Seq<char>, quote: Seq<char>)
    requires
        quote.len() == 1,
        mark.len() == 6,
        mark[5] == quote[0],
        quote[0] == '"' || quote[0] == '\'',
        !mark.contains('<'),
    ensures
        find(tag + "</arguments>"@, mark) == find(tag, mark),
        find(tag, mark) matches Some(i) ==> 0 <= i && i + 6 <= tag.len() && up_to(
            (tag + "</arguments>"@).skip(i + 6),
            quote,
        ) == up_to(tag.skip(i + 6), quote),
{
    reveal_strlit("</arguments>");
    let end = "</arguments>"@;
    assert forall|k: int| 0 <= k < end.len() implies end[k] != quote[0] by {
        lemma_below_fourteen(k);
    }
    assert forall|i: int| 0 < i < mark.len() implies #[trigger] mark[i] != end[0] by {
        assert(mark.contains(mark[i]));
    }
    lemma_cut_before(tag, end, mark);
    lemma_find_cut(tag, end, mark);
    lemma_find(end, mark);
    if let Some(i) = find(end, mark) {
        assert(end.subrange(i, i + 6)[5] == end[i + 5]);
    }
    lemma_find(tag, mark);
    if let Some(i) = find(tag, mark) {
        let value = tag.skip(i + 6);
        assert((tag + end).skip(i + 6) =~= value + end);
        assert(cut_clean(value, end, quote));
        lemma_find_cut(value, end, quote);
        lemma_find(end, quote);
        if let Some(k) = find(end, quote) {
            assert(end.subrange(k, k + 1)[0] == end[k]);
        }
        lemma_find(value, quote);
        if let Some(k) = find(value, quote) {
            assert((value + end).take(k) =~= value.take(k));
        }
    }
}

/// The end tag of the arguments makes no difference to the parameters before it.
proof fn lemma_params_before_tag(rule: Cdata, body: Seq<char>)
    ensures
        params_of(rule, body + "</arguments>"@) == params_of(rule, body),
    decreases body.len(),
{
    reveal_strlit("</arguments>");
    reveal_strlit("<param");
    reveal_strlit("</param>");
    reveal_strlit(">");
    let end = "</arguments>"@;
    lemma_cut_before(body, end, "<param"@);
    lemma_find_cut(body, end, "<param"@);
    assert forall|k: int| 0 <= k < end.len() implies end[k] != 'p' by {
        lemma_below_fourteen(k);
    }
    lemma_find(end, "<param"@);
    if let Some(i) = find(end, "<param"@) {
        assert(end.subrange(i, i + 6)[1] == end[i + 1]);
    }
    lemma_param_bounds(body);
    if let Some(at) = find(body, "<param"@) {
        let tag = body.skip(at);
        assert((body + end).skip(at) =~= tag + end);
        lemma_attr_before_tag(tag);
        assert(cut_clean(tag, end, ">"@));
        lemma_find_cut(tag, end, ">"@);
        lemma_find(end, "</param>"@);
        if let Some(i) = find(end, "</param>"@) {
            assert(end.subrange(i, i + 8)[2] == end[i + 2]);
        }
        match find(tag, ">"@) {
            Some(gt) => {
                let after = tag.skip(gt + 1);
                assert((tag + end).skip(gt + 1) =~= after + end);
                lemma_cut_before(after, end, "</param>"@);
                lemma_find_cut(after, end, "</param>"@);
                if let Some(e) = find(after, "</param>"@) {
                    let rest = after.skip(e + "</param>"@.len());
                    assert((after + end).take(e) =~= after.take(e));
                    assert((after + end).skip(e + "</param>"@.len()) =~= rest + end);
                    lemma_params_before_tag(rule, rest);
                }
            },
            None => {
                lemma_find(end, ">"@);
                if let Some(i) = find(end, ">"@) {
                    let all = tag + end;
                    let after = all.skip(tag.len() + i + 1);
                    assert(after =~= end.skip(i + 1));
                    assert(end.skip(i + 1) =~= end.subrange(i + 1, end.len() as int));
                    lemma_lacks_part(end, "</param>"@, i + 1, end.len() as int);
                }
            },
        }
    }
}

/// The opening tag of the arguments makes no difference to the parameters
/// behind it.
proof fn lemma_params_behind_tag(rule: Cdata, body: Seq<char>)
    ensures
        params_of(rule, "<arguments>"@ + body) == params_of(rule, body),
{
    reveal_strlit("<arguments>");
    reveal_strlit("<param");
    let open = "<arguments>"@;
    assert forall|k: int| 0 <= k < open.len() implies open[k] != 'p' by {
        lemma_below_fourteen(k);
    }
    assert(!"<param"@.contains(open.last())) by {
        assert forall|k: int| 0 <= k < 6 implies "<param"@[k] != '>' by {
            lemma_below_fourteen(k);
        }
    }
    lemma_cut_behind(open, body, "<param"@);
    lemma_find_cut(open, body, "<param"@);
    lemma_find(open, "<param"@);
    if let Some(i) = find(open, "<param"@) {
        assert(open.subrange(i, i + 6)[1] == open[i + 1]);
    }
    lemma_find(body, "<param"@);
    if let Some(at) = find(body, "<param"@) {
        assert((open + body).skip(open.len() + at) =~= body.skip(at));
    }
}

/// An arguments tag around the parameters makes no difference: `open` is the
/// opening tag of the block, up to its first `>`.
#[verifier::spinoff_prover]
#[verifier::rlimit(50)]
pub proof fn law_arguments_tag(rule: Cdata, open: Seq<char>, params: Seq<char>)
    requires
        find(open, ">"@) == Some(open.len() - 1),
    ensures
        block_of(rule, open + "<arguments>"@ + params + "</arguments>"@) == block_of(
            rule,
            open + params,
        ),
        call_of(rule, open + "<arguments>"@ + params + "</arguments>"@) == call_of(
            rule,
            open + params,
        ),
{
    let head = "<arguments>"@;
    let end = "</arguments>"@;
    let o = normalised(open);
    let ps = normalised(params);
    assert(open.last() == '>' && head.last() == '>' && end[0] == '<' && end.len() > 0 && head.len()
        > 0) by {
        reveal_strlit(">");
        reveal_strlit("<arguments>");
        reveal_strlit("</arguments>");
        lemma_find(open, ">"@);
        assert(open.subrange(open.len() - 1, open.len() as int)[0] == open.last());
    }
    lemma_find(open, ">"@);
    lemma_normalised_parts(open, params);
    lemma_normalised_parts(open, head + params + end);
    lemma_normalised_parts(head, params + end);
    lemma_normalised_parts(params, end);
    lemma_normalised_tags();
    assert(open + head + params + end =~= open + (head + params + end));
    assert(head + params + end =~= head + (params + end));
    lemma_normalised_open(open);
    let gt = o.len() - 1;
    let wrapped = head + (ps + end);
    assert(normalised(open + head + params + end) == o + wrapped);
    lemma_find_append(o, wrapped, ">"@);
    lemma_find_append(o, ps, ">"@);
    lemma_find(o, ">"@);
    assert((o + wrapped).take(gt) =~= (o + ps).take(gt));
    assert((o + wrapped).skip(gt + 1) =~= wrapped);
    assert((o + ps).skip(gt + 1) =~= ps);
    lemma_params_behind_tag(rule, ps + end);
    lemma_params_before_tag(rule, ps);
}

/// A block for the function `name` makes the same call with an arguments tag
/// around its parameters as without.
pub proof fn law_named_arguments_tag(rule: Cdata, name: Seq<char>, params: Seq<char>)
    requires
        !name.contains('>'),
    ensures
        ({
            let open = "<function name=\""@ + name + "\">"@;
            call_of(rule, open + "<arguments>"@ + params + "</arguments>"@) == call_of(
                rule,
                open + params,
            )
        }),
{
    reveal_strlit("<function name=\"");
    reveal_strlit("\">");
    reveal_strlit(">");
    let head = "<function name=\""@;
    let open = head + name + "\">"@;
    let front = open.drop_last();
    assert forall|i: int| 0 <= i < front.len() implies front[i] != '>' by {
        if i < 14 {
            lemma_below_fourteen(i);
            assert(front[i] == head[i]);
        } else if i < 16 {
            assert(front[i] == head[i]);
            assert(i == 14 || i == 15);
        } else if i < 16 + name.len() {
            assert(front[i] == name[i - 16]);
            assert(name.contains(name[i - 16]));
        }
    }
    assert(">"@ =~= seq!['>']);
    lemma_lacks_char(front, '>');
    lemma_find_behind(front, ">"@, Seq::empty());
    assert(front + ">"@ + Seq::<char>::empty() =~= open);
    law_arguments_tag(rule, open, params);
}

/// What is no entity is kept: a text without any of the five stays as it is.
pub proof fn law_only_entities_decoded(s: Seq<char>)
    requires
        lacks(s, "&lt;"@),
        lacks(s, "&gt;"@),
        lacks(s, "&quot;"@),
        lacks(s, "&apos;"@),
        lacks(s, "&amp;"@),
    ensures
        decoded(s) == s,
{
}

/// A text without a quirk stays as it is.
pub proof fn law_no_quirk_kept(raw: Seq<char>)
    requires
        lacks(raw, "\u{0120}"@),
        lacks(raw, "<functionname="@),
    ensures
        normalised(raw) == raw,
{
}

/// What does not begin like a section is none, and by the strict rule neither is
/// what does not end like one.
pub proof fn law_no_section(rule: Cdata, raw: Seq<char>)
    ensures
        !"<![CDATA["@.is_prefix_of(raw) ==> unwrapped(rule, raw) == raw,
        "<![CDATA["@.is_prefix_of(raw) && !"]]>"@.is_suffix_of(raw.skip(9)) ==> unwrapped(
            Cdata::Strict,
            raw,
        ) == raw,
{
    reveal_strlit("<![CDATA[");
}

/// An attribute has the text between the quotes behind its first mention as its
/// value. Double quotes go before single ones; without its end quote, or without
/// a mention, it has none.
pub proof fn law_attr(
    lead: Seq<char>,
    attr: Seq<char>,
    value: Seq<char>,
    rest: Seq<char>,
)
    ensures
        !value.contains('"') && find(lead + (attr + "=\""@) + value + "\""@ + rest, attr + "=\""@)
            == Some(lead.len() as int) ==> attr_value(
            lead + (attr + "=\""@) + value + "\""@ + rest,
            attr,
        ) == Some(value),
        !value.contains('"') && find(lead + (attr + "=\""@) + value, attr + "=\""@) == Some(
            lead.len() as int,
        ) ==> attr_value(lead + (attr + "=\""@) + value, attr) is None,
        !value.contains('\'') && lacks(
            lead + (attr + "='"@) + value + "'"@ + rest,
            attr + "=\""@,
        ) && find(lead + (attr + "='"@) + value + "'"@ + rest, attr + "='"@) == Some(
            lead.len() as int,
        ) ==> attr_value(lead + (attr + "='"@) + value + "'"@ + rest, attr) == Some(value),
        !value.contains('\'') && lacks(lead + (attr + "='"@) + value, attr + "=\""@) && find(
            lead + (attr + "='"@) + value,
            attr + "='"@,
        ) == Some(lead.len() as int) ==> attr_value(lead + (attr + "='"@) + value, attr) is None,
        lacks(lead, attr + "=\""@) && lacks(lead, attr + "='"@) ==> attr_value(lead, attr) is None,
{
    reveal_strlit("\"");
    reveal_strlit("'");
    lemma_quoted(lead, attr + "=\""@, value, '"', rest);
    lemma_quoted(lead, attr + "='"@, value, '\'', rest);
    assert("\""@ =~= seq!['"']);
    assert("'"@ =~= seq!['\'']);
}

proof fn lemma_quoted(
    lead: Seq<char>,
    mark: Seq<char>,
    value: Seq<char>,
    quote: char,
    rest: Seq<char>,
)
    ensures
        !value.contains(quote) ==> up_to(
            (lead + mark + value + seq![quote] + rest).skip((lead.len() + mark.len()) as int),
            seq![quote],
        ) == Some(value),
        !value.contains(quote) ==> up_to(
            (lead + mark + value).skip((lead.len() + mark.len()) as int),
            seq![quote],
        ) is None,
{
    let n = (lead.len() + mark.len()) as int;
    lemma_lacks_char(value, quote);
    if !value.contains(quote) {
        lemma_find_behind(value, seq![quote], rest);
        let long = (lead + mark + value + seq![quote] + rest).skip(n);
        assert(long =~= value + seq![quote] + rest);
        assert(long.take(value.len() as int) =~= value);
        assert((lead + mark + value).skip(n) =~= value);
    }
}

} // verus!
