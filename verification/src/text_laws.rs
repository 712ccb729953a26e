//! What holds of texts.

use vstd::prelude::*;

use crate::decimal::decimal;
use crate::text::{
    find, is_blank, is_space, lacks, lemma_find, occurs_at, replace_all, trim, trim_end,
    trim_end_char, trim_start,
};

verus! {

/// Of the characters of ASCII, white space are the space and the five controls
/// from the tabulator to the carriage return.
pub proof fn law_ascii_space(c: char)
    requires
        c as u32 <= 0x7f,
    ensures
        is_space(c) <==> c == ' ' || c == '\t' || c == '\n' || c == '\u{0b}' || c == '\u{0c}' || c
            == '\r',
{
}

/// Trimming takes white space off the two ends, as much as there is, and nothing
/// else.
pub proof fn law_trim(s: Seq<char>)
    ensures
        exists|a: Seq<char>, b: Seq<char>|
            is_blank(a) && is_blank(b) && s == #[trigger] (a + trim(s) + b),
        trim(s).len() > 0 ==> !is_space(trim(s)[0]) && !is_space(trim(s).last()),
{
    let mid = trim_start(s);
    let a = lemma_trim_start(s);
    let b = lemma_trim_end(mid);
    assert(s =~= a + trim(s) + b);
    if trim(s).len() > 0 {
        assert(trim(s)[0] == mid[0]);
    }
}

proof fn lemma_trim_start(s: Seq<char>) -> (a: Seq<char>)
    ensures
        is_blank(a),
        s == a + trim_start(s),
        trim_start(s).len() > 0 ==> !is_space(trim_start(s)[0]),
    decreases s.len(),
{
    if s.len() > 0 && is_space(s[0]) {
        let a = lemma_trim_start(s.drop_first());
        let all = seq![s[0]] + a;
        assert forall|i: int| 0 <= i < all.len() implies is_space(#[trigger] all[i]) by {
            if i > 0 {
                assert(all[i] == a[i - 1]);
            }
        }
        let t = s.drop_first();
        assert(s =~= seq![s[0]] + t);
        assert(seq![s[0]] + (a + trim_start(t)) =~= all + trim_start(t));
        all
    } else {
        assert(s =~= Seq::<char>::empty() + s);
        Seq::empty()
    }
}

proof fn lemma_trim_end(s: Seq<char>) -> (b: Seq<char>)
    ensures
        is_blank(b),
        s == trim_end(s) + b,
        trim_end(s).len() > 0 ==> !is_space(trim_end(s).last()),
    decreases s.len(),
{
    if s.len() > 0 && is_space(s.last()) {
        let b = lemma_trim_end(s.drop_last());
        let all = b.push(s.last());
        assert forall|i: int| 0 <= i < all.len() implies is_space(#[trigger] all[i]) by {
            if i < b.len() {
                assert(all[i] == b[i]);
            }
        }
        let t = s.drop_last();
        assert(s =~= t.push(s.last()));
        assert((trim_end(t) + b).push(s.last()) =~= trim_end(t) + all);
        all
    } else {
        assert(s =~= s + Seq::<char>::empty());
        Seq::empty()
    }
}

/// Nothing is left of a text by trimming where it is blank, and only there.
pub proof fn law_blank(s: Seq<char>)
    ensures
        is_blank(s) <==> trim(s).len() == 0,
{
    let mid = trim_start(s);
    let a = lemma_trim_start(s);
    let b = lemma_trim_end(mid);
    if trim(s).len() == 0 {
        assert forall|i: int| 0 <= i < s.len() implies is_space(#[trigger] s[i]) by {
            if i < a.len() {
                assert(s[i] == a[i]);
            } else {
                assert(s[i] == mid[i - a.len()]);
                assert(mid[i - a.len()] == b[i - a.len()]);
            }
        }
    } else {
        assert(s[a.len() as int] == mid[0]);
        assert(mid[0] == trim(s)[0]);
    }
}

/// A text has its first `p` where `p` stands and stands nowhere before.
pub proof fn law_find(s: Seq<char>, p: Seq<char>, i: int)
    ensures
        find(s, p) == Some(i) <==> 0 <= i && i + p.len() <= s.len() && s.subrange(i, i + p.len())
            == p && forall|j: int|
            0 <= j < i ==> #[trigger] s.subrange(j, j + p.len()) != p,
        lacks(s, p) <==> forall|j: int|
            0 <= j && j + p.len() <= s.len() ==> #[trigger] s.subrange(j, j + p.len()) != p,
{
    lemma_find(s, p);
    if 0 <= i && i + p.len() <= s.len() && s.subrange(i, i + p.len()) == p && forall|j: int|
        0 <= j < i ==> #[trigger] s.subrange(j, j + p.len()) != p {
        assert(occurs_at(s, p, i));
        if let Some(k) = find(s, p) {
            if k < i {
                assert(s.subrange(k, k + p.len()) == p);
            }
        }
    }
    if let Some(k) = find(s, p) {
        assert(s.subrange(k, k + p.len()) == p);
        assert forall|j: int| 0 <= j < k implies #[trigger] s.subrange(j, j + p.len()) != p by {
            assert(!occurs_at(s, p, j));
        }
    } else {
        assert forall|j: int| 0 <= j && j + p.len() <= s.len() implies #[trigger] s.subrange(
            j,
            j + p.len(),
        ) != p by {
            assert(!occurs_at(s, p, j));
        }
    }
}

/// The first `from` is replaced, then what stands behind it; a text without any
/// stays as it is.
pub proof fn law_replace(s: Seq<char>, from: Seq<char>, to: Seq<char>)
    requires
        from.len() > 0,
    ensures
        lacks(s, from) ==> replace_all(s, from, to) == s,
        find(s, from) matches Some(i) ==> replace_all(s, from, to) == s.take(i) + to + replace_all(
            s.skip(i + from.len()),
            from,
            to,
        ),
{
    lemma_find(s, from);
}

/// One `c` behind a text makes no difference once the run of them is gone, and
/// a text that does not end in one stays as it is.
pub proof fn law_trim_end_char(s: Seq<char>, c: char)
    ensures
        trim_end_char(s.push(c), c) == trim_end_char(s, c),
        s.len() == 0 || s.last() != c ==> trim_end_char(s, c) == s,
{
    assert(s.push(c).drop_last() =~= s);
}

/// The number that a notation stands for.
pub open spec fn number_of(s: Seq<char>) -> int
    decreases s.len(),
{
    if s.len() == 0 {
        0
    } else {
        10 * number_of(s.drop_last()) + (s.last() as u32 - 0x30)
    }
}

/// The decimal notation of a number stands for it, and has no zero in front but
/// for zero itself.
pub proof fn law_decimal(n: nat)
    ensures
        number_of(decimal(n)) == n,
        decimal(n).len() > 0,
        decimal(n)[0] == '0' ==> n == 0 && decimal(n).len() == 1,
    decreases n,
{
    if n >= 10 {
        law_decimal(n / 10);
        assert(decimal(n).drop_last() =~= decimal(n / 10));
        assert(decimal(n)[0] == decimal(n / 10)[0]);
        assert(decimal(n).last() as u32 == 0x30 + n % 10);
    } else {
        assert(decimal(n).drop_last() =~= Seq::<char>::empty());
        reveal_with_fuel(number_of, 2);
        assert(decimal(n).last() as u32 == 0x30 + n);
    }
}

} // verus!
