//! Searching, cutting and rewriting text, seen as a sequence of characters.

use vstd::prelude::*;
use vstd::slice::slice_subrange;
use vstd::utf8::*;

verus! {

/// `String::push` puts the character behind the text that the string holds.
pub assume_specification[ String::push ](s: &mut String, c: char)
    ensures
        final(s)@ == old(s)@.push(c),
;

/// `p` stands in `s` from position `i` on.
pub open spec fn occurs_at(s: Seq<char>, p: Seq<char>, i: int) -> bool {
    0 <= i && i + p.len() <= s.len() && s.subrange(i, i + p.len()) == p
}

/// The position of the first `p` in `s`.
pub open spec fn find(s: Seq<char>, p: Seq<char>) -> Option<int>
    decreases s.len(),
{
    if occurs_at(s, p, 0) {
        Some(0)
    } else if s.len() == 0 {
        None
    } else {
        match find(s.drop_first(), p) {
            Some(i) => Some(i + 1),
            None => None,
        }
    }
}

/// `p` stands nowhere in `s`.
pub open spec fn lacks(s: Seq<char>, p: Seq<char>) -> bool {
    find(s, p) is None
}

/// `s` with every `from` in it, taken from left to right, replaced by `to`.
pub open spec fn replace_all(s: Seq<char>, from: Seq<char>, to: Seq<char>) -> Seq<char>
    decreases s.len(),
{
    match find(s, from) {
        Some(i) if from.len() > 0 && 0 <= i && i + from.len() <= s.len() => s.take(i) + to
            + replace_all(s.skip(i + from.len()), from, to),
        _ => s,
    }
}

/// The Unicode property `White_Space`.
pub open spec fn is_space(c: char) -> bool {
    let v = c as u32;
    ||| 0x09 <= v <= 0x0d
    ||| v == 0x20
    ||| v == 0x85
    ||| v == 0xa0
    ||| v == 0x1680
    ||| 0x2000 <= v <= 0x200a
    ||| v == 0x2028
    ||| v == 0x2029
    ||| v == 0x202f
    ||| v == 0x205f
    ||| v == 0x3000
}

/// `s` holds white space only.
pub open spec fn is_blank(s: Seq<char>) -> bool {
    forall|i: int| 0 <= i < s.len() ==> is_space(#[trigger] s[i])
}

/// `s` without the white space at its front.
pub open spec fn trim_start(s: Seq<char>) -> Seq<char>
    decreases s.len(),
{
    if s.len() > 0 && is_space(s[0]) {
        trim_start(s.drop_first())
    } else {
        s
    }
}

/// `s` without the white space at its back.
pub open spec fn trim_end(s: Seq<char>) -> Seq<char>
    decreases s.len(),
{
    if s.len() > 0 && is_space(s.last()) {
        trim_end(s.drop_last())
    } else {
        s
    }
}

/// `s` without the white space at its two ends.
pub open spec fn trim(s: Seq<char>) -> Seq<char> {
    trim_end(trim_start(s))
}

/// `s` without the run of `c` at its back.
pub open spec fn trim_end_char(s: Seq<char>, c: char) -> Seq<char>
    decreases s.len(),
{
    if s.len() > 0 && s.last() == c {
        trim_end_char(s.drop_last(), c)
    } else {
        s
    }
}

/// The number of bytes of `s` in UTF-8.
pub open spec fn byte_len(s: Seq<char>) -> nat {
    encode_utf8(s).len()
}

/// The number of characters that can leave the front of `s` so that what
/// stays behind is still at least `keep` bytes long; none where `s` itself is
/// shorter.
pub open spec fn release(s: Seq<char>, keep: nat) -> int
    decreases s.len(),
{
    if s.len() == 0 || byte_len(s.drop_first()) < keep {
        0
    } else {
        1 + release(s.drop_first(), keep)
    }
}

/// The characters of a text, one by one.
pub fn chars_of(s: &str) -> (r: Vec<char>)
    ensures
        r@ == s@,
{
    let mut r: Vec<char> = Vec::new();
    for c in it: s.chars()
        invariant
            it.seq() == s@,
            r@ == s@.take(it.index()),
    {
        r.push(c);
    }
    assert(r@ =~= s@);
    r
}

/// The text made of the given characters.
pub fn text_of(s: &[char]) -> (r: String)
    ensures
        r@ == s@,
{
    let mut r = String::new();
    for i in 0..s.len()
        invariant
            r@ == s@.take(i as int),
    {
        r.push(s[i]);
        assert(s@.take(i + 1) =~= s@.take(i as int).push(s@[i as int]));
    }
    assert(s@.take(s@.len() as int) =~= s@);
    r
}

/// Whether `p` stands in `s` from `i` on.
fn matches_at(s: &[char], p: &[char], i: usize) -> (r: bool)
    requires
        i <= s@.len(),
    ensures
        r == occurs_at(s@, p@, i as int),
{
    if p.len() > s.len() - i {
        return false;
    }
    for k in 0..p.len()
        invariant
            i + p@.len() <= s@.len() <= usize::MAX,
            forall|j: int| 0 <= j < k ==> s@[i + j] == p@[j],
    {
        if s[i + k] != p[k] {
            assert(s@.subrange(i as int, i + p@.len())[k as int] != p@[k as int]);
            return false;
        }
    }
    assert(s@.subrange(i as int, i + p@.len()) =~= p@);
    true
}

/// Finds the first `p` in `s`.
pub fn find_in(s: &[char], p: &[char]) -> (r: Option<usize>)
    ensures
        match r {
            Some(i) => find(s@, p@) == Some(i as int) && i + p@.len() <= s@.len(),
            None => lacks(s@, p@),
        },
{
    let mut i: usize = 0;
    while i < s.len()
        invariant
            i <= s@.len(),
            forall|j: int| 0 <= j < i ==> !occurs_at(s@, p@, j),
        decreases s@.len() - i,
    {
        if matches_at(s, p, i) {
            proof {
                lemma_find_is(s@, p@, i as int);
            }
            return Some(i);
        }
        i += 1;
    }
    if matches_at(s, p, i) {
        proof {
            lemma_find_is(s@, p@, i as int);
        }
        return Some(i);
    }
    proof {
        lemma_find_none(s@, p@);
    }
    None
}

/// Whether `s` begins with `p`.
pub fn begins_with(s: &[char], p: &[char]) -> (r: bool)
    ensures
        r == p@.is_prefix_of(s@),
{
    let r = matches_at(s, p, 0);
    assert(p@.len() <= s@.len() ==> s@.subrange(0, p@.len() as int) =~= s@.take(
        p@.len() as int,
    ));
    r
}

/// Whether `s` ends with `p`.
pub fn ends_with(s: &[char], p: &[char]) -> (r: bool)
    ensures
        r == p@.is_suffix_of(s@),
{
    if p.len() > s.len() {
        return false;
    }
    let r = matches_at(s, p, s.len() - p.len());
    r
}

/// Whether two texts are the same.
pub fn same_text(a: &str, b: &str) -> (r: bool)
    ensures
        r == (a@ == b@),
{
    let a = chars_of(a);
    let b = chars_of(b);
    if a.len() != b.len() {
        return false;
    }
    let r = matches_at(a.as_slice(), b.as_slice(), 0);
    assert(a@.subrange(0, a@.len() as int) =~= a@);
    r
}

/// Appends all of `extra` to `v`.
pub fn append_chars(v: &mut Vec<char>, extra: &[char])
    ensures
        final(v)@ == old(v)@ + extra@,
{
    for i in 0..extra.len()
        invariant
            v@ == old(v)@ + extra@.take(i as int),
    {
        v.push(extra[i]);
        assert(extra@.take(i + 1) =~= extra@.take(i as int).push(extra@[i as int]));
    }
    assert(extra@.take(extra@.len() as int) =~= extra@);
}

/// Replaces every `from` in `s` by `to`.
pub fn replace_in(s: &[char], from: &[char], to: &[char]) -> (r: Vec<char>)
    requires
        from@.len() > 0,
    ensures
        r@ == replace_all(s@, from@, to@),
{
    let mut r: Vec<char> = Vec::new();
    let mut rest: &[char] = s;
    loop
        invariant
            from@.len() > 0,
            r@ + replace_all(rest@, from@, to@) == replace_all(s@, from@, to@),
        decreases rest@.len(),
    {
        match find_in(rest, from) {
            None => {
                append_chars(&mut r, rest);
                return r;
            },
            Some(i) => {
                let ghost before = r@;
                append_chars(&mut r, slice_subrange(rest, 0, i));
                append_chars(&mut r, to);
                let total = rest.len();
                let tail = slice_subrange(rest, i + from.len(), total);
                proof {
                    assert(rest@.subrange(0, i as int) =~= rest@.take(i as int));
                    assert(tail@ =~= rest@.skip(i + from@.len()));
                    assert(r@ + replace_all(tail@, from@, to@) =~= before + (rest@.take(i as int)
                        + to@ + replace_all(tail@, from@, to@)));
                }
                rest = tail;
            },
        }
    }
}

/// Whether `c` is white space.
pub fn space(c: char) -> (r: bool)
    ensures
        r == is_space(c),
{
    let v = c as u32;
    (0x09 <= v && v <= 0x0d) || v == 0x20 || v == 0x85 || v == 0xa0 || v == 0x1680 || (0x2000 <= v
        && v <= 0x200a) || v == 0x2028 || v == 0x2029 || v == 0x202f || v == 0x205f || v == 0x3000
}

/// Whether `s` holds white space only.
pub fn blank(s: &[char]) -> (r: bool)
    ensures
        r == is_blank(s@),
{
    for i in 0..s.len()
        invariant
            forall|j: int| 0 <= j < i ==> is_space(#[trigger] s@[j]),
    {
        if !space(s[i]) {
            assert(!is_space(s@[i as int]));
            return false;
        }
    }
    true
}

/// Cuts the white space off the two ends of `s`.
pub fn trimmed(s: &[char]) -> (r: &[char])
    ensures
        r@ == trim(s@),
{
    let mut i: usize = 0;
    assert(s@.skip(0) =~= s@);
    while i < s.len() && space(s[i])
        invariant
            i <= s@.len(),
            trim_start(s@.skip(i as int)) == trim_start(s@),
        decreases s@.len() - i,
    {
        assert(s@.skip(i as int).drop_first() =~= s@.skip(i + 1));
        i += 1;
    }
    let front = slice_subrange(s, i, s.len());
    assert(front@ =~= s@.skip(i as int));
    assert(front@ == trim_start(s@));
    let mut j: usize = front.len();
    assert(front@.take(j as int) =~= front@);
    while j > 0 && space(front[j - 1])
        invariant
            j <= front@.len(),
            trim_end(front@.take(j as int)) == trim_end(front@),
        decreases j,
    {
        assert(front@.take(j as int).drop_last() =~= front@.take(j - 1));
        j -= 1;
    }
    let r = slice_subrange(front, 0, j);
    assert(r@ =~= front@.take(j as int));
    r
}

/// Cuts the run of `c` off the back of `s`.
pub fn without_trailing(s: &[char], c: char) -> (r: &[char])
    ensures
        r@ == trim_end_char(s@, c),
{
    let mut j: usize = s.len();
    assert(s@.take(j as int) =~= s@);
    while j > 0 && s[j - 1] == c
        invariant
            j <= s@.len(),
            trim_end_char(s@.take(j as int), c) == trim_end_char(s@, c),
        decreases j,
    {
        assert(s@.take(j as int).drop_last() =~= s@.take(j - 1));
        j -= 1;
    }
    let r = slice_subrange(s, 0, j);
    assert(r@ =~= s@.take(j as int));
    r
}

/// The number of bytes that `c` takes in UTF-8.
fn width(c: char) -> (r: usize)
    ensures
        r == encode_scalar(c as u32).len(),
        1 <= r <= 4,
{
    let v = c as u32;
    if v <= 0x7f {
        1
    } else if v <= 0x7ff {
        2
    } else if v <= 0xffff {
        3
    } else {
        4
    }
}

/// The number of characters that can leave the front of `s` while `keep`
/// bytes stay behind.
pub fn releasable(s: &[char], keep: usize) -> (r: usize)
    requires
        keep <= usize::MAX - 4,
    ensures
        r == release(s@, keep as nat),
        r <= s@.len(),
{
    let mut i: usize = s.len();
    let mut held: usize = 0;
    assert(s@.skip(i as int) =~= Seq::<char>::empty());
    while i > 0 && held < keep
        invariant
            i <= s@.len(),
            held == byte_len(s@.skip(i as int)),
            i < s@.len() ==> byte_len(s@.skip(i + 1)) < keep,
            held < keep + 4,
            keep <= usize::MAX - 4,
        decreases i,
    {
        i -= 1;
        assert(s@.skip(i as int).drop_first() =~= s@.skip(i + 1));
        held += width(s[i]);
    }
    proof {
        lemma_release_is(s@, keep as nat, i as int);
    }
    i
}

/// Fewer characters never take more bytes.
pub proof fn lemma_byte_len_skip(s: Seq<char>, i: int)
    requires
        0 <= i <= s.len(),
    ensures
        byte_len(s.skip(i)) <= byte_len(s),
        s.len() <= byte_len(s),
    decreases s.len(),
{
    if s.len() > 0 {
        if i > 0 {
            lemma_byte_len_skip(s.drop_first(), i - 1);
            assert(s.drop_first().skip(i - 1) =~= s.skip(i));
        } else {
            lemma_byte_len_skip(s.drop_first(), 0);
            assert(s.skip(0) =~= s);
        }
    } else {
        assert(s.skip(i) =~= s);
    }
}

/// The largest cut that leaves `keep` bytes behind is what `release` gives.
pub proof fn lemma_release_is(s: Seq<char>, keep: nat, i: int)
    requires
        0 <= i <= s.len(),
        byte_len(s.skip(i)) >= keep || i == 0,
        i < s.len() ==> byte_len(s.skip(i + 1)) < keep,
    ensures
        release(s, keep) == i,
    decreases s.len(),
{
    assert(s.skip(0) =~= s);
    if s.len() > 0 {
        let t = s.drop_first();
        assert(t =~= s.skip(1));
        if i > 0 {
            assert(t.skip(i - 1) =~= s.skip(i));
            if i < s.len() {
                assert(t.skip(i) =~= s.skip(i + 1));
            }
            lemma_byte_len_skip(t, i - 1);
            lemma_release_is(t, keep, i - 1);
        }
    }
}

/// `find` gives the first place at which `p` stands, and nothing where it
/// stands nowhere.
pub proof fn lemma_find(s: Seq<char>, p: Seq<char>)
    ensures
        match find(s, p) {
            Some(i) => occurs_at(s, p, i) && forall|j: int| 0 <= j < i ==> !occurs_at(s, p, j),
            None => forall|j: int| !occurs_at(s, p, j),
        },
    decreases s.len(),
{
    if !occurs_at(s, p, 0) && s.len() > 0 {
        let t = s.drop_first();
        lemma_find(t, p);
        assert forall|j: int| j > 0 implies occurs_at(s, p, j) == occurs_at(t, p, j - 1) by {
            if j + p.len() <= s.len() {
                assert(s.subrange(j, j + p.len()) =~= t.subrange(j - 1, j - 1 + p.len()));
            }
        }
        match find(t, p) {
            Some(i) => {
                assert(occurs_at(s, p, i + 1));
                assert forall|j: int| 0 <= j < i + 1 implies !occurs_at(s, p, j) by {
                    if j > 0 {
                        assert(!occurs_at(t, p, j - 1));
                    }
                }
            },
            None => {
                assert forall|j: int| !occurs_at(s, p, j) by {
                    if j > 0 {
                        assert(!occurs_at(t, p, j - 1));
                    }
                }
            },
        }
    }
}

/// The first place at which `p` stands is what `find` gives.
pub proof fn lemma_find_is(s: Seq<char>, p: Seq<char>, i: int)
    requires
        occurs_at(s, p, i),
        forall|j: int| 0 <= j < i ==> !occurs_at(s, p, j),
    ensures
        find(s, p) == Some(i),
{
    lemma_find(s, p);
    match find(s, p) {
        Some(k) => {
            if k < i {
                assert(!occurs_at(s, p, k));
            }
        },
        None => {
            assert(!occurs_at(s, p, i));
        },
    }
}

/// Where `p` stands nowhere, `find` gives nothing.
pub proof fn lemma_find_none(s: Seq<char>, p: Seq<char>)
    requires
        forall|j: int| 0 <= j <= s.len() ==> !occurs_at(s, p, j),
    ensures
        lacks(s, p),
{
    lemma_find(s, p);
}

/// More text at the back does not change where the first `p` stands.
pub proof fn lemma_find_append(s: Seq<char>, b: Seq<char>, p: Seq<char>)
    ensures
        find(s, p) is Some ==> find(s + b, p) == find(s, p),
        find(s, p) is None ==> (find(s + b, p) matches Some(i) ==> s.len() < i + p.len()),
{
    lemma_find(s, p);
    lemma_find(s + b, p);
    assert forall|j: int| j + p.len() <= s.len() implies occurs_at(s, p, j) == occurs_at(
        s + b,
        p,
        j,
    ) by {
        if 0 <= j {
            assert(s.subrange(j, j + p.len()) =~= (s + b).subrange(j, j + p.len()));
        }
    }
    match find(s, p) {
        Some(i) => {
            assert(occurs_at(s + b, p, i));
            assert forall|j: int| 0 <= j < i implies !occurs_at(s + b, p, j) by {
                assert(!occurs_at(s, p, j));
            }
            lemma_find_is(s + b, p, i);
        },
        None => {
            if let Some(i) = find(s + b, p) {
                assert(!occurs_at(s, p, i));
            }
        },
    }
}

/// Where no `p` begins before `k`, the search can begin at `k`.
pub proof fn lemma_find_skip(s: Seq<char>, p: Seq<char>, k: int)
    requires
        0 <= k <= s.len(),
        find(s, p) matches Some(i) ==> k <= i,
    ensures
        match find(s, p) {
            Some(i) => find(s.skip(k), p) == Some(i - k),
            None => find(s.skip(k), p) is None,
        },
{
    let t = s.skip(k);
    lemma_find(s, p);
    assert forall|j: int| 0 <= j implies occurs_at(t, p, j) == occurs_at(s, p, j + k) by {
        if j + p.len() <= t.len() {
            assert(t.subrange(j, j + p.len()) =~= s.subrange(j + k, j + k + p.len()));
        }
    }
    match find(s, p) {
        Some(i) => {
            assert(occurs_at(t, p, i - k));
            lemma_find_is(t, p, i - k);
        },
        None => {
            lemma_find_none(t, p);
        },
    }
}

/// Bytes add up.
pub proof fn lemma_byte_len_add(s: Seq<char>, t: Seq<char>)
    ensures
        byte_len(s + t) == byte_len(s) + byte_len(t),
    decreases s.len(),
{
    if s.len() == 0 {
        assert(s + t =~= t);
    } else {
        assert((s + t).drop_first() =~= s.drop_first() + t);
        lemma_byte_len_add(s.drop_first(), t);
    }
}

/// What `release` gives is the largest cut that leaves `keep` bytes behind.
pub proof fn lemma_release(s: Seq<char>, keep: nat)
    ensures
        ({
            let i = release(s, keep);
            &&& 0 <= i <= s.len()
            &&& byte_len(s.skip(i)) >= keep || i == 0
            &&& i < s.len() ==> byte_len(s.skip(i + 1)) < keep
        }),
    decreases s.len(),
{
    let i = release(s, keep);
    assert(s.skip(0) =~= s);
    if s.len() > 0 {
        let t = s.drop_first();
        assert(t =~= s.skip(1));
        assert(t.skip(0) =~= t);
        if byte_len(t) >= keep {
            lemma_release(t, keep);
            assert(t.skip(i - 1) =~= s.skip(i));
            if i < s.len() {
                assert(t.skip(i) =~= s.skip(i + 1));
            }
        }
    }
}

/// To release from a text, and then again when more has come, is to release
/// from the whole.
#[verifier::spinoff_prover]
#[verifier::rlimit(50)]
pub proof fn lemma_release_append(s: Seq<char>, b: Seq<char>, keep: nat)
    ensures
        release(s + b, keep) == release(s, keep) + release(s.skip(release(s, keep)) + b, keep),
{
    let k = release(s, keep);
    lemma_release(s, keep);
    let t = s.skip(k) + b;
    let m = release(t, keep);
    lemma_release(t, keep);
    lemma_byte_len_add(s.skip(k), b);
    assert(t.skip(0) =~= t);
    assert((s + b).skip(k + m) =~= t.skip(m));
    if m < t.len() {
        assert((s + b).skip(k + m + 1) =~= t.skip(m + 1));
    }
    lemma_release_is(s + b, keep, k + m);
}

/// What leaves the front of a text holds no part of an unfinished `p` at its
/// back, where `p` has ASCII characters, one more than `keep` of them.
pub proof fn lemma_release_before(s: Seq<char>, b: Seq<char>, p: Seq<char>, keep: nat)
    requires
        is_ascii_chars(p),
        p.len() == keep + 1,
        find(s, p) is None,
    ensures
        find(s + b, p) matches Some(i) ==> release(s, keep) <= i,
{
    lemma_release(s, keep);
    lemma_find_append(s, b, p);
    lemma_find(s + b, p);
    let k = release(s, keep);
    if let Some(i) = find(s + b, p) {
        if i < k {
            let tail = s.skip(i);
            assert forall|j: int| 0 <= j < tail.len() implies '\0' <= #[trigger] tail[j]
                <= '\u{7f}' by {
                assert(tail[j] == (s + b).subrange(i, i + p.len())[j]);
                assert(tail[j] == p[j]);
            }
            is_ascii_chars_encode_utf8(tail);
            lemma_byte_len_skip(tail.drop_first(), k - i - 1);
            assert(tail.drop_first().skip(k - i - 1) =~= s.skip(k));
            assert(byte_len(tail) > byte_len(tail.drop_first()));
        }
    }
}

/// `p` overlaps with no other `p`, as its first character comes only once.
pub open spec fn starts_once(p: Seq<char>) -> bool {
    p.len() > 0 && forall|i: int| 0 < i < p.len() ==> #[trigger] p[i] != p.first()
}

/// The first `p` behind a text without it.
pub proof fn lemma_find_behind(a: Seq<char>, p: Seq<char>, b: Seq<char>)
    requires
        lacks(a, p),
        starts_once(p),
    ensures
        find(a + p + b, p) == Some(a.len() as int),
{
    let s = a + p + b;
    let n = a.len() as int;
    lemma_find(a, p);
    assert(s.subrange(n, n + p.len()) =~= p);
    assert forall|j: int| 0 <= j < n implies !occurs_at(s, p, j) by {
        if occurs_at(s, p, j) {
            if j + p.len() <= n {
                assert(a.subrange(j, j + p.len()) =~= s.subrange(j, j + p.len()));
                assert(occurs_at(a, p, j));
            } else {
                assert(s.subrange(j, j + p.len())[n - j] == p[n - j]);
                assert(s[n] == p[0]);
            }
        }
    }
    lemma_find_is(s, p, n);
}

/// Where `c` does not stand, the text `c` does not.
pub proof fn lemma_lacks_char(s: Seq<char>, c: char)
    ensures
        lacks(s, seq![c]) <==> !s.contains(c),
{
    lemma_find(s, seq![c]);
    if s.contains(c) {
        let i = choose|i: int| 0 <= i < s.len() && s[i] == c;
        assert(s.subrange(i, i + 1) =~= seq![c]);
        assert(occurs_at(s, seq![c], i));
    }
    if let Some(i) = find(s, seq![c]) {
        assert(s[i] == s.subrange(i, i + 1)[0]);
    }
}

/// A part of a text without `p` is without it.
pub proof fn lemma_lacks_part(s: Seq<char>, p: Seq<char>, i: int, j: int)
    requires
        lacks(s, p),
        0 <= i <= j <= s.len(),
    ensures
        lacks(s.subrange(i, j), p),
{
    let t = s.subrange(i, j);
    lemma_find(s, p);
    assert forall|k: int| 0 <= k <= t.len() implies !occurs_at(t, p, k) by {
        if occurs_at(t, p, k) {
            assert(s.subrange(i + k, i + k + p.len()) =~= t.subrange(k, k + p.len()));
            assert(occurs_at(s, p, i + k));
        }
    }
    lemma_find_none(t, p);
}

/// Where `from` does not stand, nothing is replaced.
pub proof fn lemma_replace_lacking(s: Seq<char>, from: Seq<char>, to: Seq<char>)
    requires
        lacks(s, from),
    ensures
        replace_all(s, from, to) == s,
{
}

} // verus!
