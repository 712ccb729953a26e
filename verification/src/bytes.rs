//! Bytes from the wire.

use vstd::prelude::*;
use vstd::slice::slice_subrange;
use vstd::utf8::*;

verus! {

/// The text that `String::from_utf8_lossy` makes of the given bytes.
pub uninterp spec fn lossy_text(bytes: Seq<u8>) -> Seq<char>;

/// `String::from_utf8_lossy`: what it makes depends on the bytes alone, and is
/// their text where they are UTF-8.
#[verifier::external_body]
pub(crate) fn lossy(bytes: &[u8]) -> (r: String)
    ensures
        r@ == lossy_text(bytes@),
        valid_utf8(bytes@) ==> r@ == decode_utf8(bytes@),
{
    String::from_utf8_lossy(bytes).into_owned()
}

/// The length of the longest front of `bytes` that is UTF-8.
pub open spec fn valid_len(bytes: Seq<u8>) -> nat
    decreases bytes.len(),
{
    if bytes.len() == 0 || valid_utf8(bytes) {
        bytes.len()
    } else {
        valid_len(bytes.drop_last())
    }
}

/// `std::str::from_utf8`: it succeeds on UTF-8, and says else, by
/// `Utf8Error::valid_up_to`, how long a front of the bytes is UTF-8.
#[verifier::external_body]
pub(crate) fn utf8_front(bytes: &[u8]) -> (r: Result<&str, usize>)
    ensures
        match r {
            Ok(s) => valid_utf8(bytes@) && s@ == decode_utf8(bytes@),
            Err(n) => !valid_utf8(bytes@) && n == valid_len(bytes@),
        },
{
    match std::str::from_utf8(bytes) {
        Ok(s) => Ok(s),
        Err(e) => Err(e.valid_up_to()),
    }
}

/// The longest front that is UTF-8 is a front, and is UTF-8.
pub proof fn lemma_valid_len(bytes: Seq<u8>)
    ensures
        valid_len(bytes) <= bytes.len(),
        valid_utf8(bytes.take(valid_len(bytes) as int)),
        forall|n: int|
            valid_len(bytes) < n <= bytes.len() ==> !valid_utf8(#[trigger] bytes.take(n)),
    decreases bytes.len(),
{
    assert(bytes.take(bytes.len() as int) =~= bytes);
    if bytes.len() > 0 && !valid_utf8(bytes) {
        let front = bytes.drop_last();
        lemma_valid_len(front);
        assert(front.take(valid_len(front) as int) =~= bytes.take(valid_len(front) as int));
        assert forall|n: int| valid_len(bytes) < n <= bytes.len() implies !valid_utf8(
            #[trigger] bytes.take(n),
        ) by {
            if n < bytes.len() {
                assert(bytes.take(n) =~= front.take(n));
            }
        }
    }
}

/// The bytes that the pieces make.
pub open spec fn bytes_of_pieces(pieces: Seq<Seq<u8>>) -> Seq<u8>
    decreases pieces.len(),
{
    if pieces.len() == 0 {
        Seq::empty()
    } else {
        bytes_of_pieces(pieces.drop_last()) + pieces.last()
    }
}

/// The position of the first line feed.
pub open spec fn line_end(buf: Seq<u8>) -> Option<int>
    decreases buf.len(),
{
    if buf.len() == 0 {
        None
    } else if buf[0] == 0x0a {
        Some(0)
    } else {
        match line_end(buf.drop_first()) {
            Some(i) => Some(i + 1),
            None => None,
        }
    }
}

/// Finds the first line feed.
pub fn find_line_end(buf: &[u8]) -> (r: Option<usize>)
    ensures
        match r {
            Some(i) => line_end(buf@) == Some(i as int) && i < buf@.len(),
            None => line_end(buf@) is None,
        },
{
    assert(buf@.skip(0) =~= buf@);
    let mut i: usize = 0;
    while i < buf.len()
        invariant
            i <= buf@.len(),
            line_end(buf@) == (match line_end(buf@.skip(i as int)) {
                Some(k) => Some(k + i),
                None => None,
            }),
        decreases buf@.len() - i,
    {
        if buf[i] == 0x0a {
            return Some(i);
        }
        assert(buf@.skip(i as int).drop_first() =~= buf@.skip(i + 1));
        i += 1;
    }
    None
}

/// Where the first line feed stands.
pub proof fn lemma_line_end(buf: Seq<u8>)
    ensures
        match line_end(buf) {
            Some(i) => 0 <= i < buf.len() && buf[i] == 0x0a && forall|j: int|
                0 <= j < i ==> buf[j] != 0x0a,
            None => forall|j: int| 0 <= j < buf.len() ==> buf[j] != 0x0a,
        },
    decreases buf.len(),
{
    if buf.len() > 0 && buf[0] != 0x0a {
        let t = buf.drop_first();
        lemma_line_end(t);
        assert forall|j: int| 0 < j < buf.len() implies buf[j] == t[j - 1] by {}
    }
}

/// More bytes at the back do not change where the first line ends.
pub proof fn lemma_line_end_append(a: Seq<u8>, b: Seq<u8>)
    ensures
        line_end(a) is Some ==> line_end(a + b) == line_end(a),
    decreases a.len(),
{
    if a.len() > 0 && a[0] != 0x0a {
        lemma_line_end_append(a.drop_first(), b);
        assert((a + b).drop_first() =~= a.drop_first() + b);
    }
}

/// Appends all of `extra` to `v`.
pub fn append_bytes(v: &mut Vec<u8>, extra: &[u8])
    ensures
        final(v)@ == old(v)@ + extra@,
{
    v.extend_from_slice(extra);
    assert(v@ =~= old(v)@ + extra@);
}

/// The bytes from `i` on.
pub fn bytes_from(v: &Vec<u8>, i: usize) -> (r: Vec<u8>)
    requires
        i <= v@.len(),
    ensures
        r@ == v@.skip(i as int),
{
    let mut r: Vec<u8> = Vec::new();
    append_bytes(&mut r, slice_subrange(v.as_slice(), i, v.len()));
    assert(r@ =~= v@.skip(i as int));
    r
}

/// Behind bytes that are UTF-8, more bytes are UTF-8 or not as they are alone,
/// and the texts stand one behind the other.
pub proof fn lemma_utf8_behind(a: Seq<u8>, b: Seq<u8>)
    requires
        valid_utf8(a),
    ensures
        valid_utf8(a + b) == valid_utf8(b),
        valid_utf8(b) ==> decode_utf8(a + b) == decode_utf8(a) + decode_utf8(b),
    decreases a.len(),
{
    if a.len() == 0 {
        assert(a + b =~= b);
        assert(decode_utf8(a) + decode_utf8(b) =~= decode_utf8(b));
    } else {
        let t = a + b;
        assert(t[0] == a[0]);
        let n = length_of_first_scalar(a);
        assert(forall|i: int| 0 <= i < a.len() ==> t[i] == a[i]);
        assert(valid_first_scalar(t));
        let rest = pop_first_scalar(a);
        assert(pop_first_scalar(t) =~= rest + b);
        lemma_utf8_behind(rest, b);
        if valid_utf8(b) {
            assert(decode_first_scalar(t) == decode_first_scalar(a));
            assert(decode_utf8(t) =~= decode_utf8(a) + decode_utf8(b));
        }
    }
}

/// The longest front that is UTF-8 ends where that of the bytes behind any
/// front that is UTF-8 ends.
pub proof fn lemma_valid_len_behind(a: Seq<u8>, b: Seq<u8>)
    requires
        valid_utf8(a),
    ensures
        valid_len(a + b) == a.len() + valid_len(b),
{
    let t = a + b;
    let n = (a.len() + valid_len(b)) as int;
    lemma_valid_len(t);
    lemma_valid_len(b);
    assert(t.take(n) =~= a + b.take(valid_len(b) as int));
    lemma_utf8_behind(a, b.take(valid_len(b) as int));
    let m = valid_len(t) as int;
    if m > n {
        assert(t.take(m) =~= a + b.take(m - a.len()));
        lemma_utf8_behind(a, b.take(m - a.len()));
    }
}

} // verus!
