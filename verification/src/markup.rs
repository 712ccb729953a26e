//! The markup of a function block:
//! `<function name="…"><param name="…">…</param>…`.

use vstd::prelude::*;
use vstd::slice::slice_subrange;

use crate::text::{
    append_chars, begins_with, chars_of, ends_with, find, find_in, lacks, lemma_find, replace_all,
    replace_in, text_of,
};

verus! {

/// What stands in `s` before the first `p`.
pub open spec fn up_to(s: Seq<char>, p: Seq<char>) -> Option<Seq<char>> {
    match find(s, p) {
        Some(e) => Some(s.take(e)),
        None => None,
    }
}

/// The value of the attribute `attr` in `tag`. A value in double quotes goes
/// before one in single quotes.
pub open spec fn attr_value(tag: Seq<char>, attr: Seq<char>) -> Option<Seq<char>> {
    let double = attr + "=\""@;
    let single = attr + "='"@;
    match find(tag, double) {
        Some(i) => up_to(tag.skip(i + double.len()), "\""@),
        None => match find(tag, single) {
            Some(i) => up_to(tag.skip(i + single.len()), "'"@),
            None => None,
        },
    }
}

/// `s` with the five predefined entities of XML replaced by what they stand
/// for. `&amp;` comes last, so that `&amp;lt;` gives `&lt;`.
pub open spec fn decoded(s: Seq<char>) -> Seq<char> {
    let s = replace_all(s, "&lt;"@, "<"@);
    let s = replace_all(s, "&gt;"@, ">"@);
    let s = replace_all(s, "&quot;"@, "\""@);
    let s = replace_all(s, "&apos;"@, "'"@);
    replace_all(s, "&amp;"@, "&"@)
}

/// `raw` with the quirks of the tokenizer put right: the space marker U+0120
/// becomes a space, and `<functionname=` gets its space back.
pub open spec fn normalised(raw: Seq<char>) -> Seq<char> {
    replace_all(replace_all(raw, "\u{0120}"@, " "@), "<functionname="@, "<function name="@)
}

/// How the end of a CDATA section is recognised.
#[derive(Clone, Copy, Debug, PartialEq, Eq, Structural)]
pub enum Cdata {
    /// By `]]>` only; what ends otherwise is not taken for a section.
    Strict,
    /// By `]]>`, or by `]]`, `]` or nothing where the section was cut short.
    Lenient,
}

/// `s` without the `n` characters at its back.
pub open spec fn without_last(s: Seq<char>, n: nat) -> Seq<char> {
    s.take(s.len() - n)
}

/// The text of a CDATA section; anything else as it is.
pub open spec fn unwrapped(rule: Cdata, raw: Seq<char>) -> Seq<char> {
    let inner = raw.skip("<![CDATA["@.len() as int);
    if !"<![CDATA["@.is_prefix_of(raw) {
        raw
    } else if "]]>"@.is_suffix_of(inner) {
        without_last(inner, 3)
    } else if rule == Cdata::Strict {
        raw
    } else if "]]"@.is_suffix_of(inner) {
        without_last(inner, 2)
    } else if "]"@.is_suffix_of(inner) {
        without_last(inner, 1)
    } else {
        inner
    }
}

/// A parameter of a call: its name and its text.
pub type ParamView = (Seq<char>, Seq<char>);

/// The parameters that stand in `body`, in their order; nothing where one of
/// them is broken.
pub open spec fn params_of(rule: Cdata, body: Seq<char>) -> Option<Seq<ParamView>>
    decreases body.len(),
{
    proof {
        lemma_param_bounds(body);
    }
    match find(body, "<param"@) {
        None => Some(Seq::empty()),
        Some(at) => {
            let tag = body.skip(at);
            match (attr_value(tag, "name"@), find(tag, ">"@)) {
                (Some(name), Some(gt)) => {
                    let after = tag.skip(gt + 1);
                    match find(after, "</param>"@) {
                        Some(end) => {
                            let text = decoded(unwrapped(rule, after.take(end)));
                            match params_of(rule, after.skip(end + "</param>"@.len())) {
                                Some(more) => Some(seq![(name, text)] + more),
                                None => None,
                            }
                        },
                        None => None,
                    }
                },
                _ => None,
            }
        },
    }
}

/// A function block that has been read: the name of the function, and the
/// parameters of the call.
pub struct BlockView {
    pub name: Seq<char>,
    pub params: Seq<ParamView>,
}

/// The call that a function block makes; nothing where the block is broken.
pub open spec fn block_of(rule: Cdata, raw: Seq<char>) -> Option<BlockView> {
    let s = normalised(raw);
    match find(s, ">"@) {
        Some(gt) => match (attr_value(s.take(gt), "name"@), params_of(rule, s.skip(gt + 1))) {
            (Some(name), Some(params)) => Some(BlockView { name, params }),
            _ => None,
        },
        None => None,
    }
}

/// The parts of a parameter lie one behind the other.
pub proof fn lemma_param_bounds(body: Seq<char>)
    ensures
        find(body, "<param"@) matches Some(at) ==> 0 <= at < body.len() && (find(
            body.skip(at),
            ">"@,
        ) matches Some(gt) ==> 0 <= gt < body.len() - at && (find(
            body.skip(at).skip(gt + 1),
            "</param>"@,
        ) matches Some(end) ==> 0 <= end && at + gt + 1 + end + "</param>"@.len() <= body.len())),
{
    reveal_strlit("<param");
    reveal_strlit(">");
    lemma_find(body, "<param"@);
    if let Some(at) = find(body, "<param"@) {
        lemma_find(body.skip(at), ">"@);
        if let Some(gt) = find(body.skip(at), ">"@) {
            lemma_find(body.skip(at).skip(gt + 1), "</param>"@);
        }
    }
}

/// Finds the text before the first `p`.
fn text_up_to(s: &[char], p: &str) -> (r: Option<String>)
    ensures
        match r {
            Some(t) => up_to(s@, p@) == Some(t@),
            None => up_to(s@, p@) is None,
        },
{
    let needle = chars_of(p);
    match find_in(s, needle.as_slice()) {
        Some(e) => {
            let t = text_of(slice_subrange(s, 0, e));
            assert(s@.subrange(0, e as int) =~= s@.take(e as int));
            Some(t)
        },
        None => None,
    }
}

/// Finds the text behind the first `attr` with `sign` behind it, up to the
/// next `quote`; the outer `None` says that `attr` with `sign` does not occur.
fn value_behind(tag: &[char], attr: &str, sign: &str, quote: &str) -> (r: Option<Option<String>>)
    ensures
        match r {
            Some(v) => find(tag@, attr@ + sign@) is Some && match v {
                Some(t) => up_to(
                    tag@.skip(find(tag@, attr@ + sign@)->0 + (attr@ + sign@).len()),
                    quote@,
                ) == Some(t@),
                None => up_to(
                    tag@.skip(find(tag@, attr@ + sign@)->0 + (attr@ + sign@).len()),
                    quote@,
                ) is None,
            },
            None => lacks(tag@, attr@ + sign@),
        },
{
    let mut needle = chars_of(attr);
    append_chars(&mut needle, chars_of(sign).as_slice());
    let total = tag.len();
    match find_in(tag, needle.as_slice()) {
        Some(i) => {
            let rest = slice_subrange(tag, i + needle.len(), total);
            assert(rest@ =~= tag@.skip(i + needle@.len()));
            Some(text_up_to(rest, quote))
        },
        None => None,
    }
}

fn attr_in(tag: &[char], attr: &str) -> (r: Option<String>)
    ensures
        match r {
            Some(v) => attr_value(tag@, attr@) == Some(v@),
            None => attr_value(tag@, attr@) is None,
        },
{
    match value_behind(tag, attr, "=\"", "\"") {
        Some(v) => v,
        None => match value_behind(tag, attr, "='", "'") {
            Some(v) => v,
            None => None,
        },
    }
}

/// Pulls the value of the attribute `attr` out of `tag`.
pub fn extract_attr(tag: &str, attr: &str) -> (r: Option<String>)
    ensures
        match r {
            Some(v) => attr_value(tag@, attr@) == Some(v@),
            None => attr_value(tag@, attr@) is None,
        },
{
    attr_in(chars_of(tag).as_slice(), attr)
}

fn replaced(s: &[char], from: &str, to: &str) -> (r: Vec<char>)
    requires
        from@.len() > 0,
    ensures
        r@ == replace_all(s@, from@, to@),
{
    replace_in(s, chars_of(from).as_slice(), chars_of(to).as_slice())
}

fn decode_in(s: &[char]) -> (r: Vec<char>)
    ensures
        r@ == decoded(s@),
{
    proof {
        reveal_strlit("&lt;");
        reveal_strlit("&gt;");
        reveal_strlit("&quot;");
        reveal_strlit("&apos;");
        reveal_strlit("&amp;");
    }
    let s = replaced(s, "&lt;", "<");
    let s = replaced(s.as_slice(), "&gt;", ">");
    let s = replaced(s.as_slice(), "&quot;", "\"");
    let s = replaced(s.as_slice(), "&apos;", "'");
    replaced(s.as_slice(), "&amp;", "&")
}

/// Replaces the five predefined entities of XML.
pub fn decode_xml_entities(s: &str) -> (r: String)
    ensures
        r@ == decoded(s@),
{
    text_of(decode_in(chars_of(s).as_slice()).as_slice())
}

fn unwrap_cdata(rule: Cdata, raw: &[char]) -> (r: &[char])
    ensures
        r@ == unwrapped(rule, raw@),
{
    proof {
        reveal_strlit("<![CDATA[");
        reveal_strlit("]]>");
        reveal_strlit("]]");
        reveal_strlit("]");
    }
    if !begins_with(raw, chars_of("<![CDATA[").as_slice()) {
        return raw;
    }
    let inner = slice_subrange(raw, 9, raw.len());
    assert(inner@ =~= raw@.skip(9));
    let n = inner.len();
    let cut: usize;
    if ends_with(inner, chars_of("]]>").as_slice()) {
        cut = 3;
    } else if rule == Cdata::Strict {
        return raw;
    } else if ends_with(inner, chars_of("]]").as_slice()) {
        cut = 2;
    } else if ends_with(inner, chars_of("]").as_slice()) {
        cut = 1;
    } else {
        return inner;
    }
    let r = slice_subrange(inner, 0, n - cut);
    assert(r@ =~= inner@.take(n - cut));
    r
}

/// A function block that has been read.
#[derive(Debug)]
pub struct Block {
    pub name: String,
    pub params: Vec<(String, String)>,
}

/// The contents of a list of parameters.
pub open spec fn param_views(s: Seq<(String, String)>) -> Seq<ParamView> {
    s.map_values(|p: (String, String)| (p.0@, p.1@))
}

impl View for Block {
    type V = BlockView;

    open spec fn view(&self) -> BlockView {
        BlockView { name: self.name@, params: param_views(self.params@) }
    }
}

fn read_params(rule: Cdata, body: &[char]) -> (r: Option<Vec<(String, String)>>)
    ensures
        match r {
            Some(v) => params_of(rule, body@) == Some(param_views(v@)),
            None => params_of(rule, body@) is None,
        },
{
    let mut out: Vec<(String, String)> = Vec::new();
    let mut rest: &[char] = body;
    assert(param_views(out@) =~= Seq::<ParamView>::empty());
    proof {
        if let Some(t) = params_of(rule, rest@) {
            assert(Seq::<ParamView>::empty() + t =~= t);
        }
    }
    loop
        invariant
            params_of(rule, body@) == (match params_of(rule, rest@) {
                Some(more) => Some(param_views(out@) + more),
                None => None,
            }),
        decreases rest@.len(),
    {
        proof {
            lemma_param_bounds(rest@);
            reveal_strlit(">");
            reveal_strlit("</param>");
        }
        let total = rest.len();
        match find_in(rest, chars_of("<param").as_slice()) {
            None => {
                assert(param_views(out@) + Seq::<ParamView>::empty() =~= param_views(out@));
                return Some(out);
            },
            Some(at) => {
                let tag = slice_subrange(rest, at, total);
                assert(tag@ =~= rest@.skip(at as int));
                let name = match attr_in(tag, "name") {
                    Some(name) => name,
                    None => return None,
                };
                let gt = match find_in(tag, chars_of(">").as_slice()) {
                    Some(gt) => gt,
                    None => return None,
                };
                let after = slice_subrange(tag, gt + 1, tag.len());
                assert(after@ =~= tag@.skip(gt + 1));
                let end = match find_in(after, chars_of("</param>").as_slice()) {
                    Some(end) => end,
                    None => return None,
                };
                let raw = slice_subrange(after, 0, end);
                assert(raw@ =~= after@.take(end as int));
                let text = text_of(decode_in(unwrap_cdata(rule, raw)).as_slice());
                let ghost seen = param_views(out@);
                let ghost one = (name@, text@);
                out.push((name, text));
                let next = slice_subrange(after, end + 8, after.len());
                proof {
                    assert(next@ =~= after@.skip(end + 8));
                    assert(param_views(out@) =~= seen + seq![one]);
                    if let Some(more) = params_of(rule, next@) {
                        assert(seen + (seq![one] + more) =~= (seen + seq![one]) + more);
                    }
                }
                rest = next;
            },
        }
    }
}

/// Reads a function block.
pub fn read_block(rule: Cdata, raw: &str) -> (r: Option<Block>)
    ensures
        match r {
            Some(b) => block_of(rule, raw@) == Some(b@),
            None => block_of(rule, raw@) is None,
        },
{
    proof {
        reveal_strlit("\u{0120}");
        reveal_strlit("<functionname=");
        reveal_strlit(">");
    }
    let raw = chars_of(raw);
    let spaced = replaced(raw.as_slice(), "\u{0120}", " ");
    let norm = replaced(spaced.as_slice(), "<functionname=", "<function name=");
    let s = norm.as_slice();
    let total = s.len();
    match find_in(s, chars_of(">").as_slice()) {
        Some(gt) => {
            let open = slice_subrange(s, 0, gt);
            let body = slice_subrange(s, gt + 1, total);
            assert(open@ =~= s@.take(gt as int));
            assert(body@ =~= s@.skip(gt + 1));
            let name = match attr_in(open, "name") {
                Some(name) => name,
                None => return None,
            };
            match read_params(rule, body) {
                Some(params) => Some(Block { name, params }),
                None => None,
            }
        },
        None => None,
    }
}

} // verus!
