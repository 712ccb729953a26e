//! What holds of the call that a function block makes.

use vstd::prelude::*;

use crate::call::{args_of, call_of, value_of, CallView};
use crate::core_layer::history::param_xml;
use crate::core_layer::round_trip::{lemma_name_read, lemma_param_read, no_quirk, plain_name};
use crate::json::{json_of, json_text, Json};
use crate::markup::{
    attr_value, block_of, decoded, normalised, params_of, unwrapped, BlockView, Cdata, ParamView,
};
use crate::text::{find, is_blank, lacks, lemma_find, lemma_replace_lacking};

verus! {

/// A text that is JSON stands for the value that it is read as, however it is
/// written; any other text stands for itself, and a blank one for the empty text.
pub proof fn law_value_of_text(text: Seq<char>)
    ensures
        json_of(text) matches Some(j) ==> (!is_blank(text) ==> value_of(text) == j),
        !is_blank(text) && json_of(text) is None ==> value_of(text) == Json::Text(text),
        is_blank(text) ==> value_of(text) == Json::Text(Seq::empty()),
{
}

/// Two texts that are read as the same JSON value stand for the same value.
pub proof fn law_spacing_makes_no_difference(a: Seq<char>, b: Seq<char>)
    requires
        !is_blank(a),
        !is_blank(b),
        json_of(a) is Some,
        json_of(a) == json_of(b),
    ensures
        value_of(a) == value_of(b),
        value_of(a) == json_of(a)->0,
{
}

/// The arguments have the names of the parameters and no others, and each has the
/// value of the last parameter of its name.
pub proof fn law_args(params: Seq<ParamView>)
    ensures
        forall|k: Seq<char>| #[trigger]
            args_of(params).contains_key(k) <==> exists|i: int|
                0 <= i < params.len() && (#[trigger] params[i]).0 == k,
        forall|i: int|
            0 <= i < params.len() && (forall|j: int|
                i < j < params.len() ==> (#[trigger] params[j]).0 != params[i].0)
                ==> args_of(params)[(#[trigger] params[i]).0] == value_of(params[i].1),
    decreases params.len(),
{
    if params.len() > 0 {
        let front = params.drop_last();
        let last = params.len() - 1;
        law_args(front);
        assert(params[last] == params.last());
        assert forall|k: Seq<char>| #[trigger] args_of(params).contains_key(k) <==> exists|i: int|
            0 <= i < params.len() && (#[trigger] params[i]).0 == k by {
            if args_of(params).contains_key(k) {
                if k == params.last().0 {
                    assert(params[last].0 == k);
                } else {
                    assert(args_of(front).contains_key(k));
                    let i = choose|i: int| 0 <= i < front.len() && (#[trigger] front[i]).0 == k;
                    assert(params[i].0 == k);
                }
            }
            if exists|i: int| 0 <= i < params.len() && (#[trigger] params[i]).0 == k {
                let i = choose|i: int| 0 <= i < params.len() && (#[trigger] params[i]).0 == k;
                if i < last {
                    assert(front[i].0 == k);
                    assert(args_of(front).contains_key(k));
                }
            }
        }
        assert forall|i: int|
            0 <= i < params.len() && (forall|j: int|
                i < j < params.len() ==> (#[trigger] params[j]).0 != params[i].0) implies args_of(
            params,
        )[(#[trigger] params[i]).0] == value_of(params[i].1) by {
            if i < last {
                assert(params[last].0 != params[i].0);
                assert(front[i] == params[i]);
                assert forall|j: int| i < j < front.len() implies (#[trigger] front[j]).0
                    != front[i].0 by {
                    assert(front[j] == params[j]);
                }
            }
        }
    }
}

/// Two blocks for one function, whose parameters have the same names and texts
/// that are read as the same JSON values, make the same call.
pub proof fn law_same_values_same_call(rule: Cdata, a: Seq<char>, b: Seq<char>)
    requires
        block_of(rule, a) is Some,
        block_of(rule, b) is Some,
        block_of(rule, a)->0.name == block_of(rule, b)->0.name,
        block_of(rule, a)->0.params.len() == block_of(rule, b)->0.params.len(),
        forall|i: int|
            0 <= i < block_of(rule, a)->0.params.len() ==> {
                let p = #[trigger] block_of(rule, a)->0.params[i];
                let q = block_of(rule, b)->0.params[i];
                &&& p.0 == q.0
                &&& p.1 == q.1 || (!is_blank(p.1) && !is_blank(q.1) && json_of(p.1) is Some
                    && json_of(p.1) == json_of(q.1))
            },
    ensures
        call_of(rule, a) == call_of(rule, b),
{
    let ps = block_of(rule, a)->0.params;
    let qs = block_of(rule, b)->0.params;
    assert forall|i: int| 0 <= i < ps.len() implies (#[trigger] ps[i]).0 == qs[i].0 && value_of(
        ps[i].1,
    ) == value_of(qs[i].1) by {
        assert(block_of(rule, a)->0.params[i] == ps[i]);
    }
    lemma_same_args(ps, qs);
}

proof fn lemma_same_args(ps: Seq<ParamView>, qs: Seq<ParamView>)
    requires
        ps.len() == qs.len(),
        forall|i: int|
            0 <= i < ps.len() ==> (#[trigger] ps[i]).0 == qs[i].0 && value_of(ps[i].1) == value_of(
                qs[i].1,
            ),
    ensures
        args_of(ps) == args_of(qs),
    decreases ps.len(),
{
    if ps.len() > 0 {
        assert(ps[ps.len() - 1] == ps.last());
        assert forall|i: int| 0 <= i < ps.drop_last().len() implies (#[trigger] ps.drop_last()[i]).0
            == qs.drop_last()[i].0 && value_of(ps.drop_last()[i].1) == value_of(
            qs.drop_last()[i].1,
        ) by {
            assert(ps.drop_last()[i] == ps[i]);
        }
        lemma_same_args(ps.drop_last(), qs.drop_last());
    }
}

/// A block makes a call where it can be read, and only there: one for the
/// function that it names, with the arguments that its parameters make.
pub proof fn law_call_of_block(rule: Cdata, raw: Seq<char>)
    ensures
        call_of(rule, raw) is Some <==> block_of(rule, raw) is Some,
        block_of(rule, raw) matches Some(b) ==> call_of(rule, raw)->0.name == b.name && call_of(
            rule,
            raw,
        )->0.arguments == json_text(Json::Object(args_of(b.params))),
{
}

/// A block is read as the function that its opening tag names, and the
/// parameters behind that tag.
pub proof fn law_block_read(rule: Cdata, name: Seq<char>, body: Seq<char>)
    requires
        plain_name(name),
        no_quirk("<function name=\""@ + name + "\">"@ + body),
    ensures
        block_of(rule, "<function name=\""@ + name + "\">"@ + body) == (match params_of(rule, body) {
            Some(params) => Some(BlockView { name, params }),
            None => None,
        }),
{
    let head = "<function name=\""@;
    let xml = head + name + "\">"@ + body;
    lemma_replace_lacking(xml, "\u{0120}"@, " "@);
    lemma_replace_lacking(xml, "<functionname="@, "<function name="@);
    assert(normalised(xml) == xml);
    reveal_strlit("\"");
    reveal_strlit(">");
    reveal_strlit("\">");
    assert(xml =~= head + name + "\""@ + ">"@ + body);
    lemma_name_read(head, name, body);
    lemma_name_read(head, name, Seq::empty());
    let gt = (head.len() + name.len() + 1) as int;
    assert(xml.take(gt) =~= head + name + "\""@ + Seq::<char>::empty());
    assert(xml.skip(gt + 1) =~= body);
}

/// A block whose opening tag has no end or no name cannot be read, nor one with a
/// parameter that cannot.
pub proof fn law_broken_block(rule: Cdata, raw: Seq<char>)
    ensures
        ({
            let s = normalised(raw);
            block_of(rule, raw) is None <==> match find(s, ">"@) {
                None => true,
                Some(gt) => attr_value(s.take(gt), "name"@) is None || params_of(
                    rule,
                    s.skip(gt + 1),
                ) is None,
            }
        }),
{
}

/// Without a parameter none is read, and a parameter is read by its name and its
/// text, whatever stands in front of it and behind it.
pub proof fn law_params_read(
    rule: Cdata,
    lead: Seq<char>,
    key: Seq<char>,
    text: Seq<char>,
    tail: Seq<char>,
)
    requires
        lacks(lead, "<param"@),
        plain_name(key),
        lacks(text, "</param>"@),
    ensures
        params_of(rule, lead) == Some(Seq::<ParamView>::empty()),
        params_of(rule, lead + param_xml(key, text) + tail) == (match params_of(rule, tail) {
            Some(more) => Some(seq![(key, decoded(unwrapped(rule, text)))] + more),
            None => None,
        }),
{
    lemma_param_read(rule, lead, key, text, tail);
}

/// A parameter without a name, without the end of its tag, or without its end tag
/// cannot be read.
pub proof fn law_broken_param(rule: Cdata, body: Seq<char>, at: int)
    requires
        find(body, "<param"@) == Some(at),
        ({
            let tag = body.skip(at);
            ||| attr_value(tag, "name"@) is None
            ||| find(tag, ">"@) is None
            ||| lacks(tag.skip(find(tag, ">"@)->0 + 1), "</param>"@)
        }),
    ensures
        params_of(rule, body) is None,
{
}

/// A block with one parameter.
pub open spec fn block_xml(name: Seq<char>, key: Seq<char>, text: Seq<char>) -> Seq<char> {
    "<function name=\""@ + name + "\">"@ + param_xml(key, text)
}

/// The text can stand in a block with one parameter, and the markup leaves it as
/// it is.
pub open spec fn stands_in(
    rule: Cdata,
    name: Seq<char>,
    key: Seq<char>,
    text: Seq<char>,
) -> bool {
    &&& lacks(text, "</param>"@)
    &&& decoded(unwrapped(rule, text)) == text
    &&& no_quirk(block_xml(name, key, text))
}

/// A parameter whose text is JSON makes an argument with the value that the text
/// is read as, and one whose text is no JSON makes an argument with that text.
pub proof fn law_param_typed(rule: Cdata, name: Seq<char>, key: Seq<char>, text: Seq<char>)
    requires
        plain_name(name),
        plain_name(key),
        stands_in(rule, name, key, text),
        !is_blank(text),
    ensures
        call_of(rule, block_xml(name, key, text)) == Some(
            CallView {
                name,
                arguments: json_text(
                    Json::Object(
                        Map::<Seq<char>, Json>::empty().insert(
                            key,
                            match json_of(text) {
                                Some(j) => j,
                                None => Json::Text(text),
                            },
                        ),
                    ),
                ),
            },
        ),
{
    let none = Seq::<char>::empty();
    assert(lacks(none, "<param"@)) by {
        reveal_strlit("<param");
        lemma_find(none, "<param"@);
    }
    law_block_read(rule, name, param_xml(key, text));
    law_params_read(rule, none, key, text, none);
    assert(none + param_xml(key, text) + none =~= param_xml(key, text));
    let params = seq![(key, text)];
    assert(params + Seq::<ParamView>::empty() =~= params);
    assert(params.drop_last() =~= Seq::<ParamView>::empty());
    reveal_with_fuel(args_of, 2);
}

/// However the JSON of a parameter is spaced, the block makes the same call.
pub proof fn law_spaced_param(
    rule: Cdata,
    name: Seq<char>,
    key: Seq<char>,
    a: Seq<char>,
    b: Seq<char>,
)
    requires
        plain_name(name),
        plain_name(key),
        stands_in(rule, name, key, a),
        stands_in(rule, name, key, b),
        !is_blank(a),
        !is_blank(b),
        json_of(a) is Some,
        json_of(a) == json_of(b),
    ensures
        call_of(rule, block_xml(name, key, a)) == call_of(rule, block_xml(name, key, b)),
{
    law_param_typed(rule, name, key, a);
    law_param_typed(rule, name, key, b);
}

/// A parameter is read by the value of its attribute `name`, wherever that stands
/// in its tag, and by the text up to its end tag; then come those behind it.
pub proof fn law_param_in_general(rule: Cdata, body: Seq<char>, at: int, gt: int, end: int)
    requires
        find(body, "<param"@) == Some(at),
        attr_value(body.skip(at), "name"@) is Some,
        find(body.skip(at), ">"@) == Some(gt),
        find(body.skip(at).skip(gt + 1), "</param>"@) == Some(end),
    ensures
        ({
            let after = body.skip(at).skip(gt + 1);
            let name = attr_value(body.skip(at), "name"@)->0;
            params_of(rule, body) == (match params_of(
                rule,
                after.skip(end + "</param>"@.len()),
            ) {
                Some(more) => Some(
                    seq![(name, decoded(unwrapped(rule, after.take(end))))] + more,
                ),
                None => None,
            })
        }),
{
}

/// A block that can be read has the name that its opening tag gives, and the
/// parameters behind that tag, all of them.
pub proof fn law_block_in_general(rule: Cdata, raw: Seq<char>, gt: int)
    requires
        find(normalised(raw), ">"@) == Some(gt),
    ensures
        attr_value(normalised(raw).take(gt), "name"@) matches Some(name) ==> (params_of(
            rule,
            normalised(raw).skip(gt + 1),
        ) matches Some(params) ==> block_of(rule, raw) == Some(BlockView { name, params })),
{
}

} // verus!
