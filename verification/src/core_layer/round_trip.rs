//! What the model is shown of a call is read as that call again.

use vstd::prelude::*;

use crate::call::{args_of, call_of, CallView};
use crate::core_layer::history::{
    all_well_shown, call_xml, function_xml, functions_xml, kept, param_xml, params_xml,
    shown_args, shown_members, shown_value, survives, well_shown, ShownCall,
};
use crate::core_layer::laws::{between_blocks, law_function, law_two_chunks, lemma_put_one};
use crate::core_layer::replayer::{pushed, put, FlushView};
use crate::decimal::{decimal, lemma_decimal_digits};
use crate::json::{
    is_listing, json_of, json_text, lemma_listing_front, lemma_listing_unique, listing,
    readable, scalar_text, Json,
};
use crate::markup::{
    attr_value, block_of, decoded, normalised, params_of, unwrapped, BlockView, Cdata, ParamView,
};
use crate::markup_laws::law_no_entity;
use crate::scanner::{fed, scan, start, PieceView};
use crate::text::{
    find, is_blank, lacks, lemma_find, lemma_find_behind, lemma_find_is, lemma_lacks_char,
    lemma_lacks_part, lemma_replace_lacking, occurs_at,
};

verus! {

/// A name that can stand in an attribute.
pub open spec fn plain_name(name: Seq<char>) -> bool {
    !name.contains('"') && !name.contains('>')
}

/// The members can be shown as parameters and read again.
pub open spec fn showable(rule: Cdata, members: Seq<(Seq<char>, Json)>) -> bool {
    forall|i: int|
        0 <= i < members.len() ==> {
            let (key, value) = #[trigger] members[i];
            plain_name(key) && lacks(shown_value(value), "</param>"@) && survives(rule, value)
        }
}

/// The markup of a call, up to its end tag.
pub open spec fn open_xml(name: Seq<char>, params: Seq<char>) -> Seq<char> {
    "<function name=\""@ + name + "\"><arguments>"@ + params + "</arguments>"@
}

/// The markup has none of the quirks of the tokenizer in it.
pub open spec fn no_quirk(xml: Seq<char>) -> bool {
    lacks(xml, "\u{0120}"@) && lacks(xml, "<functionname="@)
}

/// The parameters as they are read.
pub open spec fn read_params_of(rule: Cdata, members: Seq<(Seq<char>, Json)>) -> Seq<ParamView> {
    members.map_values(
        |m: (Seq<char>, Json)| (m.0, decoded(unwrapped(rule, shown_value(m.1)))),
    )
}

/// The name in a tag that begins with `head`, which ends in `name="`.
pub proof fn lemma_name_read(head: Seq<char>, name: Seq<char>, rest: Seq<char>)
    requires
        head == "<param name=\""@ || head == "<function name=\""@,
        plain_name(name),
    ensures
        attr_value(head + name + "\""@ + rest, "name"@) == Some(name),
        find(head + name + "\""@ + ">"@ + rest, ">"@) == Some((head.len() + name.len() + 1) as int),
{
    reveal_strlit("<param name=\"");
    reveal_strlit("<function name=\"");
    reveal_strlit("name");
    reveal_strlit("=\"");
    reveal_strlit("\"");
    reveal_strlit(">");
    let tag = head + name + "\""@ + rest;
    let mark = "name"@ + "=\""@;
    let at = head.len() - 6;
    assert(tag.subrange(at, at + 6) =~= mark);
    assert forall|j: int| 0 <= j < at implies !occurs_at(tag, mark, j) by {
        if occurs_at(tag, mark, j) {
            let found = tag.subrange(j, j + 6);
            assert(found[0] == 'n');
            assert(found[1] == 'a');
            assert(tag[j] == head[j]);
            assert(tag[j + 1] == head[j + 1]);
            assert(j == 0 || j == 1 || j == 2 || j == 3 || j == 4 || j == 5 || j == 6 || j == 7 || j
                == 8 || j == 9);
        }
    }
    lemma_find_is(tag, mark, at);
    let value = tag.skip(at + mark.len());
    assert(value =~= name + "\""@ + rest);
    assert("\""@ =~= seq!['"']);
    lemma_lacks_char(name, '"');
    lemma_find_behind(name, "\""@, rest);
    assert(value.take(name.len() as int) =~= name);
    assert(">"@ =~= seq!['>']);
    let before = head + name + "\""@;
    assert forall|j: int| 0 <= j < before.len() implies before[j] != '>' by {
        if j >= head.len() && j < head.len() + name.len() {
            assert(before[j] == name[j - head.len()]);
        } else if j < head.len() {
            assert(before[j] == head[j]);
            assert(j == 0 || j == 1 || j == 2 || j == 3 || j == 4 || j == 5 || j == 6 || j == 7 || j
                == 8 || j == 9 || j == 10 || j == 11 || j == 12 || j == 13 || j == 14 || j == 15);
        }
    }
    lemma_lacks_char(before, '>');
    lemma_find_behind(before, ">"@, rest);
}

/// A parameter is read as it was shown, and then those behind it.
pub proof fn lemma_param_read(
    rule: Cdata,
    lead: Seq<char>,
    key: Seq<char>,
    text: Seq<char>,
    tail: Seq<char>,
)
    requires
        lacks(lead, "<param"@),
        plain_name(key),
        lacks(text, "</param>"@),
    ensures
        params_of(rule, lead + param_xml(key, text) + tail) == (match params_of(rule, tail) {
            Some(more) => Some(seq![(key, decoded(unwrapped(rule, text)))] + more),
            None => None,
        }),
{
    let body = lead + param_xml(key, text) + tail;
    let head = "<param name=\""@;
    let rest = text + "</param>"@ + tail;
    let tag = head + key + "\""@ + ">"@ + rest;
    let n = lead.len() as int;
    assert(find(body, "<param"@) == Some(n) && body.skip(n) == tag) by {
        reveal_strlit("<param");
        reveal_strlit("<param name=\"");
        reveal_strlit("\">");
        reveal_strlit("\"");
        reveal_strlit(">");
        assert(body.skip(n) =~= tag);
        let behind = tag.skip(6);
        assert(body =~= lead + "<param"@ + behind);
        lemma_find_behind(lead, "<param"@, behind);
    }
    lemma_name_read(head, key, rest);
    lemma_name_read(head, key, ">"@ + rest);
    assert(tag =~= head + key + "\""@ + (">"@ + rest));
    let gt = head.len() + key.len() + 1;
    assert(tag.skip(gt as int + 1) =~= rest) by {
        reveal_strlit("\"");
        reveal_strlit(">");
    }
    assert(find(rest, "</param>"@) == Some(text.len() as int)) by {
        reveal_strlit("</param>");
        lemma_find_behind(text, "</param>"@, tail);
    }
    assert(rest.take(text.len() as int) =~= text);
    assert(rest.skip((text.len() + "</param>"@.len()) as int) =~= tail);
}

/// The first parameter stands in front.
proof fn lemma_params_front(members: Seq<(Seq<char>, Json)>)
    requires
        members.len() > 0,
    ensures
        params_xml(members) == param_xml(members[0].0, shown_value(members[0].1)) + params_xml(
            members.drop_first(),
        ),
    decreases members.len(),
{
    let front = members.drop_last();
    let first = param_xml(members[0].0, shown_value(members[0].1));
    if members.len() == 1 {
        assert(front =~= Seq::<(Seq<char>, Json)>::empty());
        assert(members.drop_first() =~= Seq::<(Seq<char>, Json)>::empty());
        assert(members.last() == members[0]);
        assert(params_xml(front) =~= Seq::<char>::empty());
        assert(params_xml(front) + first =~= first);
        assert(first + params_xml(members.drop_first()) =~= first);
    } else {
        lemma_params_front(front);
        assert(front.drop_first() =~= members.drop_first().drop_last());
        let last = param_xml(members.last().0, shown_value(members.last().1));
        assert(members.drop_first().last() == members.last());
        assert((first + params_xml(front.drop_first())) + last =~= first + (params_xml(
            front.drop_first(),
        ) + last));
    }
}

/// The parameters are read as they were shown.
proof fn lemma_params_read(
    rule: Cdata,
    lead: Seq<char>,
    members: Seq<(Seq<char>, Json)>,
    tail: Seq<char>,
)
    requires
        lacks(lead, "<param"@),
        lacks(tail, "<param"@),
        lacks(lead + tail, "<param"@),
        showable(rule, members),
    ensures
        params_of(rule, lead + params_xml(members) + tail) == Some(read_params_of(rule, members)),
    decreases members.len(),
{
    if members.len() == 0 {
        assert(lead + params_xml(members) + tail =~= lead + tail);
        assert(read_params_of(rule, members) =~= Seq::<ParamView>::empty());
    } else {
        let (key, value) = members[0];
        let others = members.drop_first();
        let text = shown_value(value);
        lemma_params_front(members);
        let behind = params_xml(others) + tail;
        assert(lead + params_xml(members) + tail =~= lead + param_xml(key, text) + behind);
        lemma_param_read(rule, lead, key, text, behind);
        assert forall|i: int| 0 <= i < others.len() implies {
            let (key, value) = #[trigger] others[i];
            plain_name(key) && lacks(shown_value(value), "</param>"@) && survives(rule, value)
        } by {
            assert(others[i] == members[i + 1]);
        }
        let none = Seq::<char>::empty();
        assert(lacks(none, "<param"@)) by {
            reveal_strlit("<param");
            lemma_find(none, "<param"@);
        }
        assert(none + tail =~= tail);
        lemma_params_read(rule, none, others, tail);
        assert(none + params_xml(others) + tail =~= behind);
        assert(read_params_of(rule, members) =~= seq![(key, decoded(unwrapped(rule, text)))]
            + read_params_of(rule, others));
    }
}

/// The arguments that the parameters make are those that were shown.
proof fn lemma_args_read(
    rule: Cdata,
    args: Map<Seq<char>, Json>,
    members: Seq<(Seq<char>, Json)>,
)
    requires
        is_listing(args, members),
        showable(rule, members),
    ensures
        args_of(read_params_of(rule, members)) == args,
    decreases members.len(),
{
    let params = read_params_of(rule, members);
    if members.len() == 0 {
        assert forall|k: Seq<char>| !args.contains_key(k) by {
            if args.contains_key(k) {
                let i = choose|i: int| 0 <= i < members.len() && (#[trigger] members[i]).0 == k;
                assert(0 <= i < members.len());
            }
        }
        assert(args_of(params) =~= args);
    } else {
        let front = members.drop_last();
        let (key, value) = members.last();
        assert(members[members.len() - 1] == (key, value));
        lemma_listing_front(args, members);
        assert forall|i: int| 0 <= i < front.len() implies {
            let (key, value) = #[trigger] front[i];
            plain_name(key) && lacks(shown_value(value), "</param>"@) && survives(rule, value)
        } by {
            assert(front[i] == members[i]);
        }
        lemma_args_read(rule, args.remove(key), front);
        assert(params.drop_last() =~= read_params_of(rule, front));
        assert(params.last() == (key, decoded(unwrapped(rule, shown_value(value)))));
        assert(args.contains_key(key) && args[key] == value);
        assert(args.remove(key).insert(key, value) =~= args);
    }
}

/// No parameter begins in the tags around the arguments.
proof fn lemma_no_param_around()
    ensures
        lacks("<arguments>"@, "<param"@),
        lacks("</arguments>"@, "<param"@),
        lacks("<arguments>"@ + "</arguments>"@, "<param"@),
        lacks("</arguments></function>"@, "<param"@),
        lacks("<arguments>"@ + "</arguments></function>"@, "<param"@),
{
    reveal_strlit("<arguments>");
    reveal_strlit("</arguments>");
    reveal_strlit("</arguments></function>");
    reveal_strlit("<param");
    let all = "<arguments>"@ + "</arguments></function>"@;
    assert forall|j: int| 0 <= j < all.len() implies all[j] != 'p' by {
        if j < 11 {
            assert(all[j] == "<arguments>"@[j]);
            assert(j == 0 || j == 1 || j == 2 || j == 3 || j == 4 || j == 5 || j == 6 || j == 7 || j
                == 8 || j == 9 || j == 10);
        } else {
            assert(all[j] == "</arguments></function>"@[j - 11]);
            assert(j == 11 || j == 12 || j == 13 || j == 14 || j == 15 || j == 16 || j == 17 || j
                == 18 || j == 19 || j == 20 || j == 21 || j == 22 || j == 23 || j == 24 || j == 25
                || j == 26 || j == 27 || j == 28 || j == 29 || j == 30 || j == 31 || j == 32 || j
                == 33);
        }
    }
    lemma_find(all, "<param"@);
    if let Some(i) = find(all, "<param"@) {
        assert(all.subrange(i, i + 6)[1] == all[i + 1]);
    }
    assert(all.subrange(0, 11) =~= "<arguments>"@);
    assert(all.subrange(11, 23) =~= "</arguments>"@);
    assert(all.subrange(0, 23) =~= "<arguments>"@ + "</arguments>"@);
    assert(all.subrange(11, 34) =~= "</arguments></function>"@);
    lemma_lacks_part(all, "<param"@, 0, 11);
    lemma_lacks_part(all, "<param"@, 11, 23);
    lemma_lacks_part(all, "<param"@, 0, 23);
    lemma_lacks_part(all, "<param"@, 11, 34);
}

/// A call that is shown in the markup is read as that call, without its end tag,
/// which is how the replayer hands it on, and with it: `members` are the arguments
/// in the order in which they are shown. What is left out are names that end an
/// attribute, values that end a parameter or that come to another value once they
/// are shown, and markup that the quirks of the tokenizer change.
pub proof fn law_shown_call_read(
    rule: Cdata,
    name: Seq<char>,
    args: Map<Seq<char>, Json>,
    members: Seq<(Seq<char>, Json)>,
)
    requires
        is_listing(args, members),
        plain_name(name),
        showable(rule, members),
        no_quirk(call_xml(name, params_xml(members))),
    ensures
        call_of(rule, open_xml(name, params_xml(members))) == Some(
            CallView { name, arguments: json_text(Json::Object(args)) },
        ),
        call_of(rule, call_xml(name, params_xml(members))) == Some(
            CallView { name, arguments: json_text(Json::Object(args)) },
        ),
{
    let params = params_xml(members);
    let xml = open_xml(name, params);
    let full = call_xml(name, params);
    lemma_end_tag(name, params);
    assert(full.subrange(0, xml.len() as int) =~= xml);
    lemma_lacks_part(full, "\u{0120}"@, 0, xml.len() as int);
    lemma_lacks_part(full, "<functionname="@, 0, xml.len() as int);
    lemma_no_param_around();
    lemma_call_read(rule, name, args, members, xml, "</arguments>"@);
    lemma_call_read(rule, name, args, members, full, "</arguments></function>"@);
}

/// The markup of a call is the open markup with the end tag behind it.
proof fn lemma_end_tag(name: Seq<char>, params: Seq<char>)
    ensures
        call_xml(name, params) == open_xml(name, params) + "</function>"@,
{
    reveal_strlit("</arguments>");
    reveal_strlit("</function>");
    reveal_strlit("</arguments></function>");
    assert(call_xml(name, params) =~= open_xml(name, params) + "</function>"@);
}

proof fn lemma_call_read(
    rule: Cdata,
    name: Seq<char>,
    args: Map<Seq<char>, Json>,
    members: Seq<(Seq<char>, Json)>,
    xml: Seq<char>,
    tail: Seq<char>,
)
    requires
        is_listing(args, members),
        plain_name(name),
        showable(rule, members),
        no_quirk(xml),
        xml == "<function name=\""@ + name + "\"><arguments>"@ + params_xml(members) + tail,
        lacks("<arguments>"@, "<param"@),
        lacks(tail, "<param"@),
        lacks("<arguments>"@ + tail, "<param"@),
    ensures
        call_of(rule, xml) == Some(
            CallView { name, arguments: json_text(Json::Object(args)) },
        ),
{
    lemma_replace_lacking(xml, "\u{0120}"@, " "@);
    lemma_replace_lacking(xml, "<functionname="@, "<function name="@);
    assert(normalised(xml) == xml);
    let head = "<function name=\""@;
    let rest = "<arguments>"@ + params_xml(members) + tail;
    assert(xml =~= head + name + "\""@ + ">"@ + rest) by {
        reveal_strlit("\"");
        reveal_strlit(">");
        reveal_strlit("<arguments>");
        reveal_strlit("\"><arguments>");
    }
    lemma_name_read(head, name, rest);
    lemma_name_read(head, name, Seq::empty());
    let gt = (head.len() + name.len() + 1) as int;
    assert(xml.take(gt) =~= head + name + "\""@ + Seq::<char>::empty()) by {
        reveal_strlit("\"");
    }
    assert(xml.skip(gt + 1) =~= rest) by {
        reveal_strlit("\"");
        reveal_strlit(">");
    }
    lemma_params_read(rule, "<arguments>"@, members, tail);
    lemma_args_read(rule, args, members);
    assert(block_of(rule, xml) == Some(BlockView { name, params: read_params_of(rule, members) }));
}

/// A text that is no JSON and not blank comes to itself, and so does the empty
/// text, where the markup leaves it as it is.
pub proof fn law_text_survives(rule: Cdata, s: Seq<char>)
    requires
        decoded(unwrapped(rule, s)) == s,
        s.len() == 0 || (!is_blank(s) && json_of(s) is None),
    ensures
        survives(rule, Json::Text(s)),
{
    if s.len() == 0 {
        assert(is_blank(s));
        assert(s =~= Seq::<char>::empty());
    }
}

/// A call that can be shown and read again: see [`law_shown_call_read`]. Its
/// markup ends where its end tag stands.
pub open spec fn replayable(call: ShownCall) -> bool {
    let members = shown_members(call.1);
    let xml = open_xml(call.0, params_xml(members));
    &&& is_listing(shown_args(call.1), members)
    &&& plain_name(call.0)
    &&& showable(Cdata::Strict, members)
    &&& no_quirk(call_xml(call.0, params_xml(members)))
    &&& lacks(xml, "</function>"@)
}

/// The call that is read out of the markup of a call.
pub open spec fn as_read(call: ShownCall) -> CallView {
    CallView { name: call.0, arguments: json_text(Json::Object(shown_args(call.1))) }
}

/// What comes out of the replayer for a call that was shown.
pub open spec fn replayed(call: ShownCall) -> FlushView {
    FlushView::ToolCall(as_read(call))
}

/// A call that is shown to the model, and that the model repeats word for word,
/// comes out of the replayer as that call.
pub proof fn law_shown_call_replayed(open: bool, out: Seq<FlushView>, call: ShownCall)
    requires
        replayable(call),
    ensures
        pushed(between_blocks(open), out, function_xml(call.0, call.1)) == (
            out.push(replayed(call)),
            start(),
        ),
{
    let (name, arguments_json) = call;
    let members = shown_members(arguments_json);
    let xml = open_xml(name, params_xml(members));
    law_shown_call_read(Cdata::Strict, name, shown_args(arguments_json), members);
    let none = Seq::<char>::empty();
    lemma_end_tag(name, params_xml(members));
    assert(function_xml(name, arguments_json) =~= xml + "</function>"@ + none);
    reveal_strlit("<function");
    reveal_strlit("<function name=\"");
    assert(xml.take(9) =~= "<function"@);
    let full = call_xml(name, params_xml(members));
    assert(full.subrange(0, xml.len() as int) =~= xml);
    lemma_lacks_part(full, "\u{0120}"@, 0, xml.len() as int);
    lemma_lacks_part(full, "<functionname="@, 0, xml.len() as int);
    lemma_replace_lacking(xml, "\u{0120}"@, " "@);
    lemma_replace_lacking(xml, "<functionname="@, "<function name="@);
    assert(find(xml, ">"@) is Some);
    law_function(open, out, xml, none);
    reveal_strlit("<");
    lemma_find(none, "<"@);
    assert(fed(start(), none).pending =~= none);
}

/// What came out of the replayer for a call that was shown is shown in the same
/// words again.
pub proof fn law_shown_alike(call: ShownCall)
    requires
        replayable(call),
        json_of(json_text(Json::Object(shown_args(call.1)))) == Some(
            Json::Object(shown_args(call.1)),
        ),
    ensures
        ({
            let again = replayed(call)->ToolCall_0;
            function_xml(again.name, again.arguments) == function_xml(call.0, call.1)
        }),
{
    let args = shown_args(call.1);
    assert(is_listing(args, listing(args)));
    lemma_listing_unique(args, listing(args), shown_members(call.1));
}

/// A name that cannot be taken for markup.
pub open spec fn plain_word(s: Seq<char>) -> bool {
    !s.contains('"') && !s.contains('<') && !s.contains('>') && !s.contains('\u{0120}')
}

/// A value that cannot be taken for markup, nor for another value: null, a truth
/// value, an integer, the empty text, or a text that is not blank and no JSON.
pub open spec fn plain_value(v: Json) -> bool {
    match v {
        Json::Text(s) => s.len() == 0 || (!is_blank(s) && json_of(s) is None && !s.contains('<')
            && !s.contains('&') && !s.contains('\u{0120}')),
        _ => scalar_text(v) is Some,
    }
}

/// Arguments of which nothing can be taken for markup.
pub open spec fn plain_args(args: Map<Seq<char>, Json>) -> bool {
    forall|k: Seq<char>| #[trigger]
        args.contains_key(k) ==> plain_word(k) && plain_value(args[k])
}

/// A call of which nothing can be taken for markup.
pub open spec fn plain_call(call: ShownCall) -> bool {
    plain_word(call.0) && plain_args(shown_args(call.1))
}

/// The character at `j` is no space marker and begins neither an end tag of a
/// function, nor an opening tag without its space.
pub open spec fn harmless_at(s: Seq<char>, j: int) -> bool {
    &&& s[j] != '\u{0120}'
    &&& s[j] == '<' ==> {
        ||| j + 1 < s.len() && s[j + 1] != 'f' && s[j + 1] != '/'
        ||| j + 2 < s.len() && s[j + 1] == '/' && s[j + 2] != 'f'
        ||| j + 9 < s.len() && s[j + 1] == 'f' && s[j + 9] != 'n'
    }
}

/// No character of `s` does harm.
pub open spec fn harmless(s: Seq<char>) -> bool {
    forall|j: int| 0 <= j < s.len() ==> #[trigger] harmless_at(s, j)
}

proof fn lemma_harmless_add(a: Seq<char>, b: Seq<char>)
    requires
        harmless(a),
        harmless(b),
    ensures
        harmless(a + b),
{
    let s = a + b;
    assert forall|j: int| 0 <= j < s.len() implies #[trigger] harmless_at(s, j) by {
        if j < a.len() {
            assert(harmless_at(a, j));
            assert(s[j] == a[j]);
            assert(j + 1 < a.len() ==> s[j + 1] == a[j + 1]);
            assert(j + 2 < a.len() ==> s[j + 2] == a[j + 2]);
            assert(j + 9 < a.len() ==> s[j + 9] == a[j + 9]);
        } else {
            let k = j - a.len();
            assert(harmless_at(b, k));
            assert(s[j] == b[k]);
            assert(j + 1 < s.len() ==> s[j + 1] == b[k + 1]);
            assert(j + 2 < s.len() ==> s[j + 2] == b[k + 2]);
            assert(j + 9 < s.len() ==> s[j + 9] == b[k + 9]);
        }
    }
}

proof fn lemma_harmless_text(s: Seq<char>)
    requires
        !s.contains('<'),
        !s.contains('\u{0120}'),
    ensures
        harmless(s),
{
    assert forall|j: int| 0 <= j < s.len() implies #[trigger] harmless_at(s, j) by {
        assert(s.contains(s[j]));
    }
}

/// What is harmless has no quirk and no end tag in it, nor a quirk where an end
/// tag stands behind it.
proof fn lemma_harmless(s: Seq<char>)
    requires
        harmless(s),
    ensures
        lacks(s, "</function>"@),
        no_quirk(s + "</function>"@),
{
    reveal_strlit("\u{0120}");
    reveal_strlit("<functionname=");
    reveal_strlit("</function>");
    let end = "</function>"@;
    lemma_find(s, end);
    if let Some(i) = find(s, end) {
        let found = s.subrange(i, i + 11);
        assert(found[0] == s[i]);
        assert(found[1] == s[i + 1]);
        assert(found[2] == s[i + 2]);
        assert(harmless_at(s, i));
    }
    let all = s + end;
    lemma_find(all, "\u{0120}"@);
    if let Some(i) = find(all, "\u{0120}"@) {
        assert(all.subrange(i, i + 1)[0] == all[i]);
        if i < s.len() {
            assert(harmless_at(s, i));
        } else {
            let k = i - s.len();
            assert(all[i] == end[k]);
            assert(k == 0 || k == 1 || k == 2 || k == 3 || k == 4 || k == 5 || k == 6 || k == 7 || k
                == 8 || k == 9 || k == 10);
        }
    }
    let bad = "<functionname="@;
    lemma_find(all, bad);
    if let Some(i) = find(all, bad) {
        let found = all.subrange(i, i + 14);
        assert(found[0] == all[i]);
        assert(found[1] == all[i + 1]);
        assert(found[9] == all[i + 9]);
        if i < s.len() {
            assert(harmless_at(s, i));
        } else {
            assert(i + 14 > all.len());
        }
    }
}

proof fn lemma_harmless_marks()
    ensures
        harmless("<function name=\""@),
        harmless("\"><arguments>"@),
        harmless("</arguments>"@),
        harmless("<param name=\""@),
        harmless("\">"@),
        harmless("</param>"@),
{
    reveal_strlit("<function name=\"");
    reveal_strlit("\"><arguments>");
    reveal_strlit("</arguments>");
    reveal_strlit("<param name=\"");
    reveal_strlit("\">");
    reveal_strlit("</param>");
    assert forall|s: Seq<char>, j: int|
        (s == "<function name=\""@ || s == "\"><arguments>"@ || s == "</arguments>"@ || s
            == "<param name=\""@ || s == "\">"@ || s == "</param>"@) && 0 <= j
            < s.len() implies #[trigger] harmless_at(s, j) by {
        assert(j == 0 || j == 1 || j == 2 || j == 3 || j == 4 || j == 5 || j == 6 || j == 7 || j == 8
            || j == 9 || j == 10 || j == 11 || j == 12 || j == 13 || j == 14 || j == 15);
    }
}

/// A plain value is shown by a text that the markup leaves as it is.
proof fn lemma_plain_value(v: Json)
    requires
        plain_value(v),
        well_shown(v),
    ensures
        !shown_value(v).contains('<'),
        !shown_value(v).contains('\u{0120}'),
        survives(Cdata::Strict, v),
        survives(Cdata::Lenient, v),
{
    let t = shown_value(v);
    reveal_strlit("<![CDATA[");
    reveal_strlit("&");
    if !(v is Text) {
        lemma_scalar_text(v);
    } else if t.len() == 0 {
        assert(!t.contains('<') && !t.contains('&') && !t.contains('\u{0120}'));
    }
    assert(!"<![CDATA["@.is_prefix_of(t)) by {
        if "<![CDATA["@.is_prefix_of(t) {
            assert(t[0] == "<![CDATA["@[0]);
            assert(t.contains(t[0]));
        }
    }
    assert("&"@ =~= seq!['&']);
    lemma_lacks_char(t, '&');
    law_no_entity(t);
    if v is Text {
        law_text_survives(Cdata::Strict, t);
        law_text_survives(Cdata::Lenient, t);
    } else {
        assert(kept(v));
    }
}

/// Words and numbers hold no character of the markup.
proof fn lemma_scalar_text(v: Json)
    requires
        scalar_text(v) is Some,
    ensures
        !scalar_text(v)->0.contains('<'),
        !scalar_text(v)->0.contains('&'),
        !scalar_text(v)->0.contains('\u{0120}'),
{
    reveal_strlit("null");
    reveal_strlit("true");
    reveal_strlit("false");
    reveal_strlit("-");
    let t = scalar_text(v)->0;
    assert forall|i: int| 0 <= i < t.len() implies t[i] != '<' && t[i] != '&' && t[i] != '\u{0120}' by {
        match v {
            Json::Natural(n) => {
                lemma_decimal_digits(n as nat);
                assert(0x30 <= decimal(n as nat)[i] as u32 <= 0x39);
            },
            Json::Negative(n) => {
                let d = decimal((0 - n) as nat);
                lemma_decimal_digits((0 - n) as nat);
                if i > 0 {
                    assert(t[i] == d[i - 1]);
                    assert(0x30 <= d[i - 1] as u32 <= 0x39);
                }
            },
            _ => {
                assert(i == 0 || i == 1 || i == 2 || i == 3 || i == 4);
            },
        }
    }
}

proof fn lemma_harmless_params(members: Seq<(Seq<char>, Json)>)
    requires
        forall|i: int|
            0 <= i < members.len() ==> plain_word((#[trigger] members[i]).0) && plain_value(
                members[i].1,
            ) && well_shown(members[i].1),
    ensures
        harmless(params_xml(members)),
    decreases members.len(),
{
    if members.len() > 0 {
        let front = members.drop_last();
        assert forall|i: int| 0 <= i < front.len() implies plain_word((#[trigger] front[i]).0)
            && plain_value(front[i].1) && well_shown(front[i].1) by {
            assert(front[i] == members[i]);
        }
        lemma_harmless_params(front);
        let (key, value) = members.last();
        assert(members[members.len() - 1] == (key, value));
        lemma_plain_value(value);
        lemma_harmless_text(key);
        lemma_harmless_text(shown_value(value));
        lemma_harmless_marks();
        let head = "<param name=\""@;
        lemma_harmless_add(head, key);
        lemma_harmless_add(head + key, "\">"@);
        lemma_harmless_add(head + key + "\">"@, shown_value(value));
        lemma_harmless_add(head + key + "\">"@ + shown_value(value), "</param>"@);
        lemma_harmless_add(params_xml(front), param_xml(key, shown_value(value)));
    }
}

/// A call of which nothing can be taken for markup is read out of its markup as
/// it was, and comes out of the replayer as it was. The conditions on how its
/// arguments are listed and written are those that [`render_function_xml`] states.
///
/// [`render_function_xml`]: crate::core_layer::history::render_function_xml
pub proof fn law_plain_call_read(rule: Cdata, call: ShownCall)
    requires
        is_listing(shown_args(call.1), shown_members(call.1)),
        all_well_shown(shown_members(call.1)),
        plain_call(call),
    ensures
        call_of(rule, function_xml(call.0, call.1)) == Some(as_read(call)),
        replayable(call),
{
    let members = shown_members(call.1);
    let params = params_xml(members);
    let xml = open_xml(call.0, params);
    assert forall|i: int| 0 <= i < members.len() implies plain_word((#[trigger] members[i]).0)
        && plain_value(members[i].1) && well_shown(members[i].1) by {
        assert(shown_args(call.1).contains_key(members[i].0));
    }
    lemma_harmless_params(members);
    lemma_harmless_marks();
    lemma_harmless_text(call.0);
    let head = "<function name=\""@;
    let open = "\"><arguments>"@;
    lemma_harmless_add(head, call.0);
    lemma_harmless_add(head + call.0, open);
    lemma_harmless_add(head + call.0 + open, params);
    lemma_harmless_add(head + call.0 + open + params, "</arguments>"@);
    lemma_harmless(xml);
    lemma_end_tag(call.0, params);
    assert forall|i: int| 0 <= i < members.len() implies {
        let (key, value) = #[trigger] members[i];
        plain_name(key) && lacks(shown_value(value), "</param>"@) && survives(Cdata::Strict, value)
            && survives(Cdata::Lenient, value)
    } by {
        let value = members[i].1;
        lemma_plain_value(value);
        let t = shown_value(value);
        reveal_strlit("</param>");
        lemma_find(t, "</param>"@);
        if let Some(k) = find(t, "</param>"@) {
            assert(t.subrange(k, k + 8)[0] == t[k]);
            assert(t.contains(t[k]));
        }
    }
    assert(showable(Cdata::Strict, members));
    assert(showable(Cdata::Lenient, members));
    law_shown_call_read(rule, call.0, shown_args(call.1), members);
}

/// An object of plain values is one that is read back from its JSON text.
pub proof fn law_plain_args_readable(args: Map<Seq<char>, Json>)
    requires
        plain_args(args),
    ensures
        readable(Json::Object(args), 127),
{
    reveal_with_fuel(readable, 2);
}

/// Reading undoes writing: the markup of a call of `name` with the arguments
/// `args`, given as the JSON text of that object, is read as `name` and that very
/// text.
pub proof fn law_reading_undoes_writing(rule: Cdata, name: Seq<char>, args: Map<Seq<char>, Json>)
    requires
        json_of(json_text(Json::Object(args))) == Some(Json::Object(args)),
        is_listing(args, listing(args)),
        all_well_shown(listing(args)),
        plain_word(name),
        plain_args(args),
    ensures
        call_of(rule, function_xml(name, json_text(Json::Object(args)))) == Some(
            CallView { name, arguments: json_text(Json::Object(args)) },
        ),
{
    law_plain_call_read(rule, (name, json_text(Json::Object(args))));
}

/// A turn of the assistant, as it is shown to the model, comes out of the
/// replayer as the text and the calls that it was made of, in their order.
pub proof fn law_shown_turn_replayed(text: Seq<char>, calls: Seq<ShownCall>)
    requires
        lacks(text, "<"@),
        forall|i: int| 0 <= i < calls.len() ==> replayable(#[trigger] calls[i]),
    ensures
        pushed(start(), Seq::empty(), text + functions_xml(calls)) == (
            (if text.len() == 0 {
                Seq::empty()
            } else {
                seq![FlushView::Delta(text)]
            }) + calls.map_values(|c: ShownCall| replayed(c)),
            between_blocks(calls.len() == 0 && text.len() > 0),
        ),
    decreases calls.len(),
{
    let none = Seq::<FlushView>::empty();
    let shown = calls.map_values(|c: ShownCall| replayed(c));
    let before = if text.len() == 0 {
        none
    } else {
        seq![FlushView::Delta(text)]
    };
    if calls.len() == 0 {
        assert(text + functions_xml(calls) =~= text);
        assert(before + shown =~= before);
        assert(start().pending + text =~= text);
        if text.len() > 0 {
            let piece = PieceView::Text { text, joins: false };
            assert(scan(false, fed(start(), text)).0 =~= seq![piece]);
            lemma_put_one(none, piece);
            assert(put(none, piece) =~= before);
        }
    } else {
        let front = calls.drop_last();
        assert forall|i: int| 0 <= i < front.len() implies replayable(#[trigger] front[i]) by {
            assert(front[i] == calls[i]);
        }
        law_shown_turn_replayed(text, front);
        let last = calls.last();
        assert(calls[calls.len() - 1] == last);
        let markup = function_xml(last.0, last.1);
        let done = before + front.map_values(|c: ShownCall| replayed(c));
        law_shown_call_replayed(front.len() == 0 && text.len() > 0, done, last);
        law_two_chunks(start(), none, text + functions_xml(front), markup);
        assert((text + functions_xml(front)) + markup =~= text + functions_xml(calls));
        assert(done.push(replayed(last)) =~= before + shown);
    }
}

} // verus!
