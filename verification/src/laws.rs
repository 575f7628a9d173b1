//! What holds of every decoding, proved from the definitions that the contracts use.
use vstd::prelude::*;

use crate::error::DecodeError;
use crate::stream::{closing, decoded, lemma_closing_leaves_suffix, Token};
use crate::text::{gather, is_white_space, lemma_gather_leaves_suffix, text_value, Gathered};
use crate::torrent::{
    continued, lemma_continued_twice, lemma_step_leaves_suffix, one, reads_torrent, record_of,
    scan, step, Child, Field, Scan, Step, Torrent, TorrentView,
};

verus! {

/// The field that a tag of the given name fills, if any.
pub open spec fn field_of(raw: Seq<u8>) -> Option<Field> {
    match decoded(raw) {
        Some(name) => Field::named(name),
        None => None,
    }
}

/// Whether a token is a tag, opening or self-closing, with the name of a field.
pub open spec fn fills_field(token: Token) -> bool {
    match token {
        Token::Start(raw) => field_of(raw) is Some,
        Token::Empty(raw) => field_of(raw) is Some,
        _ => false,
    }
}

/// Whether a token is an opening or closing tag of the given name.
pub open spec fn is_tag(token: Token, name: Seq<u8>) -> bool {
    match token {
        Token::Start(n) => n == name,
        Token::End(n) => n == name,
        _ => false,
    }
}

/// Whether a token is no element and no failure: text, a comment and the like, or a
/// self-closing tag whose name decodes and is that of no field.
pub open spec fn is_loose(token: Token) -> bool {
    match token {
        Token::Text(_) | Token::CData(_) | Token::Other => true,
        Token::Empty(raw) => decoded(raw) is Some && field_of(raw) is None,
        _ => false,
    }
}

/// The children read on the way from `s` to `x`, where reading the children of an element
/// from `s` on comes to stand at `x`, in front of a child or of the closing tag; `None`
/// where it never stands there. So `x` runs over the direct children of the element.
pub open spec fn run(s: Seq<Token>, x: Seq<Token>) -> Option<Seq<Child>>
    decreases s.len(),
{
    if s == x {
        Some(Seq::empty())
    } else if s.len() == 0 {
        None
    } else {
        match step(s) {
            Step::Pass { child, rest } => {
                proof {
                    lemma_step_leaves_suffix(s);
                }
                match run(rest, x) {
                    Some(more) => Some(one(child) + more),
                    None => None,
                }
            },
            _ => None,
        }
    }
}

/// Reading the children from `s` on is reading them up to any place between two children,
/// and then on from there.
pub proof fn lemma_run_continues(s: Seq<Token>, x: Seq<Token>)
    requires
        run(s, x) is Some,
    ensures
        scan(s) == continued(run(s, x)->0, scan(x)),
    decreases s.len(),
{
    if s == x {
        lemma_continued_twice(Seq::empty(), Seq::empty(), scan(x));
        assert(Seq::<Child>::empty() + Seq::<Child>::empty() =~= Seq::<Child>::empty());
        if let Scan::Closed { children, rest } = scan(x) {
            assert(Seq::<Child>::empty() + children =~= children);
        }
    } else {
        lemma_step_leaves_suffix(s);
        let rest = step(s)->Pass_rest;
        lemma_run_continues(rest, x);
        lemma_continued_twice(one(step(s)->Pass_child), run(rest, x)->0, scan(x));
    }
}

// Repeated fields

/// Among the children that fill `field`, the last one decides: where child `i` fills it and
/// no later child does, the field has the value of child `i`, whatever the earlier ones gave.
pub proof fn lemma_last_child_decides(children: Seq<Child>, field: Field, i: int)
    requires
        0 <= i < children.len(),
        children[i].field == field,
        forall|j: int| i < j < children.len() ==> children[j].field != field,
    ensures
        record_of(children).get(field) == children[i].text,
    decreases children.len(),
{
    if i < children.len() - 1 {
        lemma_last_child_decides(children.drop_last(), field, i);
    }
}

/// A field for which the element has several children holds the text of the last of them,
/// not of the first: where decoding from `before` gives `result`, and child `i` of the
/// element is the last to fill `field`, the torrent has the text of child `i` there.
pub proof fn lemma_last_occurrence_wins(
    before: Seq<Token>,
    result: Result<Torrent, DecodeError>,
    after: Seq<Token>,
    field: Field,
    i: int,
)
    requires
        reads_torrent(before, result, after),
        scan(before) is Closed,
        0 <= i < scan(before)->children.len(),
        scan(before)->children[i].field == field,
        forall|j: int|
            i < j < scan(before)->children.len() ==> scan(before)->children[j].field != field,
    ensures
        result matches Ok(torrent) && torrent@.get(field) == scan(before)->children[i].text,
{
    lemma_last_child_decides(scan(before)->children, field, i);
}

/// A field that no child fills is absent.
pub proof fn lemma_unfilled_field_is_absent(children: Seq<Child>, field: Field)
    requires
        forall|j: int| 0 <= j < children.len() ==> children[j].field != field,
    ensures
        record_of(children).get(field) is None,
    decreases children.len(),
{
    if children.len() > 0 {
        lemma_unfilled_field_is_absent(children.drop_last(), field);
    }
}

// Elements without text

/// A text of white space alone is no value: the field is absent and holds no empty text.
pub proof fn lemma_blank_text_is_absent(content: Seq<char>)
    requires
        forall|i: int| 0 <= i < content.len() ==> is_white_space(content[i]),
    ensures
        text_value(content) is None,
    decreases content.len(),
{
    if content.len() > 0 {
        let tail = content.skip(1);
        assert forall|i: int| 0 <= i < tail.len() implies is_white_space(tail[i]) by {
            assert(tail[i] == content[i + 1]);
        }
        lemma_blank_text_is_absent(tail);
    }
}

/// A text that neither starts nor ends with white space is kept as it stands.
pub proof fn lemma_text_without_margin_is_kept(content: Seq<char>)
    requires
        content.len() > 0,
        !is_white_space(content[0]),
        !is_white_space(content.last()),
    ensures
        text_value(content) == Some(content),
{
}

/// White space at the start and at the end of a text is no part of its value.
pub proof fn lemma_margin_is_trimmed(before: Seq<char>, content: Seq<char>, after: Seq<char>)
    requires
        forall|i: int| 0 <= i < before.len() ==> is_white_space(before[i]),
        forall|i: int| 0 <= i < after.len() ==> is_white_space(after[i]),
        content.len() > 0,
        !is_white_space(content[0]),
        !is_white_space(content.last()),
    ensures
        text_value(before + content + after) == Some(content),
    decreases before.len() + after.len(),
{
    let whole = before + content + after;
    if before.len() > 0 {
        let shorter = before.skip(1);
        assert(whole[0] == before[0]);
        assert(whole.skip(1) =~= shorter + content + after);
        assert forall|i: int| 0 <= i < shorter.len() implies is_white_space(shorter[i]) by {
            assert(shorter[i] == before[i + 1]);
        }
        lemma_margin_is_trimmed(shorter, content, after);
    } else if after.len() > 0 {
        let shorter = after.drop_last();
        assert(whole[0] == content[0]);
        assert(whole.last() == after.last());
        assert(whole.drop_last() =~= before + content + shorter);
        assert forall|i: int| 0 <= i < shorter.len() implies is_white_space(shorter[i]) by {
            assert(shorter[i] == after[i]);
        }
        lemma_margin_is_trimmed(before, content, shorter);
    } else {
        assert(whole =~= content);
    }
}

/// An element that holds no text, only comments, self-closing tags and the like or nothing
/// at all, has no text to give: what is gathered from it is empty.
pub proof fn lemma_body_without_text_gathers_nothing(
    body: Seq<Token>,
    end: Seq<u8>,
    rest: Seq<Token>,
)
    requires
        forall|i: int| 0 <= i < body.len() ==> body[i] is Other || body[i] is Empty,
    ensures
        gather(body + seq![Token::End(end)] + rest) == Ok::<Gathered, crate::stream::Failure>(
            Gathered { content: Seq::empty(), rest },
        ),
    decreases body.len(),
{
    let s = body + seq![Token::End(end)] + rest;
    if body.len() == 0 {
        assert(s.skip(1) =~= rest);
    } else {
        assert(s[0] == body[0]);
        assert(s.skip(1) =~= body.skip(1) + seq![Token::End(end)] + rest);
        lemma_body_without_text_gathers_nothing(body.skip(1), end, rest);
    }
}

/// An element with the name of a field and without text is a child without text.
pub proof fn lemma_element_without_text_is_absent(
    raw: Seq<u8>,
    body: Seq<Token>,
    end: Seq<u8>,
    rest: Seq<Token>,
)
    requires
        field_of(raw) is Some,
        forall|i: int| 0 <= i < body.len() ==> body[i] is Other || body[i] is Empty,
    ensures
        step(seq![Token::Start(raw)] + body + seq![Token::End(end)] + rest) == (Step::Pass {
            child: Some(Child { field: field_of(raw)->0, text: None }),
            rest,
        }),
{
    let inside = body + seq![Token::End(end)] + rest;
    let s = seq![Token::Start(raw)] + body + seq![Token::End(end)] + rest;
    assert(s.skip(1) =~= inside);
    lemma_body_without_text_gathers_nothing(body, end, rest);
}

/// A self-closing tag with the name of a field is a child without text.
pub proof fn lemma_self_closing_tag_is_absent(raw: Seq<u8>, rest: Seq<Token>)
    requires
        field_of(raw) is Some,
    ensures
        step(seq![Token::Empty(raw)] + rest) == (Step::Pass {
            child: Some(Child { field: field_of(raw)->0, text: None }),
            rest,
        }),
{
    assert((seq![Token::Empty(raw)] + rest).skip(1) =~= rest);
}

/// A child without text leaves its field absent, whatever earlier children gave: where
/// reading the children from `before` on comes to stand at `x`, the child that stands first
/// in `x` has no text, and no child behind it fills the same field, the torrent holds
/// nothing there, and no empty text. The child may be a self-closing tag or an element
/// without text.
pub proof fn lemma_child_without_text_leaves_field_absent(
    before: Seq<Token>,
    x: Seq<Token>,
    result: Result<Torrent, DecodeError>,
    after: Seq<Token>,
)
    requires
        reads_torrent(before, result, after),
        run(before, x) is Some,
        x.len() > 0,
        step(x) matches Step::Pass { child: Some(c), rest } && c.text is None && scan(
            rest,
        ) is Closed && forall|j: int|
            0 <= j < scan(rest)->children.len() ==> scan(rest)->children[j].field != c.field,
    ensures
        result matches Ok(torrent) && torrent@.get(step(x)->Pass_child->0.field) is None,
{
    let c = step(x)->Pass_child->0;
    let rest = step(x)->Pass_rest;
    let front = run(before, x)->0;
    lemma_run_continues(before, x);
    lemma_step_leaves_suffix(x);
    let children = front + (seq![c] + scan(rest)->children);
    assert(scan(before)->children == children);
    lemma_last_child_decides(children, c.field, front.len() as int);
}

// Elements without a child that fills a field

/// An element none of whose direct children has the name of a field is decoded to a
/// torrent with every field absent: where reading the children from `before` on never
/// comes to stand in front of a tag with the name of a field, decoding succeeds as soon as
/// the element is closed, and the torrent has no field. What children of other names hold
/// does not matter.
pub proof fn lemma_absent_by_default(
    before: Seq<Token>,
    result: Result<Torrent, DecodeError>,
    after: Seq<Token>,
)
    requires
        reads_torrent(before, result, after),
        forall|x: Seq<Token>|
            #![trigger run(before, x)]
            run(before, x) is Some && x.len() > 0 ==> !fills_field(x[0]),
    ensures
        scan(before) is Closed <==> result is Ok,
        result matches Ok(torrent) ==> torrent@ == TorrentView::empty(),
{
    lemma_no_field_child_no_child(before, before);
    assert(Seq::<Child>::empty() + Seq::<Child>::empty() =~= Seq::<Child>::empty());
}

/// Where no direct child of the element that `s` starts inside of has the name of a field,
/// none of them is a child that fills one.
pub proof fn lemma_no_field_child_no_child(s: Seq<Token>, x: Seq<Token>)
    requires
        run(s, x) == Some(Seq::<Child>::empty()),
        forall|y: Seq<Token>|
            #![trigger run(s, y)]
            run(s, y) is Some && y.len() > 0 ==> !fills_field(y[0]),
    ensures
        scan(x) matches Scan::Closed { children, rest } ==> children.len() == 0,
    decreases x.len(),
{
    if x.len() > 0 {
        assert(run(s, x) is Some);
        assert(!fills_field(x[0]));
        lemma_step_leaves_suffix(x);
        if let Step::Pass { child, rest } = step(x) {
            assert(child is None);
            lemma_run_extends(s, x);
            lemma_no_field_child_no_child(s, rest);
            if let Scan::Closed { children, rest } = scan(rest) {
                assert(one(child) + children =~= children);
            }
        }
    }
}

/// Where reading stands at `x` and passes what stands first there, it comes to stand
/// behind it, with the child it read added.
pub proof fn lemma_run_extends(s: Seq<Token>, x: Seq<Token>)
    requires
        run(s, x) is Some,
        x.len() > 0,
        step(x) is Pass,
    ensures
        run(s, step(x)->Pass_rest) == Some(run(s, x)->0 + one(step(x)->Pass_child)),
    decreases s.len(),
{
    let next = step(x)->Pass_rest;
    lemma_step_leaves_suffix(x);
    if s == x {
        assert(run(next, next) == Some(Seq::<Child>::empty()));
        assert(one(step(x)->Pass_child) + Seq::<Child>::empty() =~= Seq::<Child>::empty() + one(
            step(x)->Pass_child,
        ));
    } else {
        lemma_step_leaves_suffix(s);
        let rest = step(s)->Pass_rest;
        lemma_run_extends(rest, x);
        lemma_run_is_shorter(rest, x);
        assert(s != next);
        assert(one(step(s)->Pass_child) + (run(rest, x)->0 + one(step(x)->Pass_child)) =~= (one(
            step(s)->Pass_child,
        ) + run(rest, x)->0) + one(step(x)->Pass_child));
    }
}

/// Where reading comes to stand is no longer than where it started.
pub proof fn lemma_run_is_shorter(s: Seq<Token>, x: Seq<Token>)
    requires
        run(s, x) is Some,
    ensures
        x.len() <= s.len(),
    decreases s.len(),
{
    if s != x {
        lemma_step_leaves_suffix(s);
        lemma_run_is_shorter(step(s)->Pass_rest, x);
    }
}

/// An element that holds no element at all is decoded with success, to a torrent with
/// every field absent, and the reader is left behind its closing tag.
pub proof fn lemma_childless_element_is_decoded(
    body: Seq<Token>,
    end: Seq<u8>,
    rest: Seq<Token>,
    result: Result<Torrent, DecodeError>,
    after: Seq<Token>,
)
    requires
        forall|i: int| 0 <= i < body.len() ==> is_loose(body[i]),
        reads_torrent(body + seq![Token::End(end)] + rest, result, after),
    ensures
        result matches Ok(torrent) && torrent@ == TorrentView::empty(),
        after == rest,
{
    lemma_element_without_children_is_closed(body, end, rest);
}

/// An element that holds no element at all is closed without a child that fills a field.
pub proof fn lemma_element_without_children_is_closed(
    body: Seq<Token>,
    end: Seq<u8>,
    rest: Seq<Token>,
)
    requires
        forall|i: int| 0 <= i < body.len() ==> is_loose(body[i]),
    ensures
        scan(body + seq![Token::End(end)] + rest) == (Scan::Closed {
            children: Seq::empty(),
            rest,
        }),
    decreases body.len(),
{
    let s = body + seq![Token::End(end)] + rest;
    if body.len() == 0 {
        assert(s.skip(1) =~= rest);
    } else {
        assert(s[0] == body[0]);
        assert(is_loose(body[0]));
        assert(s.skip(1) =~= body.skip(1) + seq![Token::End(end)] + rest);
        lemma_element_without_children_is_closed(body.skip(1), end, rest);
        assert(Seq::<Child>::empty() + Seq::<Child>::empty() =~= Seq::<Child>::empty());
    }
}

// Children of other names

/// A body that holds no fault and no tag of the name `name` is closed by the closing tag
/// of that name that follows it.
pub proof fn lemma_plain_body_closes(body: Seq<Token>, name: Seq<u8>, rest: Seq<Token>)
    requires
        forall|i: int| 0 <= i < body.len() ==> !(body[i] is Fault) && !is_tag(body[i], name),
    ensures
        closing(body + seq![Token::End(name)] + rest, name, 0) == Ok::<
            Seq<Token>,
            crate::stream::Failure,
        >(rest),
    decreases body.len(),
{
    let s = body + seq![Token::End(name)] + rest;
    if body.len() == 0 {
        assert(s.skip(1) =~= rest);
    } else {
        assert(s[0] == body[0]);
        assert(s.skip(1) =~= body.skip(1) + seq![Token::End(name)] + rest);
        lemma_plain_body_closes(body.skip(1), name, rest);
    }
}

/// A child whose name is that of no field is opaque, wherever among the children it
/// stands: where reading the children from `before` on comes to stand in front of its
/// opening tag, and `inside`, the tokens behind that tag, lead to its closing tag with
/// `rest` behind it, decoding comes to the children read before it and to what reading on
/// from `rest` comes to. Nothing that the child holds, a tag with the name of a field
/// included, fills a field.
pub proof fn lemma_unknown_child_is_opaque(
    before: Seq<Token>,
    raw: Seq<u8>,
    inside: Seq<Token>,
    rest: Seq<Token>,
)
    requires
        run(before, seq![Token::Start(raw)] + inside) is Some,
        decoded(raw) is Some,
        field_of(raw) is None,
        closing(inside, raw, 0) matches Ok(behind) && behind == rest,
    ensures
        scan(before) == continued(run(before, seq![Token::Start(raw)] + inside)->0, scan(rest)),
        run(before, rest) == run(before, seq![Token::Start(raw)] + inside),
{
    let x = seq![Token::Start(raw)] + inside;
    assert(x.skip(1) =~= inside);
    assert(step(x) == Step::Pass { child: None, rest });
    lemma_run_extends(before, x);
    assert(run(before, x)->0 + Seq::<Child>::empty() =~= run(before, x)->0);
    lemma_run_continues(before, rest);
}

/// The same for a child written out: an opening tag of a name that is no field's, any body
/// without a fault and without a tag of that name, and the closing tag. Reading passes from
/// in front of the child to behind it with the same children read, whatever the body holds.
pub proof fn lemma_unknown_child_with_plain_body_is_opaque(
    before: Seq<Token>,
    raw: Seq<u8>,
    body: Seq<Token>,
    rest: Seq<Token>,
)
    requires
        run(before, seq![Token::Start(raw)] + body + seq![Token::End(raw)] + rest) is Some,
        decoded(raw) is Some,
        field_of(raw) is None,
        forall|i: int| 0 <= i < body.len() ==> !(body[i] is Fault) && !is_tag(body[i], raw),
    ensures
        run(before, rest) == run(
            before,
            seq![Token::Start(raw)] + body + seq![Token::End(raw)] + rest,
        ),
        scan(before) == continued(run(before, rest)->0, scan(rest)),
{
    lemma_plain_body_closes(body, raw, rest);
    let inside = body + seq![Token::End(raw)] + rest;
    assert(seq![Token::Start(raw)] + body + seq![Token::End(raw)] + rest =~= seq![
        Token::Start(raw),
    ] + inside);
    lemma_unknown_child_is_opaque(before, raw, inside, rest);
}

// Input cut short

/// What [`scan`] leaves is the end of what it was given, and shorter by the closing tag at
/// least.
pub proof fn lemma_scan_leaves_suffix(s: Seq<Token>)
    ensures
        scan(s) matches Scan::Closed { children, rest } ==> rest.len() < s.len() && rest
            == s.skip(s.len() - rest.len()),
    decreases s.len(),
{
    if s.len() > 0 {
        lemma_step_leaves_suffix(s);
        if let Step::Pass { child, rest } = step(s) {
            lemma_scan_leaves_suffix(rest);
        }
        if let Scan::Closed { children, rest } = scan(s) {
            assert(rest =~= s.skip(s.len() - rest.len()));
        }
    }
}

/// [`closing`] looks at what it passes over and no further: on `s` cut anywhere behind the
/// closing tag it finds the same tag.
pub proof fn lemma_closing_is_local(s: Seq<Token>, name: Seq<u8>, depth: nat, k: int)
    requires
        closing(s, name, depth) is Ok,
        s.len() - closing(s, name, depth)->Ok_0.len() <= k <= s.len(),
    ensures
        closing(s.take(k), name, depth) matches Ok(rest) && rest == s.subrange(
            s.len() - closing(s, name, depth)->Ok_0.len(),
            k,
        ),
    decreases s.len(),
{
    lemma_closing_leaves_suffix(s, name, depth);
    let rest = closing(s, name, depth)->Ok_0;
    let cut = s.take(k);
    let tail = s.skip(1);
    assert(cut[0] == s[0]);
    assert(cut.skip(1) =~= tail.take(k - 1));
    let inner = match s[0] {
        Token::Start(n) => if n == name {
            depth + 1
        } else {
            depth
        },
        Token::End(n) => if n == name && depth > 0 {
            (depth - 1) as nat
        } else {
            depth
        },
        _ => depth,
    };
    if s[0] is End && s[0]->End_0 == name && depth == 0 {
        assert(cut.skip(1) =~= s.subrange(1, k));
    } else {
        lemma_closing_is_local(tail, name, inner, k - 1);
        assert(tail.subrange(tail.len() - rest.len(), k - 1) =~= s.subrange(
            s.len() - rest.len(),
            k,
        ));
    }
}

/// Of tokens that are there, [`gather`] passes over one at least.
pub proof fn lemma_gather_passes_something(s: Seq<Token>)
    requires
        s.len() > 0,
    ensures
        gather(s) matches Ok(g) ==> g.rest.len() < s.len(),
{
    let tail = s.skip(1);
    lemma_gather_leaves_suffix(tail);
    if let Token::Start(name) = s[0] {
        lemma_closing_leaves_suffix(tail, name, 0);
        if let Ok(after) = closing(tail, name, 0) {
            lemma_gather_leaves_suffix(after);
        }
    }
}

/// [`gather`] looks at what it passes over and no further.
pub proof fn lemma_gather_is_local(s: Seq<Token>, k: int)
    requires
        gather(s) is Ok,
        s.len() - gather(s)->Ok_0.rest.len() <= k <= s.len(),
    ensures
        gather(s.take(k)) matches Ok(g) && g.content == gather(s)->Ok_0.content && g.rest
            == s.subrange(s.len() - gather(s)->Ok_0.rest.len(), k),
    decreases s.len(),
{
    lemma_gather_leaves_suffix(s);
    let g = gather(s)->Ok_0;
    let cut = s.take(k);
    if s.len() == 0 {
        assert(cut =~= s);
        assert(s.subrange(0, k) =~= s);
    } else if k == 0 {
        lemma_gather_passes_something(s);
    } else {
        let tail = s.skip(1);
        assert(cut[0] == s[0]);
        assert(cut.skip(1) =~= tail.take(k - 1));
        match s[0] {
            Token::End(_) => {
                assert(cut.skip(1) =~= s.subrange(1, k));
            },
            Token::Fault(_) => {},
            Token::Start(name) => {
                lemma_closing_leaves_suffix(tail, name, 0);
                let after = closing(tail, name, 0)->Ok_0;
                lemma_gather_leaves_suffix(after);
                lemma_closing_is_local(tail, name, 0, k - 1);
                let passed = tail.len() - after.len();
                assert(tail.subrange(passed, k - 1) =~= after.take(k - 1 - passed));
                lemma_gather_is_local(after, k - 1 - passed);
                assert(after.subrange(after.len() - g.rest.len(), k - 1 - passed) =~= s.subrange(
                    s.len() - g.rest.len(),
                    k,
                ));
            },
            _ => {
                lemma_gather_leaves_suffix(tail);
                lemma_gather_is_local(tail, k - 1);
                assert(tail.subrange(tail.len() - g.rest.len(), k - 1) =~= s.subrange(
                    s.len() - g.rest.len(),
                    k,
                ));
            },
        }
    }
}

/// [`step`] looks at what it passes over and no further.
pub proof fn lemma_step_is_local(s: Seq<Token>, k: int)
    requires
        s.len() > 0,
        step(s) is Pass,
        s.len() - step(s)->Pass_rest.len() <= k <= s.len(),
    ensures
        step(s.take(k)) == (Step::Pass {
            child: step(s)->Pass_child,
            rest: s.subrange(s.len() - step(s)->Pass_rest.len(), k),
        }),
{
    lemma_step_leaves_suffix(s);
    let rest = step(s)->Pass_rest;
    let cut = s.take(k);
    let tail = s.skip(1);
    assert(cut[0] == s[0]);
    assert(cut.skip(1) =~= tail.take(k - 1));
    assert(tail.take(k - 1) =~= s.subrange(1, k));
    if let Token::Start(raw) = s[0] {
        if field_of(raw) is Some {
            lemma_gather_leaves_suffix(tail);
            lemma_gather_is_local(tail, k - 1);
        } else if decoded(raw) is Some {
            lemma_closing_leaves_suffix(tail, raw, 0);
            lemma_closing_is_local(tail, raw, 0, k - 1);
        }
        assert(tail.subrange(tail.len() - rest.len(), k - 1) =~= s.subrange(
            s.len() - rest.len(),
            k,
        ));
    }
}

/// An element cut short is never taken for a whole one: where the tokens `s` hold an
/// element up to its closing tag, the same tokens cut off just before that closing tag,
/// which is just behind the last child, come to the end of input and to no torrent.
pub proof fn lemma_cut_before_closing_tag_is_truncated(s: Seq<Token>)
    requires
        scan(s) is Closed,
    ensures
        scan(s.take(s.len() - scan(s)->Closed_rest.len() - 1)) == Scan::Truncated,
    decreases s.len(),
{
    lemma_scan_leaves_suffix(s);
    lemma_step_leaves_suffix(s);
    let rest = scan(s)->Closed_rest;
    let k = s.len() - rest.len() - 1;
    if let Step::Pass { child, rest: next } = step(s) {
        lemma_scan_leaves_suffix(next);
        lemma_step_is_local(s, k);
        let passed = s.len() - next.len();
        assert(s.subrange(passed, k) =~= next.take(next.len() - rest.len() - 1));
        lemma_cut_before_closing_tag_is_truncated(next);
    }
}

/// Input that ends behind the last child, before the closing tag of the element, gives
/// the error for an unexpected end of input, and no torrent with the fields read so far.
pub proof fn lemma_cut_element_is_unexpected_end(
    s: Seq<Token>,
    result: Result<Torrent, DecodeError>,
    after: Seq<Token>,
)
    requires
        scan(s) is Closed,
        reads_torrent(s.take(s.len() - scan(s)->Closed_rest.len() - 1), result, after),
    ensures
        result matches Err(DecodeError::UnexpectedEndOfInput),
{
    lemma_cut_before_closing_tag_is_truncated(s);
}

// Failures

/// A reader's error is handed on as it came, and nothing is read behind it: where a fault
/// stands first among the direct children, at `x`, decoding fails with the error of that
/// fault and leaves pending what follows it.
pub proof fn lemma_fault_is_handed_on(
    before: Seq<Token>,
    x: Seq<Token>,
    result: Result<Torrent, DecodeError>,
    after: Seq<Token>,
)
    requires
        reads_torrent(before, result, after),
        run(before, x) is Some,
        x.len() > 0,
        x[0] is Fault,
    ensures
        result matches Err(DecodeError::Xml(error)) && error == x[0]->Fault_0,
        after == x.skip(1),
{
    lemma_run_continues(before, x);
}

/// Whatever makes reading fail, decoding fails with that error and no other, returns no
/// torrent, and leaves pending what was pending when reading failed.
pub proof fn lemma_failure_is_handed_on(
    before: Seq<Token>,
    x: Seq<Token>,
    result: Result<Torrent, DecodeError>,
    after: Seq<Token>,
)
    requires
        reads_torrent(before, result, after),
        run(before, x) is Some,
        x.len() > 0,
        step(x) is Fail,
    ensures
        result matches Err(DecodeError::Xml(error)) && error == step(x)->Fail_error,
        after == step(x)->Fail_rest,
{
    lemma_run_continues(before, x);
}

} // verus!
