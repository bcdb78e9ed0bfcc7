//! Reading the canonical text of a tree gives the tree back.
use vstd::prelude::*;
use crate::ast::{Directive, Node};
use crate::grammar::{
    is_space, is_token_char, lemma_space_len_bound, lemma_token_len_bound, parse_text, scan_block,
    scan_directive, scan_items, scan_list, scan_value, skip_space, space_len, token_len,
};
use crate::printer::{four_spaces, print_directive, print_items, print_lines, print_text, print_value};

verus! {

/// A label or a token: a non-empty run of token characters.
pub open spec fn is_token(t: Seq<char>) -> bool {
    t.len() > 0 && forall|i: int| 0 <= i < t.len() ==> is_token_char(#[trigger] t[i])
}

pub open spec fn all_space(w: Seq<char>) -> bool {
    forall|i: int| 0 <= i < w.len() ==> is_space(#[trigger] w[i])
}

/// A directive as reading text gives one: a token label and a well-formed
/// value.
pub open spec fn wf_directive(d: Directive) -> bool
    decreases d, 1nat,
{
    is_token(d.label) && wf_value(d.value)
}

/// The value of a directive as reading text gives one: a block of
/// well-formed directives, or a list of tokens that may end in such a block.
pub open spec fn wf_value(v: Node) -> bool
    decreases v, 0nat,
{
    match v {
        Node::Block(ds) => forall|i: int| 0 <= i < ds.len() ==> wf_directive(#[trigger] ds[i]),
        Node::List(xs) => xs.len() > 0 && xs[0] is Text && wf_list(xs),
        Node::Text(_) => false,
    }
}

/// The items of a list: tokens, of which the last may instead be a block.
pub open spec fn wf_list(xs: Seq<Node>) -> bool
    decreases xs, 0nat,
{
    xs.len() > 0 && (forall|i: int| 0 <= i < xs.len() - 1 ==> (#[trigger] xs[i]) is Text && is_token(xs[i]->Text_0))
        && match xs[xs.len() - 1] {
        Node::Text(t) => is_token(t),
        Node::Block(ds) => forall|i: int| 0 <= i < ds.len() ==> wf_directive(#[trigger] ds[i]),
        Node::List(_) => false,
    }
}

proof fn lemma_skip_space_cons(s: Seq<char>)
    requires
        s.len() > 0,
        is_space(s[0]),
    ensures
        skip_space(s) == skip_space(s.drop_first()),
{
    lemma_space_len_bound(s.drop_first());
    assert(s.skip(space_len(s) as int) =~= s.drop_first().skip(space_len(s.drop_first()) as int));
}

proof fn lemma_skip_space_none(s: Seq<char>)
    requires
        s.len() == 0 || !is_space(s[0]),
    ensures
        skip_space(s) == s,
{
    assert(s.skip(0) =~= s);
}

proof fn lemma_skip_space_prefix(w: Seq<char>, x: Seq<char>)
    requires
        all_space(w),
    ensures
        skip_space(w + x) == skip_space(x),
    decreases w.len(),
{
    if w.len() > 0 {
        assert((w + x)[0] == w[0]);
        lemma_skip_space_cons(w + x);
        assert((w + x).drop_first() =~= w.drop_first() + x);
        lemma_skip_space_prefix(w.drop_first(), x);
    } else {
        assert(w + x =~= x);
    }
}

proof fn lemma_token_len_prefix(t: Seq<char>, x: Seq<char>)
    requires
        forall|i: int| 0 <= i < t.len() ==> is_token_char(#[trigger] t[i]),
        x.len() == 0 || !is_token_char(x[0]),
    ensures
        token_len(t + x) == t.len(),
    decreases t.len(),
{
    if t.len() > 0 {
        assert((t + x)[0] == t[0]);
        assert((t + x).drop_first() =~= t.drop_first() + x);
        lemma_token_len_prefix(t.drop_first(), x);
    } else {
        assert(t + x =~= x);
    }
}

proof fn lemma_token_chars(s: Seq<char>)
    ensures
        forall|i: int| 0 <= i < token_len(s) ==> is_token_char(#[trigger] s[i]),
    decreases s.len(),
{
    lemma_token_len_bound(s);
    if s.len() > 0 && is_token_char(s[0]) {
        lemma_token_chars(s.drop_first());
        assert forall|i: int| 0 <= i < token_len(s) implies is_token_char(#[trigger] s[i]) by {
            if i > 0 {
                assert(s[i] == s.drop_first()[i - 1]);
            }
        }
    }
}

proof fn lemma_items_wf(s: Seq<char>)
    ensures
        match scan_items(s) {
            Ok((ds, _)) => forall|i: int| 0 <= i < ds.len() ==> wf_directive(#[trigger] ds[i]),
            Err(_) => true,
        },
    decreases s.len(), 4nat,
{
    lemma_space_len_bound(s);
    let t = skip_space(s);
    if !(t.len() == 0 || t[0] == '}') {
        lemma_directive_wf(t);
        match scan_directive(t) {
            Ok((d, r)) => {
                if r.len() < t.len() {
                    lemma_items_wf(r);
                    match scan_items(r) {
                        Ok((ds, _)) => {
                            let all = seq![d] + ds;
                            assert forall|i: int| 0 <= i < all.len() implies wf_directive(#[trigger] all[i]) by {
                                if i > 0 {
                                    assert(all[i] == ds[i - 1]);
                                }
                            }
                        },
                        Err(_) => {},
                    }
                }
            },
            Err(_) => {},
        }
    }
}

proof fn lemma_directive_wf(s: Seq<char>)
    ensures
        match scan_directive(s) {
            Ok((d, _)) => wf_directive(d),
            Err(_) => true,
        },
    decreases s.len(), 3nat,
{
    let n = token_len(s);
    lemma_token_len_bound(s);
    if n > 0 {
        lemma_token_chars(s);
        lemma_value_wf(s.skip(n as int));
        assert forall|i: int| 0 <= i < s.take(n as int).len() implies is_token_char(#[trigger] s.take(n as int)[i]) by {
            assert(s.take(n as int)[i] == s[i]);
        }
    }
}

proof fn lemma_value_wf(s: Seq<char>)
    ensures
        match scan_value(s) {
            Ok((v, _)) => wf_value(v),
            Err(_) => true,
        },
    decreases s.len(), 2nat,
{
    lemma_space_len_bound(s);
    let t = skip_space(s);
    if !(t.len() == 0 || t[0] == ';' || t[0] == '}') {
        if t[0] == '{' {
            lemma_block_wf(t);
        } else {
            lemma_list_wf(t);
        }
    }
}

proof fn lemma_list_wf(s: Seq<char>)
    ensures
        match scan_list(s) {
            Ok((xs, _)) => wf_list(xs) && (s.len() > 0 && s[0] != '{' ==> xs[0] is Text),
            Err(_) => true,
        },
    decreases s.len(), 1nat,
{
    if s.len() > 0 && s[0] == '{' {
        lemma_block_wf(s);
    } else {
        let n = token_len(s);
        lemma_token_len_bound(s);
        if n > 0 {
            lemma_token_chars(s);
            let tok = s.take(n as int);
            assert forall|i: int| 0 <= i < tok.len() implies is_token_char(#[trigger] tok[i]) by {
                assert(tok[i] == s[i]);
            }
            lemma_space_len_bound(s.skip(n as int));
            let t = skip_space(s.skip(n as int));
            if !(t.len() == 0 || t[0] == '}' || t[0] == ';') {
                lemma_list_wf(t);
                match scan_list(t) {
                    Ok((xs, _)) => {
                        let all = seq![Node::Text(tok)] + xs;
                        assert forall|i: int| 0 <= i < all.len() - 1 implies (#[trigger] all[i]) is Text && is_token(all[i]->Text_0) by {
                            if i > 0 {
                                assert(all[i] == xs[i - 1]);
                            }
                        }
                        assert(all[all.len() - 1] == xs[xs.len() - 1]);
                    },
                    Err(_) => {},
                }
            }
        }
    }
}

proof fn lemma_block_wf(s: Seq<char>)
    ensures
        match scan_block(s) {
            Ok((b, _)) => b is Block && forall|i: int| 0 <= i < b->Block_0.len() ==> wf_directive(#[trigger] b->Block_0[i]),
            Err(_) => true,
        },
    decreases s.len(), 0nat,
{
    if s.len() > 0 && s[0] == '{' {
        lemma_items_wf(s.drop_first());
    }
}

proof fn lemma_print_lines_front(ds: Seq<Directive>, pre: Seq<char>)
    requires
        ds.len() > 0,
    ensures
        print_lines(ds, pre) == print_directive(ds[0], pre) + seq!['\n'] + print_lines(ds.drop_first(), pre),
    decreases ds.len(),
{
    let init = ds.subrange(0, ds.len() - 1);
    if ds.len() == 1 {
        assert(init =~= Seq::<Directive>::empty());
        assert(print_lines(init, pre) == Seq::<char>::empty());
        assert(ds.drop_first() =~= Seq::<Directive>::empty());
        assert(print_lines(ds.drop_first(), pre) == Seq::<char>::empty());
        assert(ds[ds.len() - 1] == ds[0]);
        assert(print_lines(ds, pre) =~= print_directive(ds[0], pre) + seq!['\n']);
    } else {
        lemma_print_lines_front(init, pre);
        let rest = ds.drop_first();
        assert(rest.subrange(0, rest.len() - 1) =~= init.drop_first());
        assert(rest[rest.len() - 1] == ds[ds.len() - 1]);
        assert(init[0] == ds[0]);
        assert(print_lines(ds, pre) =~= print_directive(ds[0], pre) + seq!['\n'] + print_lines(rest, pre));
    }
}

proof fn lemma_print_items_front(xs: Seq<Node>, pre: Seq<char>)
    requires
        xs.len() >= 2,
    ensures
        print_items(xs, pre) == print_value(xs[0], pre) + seq![' '] + print_items(xs.drop_first(), pre),
    decreases xs.len(),
{
    let init = xs.subrange(0, xs.len() - 1);
    let rest = xs.drop_first();
    if xs.len() == 2 {
        assert(init =~= seq![xs[0]]);
        assert(rest =~= seq![xs[1]]);
        assert(print_items(init, pre) == print_value(xs[0], pre));
        assert(print_items(rest, pre) == print_value(xs[1], pre));
    } else {
        lemma_print_items_front(init, pre);
        assert(rest.subrange(0, rest.len() - 1) =~= init.drop_first());
        assert(rest[rest.len() - 1] == xs[xs.len() - 1]);
        assert(init[0] == xs[0]);
        assert(print_items(xs, pre) =~= print_value(xs[0], pre) + seq![' '] + print_items(rest, pre));
    }
}

/// What is written after a list's items: `;` where it ends in a token.
pub open spec fn list_end(xs: Seq<Node>) -> Seq<char> {
    if xs.len() > 0 && xs[xs.len() - 1] is Text {
        seq![';']
    } else {
        Seq::empty()
    }
}

/// The printed items of a well-formed list start with the first character
/// of its first token, or with the `{` of its only block.
proof fn lemma_print_items_first(xs: Seq<Node>, pre: Seq<char>)
    requires
        wf_list(xs),
    ensures
        print_items(xs, pre).len() > 0,
        xs[0] is Text ==> print_items(xs, pre)[0] == xs[0]->Text_0[0],
        xs[0] is Block ==> print_items(xs, pre)[0] == '{',
{
    if xs.len() >= 2 {
        lemma_print_items_front(xs, pre);
        assert(xs[0] is Text);
    } else {
        assert(print_items(xs, pre) == print_value(xs[0], pre));
    }
    match xs[0] {
        Node::Text(t) => {
            assert(print_value(xs[0], pre) == t);
            assert(is_token(t));
        },
        Node::Block(ds) => {
            assert(print_value(xs[0], pre)[0] == '{');
        },
        Node::List(_) => {},
    }
}

proof fn lemma_rt_items(ds: Seq<Directive>, pre: Seq<char>, w: Seq<char>, f: Seq<char>)
    requires
        forall|i: int| 0 <= i < ds.len() ==> wf_directive(#[trigger] ds[i]),
        all_space(pre),
        all_space(w),
        skip_space(f).len() == 0 || skip_space(f)[0] == '}',
    ensures
        scan_items(w + print_lines(ds, pre) + f) == Ok::<(Seq<Directive>, Seq<char>), Seq<char>>((ds, skip_space(f))),
    decreases ds, 0nat,
{
    let s = w + print_lines(ds, pre) + f;
    if ds.len() == 0 {
        assert(print_lines(ds, pre) == Seq::<char>::empty());
        assert(s =~= w + f);
        lemma_skip_space_prefix(w, f);
        assert(ds =~= Seq::<Directive>::empty());
    } else {
        lemma_print_lines_front(ds, pre);
        let d = ds[0];
        let rest = ds.drop_first();
        let r1 = seq!['\n'] + print_lines(rest, pre) + f;
        let t = d.label + seq![' '] + print_value(d.value, pre) + r1;
        assert(s =~= (w + pre) + t);
        assert forall|i: int| 0 <= i < (w + pre).len() implies is_space(#[trigger] (w + pre)[i]) by {
            if i < w.len() {
                assert((w + pre)[i] == w[i]);
            } else {
                assert((w + pre)[i] == pre[i - w.len()]);
            }
        }
        lemma_skip_space_prefix(w + pre, t);
        assert(t[0] == d.label[0]);
        lemma_skip_space_none(t);
        lemma_rt_directive(d, pre, r1);
        assert forall|i: int| 0 <= i < rest.len() implies wf_directive(#[trigger] rest[i]) by {
            assert(rest[i] == ds[i + 1]);
        }
        assert forall|i: int| 0 <= i < seq!['\n'].len() implies is_space(#[trigger] seq!['\n'][i]) by {
        }
        lemma_rt_items(rest, pre, seq!['\n'], f);
        assert(r1 =~= seq!['\n'] + print_lines(rest, pre) + f);
        assert(seq![d] + rest =~= ds);
    }
}

proof fn lemma_rt_directive(d: Directive, pre: Seq<char>, r: Seq<char>)
    requires
        wf_directive(d),
        all_space(pre),
    ensures
        scan_directive(d.label + seq![' '] + print_value(d.value, pre) + r) == Ok::<(Directive, Seq<char>), Seq<char>>((d, r)),
    decreases d, 3nat,
{
    let after = seq![' '] + print_value(d.value, pre) + r;
    let s = d.label + after;
    assert(s =~= d.label + seq![' '] + print_value(d.value, pre) + r);
    lemma_token_len_prefix(d.label, after);
    assert(s.take(d.label.len() as int) =~= d.label);
    assert(s.skip(d.label.len() as int) =~= after);
    lemma_rt_value(d.value, pre, r);
}

proof fn lemma_rt_value(v: Node, pre: Seq<char>, r: Seq<char>)
    requires
        wf_value(v),
        all_space(pre),
    ensures
        scan_value(seq![' '] + print_value(v, pre) + r) == Ok::<(Node, Seq<char>), Seq<char>>((v, r)),
    decreases v, 2nat,
{
    let s = seq![' '] + print_value(v, pre) + r;
    let t = print_value(v, pre) + r;
    assert(s.drop_first() =~= t);
    lemma_skip_space_cons(s);
    match v {
        Node::Block(ds) => {
            assert(t[0] == '{');
            lemma_skip_space_none(t);
            lemma_rt_block(ds, pre, r);
        },
        Node::List(xs) => {
            lemma_print_items_first(xs, pre);
            let c = xs[0]->Text_0[0];
            assert(is_token_char(c));
            assert(t[0] == c);
            lemma_skip_space_none(t);
            assert(t =~= print_items(xs, pre) + list_end(xs) + r);
            lemma_rt_list(xs, pre, r);
        },
        Node::Text(_) => {},
    }
}

proof fn lemma_rt_block(ds: Seq<Directive>, pre: Seq<char>, r: Seq<char>)
    requires
        forall|i: int| 0 <= i < ds.len() ==> wf_directive(#[trigger] ds[i]),
        all_space(pre),
    ensures
        scan_block(print_value(Node::Block(ds), pre) + r) == Ok::<(Node, Seq<char>), Seq<char>>((Node::Block(ds), r)),
    decreases ds, 1nat,
{
    let inner = pre + four_spaces();
    let f = pre + seq!['}'] + r;
    let s = print_value(Node::Block(ds), pre) + r;
    assert(s.drop_first() =~= seq!['\n'] + print_lines(ds, inner) + f);
    assert forall|i: int| 0 <= i < inner.len() implies is_space(#[trigger] inner[i]) by {
        if i < pre.len() {
            assert(inner[i] == pre[i]);
        } else {
            assert(inner[i] == ' ');
        }
    }
    assert forall|i: int| 0 <= i < seq!['\n'].len() implies is_space(#[trigger] seq!['\n'][i]) by {
    }
    assert(f =~= pre + (seq!['}'] + r));
    lemma_skip_space_prefix(pre, seq!['}'] + r);
    lemma_skip_space_none(seq!['}'] + r);
    lemma_rt_items(ds, inner, seq!['\n'], f);
    assert((seq!['}'] + r).drop_first() =~= r);
}

proof fn lemma_rt_list(xs: Seq<Node>, pre: Seq<char>, r: Seq<char>)
    requires
        wf_list(xs),
        all_space(pre),
    ensures
        scan_list(print_items(xs, pre) + list_end(xs) + r) == Ok::<(Seq<Node>, Seq<char>), Seq<char>>((xs, r)),
    decreases xs, 1nat,
{
    let s = print_items(xs, pre) + list_end(xs) + r;
    if xs.len() == 1 {
        match xs[0] {
            Node::Text(t) => {
                let after = seq![';'] + r;
                assert(print_items(xs, pre) == print_value(xs[0], pre));
                assert(print_value(xs[0], pre) == t);
                assert(list_end(xs) == seq![';']);
                assert(s =~= t + after);
                lemma_token_len_prefix(t, after);
                assert(s.take(t.len() as int) =~= t);
                assert(s.skip(t.len() as int) =~= after);
                lemma_skip_space_none(after);
                assert(after.drop_first() =~= r);
                assert(seq![Node::Text(t)] =~= xs);
            },
            Node::Block(ds) => {
                assert(s =~= print_value(Node::Block(ds), pre) + r);
                lemma_rt_block(ds, pre, r);
                assert(seq![Node::Block(ds)] =~= xs);
            },
            Node::List(_) => {},
        }
    } else {
        lemma_print_items_front(xs, pre);
        let t0 = xs[0]->Text_0;
        let rest = xs.drop_first();
        assert(wf_list(rest)) by {
            assert forall|i: int| 0 <= i < rest.len() - 1 implies (#[trigger] rest[i]) is Text && is_token(rest[i]->Text_0) by {
                assert(rest[i] == xs[i + 1]);
            }
            assert(rest[rest.len() - 1] == xs[xs.len() - 1]);
        }
        assert(list_end(rest) == list_end(xs));
        let tail = print_items(rest, pre) + list_end(rest) + r;
        let after = seq![' '] + tail;
        assert(s =~= t0 + after);
        lemma_token_len_prefix(t0, after);
        assert(s.take(t0.len() as int) =~= t0);
        assert(s.skip(t0.len() as int) =~= after);
        assert(after.drop_first() =~= tail);
        lemma_skip_space_cons(after);
        lemma_print_items_first(rest, pre);
        if rest[0] is Text {
            assert(rest[0] == xs[1]);
            assert(is_token_char(rest[0]->Text_0[0]));
        }
        assert(tail[0] == print_items(rest, pre)[0]);
        lemma_skip_space_none(tail);
        lemma_rt_list(rest, pre, r);
        assert(seq![Node::Text(t0)] + rest =~= xs);
    }
}

/// Reading the canonical text of well-formed directives gives them back.
pub proof fn lemma_print_then_parse(ds: Seq<Directive>)
    requires
        forall|i: int| 0 <= i < ds.len() ==> wf_directive(#[trigger] ds[i]),
    ensures
        parse_text(print_text(ds)) == Ok::<Seq<Directive>, Seq<char>>(ds),
{
    let e = Seq::<char>::empty();
    lemma_skip_space_none(e);
    lemma_rt_items(ds, e, e, e);
    assert(e + print_lines(ds, e) + e =~= print_text(ds));
}

/// Whatever a text reads as is well-formed.
pub proof fn lemma_parse_gives_wf(s: Seq<char>)
    requires
        parse_text(s) is Ok,
    ensures
        forall|i: int| 0 <= i < parse_text(s)->Ok_0.len() ==> wf_directive(#[trigger] parse_text(s)->Ok_0[i]),
{
    lemma_items_wf(s);
}

/// Round trip: a text that reads as some directives, printed canonically
/// and read again, gives the same directives.
pub proof fn lemma_parse_print_parse(s: Seq<char>)
    requires
        parse_text(s) is Ok,
    ensures
        parse_text(print_text(parse_text(s)->Ok_0)) == parse_text(s),
{
    lemma_parse_gives_wf(s);
    lemma_print_then_parse(parse_text(s)->Ok_0);
}

} // verus!
