//! Reading directive text into a tree, as `grammar` states it.
use vstd::prelude::*;
use vstd::string::*;
use crate::ast::{
    directive_view, directives_view, lemma_block_view, lemma_list_view, nodes_view, value_view,
    Directive, ErrorKind, Node, ParsedConfig, ParsedValue, ParserError,
};
use crate::text::chars_of;
use crate::grammar::{
    is_space, is_token_char, lemma_space_len_bound, parse_text, scan_block,
    scan_directive, scan_items, scan_list, scan_value, skip_space, space_len, token_len, Scan,
};

verus! {

fn is_space_char(c: char) -> (b: bool)
    ensures
        b == is_space(c),
{
    c == ' ' || c == '\t' || c == '\n' || c == '\r'
}

fn is_token_character(c: char) -> (b: bool)
    ensures
        b == is_token_char(c),
{
    !is_space_char(c) && c != ';' && c != '{' && c != '}'
}

proof fn lemma_skip_space_step(s: Seq<char>, j: int)
    requires
        0 <= j < s.len(),
        is_space(s[j]),
    ensures
        skip_space(s.skip(j)) == skip_space(s.skip(j + 1)),
{
    let a = s.skip(j);
    assert(a.drop_first() =~= s.skip(j + 1));
    lemma_space_len_bound(a.drop_first());
    assert(a.skip(space_len(a) as int) =~= a.drop_first().skip(space_len(a.drop_first()) as int));
}

/// Position of the first non-whitespace character at or after `i`.
fn space_end(cs: &Vec<char>, i: usize) -> (j: usize)
    requires
        i <= cs.len(),
    ensures
        i <= j <= cs.len(),
        cs@.skip(j as int) == skip_space(cs@.skip(i as int)),
{
    let mut j: usize = i;
    while j < cs.len() && is_space_char(cs[j])
        invariant
            i <= j <= cs.len(),
            skip_space(cs@.skip(j as int)) == skip_space(cs@.skip(i as int)),
        decreases cs.len() - j,
    {
        proof {
            lemma_skip_space_step(cs@, j as int);
        }
        j += 1;
    }
    proof {
        let a = cs@.skip(j as int);
        assert(space_len(a) == 0);
        assert(a.skip(0) =~= a);
    }
    j
}

/// Position just after the run of token characters that starts at `i`.
fn token_end(cs: &Vec<char>, i: usize) -> (j: usize)
    requires
        i <= cs.len(),
    ensures
        i <= j <= cs.len(),
        j - i == token_len(cs@.skip(i as int)),
{
    let mut j: usize = i;
    while j < cs.len() && is_token_character(cs[j])
        invariant
            i <= j <= cs.len(),
            token_len(cs@.skip(i as int)) == (j - i) + token_len(cs@.skip(j as int)),
        decreases cs.len() - j,
    {
        proof {
            assert(cs@.skip(j as int).drop_first() =~= cs@.skip(j + 1));
        }
        j += 1;
    }
    j
}

/// `r`, a result at positions of `s`, is the scan `e`, read through `view`.
pub open spec fn scan_agrees<T, M>(
    r: Result<(T, usize), usize>,
    s: Seq<char>,
    view: spec_fn(T) -> M,
    e: Scan<M>,
) -> bool {
    match (r, e) {
        (Ok((v, j)), Ok((m, rest))) => j <= s.len() && view(v) == m && s.skip(j as int) == rest,
        (Err(j), Err(rest)) => j <= s.len() && s.skip(j as int) == rest,
        _ => false,
    }
}

pub open spec fn view_directives(ds: Vec<ParsedConfig>) -> Seq<Directive> {
    directives_view(ds@)
}

pub open spec fn view_directive(d: ParsedConfig) -> Directive {
    directive_view(&d)
}

pub open spec fn view_value(v: ParsedValue) -> Node {
    value_view(&v)
}

pub open spec fn view_values(xs: Vec<ParsedValue>) -> Seq<Node> {
    nodes_view(xs@)
}

/// The characters of `src` from `i` to `j`, as a string.
fn text_between(src: &str, i: usize, j: usize) -> (r: String)
    requires
        i <= j <= src@.len(),
    ensures
        r@ == src@.subrange(i as int, j as int),
{
    src.substring_char(i, j).to_owned()
}

fn scan_items_at(cs: &Vec<char>, src: &str, i: usize) -> (r: Result<(Vec<ParsedConfig>, usize), usize>)
    requires
        i <= cs.len(),
        cs@ == src@,
    ensures
        scan_agrees(r, cs@, |v| view_directives(v), scan_items(cs@.skip(i as int))),
    decreases cs.len() - i, 4nat,
{
    let mut out: Vec<ParsedConfig> = Vec::new();
    let mut k: usize = i;
    loop
        invariant
            i <= k <= cs.len(),
            cs@ == src@,
            scan_items(cs@.skip(i as int)) == (match scan_items(cs@.skip(k as int)) {
                Ok((ds, r)) => Ok((directives_view(out@) + ds, r)),
                Err(e) => Err(e),
            }),
        decreases cs.len() - k,
    {
        let t = space_end(cs, k);
        proof {
            assert(directives_view(out@) + Seq::<Directive>::empty() =~= directives_view(out@));
        }
        if t == cs.len() || cs[t] == '}' {
            return Ok((out, t));
        }
        match scan_directive_at(cs, src, t) {
            Err(e) => {
                return Err(e);
            },
            Ok((d, j)) => {
                if j <= t {
                    return Err(t);
                }
                proof {
                    let dv = directive_view(&d);
                    let pre = directives_view(out@);
                    let post = directives_view(out@.push(d));
                    assert(post =~= pre + seq![dv]);
                    match scan_items(cs@.skip(j as int)) {
                        Ok((ds, r)) => {
                            assert(pre + (seq![dv] + ds) =~= post + ds);
                        },
                        Err(e) => {},
                    }
                }
                out.push(d);
                k = j;
            },
        }
    }
}

fn scan_directive_at(cs: &Vec<char>, src: &str, i: usize) -> (r: Result<(ParsedConfig, usize), usize>)
    requires
        i <= cs.len(),
        cs@ == src@,
    ensures
        scan_agrees(r, cs@, |d| view_directive(d), scan_directive(cs@.skip(i as int))),
    decreases cs.len() - i, 3nat,
{
    let e = token_end(cs, i);
    if e == i {
        return Err(i);
    }
    let label = text_between(src, i, e);
    proof {
        assert(cs@.skip(i as int).skip(e - i) =~= cs@.skip(e as int));
        assert(label@ =~= cs@.skip(i as int).take(e - i));
    }
    match scan_value_at(cs, src, e) {
        Ok((v, j)) => Ok((ParsedConfig { label, value: v }, j)),
        Err(j) => Err(j),
    }
}

fn scan_value_at(cs: &Vec<char>, src: &str, i: usize) -> (r: Result<(ParsedValue, usize), usize>)
    requires
        i <= cs.len(),
        cs@ == src@,
    ensures
        scan_agrees(r, cs@, |v| view_value(v), scan_value(cs@.skip(i as int))),
    decreases cs.len() - i, 2nat,
{
    let t = space_end(cs, i);
    if t == cs.len() || cs[t] == ';' || cs[t] == '}' {
        return Err(t);
    }
    if cs[t] == '{' {
        return scan_block_at(cs, src, t);
    }
    match scan_list_at(cs, src, t) {
        Ok((xs, j)) => {
            proof {
                lemma_list_view(xs);
            }
            Ok((ParsedValue::Value(xs), j))
        },
        Err(j) => Err(j),
    }
}

fn scan_list_at(cs: &Vec<char>, src: &str, i: usize) -> (r: Result<(Vec<ParsedValue>, usize), usize>)
    requires
        i <= cs.len(),
        cs@ == src@,
    ensures
        scan_agrees(r, cs@, |v| view_values(v), scan_list(cs@.skip(i as int))),
    decreases cs.len() - i, 1nat,
{
    if i < cs.len() && cs[i] == '{' {
        match scan_block_at(cs, src, i) {
            Ok((b, j)) => {
                let v = vec![b];
                proof {
                    assert(nodes_view(v@) =~= seq![value_view(&b)]);
                }
                return Ok((v, j));
            },
            Err(j) => {
                return Err(j);
            },
        }
    }
    let e = token_end(cs, i);
    if e == i {
        return Err(i);
    }
    let tok = ParsedValue::String(text_between(src, i, e));
    let t = space_end(cs, e);
    proof {
        assert(cs@.skip(i as int).skip(e - i) =~= cs@.skip(e as int));
        assert(value_view(&tok)->Text_0 =~= cs@.skip(i as int).take(e - i));
    }
    if t == cs.len() || cs[t] == '}' {
        let v = vec![tok];
        proof {
            assert(nodes_view(v@) =~= seq![value_view(&tok)]);
        }
        return Ok((v, t));
    }
    if cs[t] == ';' {
        let v = vec![tok];
        proof {
            assert(nodes_view(v@) =~= seq![value_view(&tok)]);
            assert(cs@.skip(t as int).drop_first() =~= cs@.skip(t + 1));
        }
        return Ok((v, t + 1));
    }
    match scan_list_at(cs, src, t) {
        Ok((mut xs, j)) => {
            let ghost tv = value_view(&tok);
            let ghost old_xs = xs@;
            let mut v = vec![tok];
            v.append(&mut xs);
            proof {
                assert(nodes_view(v@) =~= seq![tv] + nodes_view(old_xs));
            }
            Ok((v, j))
        },
        Err(j) => Err(j),
    }
}

fn scan_block_at(cs: &Vec<char>, src: &str, i: usize) -> (r: Result<(ParsedValue, usize), usize>)
    requires
        i <= cs.len(),
        cs@ == src@,
    ensures
        scan_agrees(r, cs@, |v| view_value(v), scan_block(cs@.skip(i as int))),
    decreases cs.len() - i, 0nat,
{
    if i == cs.len() || cs[i] != '{' {
        return Err(i);
    }
    proof {
        assert(cs@.skip(i as int).drop_first() =~= cs@.skip(i + 1));
    }
    match scan_items_at(cs, src, i + 1) {
        Ok((ds, j)) => {
            if j < cs.len() && cs[j] == '}' {
                proof {
                    lemma_block_view(ds);
                    assert(cs@.skip(j as int).drop_first() =~= cs@.skip(j + 1));
                }
                Ok((ParsedValue::Block(ds), j + 1))
            } else {
                Err(j)
            }
        },
        Err(j) => Err(j),
    }
}

/// The error that `parse` reports for the text `s`, which stops being
/// well-formed where `rest` starts.
pub open spec fn syntax_error(s: Seq<char>, rest: Seq<char>) -> ErrorKind {
    if rest.len() == 0 {
        ErrorKind::UnexpectedEnd
    } else {
        ErrorKind::UnexpectedChar { offset: (s.len() - rest.len()) as usize }
    }
}

/// Reads a whole configuration text into its directives. Fails, as a whole,
/// where the text is not of the grammar in `grammar`.
pub fn parse(data: &str) -> (r: Result<Vec<ParsedConfig>, ParserError>)
    ensures
        match parse_text(data@) {
            Ok(ds) => r is Ok && directives_view(r->Ok_0@) == ds,
            Err(rest) => r is Err && r->Err_0.kind == syntax_error(data@, rest),
        },
{
    let cs = chars_of(data);
    proof {
        assert(cs@.skip(0) =~= cs@);
    }
    match scan_items_at(&cs, data, 0) {
        Ok((ds, j)) => {
            if j == cs.len() {
                Ok(ds)
            } else {
                Err(ParserError { kind: ErrorKind::UnexpectedChar { offset: j } })
            }
        },
        Err(j) => {
            if j == cs.len() {
                Err(ParserError { kind: ErrorKind::UnexpectedEnd })
            } else {
                Err(ParserError { kind: ErrorKind::UnexpectedChar { offset: j } })
            }
        },
    }
}

/// The error for a text `s` that stops being well-formed where `rest`
/// starts, as a value.
fn error_at(cs: &Vec<char>, j: usize) -> (r: ParserError)
    requires
        j <= cs.len(),
    ensures
        r.kind == syntax_error(cs@, cs@.skip(j as int)),
{
    if j == cs.len() {
        ParserError { kind: ErrorKind::UnexpectedEnd }
    } else {
        ParserError { kind: ErrorKind::UnexpectedChar { offset: j } }
    }
}

/// Reads a block, `{`, directives, `}`, at the start of `data`; gives the
/// text after it and the block.
pub fn parse_block(data: &str) -> (r: Result<(&str, ParsedValue), ParserError>)
    ensures
        match scan_block(data@) {
            Ok((n, rest)) => r is Ok && r->Ok_0.0@ == rest && value_view(&r->Ok_0.1) == n,
            Err(rest) => r is Err && r->Err_0.kind == syntax_error(data@, rest),
        },
{
    let cs = chars_of(data);
    proof {
        assert(cs@.skip(0) =~= cs@);
    }
    match scan_block_at(&cs, data, 0) {
        Ok((v, j)) => {
            let rest = data.substring_char(j, cs.len());
            proof {
                assert(rest@ =~= cs@.skip(j as int));
            }
            Ok((rest, v))
        },
        Err(j) => Err(error_at(&cs, j)),
    }
}

/// Reads the list value of a directive at the start of `data`: tokens ended
/// by `;`, or tokens then a block; gives the text after it and the list.
pub fn parse_inline_multi_value(data: &str) -> (r: Result<(&str, ParsedValue), ParserError>)
    ensures
        match scan_list(data@) {
            Ok((xs, rest)) => r is Ok && r->Ok_0.0@ == rest && value_view(&r->Ok_0.1) == Node::List(xs),
            Err(rest) => r is Err && r->Err_0.kind == syntax_error(data@, rest),
        },
{
    let cs = chars_of(data);
    proof {
        assert(cs@.skip(0) =~= cs@);
    }
    match scan_list_at(&cs, data, 0) {
        Ok((xs, j)) => {
            let rest = data.substring_char(j, cs.len());
            proof {
                assert(rest@ =~= cs@.skip(j as int));
                lemma_list_view(xs);
            }
            Ok((rest, ParsedValue::Value(xs)))
        },
        Err(j) => Err(error_at(&cs, j)),
    }
}

} // verus!
