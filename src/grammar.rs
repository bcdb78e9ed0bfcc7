//! The directive language, stated as a function from text to tree.
//!
//! ```text
//! config  := (ws directive)* ws
//! directive := label value
//! value   := ws block | ws list
//! block   := '{' config '}'
//! list    := token (ws token)* ws ';'        a list of tokens, ended by ';'
//!          | token (ws token)* ws block       tokens then a block, which ends it
//!          | token (ws token)* ws             ended by '}' or by the end of the text
//! ```
//! A label or token is a non-empty run of characters other than whitespace,
//! `;`, `{` and `}`. Whitespace is space, tab, carriage return and line feed.
use vstd::prelude::*;
use crate::ast::{Directive, Node};

verus! {

/// The outcome of reading a prefix of the text: what was read and the text
/// after it, or the text at the point where reading failed.
pub type Scan<T> = Result<(T, Seq<char>), Seq<char>>;

pub open spec fn is_space(c: char) -> bool {
    c == ' ' || c == '\t' || c == '\n' || c == '\r'
}

pub open spec fn is_token_char(c: char) -> bool {
    !is_space(c) && c != ';' && c != '{' && c != '}'
}

/// Number of whitespace characters at the start of `s`.
pub open spec fn space_len(s: Seq<char>) -> nat
    decreases s.len(),
{
    if s.len() > 0 && is_space(s[0]) {
        1 + space_len(s.drop_first())
    } else {
        0
    }
}

/// Number of token characters at the start of `s`.
pub open spec fn token_len(s: Seq<char>) -> nat
    decreases s.len(),
{
    if s.len() > 0 && is_token_char(s[0]) {
        1 + token_len(s.drop_first())
    } else {
        0
    }
}

pub proof fn lemma_space_len_bound(s: Seq<char>)
    ensures
        space_len(s) <= s.len(),
    decreases s.len(),
{
    if s.len() > 0 && is_space(s[0]) {
        lemma_space_len_bound(s.drop_first());
    }
}

pub proof fn lemma_token_len_bound(s: Seq<char>)
    ensures
        token_len(s) <= s.len(),
    decreases s.len(),
{
    if s.len() > 0 && is_token_char(s[0]) {
        lemma_token_len_bound(s.drop_first());
    }
}

/// `s` without its leading whitespace.
pub open spec fn skip_space(s: Seq<char>) -> Seq<char> {
    s.skip(space_len(s) as int)
}

/// Directives up to the end of the text or up to a `}`, which is left unread.
pub open spec fn scan_items(s: Seq<char>) -> Scan<Seq<Directive>>
    decreases s.len(), 4nat,
    via scan_items_decreases
{
    let t = skip_space(s);
    if t.len() == 0 || t[0] == '}' {
        Ok((Seq::empty(), t))
    } else {
        match scan_directive(t) {
            Err(e) => Err(e),
            Ok((d, r)) => if r.len() < t.len() {
                match scan_items(r) {
                    Ok((ds, r2)) => Ok((seq![d] + ds, r2)),
                    Err(e) => Err(e),
                }
            } else {
                Err(t)
            },
        }
    }
}

#[via_fn]
proof fn scan_items_decreases(s: Seq<char>) {
    lemma_space_len_bound(s);
}

/// A label followed by its value.
pub open spec fn scan_directive(s: Seq<char>) -> Scan<Directive>
    decreases s.len(), 3nat,
    via scan_directive_decreases
{
    let n = token_len(s);
    if n == 0 {
        Err(s)
    } else {
        match scan_value(s.skip(n as int)) {
            Ok((v, r)) => Ok((Directive { label: s.take(n as int), value: v }, r)),
            Err(e) => Err(e),
        }
    }
}

#[via_fn]
proof fn scan_directive_decreases(s: Seq<char>) {
    lemma_token_len_bound(s);
}

/// The value of a directive: a block, or a list that starts with a token.
pub open spec fn scan_value(s: Seq<char>) -> Scan<Node>
    decreases s.len(), 2nat,
    via scan_value_decreases
{
    let t = skip_space(s);
    if t.len() == 0 || t[0] == ';' || t[0] == '}' {
        Err(t)
    } else if t[0] == '{' {
        scan_block(t)
    } else {
        match scan_list(t) {
            Ok((xs, r)) => Ok((Node::List(xs), r)),
            Err(e) => Err(e),
        }
    }
}

#[via_fn]
proof fn scan_value_decreases(s: Seq<char>) {
    lemma_space_len_bound(s);
}

/// The items of a list, from a token or a block onwards.
pub open spec fn scan_list(s: Seq<char>) -> Scan<Seq<Node>>
    decreases s.len(), 1nat,
    via scan_list_decreases
{
    if s.len() > 0 && s[0] == '{' {
        match scan_block(s) {
            Ok((b, r)) => Ok((seq![b], r)),
            Err(e) => Err(e),
        }
    } else {
        let n = token_len(s);
        if n == 0 {
            Err(s)
        } else {
            let tok = Node::Text(s.take(n as int));
            let t = skip_space(s.skip(n as int));
            if t.len() == 0 || t[0] == '}' {
                Ok((seq![tok], t))
            } else if t[0] == ';' {
                Ok((seq![tok], t.drop_first()))
            } else {
                match scan_list(t) {
                    Ok((xs, r)) => Ok((seq![tok] + xs, r)),
                    Err(e) => Err(e),
                }
            }
        }
    }
}

#[via_fn]
proof fn scan_list_decreases(s: Seq<char>) {
    lemma_token_len_bound(s);
    lemma_space_len_bound(s.skip(token_len(s) as int));
}

/// A block: `{`, directives, `}`.
pub open spec fn scan_block(s: Seq<char>) -> Scan<Node>
    decreases s.len(), 0nat,
{
    if s.len() == 0 || s[0] != '{' {
        Err(s)
    } else {
        match scan_items(s.drop_first()) {
            Ok((ds, r)) => if r.len() > 0 && r[0] == '}' {
                Ok((Node::Block(ds), r.drop_first()))
            } else {
                Err(r)
            },
            Err(e) => Err(e),
        }
    }
}

/// The tree that a whole text denotes, or the text from the point where it
/// stops being well-formed.
pub open spec fn parse_text(s: Seq<char>) -> Result<Seq<Directive>, Seq<char>> {
    match scan_items(s) {
        Ok((ds, r)) => if r.len() == 0 {
            Ok(ds)
        } else {
            Err(r)
        },
        Err(e) => Err(e),
    }
}

} // verus!
