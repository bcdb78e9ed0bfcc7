//! The generic directive tree and its mathematical view.
use vstd::prelude::*;

verus! {

/// What a value node denotes: a block of directives, a list of tokens and
/// blocks, or a single token.
pub enum Node {
    Block(Seq<Directive>),
    List(Seq<Node>),
    Text(Seq<char>),
}

/// What a directive denotes: its label and its value.
pub struct Directive {
    pub label: Seq<char>,
    pub value: Node,
}

/// One `label value` directive of the configuration language.
#[derive(Debug, PartialEq)]
pub struct ParsedConfig {
    pub label: String,
    pub value: ParsedValue,
}

/// A value node of the directive tree.
#[derive(Debug, PartialEq)]
pub enum ParsedValue {
    Block(Vec<ParsedConfig>),
    Value(Vec<ParsedValue>),
    String(String),
}

/// The tree that a value node denotes.
pub open spec fn value_view(v: &ParsedValue) -> Node
    decreases v,
{
    match v {
        ParsedValue::Block(ds) => Node::Block(
            Seq::new(
                ds.len() as nat,
                |i: int|
                    if 0 <= i < ds.len() {
                        directive_view(&ds[i])
                    } else {
                        Directive { label: Seq::empty(), value: Node::Text(Seq::empty()) }
                    },
            ),
        ),
        ParsedValue::Value(xs) => Node::List(
            Seq::new(
                xs.len() as nat,
                |i: int|
                    if 0 <= i < xs.len() {
                        value_view(&xs[i])
                    } else {
                        Node::Text(Seq::empty())
                    },
            ),
        ),
        ParsedValue::String(s) => Node::Text(s@),
    }
}

/// The tree that a directive denotes.
pub open spec fn directive_view(d: &ParsedConfig) -> Directive
    decreases d,
{
    Directive { label: d.label@, value: value_view(&d.value) }
}

pub open spec fn directives_view(ds: Seq<ParsedConfig>) -> Seq<Directive> {
    Seq::new(ds.len(), |i: int| directive_view(&ds[i]))
}

pub open spec fn nodes_view(xs: Seq<ParsedValue>) -> Seq<Node> {
    Seq::new(xs.len(), |i: int| value_view(&xs[i]))
}

pub proof fn lemma_block_view(ds: Vec<ParsedConfig>)
    ensures
        value_view(&ParsedValue::Block(ds)) == Node::Block(directives_view(ds@)),
{
    let v = ParsedValue::Block(ds);
    assert(value_view(&v)->Block_0 =~= directives_view(ds@));
}

pub proof fn lemma_list_view(xs: Vec<ParsedValue>)
    ensures
        value_view(&ParsedValue::Value(xs)) == Node::List(nodes_view(xs@)),
{
    let v = ParsedValue::Value(xs);
    assert(value_view(&v)->List_0 =~= nodes_view(xs@));
}

/// Why a text could not be read as directives, or why a node did not have
/// the shape that was asked of it.
#[derive(Debug, PartialEq)]
pub struct ParserError {
    pub kind: ErrorKind,
}

#[derive(Debug, PartialEq)]
pub enum ErrorKind {
    /// The node is not of the shape that was asked for.
    UnexpectedType { value: ParsedValue },
    /// The text ended inside a directive or a block.
    UnexpectedEnd,
    /// The character at this position (counted in characters) cannot stand
    /// there.
    UnexpectedChar { offset: usize },
}

/// The tokens of a node that is a list of tokens only.
pub open spec fn list_texts(n: Node) -> Option<Seq<Seq<char>>> {
    match n {
        Node::List(xs) => if forall|i: int| 0 <= i < xs.len() ==> (#[trigger] xs[i]) is Text {
            Some(Seq::new(xs.len(), |i: int| xs[i]->Text_0))
        } else {
            None
        },
        _ => None,
    }
}

pub open spec fn strings_view(v: Seq<String>) -> Seq<Seq<char>> {
    Seq::new(v.len(), |i: int| v[i]@)
}

/// The tokens of `v`, where every item of `v` is a token.
fn texts_of(v: &Vec<ParsedValue>) -> (r: Option<Vec<String>>)
    ensures
        match list_texts(Node::List(nodes_view(v@))) {
            Some(ts) => r is Some && strings_view(r->Some_0@) == ts,
            None => r is None,
        },
{
    let ghost xs = nodes_view(v@);
    let mut out: Vec<String> = Vec::new();
    let mut i: usize = 0;
    while i < v.len()
        invariant
            i <= v.len(),
            out.len() == i,
            xs == nodes_view(v@),
            forall|k: int| 0 <= k < i ==> (#[trigger] v@[k]) is String && out@[k]@ == v@[k]->String_0@,
        decreases v.len() - i,
    {
        match &v[i] {
            ParsedValue::String(s) => {
                out.push(s.clone());
            },
            _ => {
                proof {
                    assert(!(xs[i as int] is Text));
                    assert(!(forall|k: int| 0 <= k < xs.len() ==> (#[trigger] xs[k]) is Text));
                }
                return None;
            },
        }
        i += 1;
    }
    proof {
        assert forall|k: int| 0 <= k < xs.len() implies (#[trigger] xs[k]) is Text by {
            assert(v@[k] is String);
        }
        assert(strings_view(out@) =~= Seq::new(xs.len(), |k: int| xs[k]->Text_0));
    }
    Some(out)
}

impl ParsedValue {
    pub fn is_string(&self) -> (r: bool)
        ensures
            r == (value_view(self) is Text),
    {
        match self {
            ParsedValue::String(_) => true,
            _ => false,
        }
    }

    pub fn is_block(&self) -> (r: bool)
        ensures
            r == (value_view(self) is Block),
    {
        match self {
            ParsedValue::Block(_) => true,
            _ => false,
        }
    }

    /// The tokens of a list that holds tokens only; any other node is handed
    /// back in the error.
    pub fn into_strings(self) -> (r: Result<Vec<String>, ParserError>)
        ensures
            match list_texts(value_view(&self)) {
                Some(ts) => r is Ok && strings_view(r->Ok_0@) == ts,
                None => r == Err::<Vec<String>, ParserError>(
                    ParserError { kind: ErrorKind::UnexpectedType { value: self } },
                ),
            },
    {
        proof {
            lemma_view_unfold(&self);
        }
        let texts = match &self {
            ParsedValue::Value(v) => texts_of(v),
            _ => None,
        };
        match texts {
            Some(out) => Ok(out),
            None => Err(ParserError { kind: ErrorKind::UnexpectedType { value: self } }),
        }
    }
}

pub proof fn lemma_view_unfold(v: &ParsedValue)
    ensures
        v is Value ==> value_view(v) == Node::List(nodes_view(v->Value_0@)),
        v is Block ==> value_view(v) == Node::Block(directives_view(v->Block_0@)),
        v is String ==> value_view(v) == Node::Text(v->String_0@),
{
    match v {
        ParsedValue::Value(xs) => {
            assert(value_view(v)->List_0 =~= nodes_view(xs@));
        },
        ParsedValue::Block(ds) => {
            assert(value_view(v)->Block_0 =~= directives_view(ds@));
        },
        _ => {},
    }
}

} // verus!
