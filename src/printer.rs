//! The canonical text of a directive tree: one directive per line, blocks
//! indented by four spaces a level, and a `;` after every list that ends in
//! a token.
use vstd::prelude::*;
use vstd::string::StringExecFns;
use crate::ast::{directive_view, directives_view, nodes_view, value_view, Directive, Node, ParsedConfig, ParsedValue};

verus! {

pub open spec fn four_spaces() -> Seq<char> {
    seq![' ', ' ', ' ', ' ']
}

/// A directive on its line, after the indentation `pre`.
pub open spec fn print_directive(d: Directive, pre: Seq<char>) -> Seq<char>
    decreases d, 0nat,
{
    pre + d.label + seq![' '] + print_value(d.value, pre)
}

/// Directives, each on its own line after the indentation `pre`.
pub open spec fn print_lines(ds: Seq<Directive>, pre: Seq<char>) -> Seq<char>
    decreases ds, 1nat,
{
    if ds.len() == 0 {
        Seq::empty()
    } else {
        print_lines(ds.subrange(0, ds.len() - 1), pre) + print_directive(ds[ds.len() - 1], pre) + seq!['\n']
    }
}

/// Items of a list, separated by single spaces.
pub open spec fn print_items(xs: Seq<Node>, pre: Seq<char>) -> Seq<char>
    decreases xs, 1nat,
{
    if xs.len() == 0 {
        Seq::empty()
    } else if xs.len() == 1 {
        print_value(xs[0], pre)
    } else {
        print_items(xs.subrange(0, xs.len() - 1), pre) + seq![' '] + print_value(xs[xs.len() - 1], pre)
    }
}

/// A value, for a directive whose line is indented by `pre`.
pub open spec fn print_value(v: Node, pre: Seq<char>) -> Seq<char>
    decreases v, 0nat,
{
    match v {
        Node::Block(ds) => seq!['{', '\n'] + print_lines(ds, pre + four_spaces()) + pre + seq!['}'],
        Node::List(xs) => print_items(xs, pre) + if xs.len() > 0 && xs[xs.len() - 1] is Text {
            seq![';']
        } else {
            Seq::empty()
        },
        Node::Text(t) => t,
    }
}

/// The canonical text of whole configuration: its directives, one a line.
pub open spec fn print_text(ds: Seq<Directive>) -> Seq<char> {
    print_lines(ds, Seq::empty())
}

fn write_directive(d: &ParsedConfig, pre: &str, out: &mut String)
    ensures
        final(out)@ == old(out)@ + print_directive(directive_view(d), pre@),
    decreases directive_view(d), 0nat,
{
    proof {
        reveal_strlit(" ");
    }
    out.append(pre);
    out.append(d.label.as_str());
    out.append(" ");
    proof {
        let n = directive_view(d);
        assert(decreases_to!(n => n.value));
    }
    write_value(&d.value, pre, out);
    proof {
        assert(final(out)@ =~= old(out)@ + print_directive(directive_view(d), pre@));
    }
}

fn write_value(v: &ParsedValue, pre: &str, out: &mut String)
    ensures
        final(out)@ == old(out)@ + print_value(value_view(v), pre@),
    decreases value_view(v), 1nat,
{
    proof {
        crate::ast::lemma_view_unfold(v);
        reveal_strlit(" ");
        reveal_strlit("\n");
        reveal_strlit("{\n");
        reveal_strlit("}");
        reveal_strlit(";");
        reveal_strlit("    ");
    }
    let ghost start = out@;
    match v {
        ParsedValue::Block(ds) => {
            let ghost dv = directives_view(ds@);
            out.append("{\n");
            let inner = pre.to_owned().concat("    ");
            proof {
                assert(inner@ =~= pre@ + four_spaces());
                assert(dv.take(0) =~= Seq::<Directive>::empty());
            }
            let mut i: usize = 0;
            while i < ds.len()
                invariant
                    i <= ds.len(),
                    dv == directives_view(ds@),
                    inner@ == pre@ + four_spaces(),
                    value_view(v) == Node::Block(dv),
                    out@ == start + seq!['{', '\n'] + print_lines(dv.take(i as int), inner@),
                decreases ds.len() - i,
            {
                proof {
                    let t = dv.take(i + 1);
                    assert(t.subrange(0, t.len() - 1) =~= dv.take(i as int));
                    assert(t[t.len() - 1] == directive_view(&ds@[i as int]));
                    let n = value_view(v);
                    assert(decreases_to!(n => n->Block_0));
                    assert(decreases_to!(n->Block_0 => n->Block_0[i as int]));
                    reveal_strlit("\n");
                }
                write_directive(&ds[i], inner.as_str(), out);
                out.append("\n");
                i += 1;
            }
            out.append(pre);
            out.append("}");
            proof {
                assert(dv.take(dv.len() as int) =~= dv);
                assert(out@ =~= start + print_value(value_view(v), pre@));
            }
        },
        ParsedValue::Value(xs) => {
            let ghost xv = nodes_view(xs@);
            let mut i: usize = 0;
            proof {
                assert(xv.take(0) =~= Seq::<Node>::empty());
            }
            while i < xs.len()
                invariant
                    i <= xs.len(),
                    xv == nodes_view(xs@),
                    value_view(v) == Node::List(xv),
                    out@ == start + print_items(xv.take(i as int), pre@),
                decreases xs.len() - i,
            {
                proof {
                    let t = xv.take(i + 1);
                    assert(t.subrange(0, t.len() - 1) =~= xv.take(i as int));
                    assert(t[t.len() - 1] == value_view(&xs@[i as int]));
                    if i == 0 {
                        assert(t[0] == value_view(&xs@[0]));
                    }
                    let n = value_view(v);
                    assert(decreases_to!(n => n->List_0));
                    assert(decreases_to!(n->List_0 => n->List_0[i as int]));
                    reveal_strlit(" ");
                }
                if i > 0 {
                    out.append(" ");
                }
                write_value(&xs[i], pre, out);
                i += 1;
            }
            if xs.len() > 0 && xs[xs.len() - 1].is_string() {
                out.append(";");
            }
            proof {
                assert(xv.take(xv.len() as int) =~= xv);
                assert(out@ =~= start + print_value(value_view(v), pre@));
            }
        },
        ParsedValue::String(s) => {
            out.append(s.as_str());
        },
    }
}

impl ParsedConfig {
    /// The directive in its canonical text, unindented.
    pub fn to_string(&self) -> (r: String)
        ensures
            r@ == print_directive(directive_view(self), Seq::empty()),
    {
        let mut out = String::new();
        proof {
            reveal_strlit("");
            assert(""@ =~= Seq::<char>::empty());
        }
        write_directive(self, "", &mut out);
        proof {
            assert(out@ =~= print_directive(directive_view(self), Seq::empty()));
        }
        out
    }
}

/// The canonical text of a whole configuration.
pub fn print_config(configs: &Vec<ParsedConfig>) -> (r: String)
    ensures
        r@ == print_text(directives_view(configs@)),
{
    let ghost dv = directives_view(configs@);
    let mut out = String::new();
    proof {
        reveal_strlit("");
        reveal_strlit("\n");
        assert(dv.take(0) =~= Seq::<Directive>::empty());
        assert(out@ =~= print_lines(dv.take(0), Seq::empty()));
    }
    let mut i: usize = 0;
    while i < configs.len()
        invariant
            i <= configs.len(),
            dv == directives_view(configs@),
            out@ == print_lines(dv.take(i as int), Seq::empty()),
        decreases configs.len() - i,
    {
        proof {
            let t = dv.take(i + 1);
            assert(t.subrange(0, t.len() - 1) =~= dv.take(i as int));
            assert(t[t.len() - 1] == directive_view(&configs@[i as int]));
            reveal_strlit("");
            reveal_strlit("\n");
            assert(""@ =~= Seq::<char>::empty());
        }
        write_directive(&configs[i], "", &mut out);
        out.append("\n");
        i += 1;
    }
    proof {
        assert(dv.take(dv.len() as int) =~= dv);
    }
    out
}

} // verus!
