//! Typed server configuration, compiled from the directive tree.
use vstd::prelude::*;
use crate::ast::{
    directive_view, directives_view, list_texts, strings_view, value_view, Directive, Node,
    ParsedConfig, ParsedValue,
};
use crate::ast::{lemma_list_view, ParserError};
use crate::text::{digits_value, is_digits, join_words, join_with_spaces, same_text, small_decimal};

verus! {

/// What a `return` directive sets: a status code and an optional body.
#[derive(Debug, PartialEq)]
pub struct Return {
    pub code: u16,
    pub text: Option<String>,
}

/// How a location's path is matched against a request path.
#[derive(Debug, PartialEq, Eq, Structural, Clone, Copy)]
pub enum LocationExp {
    /// The path is a prefix of the request path.
    Empty,
    /// The path equals the request path.
    Exact,
}

/// A path-scoped response rule of a server.
#[derive(Debug, PartialEq)]
pub struct LocationConfig {
    pub path: String,
    pub exp: LocationExp,
    pub ret: Return,
}

/// One `server` block.
#[derive(Debug, PartialEq)]
pub struct ServerConfig {
    pub listen: Vec<String>,
    pub server_name: Vec<String>,
    /// At most one location per path.
    pub location: Vec<LocationConfig>,
    pub ret: Return,
}

/// One `http` block.
#[derive(Debug, PartialEq)]
pub struct HttpConfig {
    pub server: Vec<ServerConfig>,
}

/// A whole configuration.
#[derive(Debug, PartialEq)]
pub struct Config {
    pub http: Vec<HttpConfig>,
}

/// Why a directive tree does not compile.
#[derive(Debug, PartialEq)]
pub struct ConfigError {
    pub kind: ErrorKind,
}

#[derive(Debug, PartialEq)]
pub enum ErrorKind {
    /// A known directive holds a node of another shape than it takes.
    UnexpectedType { value: ParsedValue },
    /// A token that must be a decimal integer is not.
    InvalidInteger { value: String },
    /// A status code outside 100 to 599.
    InvalidStatusCode { value: String },
}

pub struct ReturnView {
    pub code: u16,
    pub text: Option<Seq<char>>,
}

pub struct LocationView {
    pub path: Seq<char>,
    pub exact: bool,
    pub ret: ReturnView,
}

pub struct ServerView {
    pub listen: Seq<Seq<char>>,
    pub server_name: Seq<Seq<char>>,
    pub location: Seq<LocationView>,
    pub ret: ReturnView,
}

pub enum ErrorView {
    Shape(Node),
    Integer(Seq<char>),
    Status(Seq<char>),
}

impl View for Return {
    type V = ReturnView;

    open spec fn view(&self) -> ReturnView {
        ReturnView {
            code: self.code,
            text: match self.text {
                Some(t) => Some(t@),
                None => None,
            },
        }
    }
}

impl View for LocationConfig {
    type V = LocationView;

    open spec fn view(&self) -> LocationView {
        LocationView { path: self.path@, exact: self.exp == LocationExp::Exact, ret: self.ret@ }
    }
}

pub open spec fn locations_view(ls: Seq<LocationConfig>) -> Seq<LocationView> {
    Seq::new(ls.len(), |i: int| ls[i]@)
}

impl View for ServerConfig {
    type V = ServerView;

    open spec fn view(&self) -> ServerView {
        ServerView {
            listen: strings_view(self.listen@),
            server_name: strings_view(self.server_name@),
            location: locations_view(self.location@),
            ret: self.ret@,
        }
    }
}

pub open spec fn servers_view(ss: Seq<ServerConfig>) -> Seq<ServerView> {
    Seq::new(ss.len(), |i: int| ss[i]@)
}

impl View for HttpConfig {
    type V = Seq<ServerView>;

    open spec fn view(&self) -> Seq<ServerView> {
        servers_view(self.server@)
    }
}

impl View for Config {
    type V = Seq<Seq<ServerView>>;

    open spec fn view(&self) -> Seq<Seq<ServerView>> {
        Seq::new(self.http@.len(), |i: int| self.http@[i]@)
    }
}

impl View for ConfigError {
    type V = ErrorView;

    open spec fn view(&self) -> ErrorView {
        match self.kind {
            ErrorKind::UnexpectedType { value } => ErrorView::Shape(value_view(&value)),
            ErrorKind::InvalidInteger { value } => ErrorView::Integer(value@),
            ErrorKind::InvalidStatusCode { value } => ErrorView::Status(value@),
        }
    }
}

/// `r` is the outcome `e`, seen through the views of its values.
pub open spec fn outcome_is<T: View>(r: Result<T, ConfigError>, e: Result<T::V, ErrorView>) -> bool {
    match (r, e) {
        (Ok(c), Ok(m)) => c@ == m,
        (Err(x), Err(m)) => x@ == m,
        _ => false,
    }
}

/// A server's response when no location applies: 404 and no body.
pub open spec fn default_return() -> ReturnView {
    ReturnView { code: 404, text: None }
}

pub open spec fn default_server() -> ServerView {
    ServerView {
        listen: Seq::empty(),
        server_name: Seq::empty(),
        location: Seq::empty(),
        ret: default_return(),
    }
}

/// A `return` value: a status code from 100 to 599, then optionally words
/// that, joined by single spaces, make the body.
pub open spec fn decode_return(v: Node) -> Result<ReturnView, ErrorView> {
    match list_texts(v) {
        None => Err(ErrorView::Shape(v)),
        Some(ts) => if ts.len() == 0 {
            Err(ErrorView::Shape(v))
        } else if !is_digits(ts[0]) {
            Err(ErrorView::Integer(ts[0]))
        } else if digits_value(ts[0]) < 100 || digits_value(ts[0]) > 599 {
            Err(ErrorView::Status(ts[0]))
        } else {
            Ok(ReturnView {
                code: digits_value(ts[0]) as u16,
                text: if ts.len() == 1 {
                    None
                } else {
                    Some(join_words(ts.skip(1)))
                },
            })
        },
    }
}

/// The response that the directives of a location block set: that of its
/// last `return`, else the default.
pub open spec fn block_return(ds: Seq<Directive>) -> Result<ReturnView, ErrorView>
    decreases ds.len(),
{
    if ds.len() == 0 {
        Ok(default_return())
    } else {
        match block_return(ds.drop_last()) {
            Err(e) => Err(e),
            Ok(r) => if ds.last().label == "return"@ {
                decode_return(ds.last().value)
            } else {
                Ok(r)
            },
        }
    }
}

/// A `location` value: an optional `=`, a path, and an optional block.
pub open spec fn decode_location(v: Node) -> Result<LocationView, ErrorView> {
    match v {
        Node::List(xs) => {
            let exact = xs.len() >= 2 && xs[0] == Node::Text("="@) && xs[1] is Text;
            let n: int = if exact { 2 } else { 1 };
            if xs.len() < n || !(xs[n - 1] is Text) || xs.len() > n + 1 {
                Err(ErrorView::Shape(v))
            } else {
                let ret = if xs.len() == n {
                    Ok(default_return())
                } else {
                    match xs[n] {
                        Node::Block(ds) => block_return(ds),
                        _ => Err(ErrorView::Shape(v)),
                    }
                };
                match ret {
                    Ok(r) => Ok(LocationView { path: xs[n - 1]->Text_0, exact, ret: r }),
                    Err(e) => Err(e),
                }
            }
        },
        _ => Err(ErrorView::Shape(v)),
    }
}

/// `ls` with `l` in place of the location of the same path, or with `l`
/// added where there is none.
pub open spec fn put_location(ls: Seq<LocationView>, l: LocationView) -> Seq<LocationView> {
    if exists|i: int| 0 <= i < ls.len() && ls[i].path == l.path {
        ls.update(choose|i: int| 0 <= i < ls.len() && ls[i].path == l.path, l)
    } else {
        ls.push(l)
    }
}

/// No two locations share a path.
pub open spec fn unique_paths(ls: Seq<LocationView>) -> bool {
    forall|a: int, b: int| 0 <= a < b < ls.len() ==> ls[a].path != ls[b].path
}

/// The first token of `ts` that is not a run of digits.
pub open spec fn first_non_number(ts: Seq<Seq<char>>) -> Option<Seq<char>>
    decreases ts.len(),
{
    if ts.len() == 0 {
        None
    } else {
        match first_non_number(ts.drop_last()) {
            Some(t) => Some(t),
            None => if is_digits(ts.last()) {
                None
            } else {
                Some(ts.last())
            },
        }
    }
}

/// What one directive of a `server` block does to the server read so far.
pub open spec fn server_step(s: ServerView, d: Directive) -> Result<ServerView, ErrorView> {
    if d.label == "listen"@ {
        match list_texts(d.value) {
            None => Err(ErrorView::Shape(d.value)),
            Some(ts) => match first_non_number(ts) {
                Some(t) => Err(ErrorView::Integer(t)),
                None => Ok(ServerView { listen: s.listen + ts, ..s }),
            },
        }
    } else if d.label == "server_name"@ {
        match list_texts(d.value) {
            None => Err(ErrorView::Shape(d.value)),
            Some(ts) => Ok(ServerView { server_name: ts, ..s }),
        }
    } else if d.label == "location"@ {
        match decode_location(d.value) {
            Err(e) => Err(e),
            Ok(l) => Ok(ServerView { location: put_location(s.location, l), ..s }),
        }
    } else if d.label == "return"@ {
        match decode_return(d.value) {
            Err(e) => Err(e),
            Ok(r) => Ok(ServerView { ret: r, ..s }),
        }
    } else {
        Ok(s)
    }
}

pub open spec fn server_fold(ds: Seq<Directive>) -> Result<ServerView, ErrorView>
    decreases ds.len(),
{
    if ds.len() == 0 {
        Ok(default_server())
    } else {
        match server_fold(ds.drop_last()) {
            Err(e) => Err(e),
            Ok(s) => server_step(s, ds.last()),
        }
    }
}

/// A `server` value: a block, read directive by directive.
pub open spec fn compile_server(v: Node) -> Result<ServerView, ErrorView> {
    match v {
        Node::Block(ds) => server_fold(ds),
        _ => Err(ErrorView::Shape(v)),
    }
}

/// The servers of the `server` directives among `ds`, in order.
pub open spec fn http_fold(ds: Seq<Directive>) -> Result<Seq<ServerView>, ErrorView>
    decreases ds.len(),
{
    if ds.len() == 0 {
        Ok(Seq::empty())
    } else {
        match http_fold(ds.drop_last()) {
            Err(e) => Err(e),
            Ok(ss) => if ds.last().label == "server"@ {
                match compile_server(ds.last().value) {
                    Ok(s) => Ok(ss.push(s)),
                    Err(e) => Err(e),
                }
            } else {
                Ok(ss)
            },
        }
    }
}

/// An `http` value: a block of servers.
pub open spec fn compile_http(v: Node) -> Result<Seq<ServerView>, ErrorView> {
    match v {
        Node::Block(ds) => http_fold(ds),
        _ => Err(ErrorView::Shape(v)),
    }
}

/// The `http` blocks among the top-level directives `ds`, in order.
pub open spec fn compile_config(ds: Seq<Directive>) -> Result<Seq<Seq<ServerView>>, ErrorView>
    decreases ds.len(),
{
    if ds.len() == 0 {
        Ok(Seq::empty())
    } else {
        match compile_config(ds.drop_last()) {
            Err(e) => Err(e),
            Ok(hs) => if ds.last().label == "http"@ {
                match compile_http(ds.last().value) {
                    Ok(h) => Ok(hs.push(h)),
                    Err(e) => Err(e),
                }
            } else {
                Ok(hs)
            },
        }
    }
}

/// An error in a prefix of a block is the error of the whole block.
proof fn lemma_block_return_err(s: Seq<Directive>, k: int)
    requires
        0 <= k <= s.len(),
        block_return(s.take(k)) is Err,
    ensures
        block_return(s) == block_return(s.take(k)),
    decreases s.len(),
{
    if k == s.len() {
        assert(s.take(k) =~= s);
    } else {
        assert(s.drop_last().take(k) =~= s.take(k));
        lemma_block_return_err(s.drop_last(), k);
    }
}

/// An error in a prefix of a block is the error of the whole block.
proof fn lemma_server_fold_err(s: Seq<Directive>, k: int)
    requires
        0 <= k <= s.len(),
        server_fold(s.take(k)) is Err,
    ensures
        server_fold(s) == server_fold(s.take(k)),
    decreases s.len(),
{
    if k == s.len() {
        assert(s.take(k) =~= s);
    } else {
        assert(s.drop_last().take(k) =~= s.take(k));
        lemma_server_fold_err(s.drop_last(), k);
    }
}

/// An error in a prefix of a block is the error of the whole block.
proof fn lemma_http_fold_err(s: Seq<Directive>, k: int)
    requires
        0 <= k <= s.len(),
        http_fold(s.take(k)) is Err,
    ensures
        http_fold(s) == http_fold(s.take(k)),
    decreases s.len(),
{
    if k == s.len() {
        assert(s.take(k) =~= s);
    } else {
        assert(s.drop_last().take(k) =~= s.take(k));
        lemma_http_fold_err(s.drop_last(), k);
    }
}

/// An error in a prefix of a block is the error of the whole block.
proof fn lemma_compile_config_err(s: Seq<Directive>, k: int)
    requires
        0 <= k <= s.len(),
        compile_config(s.take(k)) is Err,
    ensures
        compile_config(s) == compile_config(s.take(k)),
    decreases s.len(),
{
    if k == s.len() {
        assert(s.take(k) =~= s);
    } else {
        assert(s.drop_last().take(k) =~= s.take(k));
        lemma_compile_config_err(s.drop_last(), k);
    }
}

impl Default for Return {
    fn default() -> (r: Return)
        ensures
            r@ == default_return(),
    {
        Return { code: 404, text: None }
    }
}

/// The node that a failed `into_strings` hands back, as a compile error.
fn shape_error(e: ParserError) -> (r: ConfigError)
    requires
        e.kind is UnexpectedType,
    ensures
        r@ == ErrorView::Shape(value_view(&e.kind->value)),
{
    match e.kind {
        crate::ast::ErrorKind::UnexpectedType { value } => ConfigError {
            kind: ErrorKind::UnexpectedType { value },
        },
        _ => {
            proof {
                assert(false);
            }
            ConfigError { kind: ErrorKind::UnexpectedType { value: ParsedValue::Value(Vec::new()) } }
        },
    }
}

impl TryFrom<ParsedValue> for Return {
    type Error = ConfigError;

    fn try_from(data: ParsedValue) -> (r: Result<Return, ConfigError>)
        ensures
            outcome_is(r, decode_return(value_view(&data))),
    {
        let ghost v = value_view(&data);
        let words = match data.into_strings() {
            Ok(words) => words,
            Err(e) => {
                return Err(shape_error(e));
            },
        };
        let ghost ts = strings_view(words@);
        if words.len() == 0 {
            let empty: Vec<ParsedValue> = Vec::new();
            proof {
                lemma_list_view(empty);
                assert(crate::ast::nodes_view(empty@) =~= v->List_0);
            }
            return Err(ConfigError { kind: ErrorKind::UnexpectedType { value: ParsedValue::Value(empty) } });
        }
        let code = match small_decimal(words[0].as_str()) {
            None => {
                return Err(ConfigError { kind: ErrorKind::InvalidInteger { value: words[0].clone() } });
            },
            Some(n) => n,
        };
        if code < 100 || code > 599 {
            return Err(ConfigError { kind: ErrorKind::InvalidStatusCode { value: words[0].clone() } });
        }
        let text = if words.len() == 1 {
            None
        } else {
            Some(join_with_spaces(&words, 1))
        };
        Ok(Return { code: code as u16, text })
    }
}

/// What the conversion returns is stated by its own `ensures`; this
/// extension claims nothing.
impl vstd::std_specs::convert::TryFromSpecImpl<ParsedValue> for Return {
    open spec fn obeys_try_from_spec() -> bool {
        false
    }

    open spec fn try_from_spec(v: ParsedValue) -> Result<Return, ConfigError> {
        Err(ConfigError { kind: ErrorKind::UnexpectedType { value: v } })
    }
}

/// The response that a location block sets.
fn location_block_return(ds: Vec<ParsedConfig>) -> (r: Result<Return, ConfigError>)
    ensures
        outcome_is(r, block_return(directives_view(ds@))),
{
    let ghost dv = directives_view(ds@);
    let mut ret = Return::default();
    for d in it: ds
        invariant
            dv == directives_view(it.seq()),
            block_return(dv.take(it.index() as int)) == Ok::<ReturnView, ErrorView>(ret@),
    {
        proof {
            let i = it.index() as int;
            assert(dv.take(i + 1).drop_last() =~= dv.take(i));
            assert(dv[i] == directive_view(&d));
        }
        if same_text(d.label.as_str(), "return") {
            match Return::try_from(d.value) {
                Ok(x) => {
                    ret = x;
                },
                Err(e) => {
                    proof {
                        lemma_block_return_err(dv, it.index() + 1);
                    }
                    return Err(e);
                },
            }
        }
    }
    proof {
        assert(dv.take(dv.len() as int) =~= dv);
    }
    Ok(ret)
}

impl TryFrom<ParsedValue> for LocationConfig {
    type Error = ConfigError;

    fn try_from(data: ParsedValue) -> (r: Result<LocationConfig, ConfigError>)
        ensures
            outcome_is(r, decode_location(value_view(&data))),
    {
        let ghost v = value_view(&data);
        proof {
            crate::ast::lemma_view_unfold(&data);
        }
        let mut xs = match data {
            ParsedValue::Value(xs) => xs,
            other => {
                return Err(ConfigError { kind: ErrorKind::UnexpectedType { value: other } });
            },
        };
        proof {
            lemma_list_view(xs);
        }
        let ghost nv = crate::ast::nodes_view(xs@);
        let exact = xs.len() >= 2 && is_text(&xs[0], "=") && xs[1].is_string();
        let n: usize = if exact { 2 } else { 1 };
        if xs.len() < n || !xs[n - 1].is_string() || xs.len() > n + 1 {
            return Err(ConfigError { kind: ErrorKind::UnexpectedType { value: ParsedValue::Value(xs) } });
        }
        let ret = if xs.len() == n {
            Return::default()
        } else {
            if !xs[n].is_block() {
                return Err(ConfigError { kind: ErrorKind::UnexpectedType { value: ParsedValue::Value(xs) } });
            }
            match xs.pop() {
                Some(ParsedValue::Block(ds)) => {
                    proof {
                        crate::ast::lemma_block_view(ds);
                    }
                    match location_block_return(ds) {
                        Ok(x) => x,
                        Err(e) => {
                            return Err(e);
                        },
                    }
                },
                _ => {
                    proof {
                        assert(false);
                    }
                    Return::default()
                },
            }
        };
        let path = match xs.pop() {
            Some(ParsedValue::String(p)) => p,
            _ => {
                proof {
                    assert(false);
                }
                String::new()
            },
        };
        let exp = if exact { LocationExp::Exact } else { LocationExp::Empty };
        Ok(LocationConfig { path, exp, ret })
    }
}

/// What the conversion returns is stated by its own `ensures`; this
/// extension claims nothing.
impl vstd::std_specs::convert::TryFromSpecImpl<ParsedValue> for LocationConfig {
    open spec fn obeys_try_from_spec() -> bool {
        false
    }

    open spec fn try_from_spec(v: ParsedValue) -> Result<LocationConfig, ConfigError> {
        Err(ConfigError { kind: ErrorKind::UnexpectedType { value: v } })
    }
}

/// Whether `v` is the token `t`.
fn is_text(v: &ParsedValue, t: &str) -> (r: bool)
    ensures
        r == (value_view(v) == Node::Text(t@)),
{
    match v {
        ParsedValue::String(s) => same_text(s.as_str(), t),
        _ => false,
    }
}

proof fn lemma_first_non_number_some(s: Seq<Seq<char>>, k: int)
    requires
        0 <= k <= s.len(),
        first_non_number(s.take(k)) is Some,
    ensures
        first_non_number(s) == first_non_number(s.take(k)),
    decreases s.len(),
{
    if k == s.len() {
        assert(s.take(k) =~= s);
    } else {
        assert(s.drop_last().take(k) =~= s.take(k));
        lemma_first_non_number_some(s.drop_last(), k);
    }
}

/// Index of the first token of `ts` that is not a run of digits.
fn first_non_number_at(ts: &Vec<String>) -> (r: Option<usize>)
    ensures
        match first_non_number(strings_view(ts@)) {
            None => r is None,
            Some(t) => r is Some && r->Some_0 < ts.len() && ts@[r->Some_0 as int]@ == t,
        },
{
    let ghost v = strings_view(ts@);
    let mut k: usize = 0;
    while k < ts.len()
        invariant
            k <= ts.len(),
            v == strings_view(ts@),
            first_non_number(v.take(k as int)) is None,
        decreases ts.len() - k,
    {
        proof {
            assert(v.take(k + 1).drop_last() =~= v.take(k as int));
        }
        if small_decimal(ts[k].as_str()).is_none() {
            proof {
                lemma_first_non_number_some(v, k + 1);
            }
            return Some(k);
        }
        k += 1;
    }
    proof {
        assert(v.take(v.len() as int) =~= v);
    }
    None
}

/// Sets `l` as the location for its path: in place of the one of the same
/// path, or added at the end.
fn put_location_in(ls: &mut Vec<LocationConfig>, l: LocationConfig)
    requires
        unique_paths(locations_view(old(ls)@)),
    ensures
        locations_view(final(ls)@) == put_location(locations_view(old(ls)@), l@),
        unique_paths(locations_view(final(ls)@)),
{
    let ghost before = locations_view(ls@);
    let mut k: usize = 0;
    while k < ls.len()
        invariant
            k <= ls.len(),
            before == locations_view(ls@),
            ls@ == old(ls)@,
            unique_paths(before),
            forall|j: int| 0 <= j < k ==> (#[trigger] before[j]).path != l.path@,
        decreases ls.len() - k,
    {
        if same_text(ls[k].path.as_str(), l.path.as_str()) {
            proof {
                assert(before[k as int].path == l@.path);
                let c = choose|i: int| 0 <= i < before.len() && before[i].path == l@.path;
                if c < k {
                    assert(before[c].path != before[k as int].path);
                } else if c > k {
                    assert(before[k as int].path != before[c].path);
                }
                assert(c == k);
                assert(put_location(before, l@) == before.update(k as int, l@));
            }
            ls.set(k, l);
            proof {
                assert(locations_view(ls@) =~= before.update(k as int, l@));
            }
            return;
        }
        k += 1;
    }
    ls.push(l);
    proof {
        assert(locations_view(ls@) =~= before.push(l@));
    }
}

impl TryFrom<ParsedValue> for ServerConfig {
    type Error = ConfigError;

    fn try_from(data: ParsedValue) -> (r: Result<ServerConfig, ConfigError>)
        ensures
            outcome_is(r, compile_server(value_view(&data))),
            r is Ok ==> unique_paths(r->Ok_0@.location),
    {
        proof {
            crate::ast::lemma_view_unfold(&data);
        }
        let ghost target = compile_server(value_view(&data));
        let ds = match data {
            ParsedValue::Block(ds) => ds,
            other => {
                return Err(ConfigError { kind: ErrorKind::UnexpectedType { value: other } });
            },
        };
        let ghost dv = directives_view(ds@);
        assert(target == server_fold(dv));
        let mut c = ServerConfig {
            listen: Vec::new(),
            server_name: Vec::new(),
            location: Vec::new(),
            ret: Return::default(),
        };
        proof {
            assert(c@.listen =~= Seq::empty());
            assert(c@.server_name =~= Seq::empty());
            assert(c@.location =~= Seq::empty());
            assert(dv.take(0) =~= Seq::empty());
        }
        for d in it: ds
            invariant
                dv == directives_view(it.seq()),
                target == server_fold(dv),
                target == compile_server(value_view(&data)),
                server_fold(dv.take(it.index() as int)) == Ok::<ServerView, ErrorView>(c@),
                unique_paths(c@.location),
        {
            let ghost i = it.index() as int;
            let ghost before = c@;
            proof {
                assert(dv.take(i + 1).drop_last() =~= dv.take(i));
                assert(dv[i] == directive_view(&d));
            }
            let ParsedConfig { label, value } = d;
            let ghost vv = value;
            proof {
                assert(dv.take(i + 1).last() == dv[i]);
                assert(dv[i].value == value_view(&value));
                assert(dv[i].label == label@);
            }
            if same_text(label.as_str(), "listen") {
                match value.into_strings() {
                    Err(e) => {
                        proof {
                            assert(e.kind->value == vv);
                            assert(list_texts(dv[i].value) is None);
                            assert(server_step(before, dv[i]) == Err::<ServerView, ErrorView>(ErrorView::Shape(dv[i].value)));
                            lemma_server_fold_err(dv, i + 1);
                        }
                        return Err(shape_error(e));
                    },
                    Ok(mut ts) => {
                        match first_non_number_at(&ts) {
                            Some(k) => {
                                proof {
                                    lemma_server_fold_err(dv, i + 1);
                                }
                                return Err(ConfigError { kind: ErrorKind::InvalidInteger { value: ts[k].clone() } });
                            },
                            None => {},
                        }
                        let ghost tv = strings_view(ts@);
                        c.listen.append(&mut ts);
                        proof {
                            assert(c@.listen =~= before.listen + tv);
                        }
                    },
                }
            } else if same_text(label.as_str(), "server_name") {
                match value.into_strings() {
                    Err(e) => {
                        proof {
                            assert(e.kind->value == vv);
                            lemma_server_fold_err(dv, i + 1);
                        }
                        return Err(shape_error(e));
                    },
                    Ok(ts) => {
                        c.server_name = ts;
                    },
                }
            } else if same_text(label.as_str(), "location") {
                match LocationConfig::try_from(value) {
                    Err(e) => {
                        proof {
                            lemma_server_fold_err(dv, i + 1);
                        }
                        return Err(e);
                    },
                    Ok(l) => {
                        put_location_in(&mut c.location, l);
                    },
                }
            } else if same_text(label.as_str(), "return") {
                match Return::try_from(value) {
                    Err(e) => {
                        proof {
                            lemma_server_fold_err(dv, i + 1);
                        }
                        return Err(e);
                    },
                    Ok(x) => {
                        c.ret = x;
                    },
                }
            }
        }
        proof {
            assert(dv.take(dv.len() as int) =~= dv);
        }
        Ok(c)
    }
}

/// What the conversion returns is stated by its own `ensures`; this
/// extension claims nothing.
impl vstd::std_specs::convert::TryFromSpecImpl<ParsedValue> for ServerConfig {
    open spec fn obeys_try_from_spec() -> bool {
        false
    }

    open spec fn try_from_spec(v: ParsedValue) -> Result<ServerConfig, ConfigError> {
        Err(ConfigError { kind: ErrorKind::UnexpectedType { value: v } })
    }
}

impl TryFrom<ParsedValue> for HttpConfig {
    type Error = ConfigError;

    fn try_from(data: ParsedValue) -> (r: Result<HttpConfig, ConfigError>)
        ensures
            outcome_is(r, compile_http(value_view(&data))),
    {
        proof {
            crate::ast::lemma_view_unfold(&data);
        }
        let ghost target = compile_http(value_view(&data));
        let ds = match data {
            ParsedValue::Block(ds) => ds,
            other => {
                return Err(ConfigError { kind: ErrorKind::UnexpectedType { value: other } });
            },
        };
        let ghost dv = directives_view(ds@);
        let mut servers: Vec<ServerConfig> = Vec::new();
        proof {
            assert(servers_view(servers@) =~= Seq::empty());
        }
        for d in it: ds
            invariant
                dv == directives_view(it.seq()),
                target == http_fold(dv),
                target == compile_http(value_view(&data)),
                http_fold(dv.take(it.index() as int)) == Ok::<Seq<ServerView>, ErrorView>(servers_view(servers@)),
        {
            let ghost i = it.index() as int;
            let ghost before = servers_view(servers@);
            proof {
                assert(dv.take(i + 1).drop_last() =~= dv.take(i));
                assert(dv.take(i + 1).last() == dv[i]);
                assert(dv[i] == directive_view(&d));
            }
            let ParsedConfig { label, value } = d;
            if same_text(label.as_str(), "server") {
                match ServerConfig::try_from(value) {
                    Err(e) => {
                        proof {
                            lemma_http_fold_err(dv, i + 1);
                        }
                        return Err(e);
                    },
                    Ok(server) => {
                        servers.push(server);
                        proof {
                            assert(servers_view(servers@) =~= before.push(servers@.last()@));
                        }
                    },
                }
            }
        }
        proof {
            assert(dv.take(dv.len() as int) =~= dv);
        }
        Ok(HttpConfig { server: servers })
    }
}

/// What the conversion returns is stated by its own `ensures`; this
/// extension claims nothing.
impl vstd::std_specs::convert::TryFromSpecImpl<ParsedValue> for HttpConfig {
    open spec fn obeys_try_from_spec() -> bool {
        false
    }

    open spec fn try_from_spec(v: ParsedValue) -> Result<HttpConfig, ConfigError> {
        Err(ConfigError { kind: ErrorKind::UnexpectedType { value: v } })
    }
}

impl TryFrom<Vec<ParsedConfig>> for Config {
    type Error = ConfigError;

    fn try_from(data: Vec<ParsedConfig>) -> (r: Result<Config, ConfigError>)
        ensures
            outcome_is(r, compile_config(directives_view(data@))),
    {
        let ghost dv = directives_view(data@);
        let mut http: Vec<HttpConfig> = Vec::new();
        proof {
            assert(Seq::new(http@.len(), |i: int| http@[i]@) =~= Seq::<Seq<ServerView>>::empty());
        }
        for d in it: data
            invariant
                dv == directives_view(it.seq()),
                compile_config(dv.take(it.index() as int)) == Ok::<Seq<Seq<ServerView>>, ErrorView>(
                    Seq::new(http@.len(), |i: int| http@[i]@),
                ),
        {
            let ghost i = it.index() as int;
            let ghost before = Seq::new(http@.len(), |i: int| http@[i]@);
            proof {
                assert(dv.take(i + 1).drop_last() =~= dv.take(i));
                assert(dv.take(i + 1).last() == dv[i]);
                assert(dv[i] == directive_view(&d));
            }
            let ParsedConfig { label, value } = d;
            if same_text(label.as_str(), "http") {
                match HttpConfig::try_from(value) {
                    Err(e) => {
                        proof {
                            lemma_compile_config_err(dv, i + 1);
                        }
                        return Err(e);
                    },
                    Ok(h) => {
                        http.push(h);
                        proof {
                            assert(Seq::new(http@.len(), |i: int| http@[i]@) =~= before.push(http@.last()@));
                        }
                    },
                }
            }
        }
        proof {
            assert(dv.take(dv.len() as int) =~= dv);
        }
        let c = Config { http };
        proof {
            assert(c@ =~= Seq::new(c.http@.len(), |i: int| c.http@[i]@));
        }
        Ok(c)
    }
}

/// What the conversion returns is stated by its own `ensures`; this
/// extension claims nothing.
impl vstd::std_specs::convert::TryFromSpecImpl<Vec<ParsedConfig>> for Config {
    open spec fn obeys_try_from_spec() -> bool {
        false
    }

    open spec fn try_from_spec(v: Vec<ParsedConfig>) -> Result<Config, ConfigError> {
        Err(ConfigError { kind: ErrorKind::UnexpectedType { value: ParsedValue::Block(v) } })
    }
}

} // verus!
