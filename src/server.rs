//! Virtual hosts of one listening socket, and how a request picks its
//! response.
use vstd::prelude::*;
use vstd::string::{StrSliceExecFns, StringSliceAdditionalSpecFns};
use crate::config::{
    default_return, locations_view, LocationConfig, LocationExp, LocationView, Return, ReturnView,
    ServerConfig, ServerView,
};
use crate::search::{first_index, is_first, lemma_first_index_found, lemma_first_index_none};
use crate::config::{servers_view, Config, HttpConfig};
use crate::search::lemma_first_index_exists;
use crate::text::same_text;
use crate::wire::{read_request_head, render, request_head_of, response_bytes, RequestHead, MAX_HEADERS};

verus! {

/// A virtual host: the name it is looked up by, its locations and its
/// default response.
#[derive(Debug)]
pub struct HttpServer {
    pub server_name: Option<String>,
    pub location: Vec<LocationConfig>,
    pub ret: Return,
}

/// The virtual hosts that share one listen token.
#[derive(Debug)]
pub struct Server {
    pub listen: String,
    pub http_servers: Vec<HttpServer>,
}

pub struct HostView {
    pub name: Option<Seq<char>>,
    pub location: Seq<LocationView>,
    pub ret: ReturnView,
}

pub struct GroupView {
    pub listen: Seq<char>,
    pub hosts: Seq<HostView>,
}

impl View for HttpServer {
    type V = HostView;

    open spec fn view(&self) -> HostView {
        HostView {
            name: match self.server_name {
                Some(n) => Some(n@),
                None => None,
            },
            location: locations_view(self.location@),
            ret: self.ret@,
        }
    }
}

pub open spec fn hosts_view(hs: Seq<HttpServer>) -> Seq<HostView> {
    Seq::new(hs.len(), |i: int| hs[i]@)
}

impl View for Server {
    type V = GroupView;

    open spec fn view(&self) -> GroupView {
        GroupView { listen: self.listen@, hosts: hosts_view(self.http_servers@) }
    }
}

/// The virtual host that a server block makes: named by its first
/// `server_name`, if any.
pub open spec fn host_of(s: ServerView) -> HostView {
    HostView {
        name: if s.server_name.len() > 0 {
            Some(s.server_name[0])
        } else {
            None
        },
        location: s.location,
        ret: s.ret,
    }
}

/// The key a virtual host is looked up by; the empty name for one without a
/// name.
pub open spec fn host_key(h: HostView) -> Seq<char> {
    match h.name {
        Some(n) => n,
        None => Seq::empty(),
    }
}

pub open spec fn key_is(k: Seq<char>) -> spec_fn(HostView) -> bool {
    |g: HostView| host_key(g) == k
}

pub open spec fn key_bytes_are(b: Seq<u8>) -> spec_fn(HostView) -> bool {
    |g: HostView| vstd::utf8::encode_utf8(host_key(g)) == b
}

/// `hs` with `h` in place of the host of the same key, or with `h` added.
pub open spec fn put_host(hs: Seq<HostView>, h: HostView) -> Seq<HostView> {
    match first_index(hs, key_is(host_key(h))) {
        Some(i) => hs.update(i, h),
        None => hs.push(h),
    }
}

/// The virtual hosts of server blocks taken in order: a later block with the
/// same key replaces an earlier one.
pub open spec fn hosts_of(ss: Seq<ServerView>) -> Seq<HostView>
    decreases ss.len(),
{
    if ss.len() == 0 {
        Seq::empty()
    } else {
        put_host(hosts_of(ss.drop_last()), host_of(ss.last()))
    }
}

/// `pre` is a prefix of `s`.
pub open spec fn is_prefix_of(pre: Seq<char>, s: Seq<char>) -> bool {
    pre.len() <= s.len() && s.take(pre.len() as int) == pre
}

pub open spec fn exact_match(path: Seq<char>) -> spec_fn(LocationView) -> bool {
    |l: LocationView| l.exact && l.path == path
}

pub open spec fn prefix_match(path: Seq<char>) -> spec_fn(LocationView) -> bool {
    |l: LocationView| !l.exact && is_prefix_of(l.path, path)
}

/// The location that answers `path`: the first exact location for it, else
/// the first prefix location whose path begins it.
pub open spec fn location_index(ls: Seq<LocationView>, path: Seq<char>) -> Option<int> {
    match first_index(ls, exact_match(path)) {
        Some(i) => Some(i),
        None => first_index(ls, prefix_match(path)),
    }
}

/// The response of a virtual host, or of the stand-in host where none was
/// selected, to a request for `path`.
pub open spec fn resolve(h: Option<HostView>, path: Seq<char>) -> ReturnView {
    match h {
        None => default_return(),
        Some(h) => match location_index(h.location, path) {
            Some(i) => h.location[i].ret,
            None => h.ret,
        },
    }
}

/// The virtual host for a `Host` header value, given as bytes: the host of
/// that name, else the host of the empty name, else none.
pub open spec fn select_host(hs: Seq<HostView>, host: Option<Seq<u8>>) -> Option<HostView> {
    let by_name = match host {
        Some(b) => first_index(hs, key_bytes_are(b)),
        None => None,
    };
    match by_name {
        Some(i) => Some(hs[i]),
        None => match first_index(hs, key_is(Seq::empty())) {
            Some(i) => Some(hs[i]),
            None => None,
        },
    }
}

impl From<ServerConfig> for HttpServer {
    fn from(s: ServerConfig) -> (r: HttpServer)
        ensures
            r@ == host_of(s@),
    {
        let ServerConfig { listen: _, server_name: mut names, location, ret } = s;
        let server_name = if names.len() > 0 {
            Some(names.remove(0))
        } else {
            None
        };
        HttpServer { server_name, location, ret }
    }
}

/// What the conversion returns is stated by its own `ensures`; this
/// extension claims nothing.
impl vstd::std_specs::convert::FromSpecImpl<ServerConfig> for HttpServer {
    open spec fn obeys_from_spec() -> bool {
        false
    }

    open spec fn from_spec(s: ServerConfig) -> HttpServer {
        HttpServer { server_name: None, location: s.location, ret: s.ret }
    }
}

impl HttpServer {
    fn key(&self) -> (r: &str)
        ensures
            r@ == host_key(self@),
    {
        match &self.server_name {
            Some(n) => n.as_str(),
            None => {
                proof {
                    reveal_strlit("");
                }
                ""
            },
        }
    }

    /// The location that answers `path`: an exact location for it first,
    /// else the first prefix location, in the order of the location list,
    /// whose path begins it.
    pub fn get_location(&self, path: &str) -> (r: Option<&LocationConfig>)
        ensures
            match location_index(self@.location, path@) {
                Some(i) => r == Some(&self.location@[i]),
                None => r is None,
            },
    {
        let ghost ls = self@.location;
        let mut k: usize = 0;
        while k < self.location.len()
            invariant
                k <= self.location.len(),
                ls == locations_view(self.location@),
                forall|j: int| 0 <= j < k ==> !(#[trigger] exact_match(path@)(ls[j])),
            decreases self.location.len() - k,
        {
            let l = &self.location[k];
            if l.exp == LocationExp::Exact && same_text(l.path.as_str(), path) {
                proof {
                    assert(exact_match(path@)(ls[k as int]));
                    lemma_first_index_found(ls, exact_match(path@), k as int);
                }
                return Some(l);
            }
            k += 1;
        }
        proof {
            lemma_first_index_none(ls, exact_match(path@));
        }
        let mut k: usize = 0;
        while k < self.location.len()
            invariant
                k <= self.location.len(),
                ls == locations_view(self.location@),
                first_index(ls, exact_match(path@)) is None,
                forall|j: int| 0 <= j < k ==> !(#[trigger] prefix_match(path@)(ls[j])),
            decreases self.location.len() - k,
        {
            let l = &self.location[k];
            if l.exp == LocationExp::Empty && starts_with(path, l.path.as_str()) {
                proof {
                    assert(prefix_match(path@)(ls[k as int]));
                    lemma_first_index_found(ls, prefix_match(path@), k as int);
                }
                return Some(l);
            }
            k += 1;
        }
        proof {
            lemma_first_index_none(ls, prefix_match(path@));
        }
        None
    }

    /// The response this host gives to a request for `path`.
    pub fn resolve(&self, path: &str) -> (r: &Return)
        ensures
            r@ == resolve(Some(self@), path@),
    {
        match self.get_location(path) {
            Some(l) => &l.ret,
            None => &self.ret,
        }
    }
}

/// Whether `s` begins with `pre`.
fn starts_with(s: &str, pre: &str) -> (r: bool)
    ensures
        r == is_prefix_of(pre@, s@),
{
    let n = pre.unicode_len();
    if n > s.unicode_len() {
        return false;
    }
    let head = s.substring_char(0, n);
    same_text(head, pre)
}

/// A header name that is `host` in any mix of cases.
pub open spec fn is_host_name(n: Seq<char>) -> bool {
    n.len() == 4 && (n[0] == 'h' || n[0] == 'H') && (n[1] == 'o' || n[1] == 'O') && (n[2] == 's'
        || n[2] == 'S') && (n[3] == 't' || n[3] == 'T')
}

pub open spec fn names_host() -> spec_fn((Seq<char>, Seq<u8>)) -> bool {
    |h: (Seq<char>, Seq<u8>)| is_host_name(h.0)
}

/// The value of the first `Host` header.
pub open spec fn host_header(headers: Seq<(Seq<char>, Seq<u8>)>) -> Option<Seq<u8>> {
    match first_index(headers, names_host()) {
        Some(i) => Some(headers[i].1),
        None => None,
    }
}

/// The response of a listen group to a request with this path and these
/// headers.
pub open spec fn response_to(g: GroupView, head: (Seq<char>, Seq<(Seq<char>, Seq<u8>)>)) -> Seq<u8> {
    response_bytes(resolve(select_host(g.hosts, host_header(head.1)), head.0))
}

pub open spec fn bytes_opt(b: Option<&[u8]>) -> Option<Seq<u8>> {
    match b {
        Some(b) => Some(b@),
        None => None,
    }
}

fn host_name_at(n: &str) -> (r: bool)
    ensures
        r == is_host_name(n@),
{
    if n.unicode_len() != 4 {
        return false;
    }
    let a = n.get_char(0);
    let b = n.get_char(1);
    let c = n.get_char(2);
    let d = n.get_char(3);
    (a == 'h' || a == 'H') && (b == 'o' || b == 'O') && (c == 's' || c == 'S') && (d == 't' || d == 'T')
}

/// The value of the first `Host` header of `head`.
fn host_value(head: &RequestHead) -> (r: Option<&[u8]>)
    ensures
        bytes_opt(r) == host_header(head@.1),
{
    let ghost hv = head@.1;
    let ghost p = names_host();
    let mut k: usize = 0;
    while k < head.headers.len()
        invariant
            k <= head.headers.len(),
            hv == head@.1,
            p == names_host(),
            forall|j: int| 0 <= j < k ==> !p(#[trigger] hv[j]),
        decreases head.headers.len() - k,
    {
        if host_name_at(head.headers[k].name.as_str()) {
            proof {
                lemma_first_index_found(hv, p, k as int);
            }
            return Some(head.headers[k].value.as_slice());
        }
        k += 1;
    }
    proof {
        lemma_first_index_none(hv, p);
    }
    None
}

fn same_bytes(a: &[u8], b: &[u8]) -> (r: bool)
    ensures
        r == (a@ == b@),
{
    if a.len() != b.len() {
        return false;
    }
    let mut i: usize = 0;
    while i < a.len()
        invariant
            a@.len() == b@.len(),
            i <= a.len(),
            forall|k: int| 0 <= k < i ==> a@[k] == b@[k],
        decreases a.len() - i,
    {
        if a[i] != b[i] {
            return false;
        }
        i += 1;
    }
    proof {
        assert(a@ =~= b@);
    }
    true
}

/// Sets `h` as the host for its key: in place of the one of the same key,
/// or added at the end.
fn put_host_in(hs: &mut Vec<HttpServer>, h: HttpServer)
    ensures
        hosts_view(final(hs)@) == put_host(hosts_view(old(hs)@), h@),
{
    let ghost before = hosts_view(hs@);
    let ghost p = key_is(host_key(h@));
    let mut k: usize = 0;
    while k < hs.len()
        invariant
            k <= hs.len(),
            hs@ == old(hs)@,
            before == hosts_view(hs@),
            p == key_is(host_key(h@)),
            forall|j: int| 0 <= j < k ==> !p(#[trigger] before[j]),
        decreases hs.len() - k,
    {
        if same_text(hs[k].key(), h.key()) {
            proof {
                lemma_first_index_found(before, p, k as int);
            }
            hs.set(k, h);
            proof {
                assert(hosts_view(hs@) =~= before.update(k as int, h@));
            }
            return;
        }
        k += 1;
    }
    proof {
        lemma_first_index_none(before, p);
    }
    hs.push(h);
    proof {
        assert(hosts_view(hs@) =~= before.push(h@));
    }
}

impl Server {
    /// The listen group `listen` of the server blocks `servers`, taken in
    /// order: each block becomes the virtual host of its first name, and a
    /// later block of the same name replaces an earlier one.
    pub fn new(listen: String, servers: Vec<ServerConfig>) -> (r: Server)
        ensures
            r@.listen == listen@,
            r@.hosts == hosts_of(servers_view(servers@)),
    {
        let ghost sv = servers_view(servers@);
        let mut hs: Vec<HttpServer> = Vec::new();
        proof {
            assert(hosts_view(hs@) =~= Seq::<HostView>::empty());
            assert(sv.take(0) =~= Seq::<ServerView>::empty());
        }
        for s in it: servers
            invariant
                sv == servers_view(it.seq()),
                hosts_view(hs@) == hosts_of(sv.take(it.index() as int)),
        {
            proof {
                let i = it.index() as int;
                assert(sv.take(i + 1).drop_last() =~= sv.take(i));
                assert(sv.take(i + 1).last() == s@);
            }
            let h = HttpServer::from(s);
            put_host_in(&mut hs, h);
        }
        proof {
            assert(sv.take(sv.len() as int) =~= sv);
        }
        Server { listen, http_servers: hs }
    }

    /// The virtual host for a `Host` header value: the host of that name,
    /// else the host of the empty name, else none.
    pub fn get_server(&self, host: Option<&[u8]>) -> (r: Option<&HttpServer>)
        ensures
            match select_host(self@.hosts, bytes_opt(host)) {
                Some(h) => r is Some && r->Some_0@ == h,
                None => r is None,
            },
    {
        let ghost hs = self@.hosts;
        if let Some(b) = host {
            let ghost p = key_bytes_are(b@);
            let mut k: usize = 0;
            while k < self.http_servers.len()
                invariant
                    k <= self.http_servers.len(),
                    hs == hosts_view(self.http_servers@),
                    host == Some(b),
                    p == key_bytes_are(b@),
                    forall|j: int| 0 <= j < k ==> !p(#[trigger] hs[j]),
                decreases self.http_servers.len() - k,
            {
                let h = &self.http_servers[k];
                if same_bytes(h.key().as_bytes(), b) {
                    proof {
                        lemma_first_index_found(hs, p, k as int);
                    }
                    return Some(h);
                }
                k += 1;
            }
            proof {
                lemma_first_index_none(hs, p);
            }
        }
        let ghost q = key_is(Seq::empty());
        let mut k: usize = 0;
        while k < self.http_servers.len()
            invariant
                k <= self.http_servers.len(),
                hs == hosts_view(self.http_servers@),
                match bytes_opt(host) {
                    Some(b) => first_index(hs, key_bytes_are(b)) is None,
                    None => true,
                },
                q == key_is(Seq::empty()),
                forall|j: int| 0 <= j < k ==> !q(#[trigger] hs[j]),
            decreases self.http_servers.len() - k,
        {
            let h = &self.http_servers[k];
            let key = h.key();
            if key.is_empty() {
                proof {
                    assert(key@ =~= Seq::<char>::empty());
                    lemma_first_index_found(hs, q, k as int);
                }
                return Some(h);
            }
            k += 1;
        }
        proof {
            lemma_first_index_none(hs, q);
        }
        None
    }

    /// The response to a request with this head.
    pub fn respond_to(&self, head: &RequestHead) -> (r: Vec<u8>)
        ensures
            r@ == response_to(self@, head@),
    {
        let fallback = Return::default();
        let ret = match self.get_server(host_value(head)) {
            Some(h) => h.resolve(head.path.as_str()),
            None => &fallback,
        };
        render(ret)
    }

    /// The response to the request in `request`; none where the bytes do
    /// not hold a complete, well-formed request head of at most
    /// `MAX_HEADERS` headers, and the connection is then closed without a
    /// response.
    pub fn respond(&self, request: &[u8]) -> (r: Option<Vec<u8>>)
        ensures
            match request_head_of(request@, MAX_HEADERS) {
                Some(head) => r is Some && r->Some_0@ == response_to(self@, head),
                None => r is None,
            },
    {
        match read_request_head(request, MAX_HEADERS) {
            Some(head) => Some(self.respond_to(&head)),
            None => None,
        }
    }
}

/// The server blocks of all `http` blocks, in order.
pub open spec fn all_servers(c: Seq<Seq<ServerView>>) -> Seq<ServerView>
    decreases c.len(),
{
    if c.len() == 0 {
        Seq::empty()
    } else {
        all_servers(c.drop_last()) + c.last()
    }
}

/// The token a server block is grouped by: its first listen token.
pub open spec fn listen_key(s: ServerView) -> Option<Seq<char>> {
    if s.listen.len() > 0 {
        Some(s.listen[0])
    } else {
        None
    }
}

/// The server blocks of `ss` whose first listen token is exactly `k`, in
/// order.
pub open spec fn servers_on(ss: Seq<ServerView>, k: Seq<char>) -> Seq<ServerView>
    decreases ss.len(),
{
    if ss.len() == 0 {
        Seq::empty()
    } else if listen_key(ss.last()) == Some(k) {
        servers_on(ss.drop_last(), k).push(ss.last())
    } else {
        servers_on(ss.drop_last(), k)
    }
}

proof fn lemma_servers_on_none(ss: Seq<ServerView>, k: Seq<char>)
    requires
        forall|j: int| 0 <= j < ss.len() ==> listen_key(#[trigger] ss[j]) != Some(k),
    ensures
        servers_on(ss, k) == Seq::<ServerView>::empty(),
    decreases ss.len(),
{
    if ss.len() > 0 {
        lemma_servers_on_none(ss.drop_last(), k);
    }
}

/// All server blocks of `c`, in order.
fn flatten(c: Config) -> (r: Vec<ServerConfig>)
    ensures
        servers_view(r@) == all_servers(c@),
{
    let ghost cv = c@;
    let mut all: Vec<ServerConfig> = Vec::new();
    proof {
        assert(servers_view(all@) =~= all_servers(cv.take(0)));
    }
    for h in it: c.http
        invariant
            cv == Seq::new(it.seq().len(), |i: int| it.seq()[i]@),
            servers_view(all@) == all_servers(cv.take(it.index() as int)),
    {
        let ghost i = it.index() as int;
        let ghost base = servers_view(all@);
        let ghost hv = h@;
        proof {
            assert(cv.take(i + 1).drop_last() =~= cv.take(i));
            assert(hv == cv[i]);
        }
        let HttpConfig { server } = h;
        for s in jt: server
            invariant
                hv == servers_view(jt.seq()),
                servers_view(all@) == base + hv.take(jt.index() as int),
        {
            let ghost j = jt.index() as int;
            let ghost before = all@;
            proof {
                assert(hv.take(j + 1) =~= hv.take(j).push(s@));
            }
            all.push(s);
            proof {
                assert(servers_view(all@) =~= servers_view(before).push(hv[j]));
                assert(servers_view(all@) =~= base + hv.take(j + 1));
            }
        }
        proof {
            assert(hv.take(hv.len() as int) =~= hv);
        }
    }
    proof {
        assert(cv.take(cv.len() as int) =~= cv);
    }
    all
}

/// The key of a group and the server blocks in it.
pub open spec fn group_view(g: (String, Vec<ServerConfig>)) -> (Seq<char>, Seq<ServerView>) {
    (g.0@, servers_view(g.1@))
}

/// Server blocks grouped by their exact first listen token: one group per
/// distinct token, in the order the tokens first appear, each holding its
/// blocks in order. Blocks without a listen token bind no socket and are
/// left out.
fn group_by_listen(all: Vec<ServerConfig>) -> (r: Vec<(String, Vec<ServerConfig>)>)
    ensures
        forall|a: int, b: int| 0 <= a < b < r.len() ==> r@[a].0@ != r@[b].0@,
        forall|g: int| 0 <= g < r.len() ==> servers_view((#[trigger] r@[g]).1@) == servers_on(servers_view(all@), r@[g].0@),
        forall|g: int| 0 <= g < r.len() ==> (#[trigger] r@[g]).1@.len() > 0,
        forall|j: int| 0 <= j < all.len() && (#[trigger] listen_key(servers_view(all@)[j])) is Some
            ==> exists|g: int| 0 <= g < r.len() && Some(r@[g].0@) == listen_key(servers_view(all@)[j]),
{
    let ghost sv = servers_view(all@);
    let mut groups: Vec<(String, Vec<ServerConfig>)> = Vec::new();
    for s in it: all
        invariant
            sv == servers_view(it.seq()),
            forall|a: int, b: int| 0 <= a < b < groups.len() ==> groups@[a].0@ != groups@[b].0@,
            forall|g: int| 0 <= g < groups.len() ==> servers_view((#[trigger] groups@[g]).1@) == servers_on(sv.take(it.index() as int), groups@[g].0@),
            forall|g: int| 0 <= g < groups.len() ==> (#[trigger] groups@[g]).1@.len() > 0,
            forall|j: int| 0 <= j < it.index() && (#[trigger] listen_key(sv[j])) is Some
                ==> exists|g: int| 0 <= g < groups.len() && Some(groups@[g].0@) == listen_key(sv[j]),
    {
        let ghost i = it.index() as int;
        let ghost p = sv.take(i);
        let ghost old_groups = groups@;
        proof {
            assert(sv.take(i + 1).drop_last() =~= p);
            assert(sv.take(i + 1).last() == s@);
            assert(sv[i] == s@);
        }
        if s.listen.len() == 0 {
            proof {
                assert forall|g: int| 0 <= g < groups.len() implies servers_view((#[trigger] groups@[g]).1@) == servers_on(sv.take(i + 1), groups@[g].0@) by {
                }
            }
        } else {
            let key = s.listen[0].clone();
            let mut g: usize = 0;
            while g < groups.len() && !same_text(groups[g].0.as_str(), key.as_str())
                invariant
                    g <= groups.len(),
                    groups@ == old_groups,
                    forall|a: int| 0 <= a < g ==> groups@[a].0@ != key@,
                decreases groups.len() - g,
            {
                g += 1;
            }
            proof {
                assert(listen_key(sv[i]) == Some(key@));
            }
            if g < groups.len() {
                let (k, mut members) = groups.remove(g);
                let ghost before = servers_view(members@);
                members.push(s);
                proof {
                    assert(servers_view(members@) =~= before.push(sv[i]));
                }
                groups.insert(g, (k, members));
                proof {
                    assert forall|h: int| 0 <= h < groups.len() implies servers_view((#[trigger] groups@[h]).1@) == servers_on(sv.take(i + 1), groups@[h].0@) by {
                        if h != g {
                            assert(groups@[h] == old_groups[h]);
                            if h < g {
                                assert(old_groups[h].0@ != old_groups[g as int].0@);
                            } else {
                                assert(old_groups[g as int].0@ != old_groups[h].0@);
                            }
                        }
                    }
                    assert forall|a: int, b: int| 0 <= a < b < groups.len() implies groups@[a].0@ != groups@[b].0@ by {
                        assert(groups@[a].0 == old_groups[a].0);
                        assert(groups@[b].0 == old_groups[b].0);
                    }
                    assert forall|j: int| 0 <= j < i + 1 && (#[trigger] listen_key(sv[j])) is Some
                        implies exists|h: int| 0 <= h < groups.len() && Some(groups@[h].0@) == listen_key(sv[j]) by {
                        if j < i {
                            let h = choose|h: int| 0 <= h < old_groups.len() && Some(old_groups[h].0@) == listen_key(sv[j]);
                            assert(groups@[h].0 == old_groups[h].0);
                        } else {
                            assert(groups@[g as int].0 == old_groups[g as int].0);
                        }
                    }
                }
            } else {
                proof {
                    assert forall|j: int| 0 <= j < p.len() implies listen_key(#[trigger] p[j]) != Some(key@) by {
                        assert(p[j] == sv[j]);
                        if listen_key(sv[j]) == Some(key@) {
                            let h = choose|h: int| 0 <= h < old_groups.len() && Some(old_groups[h].0@) == listen_key(sv[j]);
                            assert(old_groups[h].0@ != key@);
                        }
                    }
                    lemma_servers_on_none(p, key@);
                }
                let members = vec![s];
                proof {
                    assert(servers_view(members@) =~= Seq::<ServerView>::empty().push(sv[i]));
                }
                groups.push((key, members));
                proof {
                    assert forall|h: int| 0 <= h < groups.len() implies servers_view((#[trigger] groups@[h]).1@) == servers_on(sv.take(i + 1), groups@[h].0@) by {
                        if h < old_groups.len() {
                            assert(groups@[h] == old_groups[h]);
                            assert(old_groups[h].0@ != key@);
                        }
                    }
                    assert forall|j: int| 0 <= j < i + 1 && (#[trigger] listen_key(sv[j])) is Some
                        implies exists|h: int| 0 <= h < groups.len() && Some(groups@[h].0@) == listen_key(sv[j]) by {
                        if j < i {
                            let h = choose|h: int| 0 <= h < old_groups.len() && Some(old_groups[h].0@) == listen_key(sv[j]);
                            assert(groups@[h] == old_groups[h]);
                        } else {
                            assert(groups@[old_groups.len() as int].0@ == key@);
                        }
                    }
                }
            }
        }
    }
    proof {
        assert(sv.take(sv.len() as int) =~= sv);
    }
    groups
}

/// The listen groups of a configuration: one per distinct first listen
/// token of its server blocks, matched as exact strings, each holding the
/// virtual hosts of the blocks that listen on that token.
pub fn listen_groups(config: Config) -> (r: Vec<Server>)
    ensures
        forall|a: int, b: int| 0 <= a < b < r.len() ==> r@[a]@.listen != r@[b]@.listen,
        forall|g: int| 0 <= g < r.len() ==> (#[trigger] r@[g])@.hosts == hosts_of(servers_on(all_servers(config@), r@[g]@.listen)),
        forall|g: int| 0 <= g < r.len() ==> servers_on(all_servers(config@), (#[trigger] r@[g])@.listen).len() > 0,
        forall|j: int| 0 <= j < all_servers(config@).len() && (#[trigger] listen_key(all_servers(config@)[j])) is Some
            ==> exists|g: int| 0 <= g < r.len() && Some(r@[g]@.listen) == listen_key(all_servers(config@)[j]),
{
    let all = flatten(config);
    let groups = group_by_listen(all);
    let ghost gv = groups@;
    let mut out: Vec<Server> = Vec::new();
    for g in it: groups
        invariant
            gv == it.seq(),
            out.len() == it.index(),
            forall|h: int| 0 <= h < out.len() ==> (#[trigger] out@[h])@.listen == gv[h].0@,
            forall|h: int| 0 <= h < out.len() ==> (#[trigger] out@[h])@.hosts == hosts_of(servers_view(gv[h].1@)),
            forall|h: int| 0 <= h < gv.len() ==> (#[trigger] gv[h]).1@.len() > 0,
    {
        let (listen, servers) = g;
        out.push(Server::new(listen, servers));
    }
    proof {
        let sv = all_servers(config@);
        assert forall|j: int| 0 <= j < sv.len() && (#[trigger] listen_key(sv[j])) is Some
            implies exists|g: int| 0 <= g < out.len() && Some(out@[g]@.listen) == listen_key(sv[j]) by {
            assert(listen_key(servers_view(all@)[j]) is Some);
            let g = choose|g: int| 0 <= g < gv.len() && Some(gv[g].0@) == listen_key(servers_view(all@)[j]);
            assert(out@[g]@.listen == gv[g].0@);
        }
    }
    out
}

/// Every server block of a listen group has the group's token, compared as
/// an exact string, as its first listen token.
pub proof fn lemma_group_members_share_token(ss: Seq<ServerView>, k: Seq<char>, i: int)
    requires
        0 <= i < servers_on(ss, k).len(),
    ensures
        listen_key(servers_on(ss, k)[i]) == Some(k),
    decreases ss.len(),
{
    if ss.len() > 0 {
        let rest = servers_on(ss.drop_last(), k);
        if listen_key(ss.last()) == Some(k) {
            if i < rest.len() {
                lemma_group_members_share_token(ss.drop_last(), k, i);
            }
        } else {
            lemma_group_members_share_token(ss.drop_last(), k, i);
        }
    }
}

/// Listen grouping is keyed by the exact token: two server blocks whose first
/// listen tokens differ as strings (`80` and `080`) are never in one group.
pub proof fn lemma_distinct_tokens_never_share_a_group(ss: Seq<ServerView>, k: Seq<char>, a: int, b: int)
    requires
        0 <= a < ss.len(),
        0 <= b < ss.len(),
        listen_key(ss[a]) != listen_key(ss[b]),
    ensures
        !(servers_on(ss, k).contains(ss[a]) && servers_on(ss, k).contains(ss[b])),
{
    let g = servers_on(ss, k);
    if g.contains(ss[a]) && g.contains(ss[b]) {
        let x = choose|x: int| 0 <= x < g.len() && g[x] == ss[a];
        let y = choose|y: int| 0 <= y < g.len() && g[y] == ss[b];
        lemma_group_members_share_token(ss, k, x);
        lemma_group_members_share_token(ss, k, y);
    }
}

/// Host dispatch: a `Host` value equal to a virtual host's name selects a
/// host of that name; any other value, or none, selects the host of the
/// empty name where there is one, and otherwise none, whose response is 404
/// without a body.
pub proof fn lemma_host_dispatch(hs: Seq<HostView>, host: Option<Seq<u8>>, path: Seq<char>)
    ensures
        match select_host(hs, host) {
            Some(h) => hs.contains(h) && match host {
                Some(b) => if exists|i: int| 0 <= i < hs.len() && vstd::utf8::encode_utf8(host_key(#[trigger] hs[i])) == b {
                    vstd::utf8::encode_utf8(host_key(h)) == b
                } else {
                    host_key(h) == Seq::<char>::empty()
                },
                None => host_key(h) == Seq::<char>::empty(),
            },
            None => (forall|i: int| 0 <= i < hs.len() ==> host_key(#[trigger] hs[i]) != Seq::<char>::empty())
                && resolve(None, path) == (ReturnView { code: 404, text: None }),
        },
{
    let named = match host {
        Some(b) => first_index(hs, key_bytes_are(b)),
        None => None,
    };
    if let Some(b) = host {
        if exists|i: int| 0 <= i < hs.len() && vstd::utf8::encode_utf8(host_key(#[trigger] hs[i])) == b {
            let i = choose|i: int| 0 <= i < hs.len() && vstd::utf8::encode_utf8(host_key(#[trigger] hs[i])) == b;
            assert(key_bytes_are(b)(hs[i]));
            lemma_first_index_exists(hs, key_bytes_are(b), i);
        }
    }
    match named {
        Some(i) => {
            let b = host->Some_0;
            assert(is_first(hs, key_bytes_are(b), i));
            assert(hs.contains(hs[i]));
        },
        None => {
            if let Some(b) = host {
                if exists|i: int| 0 <= i < hs.len() && vstd::utf8::encode_utf8(host_key(#[trigger] hs[i])) == b {
                    let i = choose|i: int| 0 <= i < hs.len() && vstd::utf8::encode_utf8(host_key(#[trigger] hs[i])) == b;
                    assert(key_bytes_are(b)(hs[i]));
                    lemma_first_index_exists(hs, key_bytes_are(b), i);
                }
            }
            match first_index(hs, key_is(Seq::empty())) {
                Some(i) => {
                    assert(is_first(hs, key_is(Seq::empty()), i));
                    assert(hs.contains(hs[i]));
                },
                None => {
                    assert forall|i: int| 0 <= i < hs.len() implies host_key(#[trigger] hs[i]) != Seq::<char>::empty() by {
                        if host_key(hs[i]) == Seq::<char>::empty() {
                            assert(key_is(Seq::empty())(hs[i]));
                            lemma_first_index_exists(hs, key_is(Seq::empty()), i);
                        }
                    }
                },
            }
        },
    }
}

/// Exact beats prefix: where a virtual host has an exact location for a
/// path, a request for that path gets the response of an exact location for
/// it, whatever prefix locations there are.
pub proof fn lemma_exact_beats_prefix(h: HostView, path: Seq<char>, i: int)
    requires
        0 <= i < h.location.len(),
        h.location[i].exact,
        h.location[i].path == path,
    ensures
        exists|j: int|
            0 <= j < h.location.len() && h.location[j].exact && h.location[j].path == path
                && resolve(Some(h), path) == (#[trigger] h.location[j]).ret,
{
    assert(exact_match(path)(h.location[i]));
    lemma_first_index_exists(h.location, exact_match(path), i);
    let j = first_index(h.location, exact_match(path))->Some_0;
    assert(is_first(h.location, exact_match(path), j));
}

/// Prefix match: with no exact location for a path, a request for it gets
/// the response of a prefix location whose path begins it, where there is
/// one.
pub proof fn lemma_prefix_match(h: HostView, path: Seq<char>, i: int)
    requires
        0 <= i < h.location.len(),
        !h.location[i].exact,
        is_prefix_of(h.location[i].path, path),
        forall|j: int| 0 <= j < h.location.len() ==> !(#[trigger] h.location[j]).exact || h.location[j].path != path,
    ensures
        exists|j: int|
            0 <= j < h.location.len() && !h.location[j].exact && is_prefix_of(h.location[j].path, path)
                && resolve(Some(h), path) == (#[trigger] h.location[j]).ret,
{
    assert forall|j: int| 0 <= j < h.location.len() implies !exact_match(path)(#[trigger] h.location[j]) by {
    }
    lemma_first_index_none(h.location, exact_match(path));
    assert(prefix_match(path)(h.location[i]));
    lemma_first_index_exists(h.location, prefix_match(path), i);
    let j = first_index(h.location, prefix_match(path))->Some_0;
    assert(is_first(h.location, prefix_match(path), j));
}

/// A path that no location matches gets the virtual host's default
/// response.
pub proof fn lemma_no_match_falls_through(h: HostView, path: Seq<char>)
    requires
        forall|j: int| 0 <= j < h.location.len() ==> !(#[trigger] h.location[j]).exact || h.location[j].path != path,
        forall|j: int| 0 <= j < h.location.len() ==> h.location[j].exact || !is_prefix_of((#[trigger] h.location[j]).path, path),
    ensures
        resolve(Some(h), path) == h.ret,
{
    assert forall|j: int| 0 <= j < h.location.len() implies !exact_match(path)(#[trigger] h.location[j]) by {
    }
    assert forall|j: int| 0 <= j < h.location.len() implies !prefix_match(path)(#[trigger] h.location[j]) by {
    }
    lemma_first_index_none(h.location, exact_match(path));
    lemma_first_index_none(h.location, prefix_match(path));
}

} // verus!
