//! Request routing. Matches a request to a service name by optional host and by
//! longest matching path prefix. This is intentionally simple, it decides which
//! upstream pool handles the request, nothing more.

use vstd::prelude::*;
use vstd::string::*;

use crate::http::is_named;
use crate::http::law_first_header_of_the_name_is_found;
use crate::http::Request;
use crate::http::RequestView;
use crate::text::chars_of;
use crate::text::eq_ignoring_case;
use crate::text::law_only_ascii_case_is_ignored;
use crate::text::lowered;
use crate::text::same;
use crate::text::same_ignoring_case;
use crate::text::same_letter;
use crate::text::to_lower;
use crate::text::IntoText;

verus! {

#[derive(Debug)]
pub struct Route {
    /// When set, the request Host header must equal this (case insensitive).
    pub host: Option<String>,
    /// The path prefix that must match. "/" matches everything.
    pub path_prefix: String,
    /// The service (pool) name to route to.
    pub service: String,
}

/// A route apart from how its texts are stored.
pub struct RouteView {
    pub host: Option<Seq<char>>,
    pub path_prefix: Seq<char>,
    pub service: Seq<char>,
}

impl View for Route {
    type V = RouteView;

    open spec fn view(&self) -> RouteView {
        RouteView {
            host: match self.host {
                Some(h) => Some(h@),
                None => None,
            },
            path_prefix: self.path_prefix@,
            service: self.service@,
        }
    }
}

impl Clone for Route {
    fn clone(&self) -> (copy: Self)
        ensures
            copy@ == self@,
    {
        Route {
            host: match &self.host {
                Some(h) => Some(h.clone()),
                None => None,
            },
            path_prefix: self.path_prefix.clone(),
            service: self.service.clone(),
        }
    }
}

/// A path up to its query.
pub open spec fn before_query(path: Seq<char>) -> Seq<char>
    decreases path.len(),
{
    if path.len() == 0 || path[0] == '?' {
        Seq::empty()
    } else {
        seq![path[0]] + before_query(path.skip(1))
    }
}

/// A prefix matches when the path equals it or continues with a `/` boundary,
/// so `/api` matches `/api` and `/api/x` but not `/apixyz`. The prefix `/`
/// matches every path.
pub open spec fn prefix_covers(prefix: Seq<char>, path: Seq<char>) -> bool {
    let head = before_query(path);
    ||| prefix == "/"@
    ||| {
        &&& prefix.is_prefix_of(head)
        &&& {
            ||| head.len() == prefix.len()
            ||| head[prefix.len() as int] == '/'
            ||| prefix.len() > 0 && prefix.last() == '/'
        }
    }
}

impl RouteView {
    pub open spec fn matches(self, req: RequestView) -> bool {
        &&& match self.host {
            Some(h) => match req.host() {
                Some(rh) => same_ignoring_case(rh, h),
                None => false,
            },
            None => true,
        }
        &&& prefix_covers(self.path_prefix, req.path)
    }

    /// The length of the prefix in bytes.
    pub open spec fn reach(self) -> nat {
        vstd::utf8::encode_utf8(self.path_prefix).len()
    }

    /// This route is preferred to the other: a longer prefix, or the same
    /// length and a host of its own where the other has none.
    pub open spec fn outranks(self, other: RouteView) -> bool {
        ||| self.reach() > other.reach()
        ||| self.reach() == other.reach() && self.host is Some && other.host is None
    }
}

/// The route that takes the request: it matches, no matching route outranks it,
/// and it outranks every matching route added later.
pub open spec fn is_taken(routes: Seq<RouteView>, req: RequestView, i: int) -> bool {
    &&& 0 <= i < routes.len()
    &&& routes[i].matches(req)
    &&& forall|j: int|
        0 <= j < routes.len() && (#[trigger] routes[j]).matches(req) ==> !routes[j].outranks(
            routes[i],
        )
    &&& forall|j: int|
        i < j < routes.len() && (#[trigger] routes[j]).matches(req) ==> routes[i].outranks(
            routes[j],
        )
}

/// The service that a request goes to.
pub open spec fn service_for(routes: Seq<RouteView>, req: RequestView) -> Option<Seq<char>> {
    if exists|i: int| is_taken(routes, req, i) {
        Some(routes[choose|i: int| is_taken(routes, req, i)].service)
    } else {
        None
    }
}

/// At most one route takes a request.
proof fn lemma_taken_is_unique(routes: Seq<RouteView>, req: RequestView, i: int, j: int)
    requires
        is_taken(routes, req, i),
        is_taken(routes, req, j),
    ensures
        i == j,
{
    assert(routes[i].matches(req) && routes[j].matches(req));
}

impl Route {
    pub fn new<P: IntoText, S: IntoText>(host: Option<&str>, path_prefix: P, service: S) -> (route:
        Self)
        ensures
            route@ == (RouteView {
                host: match host {
                    Some(h) => Some(lowered(h@)),
                    None => None,
                },
                path_prefix: path_prefix.text(),
                service: service.text(),
            }),
    {
        Self {
            host: match host {
                Some(h) => Some(to_lower(h)),
                None => None,
            },
            path_prefix: path_prefix.into_text(),
            service: service.into_text(),
        }
    }

    fn matches(&self, req: &Request) -> (m: bool)
        ensures
            m == self@.matches(req@),
    {
        if let Some(h) = &self.host {
            match req.host() {
                Some(rh) => {
                    if !eq_ignoring_case(rh, h.as_str()) {
                        return false;
                    }
                },
                None => {
                    return false;
                },
            }
        }
        path_prefix_matches(self.path_prefix.as_str(), req.path.as_str())
    }
}

/// The characters of a path up to its query.
fn path_head(path: &str) -> (head: Vec<char>)
    ensures
        head@ == before_query(path@),
{
    let chars: Vec<char> = chars_of(path);
    let mut head: Vec<char> = Vec::new();
    let mut i: usize = 0;
    assert(path@.skip(0) =~= path@);
    assert(head@ + before_query(path@) =~= before_query(path@));
    while i < chars.len() && chars[i] != '?'
        invariant
            chars@ == path@,
            i <= chars@.len(),
            before_query(path@) == head@ + before_query(path@.skip(i as int)),
        decreases chars@.len() - i,
    {
        let ghost before = head@;
        head.push(chars[i]);
        proof {
            let rest = path@.skip(i as int);
            assert(rest.skip(1) =~= path@.skip(i + 1));
            assert(before + before_query(rest) =~= head@ + before_query(path@.skip(i + 1)));
        }
        i += 1;
    }
    assert(head@ + Seq::<char>::empty() =~= head@);
    head
}

/// A prefix matches when the path equals it or continues with a `/` boundary,
/// so `/api` matches `/api` and `/api/x` but not `/apixyz`.
fn path_prefix_matches(prefix: &str, path: &str) -> (m: bool)
    ensures
        m == prefix_covers(prefix@, path@),
{
    if same(prefix, "/") {
        return true;
    }
    let head: Vec<char> = path_head(path);
    let start: Vec<char> = chars_of(prefix);
    let n: usize = start.len();
    if head.len() < n {
        return false;
    }
    let mut i: usize = 0;
    while i < n
        invariant
            prefix@ != "/"@,
            start@ == prefix@,
            head@ == before_query(path@),
            n == start@.len(),
            n <= head@.len(),
            i <= n,
            forall|j: int| 0 <= j < i ==> start@[j] == head@[j],
        decreases n - i,
    {
        if start[i] != head[i] {
            assert(head@.subrange(0, n as int)[i as int] != start@[i as int]);
            return false;
        }
        i += 1;
    }
    assert(start@ =~= head@.subrange(0, n as int));
    head.len() == n || head[n] == '/' || (n > 0 && start[n - 1] == '/')
}

pub struct Router {
    routes: Vec<Route>,
}

impl View for Router {
    type V = Seq<RouteView>;

    closed spec fn view(&self) -> Seq<RouteView> {
        self.routes@.map_values(|r: Route| r@)
    }
}

impl Default for Router {
    fn default() -> (router: Self)
        ensures
            router@ == Seq::<RouteView>::empty(),
    {
        Router::new()
    }
}

impl Router {
    pub fn new() -> (router: Self)
        ensures
            router@ == Seq::<RouteView>::empty(),
    {
        let routes: Vec<Route> = Vec::new();
        assert(routes@.map_values(|r: Route| r@) =~= Seq::empty());
        Self { routes }
    }

    pub fn add(&mut self, route: Route)
        ensures
            final(self)@ == old(self)@.push(route@),
    {
        self.routes.push(route);
        assert(self@ =~= old(self)@.push(route@));
    }

    pub fn routes(&self) -> (routes: &[Route])
        ensures
            routes@.map_values(|r: Route| r@) == self@,
    {
        self.routes.as_slice()
    }

    /// The service for this request. Among matching routes, the one with the
    /// longest path prefix wins, with a host specific route breaking ties.
    pub fn route(&self, req: &Request) -> (service: Option<&str>)
        ensures
            match service {
                Some(s) => service_for(self@, req@) == Some(s@),
                None => service_for(self@, req@) is None,
            },
    {
        let ghost all = self@;
        let mut best: Option<usize> = None;
        let mut i: usize = 0;
        while i < self.routes.len()
            invariant
                all == self.routes@.map_values(|r: Route| r@),
                i <= self.routes@.len(),
                match best {
                    Some(b) => {
                        &&& b < i
                        &&& all[b as int].matches(req@)
                        &&& forall|j: int|
                            0 <= j < i && (#[trigger] all[j]).matches(req@) ==> !all[j].outranks(
                                all[b as int],
                            )
                        &&& forall|j: int|
                            b < j < i && (#[trigger] all[j]).matches(req@)
                                ==> all[b as int].outranks(all[j])
                    },
                    None => forall|j: int| 0 <= j < i ==> !(#[trigger] all[j]).matches(req@),
                },
            decreases self.routes@.len() - i,
        {
            let r: &Route = &self.routes[i];
            assert(all[i as int] == r@);
            if r.matches(req) {
                best = match best {
                    None => Some(i),
                    Some(b) => {
                        let held: &Route = &self.routes[b];
                        assert(all[b as int] == held@);
                        let new_len: usize = r.path_prefix.as_str().as_bytes().len();
                        let held_len: usize = held.path_prefix.as_str().as_bytes().len();
                        if held_len > new_len || (held_len == new_len && held.host.is_some()
                            && r.host.is_none()) {
                            Some(b)
                        } else {
                            Some(i)
                        }
                    },
                };
            }
            i += 1;
        }
        match best {
            Some(b) => {
                proof {
                    assert(is_taken(all, req@, b as int));
                    lemma_taken_is_unique(
                        all,
                        req@,
                        b as int,
                        choose|i: int| is_taken(all, req@, i),
                    );
                    assert(all[b as int] == self.routes@[b as int]@);
                }
                Some(self.routes[b].service.as_str())
            },
            None => None,
        }
    }
}

/// A request gets a service exactly when some route matches it, and the service
/// is that of a matching route that no other matching route outranks: the
/// longest prefix wins, and a host of its own breaks a tie.
pub proof fn law_longest_prefix_wins(routes: Seq<RouteView>, req: RequestView)
    ensures
        service_for(routes, req) is Some <==> exists|i: int|
            0 <= i < routes.len() && (#[trigger] routes[i]).matches(req),
        service_for(routes, req) matches Some(service) ==> exists|i: int|
            {
                &&& 0 <= i < routes.len()
                &&& (#[trigger] routes[i]).matches(req)
                &&& routes[i].service == service
                &&& forall|j: int|
                    0 <= j < routes.len() && (#[trigger] routes[j]).matches(req)
                        ==> routes[j].reach() <= routes[i].reach() && (routes[j].reach()
                        == routes[i].reach() && routes[j].host is Some ==> routes[i].host is Some)
            },
{
    if exists|i: int| 0 <= i < routes.len() && (#[trigger] routes[i]).matches(req) {
        lemma_some_route_is_taken(routes, req, routes.len() as int);
        assert(routes.take(routes.len() as int) =~= routes);
        let i = choose|i: int| is_taken(routes, req, i);
        assert(is_taken(routes, req, i));
        assert(routes[i].matches(req));
    } else if exists|i: int| is_taken(routes, req, i) {
        let i = choose|i: int| is_taken(routes, req, i);
        assert(routes[i].matches(req));
    }
}

proof fn lemma_some_route_is_taken(routes: Seq<RouteView>, req: RequestView, n: int)
    requires
        0 <= n <= routes.len(),
        exists|i: int| 0 <= i < n && (#[trigger] routes[i]).matches(req),
    ensures
        exists|i: int| is_taken(routes.take(n), req, i),
    decreases n,
{
    let some = routes.take(n);
    let fewer = routes.take(n - 1);
    let last = n - 1;
    if exists|i: int| 0 <= i < last && (#[trigger] routes[i]).matches(req) {
        lemma_some_route_is_taken(routes, req, last);
        let b = choose|i: int| is_taken(fewer, req, i);
        assert(is_taken(fewer, req, b));
        assert forall|j: int| 0 <= j < last implies some[j] == #[trigger] fewer[j] by {}
        if some[last].matches(req) && !some[b].outranks(some[last]) {
            assert forall|j: int|
                0 <= j < n && (#[trigger] some[j]).matches(req) implies !some[j].outranks(
                some[last],
            ) by {
                if j < last {
                    assert(fewer[j].matches(req));
                }
            }
            assert(is_taken(some, req, last));
        } else {
            assert forall|j: int|
                0 <= j < n && (#[trigger] some[j]).matches(req) implies !some[j].outranks(
                some[b],
            ) by {
                if j < last {
                    assert(fewer[j].matches(req));
                }
            }
            assert forall|j: int|
                b < j < n && (#[trigger] some[j]).matches(req) implies some[b].outranks(
                some[j],
            ) by {
                if j < last {
                    assert(fewer[j].matches(req));
                }
            }
            assert(is_taken(some, req, b));
        }
    } else {
        let i = choose|i: int| 0 <= i < n && (#[trigger] routes[i]).matches(req);
        assert(i == last);
        assert forall|j: int| 0 <= j < last implies !(#[trigger] some[j]).matches(req) by {
            assert(some[j] == routes[j]);
        }
        assert(some[last] == routes[last]);
        assert(is_taken(some, req, last));
    }
}

proof fn lemma_before_query(head: Seq<char>, rest: Seq<char>)
    requires
        !head.contains('?'),
        rest.len() > 0 ==> rest[0] == '?',
    ensures
        before_query(head + rest) == head,
    decreases head.len(),
{
    let path = head + rest;
    if head.len() == 0 {
        assert(path =~= rest);
        assert(before_query(path) =~= head);
    } else {
        let less = head.skip(1);
        assert(head.contains(head[0]));
        assert(path[0] == head[0]);
        assert(!less.contains('?')) by {
            if less.contains('?') {
                let i = choose|i: int| 0 <= i < less.len() && less[i] == '?';
                assert(head[i + 1] == '?');
            }
        }
        lemma_before_query(less, rest);
        assert(path.skip(1) =~= less + rest);
        assert(before_query(path) =~= head);
    }
}

/// The prefix `/` covers every path. Any other prefix covers a path exactly when the
/// path without its query is the prefix and a rest behind it that is empty, begins
/// with a slash, or follows a slash at the end of the prefix. The query decides
/// nothing.
pub proof fn law_prefix_ends_at_a_boundary(prefix: Seq<char>, head: Seq<char>, query: Seq<char>)
    requires
        !head.contains('?'),
        query.len() > 0 ==> query[0] == '?',
    ensures
        prefix_covers(prefix, head + query) <==> {
            ||| prefix == "/"@
            ||| exists|rest: Seq<char>|
                {
                    &&& head == #[trigger] (prefix + rest)
                    &&& rest.len() == 0 || rest[0] == '/' || (prefix.len() > 0 && prefix.last()
                        == '/')
                }
        },
{
    lemma_before_query(head, query);
    let n = prefix.len() as int;
    if prefix.is_prefix_of(head) {
        let rest = head.skip(n);
        assert(head =~= prefix + rest);
        if head.len() > n {
            assert(rest[0] == head[n]);
        }
    }
    if exists|rest: Seq<char>|
        {
            &&& head == #[trigger] (prefix + rest)
            &&& rest.len() == 0 || rest[0] == '/' || (prefix.len() > 0 && prefix.last() == '/')
        } {
        let rest = choose|rest: Seq<char>|
            {
                &&& head == #[trigger] (prefix + rest)
                &&& rest.len() == 0 || rest[0] == '/' || (prefix.len() > 0 && prefix.last() == '/')
            };
        assert(head.subrange(0, n) =~= prefix);
    }
}

/// A prefix that ends with a slash covers every path that begins with it.
pub proof fn law_prefix_with_a_slash_covers_all_below(prefix: Seq<char>, rest: Seq<char>)
    requires
        prefix.len() > 0,
        prefix.last() == '/',
        !prefix.contains('?'),
    ensures
        prefix_covers(prefix, prefix + rest),
{
    let path = prefix + rest;
    let n = first_query(path, 0);
    let head = path.take(n);
    let query = path.skip(n);
    assert(n >= prefix.len()) by {
        if n < prefix.len() {
            assert(path[n] == prefix[n]);
            assert(prefix.contains(prefix[n]));
        }
    }
    assert(!head.contains('?')) by {
        if head.contains('?') {
            let i = choose|i: int| 0 <= i < head.len() && head[i] == '?';
            assert(path[i] == '?');
        }
    }
    assert(path =~= head + query);
    law_prefix_ends_at_a_boundary(prefix, head, query);
    assert(head =~= prefix + rest.take(n - prefix.len()));
}

/// The first question mark from `from` on, or the end.
proof fn first_query(path: Seq<char>, from: int) -> (n: int)
    requires
        0 <= from <= path.len(),
    ensures
        from <= n <= path.len(),
        forall|i: int| from <= i < n ==> #[trigger] path[i] != '?',
        n < path.len() ==> path[n] == '?',
    decreases path.len() - from,
{
    if from == path.len() || path[from] == '?' {
        from
    } else {
        first_query(path, from + 1)
    }
}

/// A route matches a request exactly when its prefix covers the path and, where it has
/// a host, the first `Host` header of the request has that host as its value, the case
/// of ASCII letters aside.
pub proof fn law_route_matches_host_and_path(route: RouteView, req: RequestView)
    ensures
        route.matches(req) <==> prefix_covers(route.path_prefix, req.path) && (route.host matches
            Some(host) ==> exists|i: int|
            {
                &&& 0 <= i < req.headers.len()
                &&& is_named(#[trigger] req.headers[i], "Host"@)
                &&& forall|j: int| 0 <= j < i ==> !is_named(#[trigger] req.headers[j], "Host"@)
                &&& req.headers[i].1.len() == host.len()
                &&& forall|c: int|
                    0 <= c < host.len() ==> same_letter(#[trigger] req.headers[i].1[c], host[c])
            }),
{
    law_first_header_of_the_name_is_found(req.headers, "Host"@);
    if let Some(host) = route.host {
        if let Some(value) = req.host() {
            law_only_ascii_case_is_ignored(value, host);
            let i = choose|i: int|
                {
                    &&& 0 <= i < req.headers.len()
                    &&& (#[trigger] req.headers[i]).1 == value
                    &&& is_named(req.headers[i], "Host"@)
                    &&& forall|j: int|
                        0 <= j < i ==> !is_named(#[trigger] req.headers[j], "Host"@)
                };
            assert(is_named(req.headers[i], "Host"@));
            if exists|k: int|
                {
                    &&& 0 <= k < req.headers.len()
                    &&& is_named(#[trigger] req.headers[k], "Host"@)
                    &&& forall|j: int|
                        0 <= j < k ==> !is_named(#[trigger] req.headers[j], "Host"@)
                    &&& req.headers[k].1.len() == host.len()
                    &&& forall|c: int|
                        0 <= c < host.len() ==> same_letter(
                            #[trigger] req.headers[k].1[c],
                            host[c],
                        )
                } {
                let k = choose|k: int|
                    {
                        &&& 0 <= k < req.headers.len()
                        &&& is_named(#[trigger] req.headers[k], "Host"@)
                        &&& forall|j: int|
                            0 <= j < k ==> !is_named(#[trigger] req.headers[j], "Host"@)
                        &&& req.headers[k].1.len() == host.len()
                        &&& forall|c: int|
                            0 <= c < host.len() ==> same_letter(
                                #[trigger] req.headers[k].1[c],
                                host[c],
                            )
                    };
                assert(k == i) by {
                    if k < i {
                        assert(!is_named(req.headers[k], "Host"@));
                    } else if i < k {
                        assert(!is_named(req.headers[i], "Host"@));
                    }
                }
            }
        }
    }
}

/// Of the routes that match, the one with the longest prefix in bytes takes the
/// request. Of several of that length those with a host go first, and of those left the
/// one that was added last. A request that no route matches has no service.
pub proof fn law_best_route_takes_the_request(routes: Seq<RouteView>, req: RequestView)
    ensures
        match service_for(routes, req) {
            Some(service) => exists|i: int|
                {
                    &&& 0 <= i < routes.len()
                    &&& (#[trigger] routes[i]).matches(req)
                    &&& routes[i].service == service
                    &&& forall|j: int|
                        0 <= j < routes.len() && (#[trigger] routes[j]).matches(req) ==> {
                            let a = vstd::utf8::encode_utf8(routes[i].path_prefix).len();
                            let b = vstd::utf8::encode_utf8(routes[j].path_prefix).len();
                            &&& b <= a
                            &&& a == b && routes[j].host is Some ==> routes[i].host is Some
                            &&& a == b && (routes[j].host is Some <==> routes[i].host is Some)
                                ==> j <= i
                        }
                },
            None => forall|j: int|
                0 <= j < routes.len() ==> !(#[trigger] routes[j]).matches(req),
        },
{
    law_longest_prefix_wins(routes, req);
    if service_for(routes, req) is Some {
        let i = choose|i: int| is_taken(routes, req, i);
        assert(is_taken(routes, req, i));
        assert(routes[i].matches(req));
    }
}

} // verus!
