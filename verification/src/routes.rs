//! The method routing table: which `(service index, method index)` pair of
//! the backend a `/_anki/<method>` or `/_anki/<Service>/<method>` path
//! reaches.
//!
//! The table is built from the backend's service descriptions, whose
//! `index` fields are the ones the backend assigned (they are taken as
//! given, never recomputed by position).

use vstd::prelude::*;

use crate::text::char_to_uppercase;
use crate::text::chars_of;
use crate::text::str_eq;
use crate::text::string_from;
use crate::text::string_of;
use crate::text::uppercase_of;

verus! {

/// One method of a backend service, named in snake_case as the descriptor
/// pool reports it.
pub struct MethodDesc {
    pub name: String,
    pub index: u32,
}

pub struct MethodSpec {
    pub name: Seq<char>,
    pub index: u32,
}

impl View for MethodDesc {
    type V = MethodSpec;

    open spec fn view(&self) -> MethodSpec {
        MethodSpec { name: self.name@, index: self.index }
    }
}

/// One backend service with its methods.
pub struct ServiceDesc {
    pub name: String,
    pub index: u32,
    pub methods: Vec<MethodDesc>,
}

pub struct ServiceSpec {
    pub name: Seq<char>,
    pub index: u32,
    pub methods: Seq<MethodSpec>,
}

impl View for ServiceDesc {
    type V = ServiceSpec;

    open spec fn view(&self) -> ServiceSpec {
        ServiceSpec {
            name: self.name@,
            index: self.index,
            methods: self.methods@.map_values(|m: MethodDesc| m@),
        }
    }
}

/// A routable method: its indices, the service's short name and the
/// method's camelCase name.
pub struct Route {
    pub service_index: u32,
    pub method_index: u32,
    pub service: String,
    pub method: String,
}

pub struct RouteSpec {
    pub service_index: u32,
    pub method_index: u32,
    pub service: Seq<char>,
    pub method: Seq<char>,
}

impl View for Route {
    type V = RouteSpec;

    open spec fn view(&self) -> RouteSpec {
        RouteSpec {
            service_index: self.service_index,
            method_index: self.method_index,
            service: self.service@,
            method: self.method@,
        }
    }
}

/// Why no table could be built.
#[derive(Debug, Clone, Copy, PartialEq, Eq, Structural)]
pub enum RouteError {
    /// The descriptions held no method that the backend dispatches.
    NoBackendServices,
}

// ---------------------------------------------------------------------
// camelCase
// ---------------------------------------------------------------------

/// One step of the camelCase conversion: an underscore is dropped and asks
/// for the next character to be upper-cased.
pub open spec fn camel_step(st: (Seq<char>, bool), c: char) -> (Seq<char>, bool) {
    if c == '_' {
        (st.0, true)
    } else if st.1 {
        (st.0 + uppercase_of(c), false)
    } else {
        (st.0.push(c), false)
    }
}

pub open spec fn camel_run(s: Seq<char>) -> (Seq<char>, bool)
    decreases s.len(),
{
    if s.len() == 0 {
        (Seq::<char>::empty(), false)
    } else {
        camel_step(camel_run(s.drop_last()), s.last())
    }
}

/// The camelCase form of a snake_case name, as the web client spells it.
pub open spec fn camel_case(s: Seq<char>) -> Seq<char> {
    camel_run(s).0
}

/// Converts a snake_case method name into the camelCase form used in
/// `/_anki/<method>` paths.
pub fn to_camel_case(snake: &str) -> (out: String)
    ensures
        out@ == camel_case(snake@),
{
    let cs = chars_of(snake);
    let mut out: Vec<char> = Vec::new();
    let mut capitalize = false;
    let mut i: usize = 0;
    while i < cs.len()
        invariant
            i <= cs@.len(),
            (out@, capitalize) == camel_run(cs@.take(i as int)),
        decreases cs@.len() - i,
    {
        let ch = cs[i];
        assert(cs@.take(i + 1).drop_last() == cs@.take(i as int));
        if ch == '_' {
            capitalize = true;
        } else if capitalize {
            let mut up = char_to_uppercase(ch);
            out.append(&mut up);
            capitalize = false;
        } else {
            out.push(ch);
        }
        i = i + 1;
    }
    assert(cs@.take(cs@.len() as int) == cs@);
    string_of(&out)
}

// ---------------------------------------------------------------------
// Service short names
// ---------------------------------------------------------------------

pub open spec fn backend_prefix() -> Seq<char> {
    seq!['B', 'a', 'c', 'k', 'e', 'n', 'd']
}

/// The name with every leading `Backend` removed.
pub open spec fn trim_backend(s: Seq<char>) -> Seq<char>
    decreases s.len(),
{
    if s.len() >= 7 && s.take(7) == backend_prefix() {
        trim_backend(s.skip(7))
    } else {
        s
    }
}

/// The short service name used in `/_anki/<Service>/<method>` paths: the
/// descriptor's name with its leading `Backend`s removed.
pub fn short_service_name(name: &str) -> (out: String)
    ensures
        out@ == trim_backend(name@),
{
    let cs = chars_of(name);
    let mut start: usize = 0;
    assert(cs@.skip(0) == cs@);
    while start <= cs.len() && cs.len() - start >= 7 && cs[start] == 'B' && cs[start + 1] == 'a'
        && cs[start + 2] == 'c' && cs[start + 3] == 'k' && cs[start + 4] == 'e' && cs[start + 5]
        == 'n' && cs[start + 6] == 'd'
        invariant
            start <= cs@.len(),
            trim_backend(cs@.skip(start as int)) == trim_backend(cs@),
        decreases cs@.len() - start,
    {
        let ghost rest = cs@.skip(start as int);
        assert(rest.take(7) =~= backend_prefix());
        assert(rest.skip(7) =~= cs@.skip(start + 7));
        start = start + 7;
    }
    let ghost rest = cs@.skip(start as int);
    assert(!(rest.len() >= 7 && rest.take(7) == backend_prefix())) by {
        if rest.len() >= 7 && rest.take(7) == backend_prefix() {
            assert(rest.take(7)[0] == 'B');
            assert(rest.take(7)[1] == 'a');
            assert(rest.take(7)[2] == 'c');
            assert(rest.take(7)[3] == 'k');
            assert(rest.take(7)[4] == 'e');
            assert(rest.take(7)[5] == 'n');
            assert(rest.take(7)[6] == 'd');
        }
    }
    string_from(&cs, start)
}


// ---------------------------------------------------------------------
// The table
// ---------------------------------------------------------------------

/// The frontend service is served by the web client itself and is not
/// dispatched through the backend.
pub open spec fn is_frontend_service(name: Seq<char>) -> bool {
    name == "BackendFrontendService"@
}

/// The routes one service contributes, in method order.
pub open spec fn service_routes(sv: ServiceSpec) -> Seq<RouteSpec> {
    sv.methods.map_values(
        |m: MethodSpec|
            RouteSpec {
                service_index: sv.index,
                method_index: m.index,
                service: trim_backend(sv.name),
                method: camel_case(m.name),
            },
    )
}

/// The routes of all services, in service order, the frontend service left
/// out.
pub open spec fn table_of(ss: Seq<ServiceSpec>) -> Seq<RouteSpec>
    decreases ss.len(),
{
    if ss.len() == 0 {
        Seq::<RouteSpec>::empty()
    } else if is_frontend_service(ss.last().name) {
        table_of(ss.drop_last())
    } else {
        table_of(ss.drop_last()) + service_routes(ss.last())
    }
}

pub open spec fn service_views(services: Seq<ServiceDesc>) -> Seq<ServiceSpec> {
    services.map_values(|s: ServiceDesc| s@)
}

pub open spec fn route_views(routes: Seq<Route>) -> Seq<RouteSpec> {
    routes.map_values(|r: Route| r@)
}

/// How many routes carry the method name `m`.
pub open spec fn method_count(rs: Seq<RouteSpec>, m: Seq<char>) -> nat
    decreases rs.len(),
{
    if rs.len() == 0 {
        0
    } else {
        method_count(rs.drop_last(), m) + (if rs.last().method == m {
            1nat
        } else {
            0nat
        })
    }
}

/// Position of the first route with method name `m`, or -1.
pub open spec fn first_with_method(rs: Seq<RouteSpec>, m: Seq<char>) -> int
    decreases rs.len(),
{
    if rs.len() == 0 {
        -1
    } else {
        let f = first_with_method(rs.drop_last(), m);
        if f >= 0 {
            f
        } else if rs.last().method == m {
            rs.len() - 1
        } else {
            -1
        }
    }
}

/// Position of the first route of service `s` with method name `m`, or -1.
pub open spec fn first_with_pair(rs: Seq<RouteSpec>, s: Seq<char>, m: Seq<char>) -> int
    decreases rs.len(),
{
    if rs.len() == 0 {
        -1
    } else {
        let f = first_with_pair(rs.drop_last(), s, m);
        if f >= 0 {
            f
        } else if rs.last().service == s && rs.last().method == m {
            rs.len() - 1
        } else {
            -1
        }
    }
}

/// An unqualified path resolves only when exactly one route carries the
/// name.
pub open spec fn resolve(rs: Seq<RouteSpec>, m: Seq<char>) -> Option<(u32, u32)> {
    if method_count(rs, m) == 1 {
        let i = first_with_method(rs, m);
        Some((rs[i].service_index, rs[i].method_index))
    } else {
        None
    }
}

/// A qualified path resolves to the first route with that service and
/// method name.
pub open spec fn resolve_qualified(rs: Seq<RouteSpec>, s: Seq<char>, m: Seq<char>) -> Option<
    (u32, u32),
> {
    let i = first_with_pair(rs, s, m);
    if i >= 0 {
        Some((rs[i].service_index, rs[i].method_index))
    } else {
        None
    }
}

/// Every routable backend method, in the order the descriptions list them.
pub struct RouteTable {
    routes: Vec<Route>,
}

impl View for RouteTable {
    type V = Seq<RouteSpec>;

    closed spec fn view(&self) -> Seq<RouteSpec> {
        route_views(self.routes@)
    }
}

impl RouteTable {
    /// Builds the table from the backend's service descriptions: every
    /// method of every service but the frontend one, named in camelCase,
    /// under the service's short name. Fails when that leaves no route.
    pub fn from_services(services: &[ServiceDesc]) -> (res: Result<RouteTable, RouteError>)
        ensures
            match res {
                Ok(t) => t@ == table_of(service_views(services@)) && t@.len() > 0,
                Err(e) => e == RouteError::NoBackendServices && table_of(
                    service_views(services@),
                ).len() == 0,
            },
    {
        let mut routes: Vec<Route> = Vec::new();
        let ghost ss = service_views(services@);
        let mut i: usize = 0;
        while i < services.len()
            invariant
                i <= services@.len(),
                ss == service_views(services@),
                route_views(routes@) == table_of(ss.take(i as int)),
            decreases services@.len() - i,
        {
            let service = &services[i];
            assert(ss.take(i + 1).drop_last() == ss.take(i as int));
            assert(ss.take(i + 1).last() == service@);
            if !str_eq(service.name.as_str(), "BackendFrontendService") {
                let short = short_service_name(service.name.as_str());
                let ghost before = route_views(routes@);
                let mut j: usize = 0;
                while j < service.methods.len()
                    invariant
                        j <= service.methods@.len(),
                        short@ == trim_backend(service@.name),
                        route_views(routes@) == before + service_routes(service@).take(j as int),
                    decreases service.methods@.len() - j,
                {
                    let m = &service.methods[j];
                    let route = Route {
                        service_index: service.index,
                        method_index: m.index,
                        service: short.clone(),
                        method: to_camel_case(m.name.as_str()),
                    };
                    let ghost old_routes = routes@;
                    routes.push(route);
                    assert(route_views(routes@) == route_views(old_routes).push(route@));
                    assert(service_routes(service@).take(j + 1) == service_routes(service@).take(
                        j as int,
                    ).push(route@));
                    j = j + 1;
                }
                assert(service_routes(service@).take(service.methods@.len() as int)
                    == service_routes(service@));
            }
            i = i + 1;
        }
        assert(ss.take(services@.len() as int) == ss);
        if routes.len() == 0 {
            Err(RouteError::NoBackendServices)
        } else {
            Ok(RouteTable { routes })
        }
    }

    /// Number of routes.
    pub fn len(&self) -> (n: usize)
        ensures
            n == self@.len(),
    {
        self.routes.len()
    }

    /// The routes, in table order.
    pub fn routes(&self) -> (r: &Vec<Route>)
        ensures
            route_views(r@) == self@,
    {
        &self.routes
    }

    /// Resolves an unqualified `/_anki/<method>` path: only a method name
    /// that no other service shares resolves.
    pub fn lookup(&self, method: &str) -> (res: Option<(u32, u32)>)
        ensures
            res == resolve(self@, method@),
    {
        let ghost rs = self@;
        let mut count: usize = 0;
        let mut found: Option<(u32, u32)> = None;
        let mut i: usize = 0;
        while i < self.routes.len()
            invariant
                rs == self@,
                rs == route_views(self.routes@),
                i <= rs.len(),
                count == method_count(rs.take(i as int), method@),
                count <= i,
                first_with_method(rs.take(i as int), method@) < 0 ==> found is None,
                first_with_method(rs.take(i as int), method@) >= 0 ==> found == Some(
                    (
                        rs[first_with_method(rs.take(i as int), method@)].service_index,
                        rs[first_with_method(rs.take(i as int), method@)].method_index,
                    ),
                ),
                -1 <= first_with_method(rs.take(i as int), method@) < i,
            decreases rs.len() - i,
        {
            let r = &self.routes[i];
            assert(rs.take(i + 1).drop_last() == rs.take(i as int));
            assert(rs.take(i + 1).last() == rs[i as int]);
            if str_eq(r.method.as_str(), method) {
                count = count + 1;
                if found.is_none() {
                    found = Some((r.service_index, r.method_index));
                }
            }
            i = i + 1;
        }
        assert(rs.take(rs.len() as int) == rs);
        proof {
            lemma_count_first(rs, method@);
        }
        if count == 1 {
            found
        } else {
            None
        }
    }

    /// Resolves a qualified `/_anki/<Service>/<method>` path.
    pub fn lookup_qualified(&self, service: &str, method: &str) -> (res: Option<(u32, u32)>)
        ensures
            res == resolve_qualified(self@, service@, method@),
    {
        let ghost rs = self@;
        let mut i: usize = 0;
        while i < self.routes.len()
            invariant
                rs == self@,
                rs == route_views(self.routes@),
                i <= rs.len(),
                first_with_pair(rs.take(i as int), service@, method@) == -1,
            decreases rs.len() - i,
        {
            let r = &self.routes[i];
            assert(rs.take(i + 1).drop_last() == rs.take(i as int));
            assert(rs.take(i + 1).last() == rs[i as int]);
            if str_eq(r.service.as_str(), service) && str_eq(r.method.as_str(), method) {
                assert(first_with_pair(rs.take(i + 1), service@, method@) == i);
                proof {
                    lemma_first_pair_extends(rs, service@, method@, i as int);
                }
                return Some((r.service_index, r.method_index));
            }
            i = i + 1;
        }
        assert(rs.take(rs.len() as int) == rs);
        None
    }
}

/// Some route carries the name exactly when a first one exists, and that
/// first one carries it.
pub proof fn lemma_count_first(rs: Seq<RouteSpec>, m: Seq<char>)
    ensures
        (method_count(rs, m) > 0) <==> (first_with_method(rs, m) >= 0),
        -1 <= first_with_method(rs, m) < rs.len(),
        first_with_method(rs, m) >= 0 ==> rs[first_with_method(rs, m)].method == m,
    decreases rs.len(),
{
    if rs.len() > 0 {
        lemma_count_first(rs.drop_last(), m);
    }
}

/// Once a prefix holds a match, longer prefixes report the same position.
proof fn lemma_first_pair_extends(rs: Seq<RouteSpec>, s: Seq<char>, m: Seq<char>, i: int)
    requires
        0 <= i < rs.len(),
        first_with_pair(rs.take(i + 1), s, m) == i,
    ensures
        first_with_pair(rs, s, m) == i,
    decreases rs.len() - i,
{
    if i + 1 == rs.len() {
        assert(rs.take(i + 1) == rs);
    } else {
        lemma_first_pair_stable(rs, s, m, i + 1, rs.len() as int);
        assert(rs.take(rs.len() as int) == rs);
    }
}

proof fn lemma_first_pair_stable(rs: Seq<RouteSpec>, s: Seq<char>, m: Seq<char>, a: int, b: int)
    requires
        0 <= a <= b <= rs.len(),
        first_with_pair(rs.take(a), s, m) >= 0,
    ensures
        first_with_pair(rs.take(b), s, m) == first_with_pair(rs.take(a), s, m),
    decreases b - a,
{
    if a < b {
        lemma_first_pair_stable(rs, s, m, a, b - 1);
        assert(rs.take(b).drop_last() == rs.take(b - 1));
    }
}


// ---------------------------------------------------------------------
// Laws
// ---------------------------------------------------------------------

proof fn lemma_first_pair_props(rs: Seq<RouteSpec>, s: Seq<char>, m: Seq<char>)
    ensures
        -1 <= first_with_pair(rs, s, m) < rs.len(),
        first_with_pair(rs, s, m) >= 0 ==> rs[first_with_pair(rs, s, m)].service == s && rs[first_with_pair(rs, s, m)].method == m,
        forall|k: int|
            0 <= k < rs.len() && #[trigger] rs[k].service == s && rs[k].method == m ==> 0
                <= first_with_pair(rs, s, m) <= k,
    decreases rs.len(),
{
    if rs.len() > 0 {
        let rest = rs.drop_last();
        lemma_first_pair_props(rest, s, m);
        assert forall|k: int|
            0 <= k < rs.len() && #[trigger] rs[k].service == s && rs[k].method == m implies 0
                <= first_with_pair(rs, s, m) <= k by {
            if k < rest.len() {
                assert(rest[k] == rs[k]);
            }
        }
    }
}

proof fn lemma_method_count_two(rs: Seq<RouteSpec>, m: Seq<char>, j: int)
    requires
        0 <= j < rs.len(),
        rs[j].method == m,
        j != first_with_method(rs, m),
    ensures
        method_count(rs, m) >= 2,
    decreases rs.len(),
{
    lemma_count_first(rs, m);
    let rest = rs.drop_last();
    lemma_count_first(rest, m);
    if j < rs.len() - 1 {
        assert(rest[j] == rs[j]);
        if j != first_with_method(rest, m) {
            lemma_method_count_two(rest, m, j);
        } else {
            // j is the first in the prefix, so it is the first overall
            assert(first_with_method(rs, m) == j);
        }
    } else {
        // j is the last route; an earlier one carries the name too
        assert(first_with_method(rest, m) >= 0);
    }
}

/// Every route in the table is reachable by its qualified path, which
/// resolves to the first route with that service and method name.
pub proof fn lemma_every_route_is_qualified_routable(rs: Seq<RouteSpec>, k: int)
    requires
        0 <= k < rs.len(),
    ensures
        resolve_qualified(rs, rs[k].service, rs[k].method) is Some,
        ({
            let j = first_with_pair(rs, rs[k].service, rs[k].method);
            &&& 0 <= j <= k
            &&& rs[j].service == rs[k].service
            &&& rs[j].method == rs[k].method
            &&& resolve_qualified(rs, rs[k].service, rs[k].method) == Some(
                (rs[j].service_index, rs[j].method_index),
            )
        }),
{
    lemma_first_pair_props(rs, rs[k].service, rs[k].method);
}

/// An unqualified path resolves exactly when one route carries the name,
/// and then to that route, which its qualified path reaches as well.
pub proof fn lemma_unqualified_agrees_with_qualified(rs: Seq<RouteSpec>, m: Seq<char>)
    ensures
        resolve(rs, m) is Some <==> method_count(rs, m) == 1,
        resolve(rs, m) is Some ==> ({
            let k = first_with_method(rs, m);
            &&& 0 <= k < rs.len()
            &&& rs[k].method == m
            &&& forall|j: int| 0 <= j < rs.len() && #[trigger] rs[j].method == m ==> j == k
            &&& resolve(rs, m) == Some((rs[k].service_index, rs[k].method_index))
            &&& resolve_qualified(rs, rs[k].service, m) == resolve(rs, m)
        }),
{
    lemma_count_first(rs, m);
    if resolve(rs, m) is Some {
        let k = first_with_method(rs, m);
        assert forall|j: int| 0 <= j < rs.len() && #[trigger] rs[j].method == m implies j == k by {
            if j != k {
                lemma_method_count_two(rs, m, j);
            }
        }
        lemma_first_pair_props(rs, rs[k].service, m);
        let q = first_with_pair(rs, rs[k].service, m);
        assert(rs[q].method == m);
    }
}

proof fn lemma_camel_run_plain(s: Seq<char>)
    requires
        !s.contains('_'),
    ensures
        camel_run(s) == (s, false),
    decreases s.len(),
{
    if s.len() > 0 {
        assert(!s.drop_last().contains('_')) by {
            if s.drop_last().contains('_') {
                let j = choose|j: int| 0 <= j < s.drop_last().len() && s.drop_last()[j] == '_';
                assert(s[j] == '_');
            }
        }
        lemma_camel_run_plain(s.drop_last());
        assert(s.last() != '_') by {
            assert(s[s.len() - 1] == s.last());
        }
        assert(s.drop_last().push(s.last()) =~= s);
    }
}

/// A name without underscores is already in camelCase.
pub proof fn lemma_camel_case_plain(s: Seq<char>)
    requires
        !s.contains('_'),
    ensures
        camel_case(s) == s,
{
    lemma_camel_run_plain(s);
}

/// The frontend service adds no route, wherever it stands in the list.
pub proof fn lemma_frontend_adds_nothing(ss: Seq<ServiceSpec>, f: ServiceSpec)
    requires
        is_frontend_service(f.name),
    ensures
        table_of(ss.push(f)) == table_of(ss),
{
    assert(ss.push(f).drop_last() == ss);
}


proof fn lemma_count_none(rs: Seq<RouteSpec>, m: Seq<char>)
    requires
        forall|j: int| 0 <= j < rs.len() ==> #[trigger] rs[j].method != m,
    ensures
        method_count(rs, m) == 0,
        first_with_method(rs, m) == -1,
    decreases rs.len(),
{
    if rs.len() > 0 {
        let rest = rs.drop_last();
        assert forall|j: int| 0 <= j < rest.len() implies #[trigger] rest[j].method != m by {
            assert(rest[j] == rs[j]);
        }
        lemma_count_none(rest, m);
        assert(rs.last() == rs[rs.len() - 1]);
    }
}

proof fn lemma_count_unique(rs: Seq<RouteSpec>, m: Seq<char>, k: int)
    requires
        0 <= k < rs.len(),
        rs[k].method == m,
        forall|j: int| 0 <= j < rs.len() && #[trigger] rs[j].method == m ==> j == k,
    ensures
        method_count(rs, m) == 1,
        first_with_method(rs, m) == k,
    decreases rs.len(),
{
    let rest = rs.drop_last();
    if k == rs.len() - 1 {
        assert forall|j: int| 0 <= j < rest.len() implies #[trigger] rest[j].method != m by {
            assert(rest[j] == rs[j]);
        }
        lemma_count_none(rest, m);
    } else {
        assert forall|j: int| 0 <= j < rest.len() && #[trigger] rest[j].method == m implies j
            == k by {
            assert(rest[j] == rs[j]);
        }
        assert(rest[k] == rs[k]);
        lemma_count_unique(rest, m, k);
        assert(rs.last() == rs[rs.len() - 1]);
    }
}

/// A method name that exactly one route carries resolves, by itself, to
/// that route's indices, wherever the route stands in the table.
pub proof fn lemma_unique_name_resolves(rs: Seq<RouteSpec>, m: Seq<char>, k: int)
    requires
        0 <= k < rs.len(),
        rs[k].method == m,
        forall|j: int| 0 <= j < rs.len() && #[trigger] rs[j].method == m ==> j == k,
    ensures
        resolve(rs, m) == Some((rs[k].service_index, rs[k].method_index)),
{
    lemma_count_unique(rs, m, k);
}

/// A name no route carries does not resolve, and neither does a name two
/// routes share.
pub proof fn lemma_absent_or_shared_name_does_not_resolve(rs: Seq<RouteSpec>, m: Seq<char>)
    ensures
        (forall|j: int| 0 <= j < rs.len() ==> #[trigger] rs[j].method != m) ==> resolve(rs, m)
            is None,
        forall|a: int, b: int|
            0 <= a < rs.len() && 0 <= b < rs.len() && a != b && #[trigger] rs[a].method == m
                && #[trigger] rs[b].method == m ==> resolve(rs, m) is None,
{
    if forall|j: int| 0 <= j < rs.len() ==> #[trigger] rs[j].method != m {
        lemma_count_none(rs, m);
    }
    assert forall|a: int, b: int|
        0 <= a < rs.len() && 0 <= b < rs.len() && a != b && #[trigger] rs[a].method == m
            && #[trigger] rs[b].method == m implies resolve(rs, m) is None by {
        if a != first_with_method(rs, m) {
            lemma_method_count_two(rs, m, a);
        } else {
            lemma_method_count_two(rs, m, b);
        }
    }
}

/// A qualified path resolves to the first route with that service and
/// method name, and does not resolve when no route has both.
pub proof fn lemma_qualified_resolves_first_match(rs: Seq<RouteSpec>, s: Seq<char>, m: Seq<char>)
    ensures
        (forall|j: int| 0 <= j < rs.len() ==> !(#[trigger] rs[j].service == s && rs[j].method == m))
            ==> resolve_qualified(rs, s, m) is None,
        forall|k: int|
            0 <= k < rs.len() && #[trigger] rs[k].service == s && rs[k].method == m && (forall|j: int|
                0 <= j < k ==> !(rs[j].service == s && rs[j].method == m)) ==> resolve_qualified(
                rs,
                s,
                m,
            ) == Some((rs[k].service_index, rs[k].method_index)),
{
    lemma_first_pair_props(rs, s, m);
    let f = first_with_pair(rs, s, m);
    if f >= 0 {
        assert(rs[f].service == s && rs[f].method == m);
    }
}


proof fn lemma_camel_run_append_word(base: Seq<char>, w: Seq<char>)
    requires
        w.len() > 0,
        !w.contains('_'),
    ensures
        camel_run(base + w) == ((if camel_run(base).1 {
            camel_run(base).0 + uppercase_of(w[0])
        } else {
            camel_run(base).0.push(w[0])
        }) + w.skip(1), false),
    decreases w.len(),
{
    let st = camel_run(base);
    let head = if st.1 {
        st.0 + uppercase_of(w[0])
    } else {
        st.0.push(w[0])
    };
    assert(w[0] != '_') by {
        assert(w.contains(w[0]) ==> w[0] != '_');
    }
    if w.len() == 1 {
        assert((base + w).drop_last() =~= base);
        assert((base + w).last() == w[0]);
        assert(w.skip(1) =~= Seq::<char>::empty());
        assert(head + w.skip(1) =~= head);
    } else {
        let w1 = w.drop_last();
        assert(!w1.contains('_')) by {
            if w1.contains('_') {
                let j = choose|j: int| 0 <= j < w1.len() && w1[j] == '_';
                assert(w[j] == '_');
            }
        }
        lemma_camel_run_append_word(base, w1);
        assert((base + w).drop_last() =~= base + w1);
        assert((base + w).last() == w.last());
        assert(w.last() != '_') by {
            assert(w[w.len() - 1] == w.last());
        }
        assert(w1[0] == w[0]);
        assert((head + w1.skip(1)).push(w.last()) =~= head + w.skip(1));
    }
}

/// camelCase goes word by word, wherever the word stands: after an
/// underscore, a word's first character is upper-cased and the rest of it
/// kept as it is.
pub proof fn lemma_camel_case_word(p: Seq<char>, w: Seq<char>)
    requires
        w.len() > 0,
        !w.contains('_'),
    ensures
        camel_case(p + seq!['_'] + w) == camel_case(p) + uppercase_of(w[0]) + w.skip(1),
{
    let base = p + seq!['_'];
    assert(base.drop_last() =~= p);
    assert(base.last() == '_');
    assert(camel_run(base) == (camel_run(p).0, true));
    lemma_camel_run_append_word(base, w);
}

/// A service's routes follow those of the services before it, one per
/// method and in method order, each with the service's index and short
/// name and the method's index and camelCase name.
pub proof fn lemma_service_adds_its_methods(ss: Seq<ServiceSpec>, sv: ServiceSpec)
    requires
        !is_frontend_service(sv.name),
    ensures
        table_of(ss.push(sv)).len() == table_of(ss).len() + sv.methods.len(),
        forall|i: int| 0 <= i < table_of(ss).len() ==> #[trigger] table_of(ss.push(sv))[i] == table_of(ss)[i],
        forall|j: int|
            0 <= j < sv.methods.len() ==> #[trigger] table_of(ss.push(sv))[table_of(ss).len() + j]
                == (RouteSpec {
                service_index: sv.index,
                method_index: sv.methods[j].index,
                service: trim_backend(sv.name),
                method: camel_case(sv.methods[j].name),
            }),
{
    assert(ss.push(sv).drop_last() == ss);
    assert(ss.push(sv).last() == sv);
}


/// The short name drops every leading `Backend` and nothing else: one
/// `Backend` in front changes nothing, and a name that does not start
/// with it is kept whole.
pub proof fn lemma_short_name_drops_backend(s: Seq<char>)
    ensures
        trim_backend(backend_prefix() + s) == trim_backend(s),
        !(s.len() >= 7 && s.take(7) == backend_prefix()) ==> trim_backend(s) == s,
{
    let t = backend_prefix() + s;
    assert(t.take(7) =~= backend_prefix());
    assert(t.skip(7) =~= s);
}

} // verus!
