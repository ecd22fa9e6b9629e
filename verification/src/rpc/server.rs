//! Routing of requests to the handlers of their endpoints.
use std::sync::Arc;
use vstd::prelude::*;

use crate::status;
use crate::text;

verus! {

/// One endpoint together with what handles requests to it.
pub struct DynRoute<F> {
    /// Route endpoint
    pub endpoint: &'static str,
    /// Handler for this endpoint
    pub func: F,
}

/// Endpoints occur in ascending order, and no endpoint occurs twice.
pub open spec fn sorted<F>(routes: Seq<DynRoute<F>>) -> bool {
    forall|i: int, j: int|
        0 <= i < j < routes.len() ==> text::str_less(
            (#[trigger] routes[i]).endpoint@,
            (#[trigger] routes[j]).endpoint@,
        )
}

/// Whether the route at `i` is the one for `endpoint`.
pub open spec fn is_at<F>(routes: Seq<DynRoute<F>>, endpoint: Seq<char>, i: int) -> bool {
    0 <= i < routes.len() && routes[i].endpoint@ == endpoint
}

/// Which handler each endpoint has.
pub open spec fn route_map<F>(routes: Seq<DynRoute<F>>) -> Map<Seq<char>, F> {
    Map::new(
        |endpoint: Seq<char>| exists|i: int| is_at(routes, endpoint, i),
        |endpoint: Seq<char>| routes[choose|i: int| is_at(routes, endpoint, i)].func,
    )
}

proof fn lemma_route_at<F>(routes: Seq<DynRoute<F>>, i: int)
    requires
        sorted(routes),
        0 <= i < routes.len(),
    ensures
        route_map(routes).contains_key(routes[i].endpoint@),
        route_map(routes)[routes[i].endpoint@] == routes[i].func,
{
    let endpoint = routes[i].endpoint@;
    assert(is_at(routes, endpoint, i));
    let k = choose|k: int| is_at(routes, endpoint, k);
    text::lemma_lex_less_irreflexive(vstd::utf8::encode_utf8(endpoint));
    assert(k == i);
}

/// Looks up the route for `endpoint`. If there is none, says where it belongs.
fn search<F>(routes: &Vec<DynRoute<F>>, endpoint: &str) -> (found: Result<usize, usize>)
    requires
        sorted(routes@),
    ensures
        match found {
            Ok(i) => i < routes.len() && routes@[i as int].endpoint@ == endpoint@,
            Err(i) => {
                &&& i <= routes.len()
                &&& forall|k: int|
                    0 <= k < i ==> text::str_less((#[trigger] routes@[k]).endpoint@, endpoint@)
                &&& forall|k: int|
                    i <= k < routes.len() ==> text::str_less(
                        endpoint@,
                        (#[trigger] routes@[k]).endpoint@,
                    )
            },
        },
{
    let mut low: usize = 0;
    let mut high: usize = routes.len();
    while low < high
        invariant
            sorted(routes@),
            low <= high <= routes.len(),
            forall|k: int|
                0 <= k < low ==> text::str_less((#[trigger] routes@[k]).endpoint@, endpoint@),
            forall|k: int|
                high <= k < routes.len() ==> text::str_less(
                    endpoint@,
                    (#[trigger] routes@[k]).endpoint@,
                ),
        decreases high - low,
    {
        let middle: usize = low + (high - low) / 2;
        match text::order(routes[middle].endpoint, endpoint) {
            text::Order::Equal => {
                return Ok(middle);
            },
            text::Order::Less => {
                assert forall|k: int| 0 <= k < middle + 1 implies text::str_less(
                    (#[trigger] routes@[k]).endpoint@,
                    endpoint@,
                ) by {
                    if k < middle {
                        lemma_str_less_transitive(
                            routes@[k].endpoint@,
                            routes@[middle as int].endpoint@,
                            endpoint@,
                        );
                    }
                }
                low = middle + 1;
            },
            text::Order::Greater => {
                assert forall|k: int| middle <= k < routes.len() implies text::str_less(
                    endpoint@,
                    (#[trigger] routes@[k]).endpoint@,
                ) by {
                    if middle < k {
                        lemma_str_less_transitive(
                            endpoint@,
                            routes@[middle as int].endpoint@,
                            routes@[k].endpoint@,
                        );
                    }
                }
                high = middle;
            },
        }
    }
    Err(low)
}

proof fn lemma_str_less_transitive(a: Seq<char>, b: Seq<char>, c: Seq<char>)
    requires
        text::str_less(a, b),
        text::str_less(b, c),
    ensures
        text::str_less(a, c),
{
    text::lemma_lex_less_transitive(
        vstd::utf8::encode_utf8(a),
        vstd::utf8::encode_utf8(b),
        vstd::utf8::encode_utf8(c),
    );
}

proof fn lemma_no_route<F>(routes: Seq<DynRoute<F>>, endpoint: Seq<char>, pos: int)
    requires
        forall|k: int|
            0 <= k < pos ==> text::str_less((#[trigger] routes[k]).endpoint@, endpoint),
        forall|k: int|
            pos <= k < routes.len() ==> text::str_less(endpoint, (#[trigger] routes[k]).endpoint@),
    ensures
        !route_map(routes).contains_key(endpoint),
{
    text::lemma_lex_less_irreflexive(vstd::utf8::encode_utf8(endpoint));
}

proof fn lemma_route_inserted<F>(routes: Seq<DynRoute<F>>, pos: int, route: DynRoute<F>)
    requires
        sorted(routes),
        0 <= pos <= routes.len(),
        forall|k: int|
            0 <= k < pos ==> text::str_less((#[trigger] routes[k]).endpoint@, route.endpoint@),
        forall|k: int|
            pos <= k < routes.len() ==> text::str_less(
                route.endpoint@,
                (#[trigger] routes[k]).endpoint@,
            ),
    ensures
        sorted(routes.insert(pos, route)),
        route_map(routes.insert(pos, route)) == route_map(routes).insert(
            route.endpoint@,
            route.func,
        ),
{
    let after = routes.insert(pos, route);
    assert forall|i: int, j: int| 0 <= i < j < after.len() implies text::str_less(
        (#[trigger] after[i]).endpoint@,
        (#[trigger] after[j]).endpoint@,
    ) by {
        if i < pos && pos < j {
            lemma_str_less_transitive(
                routes[i].endpoint@,
                route.endpoint@,
                routes[j - 1].endpoint@,
            );
        }
        assert(i < pos ==> after[i] == routes[i]);
        assert(i > pos ==> after[i] == routes[i - 1]);
        assert(j < pos ==> after[j] == routes[j]);
        assert(j > pos ==> after[j] == routes[j - 1]);
    }
    let map = route_map(routes).insert(route.endpoint@, route.func);
    assert forall|endpoint: Seq<char>|
        route_map(after).contains_key(endpoint) <==> map.contains_key(endpoint) by {
        if route_map(after).contains_key(endpoint) {
            let i = choose|i: int| is_at(after, endpoint, i);
            if i < pos {
                assert(is_at(routes, endpoint, i));
            } else if i > pos {
                assert(is_at(routes, endpoint, i - 1));
            }
        }
        if map.contains_key(endpoint) {
            if endpoint == route.endpoint@ {
                assert(is_at(after, endpoint, pos));
            } else {
                let i = choose|i: int| is_at(routes, endpoint, i);
                if i < pos {
                    assert(is_at(after, endpoint, i));
                } else {
                    assert(is_at(after, endpoint, i + 1));
                }
            }
        }
    }
    assert forall|endpoint: Seq<char>| #[trigger]
        route_map(after).contains_key(endpoint) implies route_map(after)[endpoint]
        == map[endpoint] by {
        let i = choose|i: int| is_at(after, endpoint, i);
        lemma_route_at(after, i);
        text::lemma_lex_less_irreflexive(vstd::utf8::encode_utf8(endpoint));
        if i < pos {
            lemma_route_at(routes, i);
        } else if i > pos {
            lemma_route_at(routes, i - 1);
        }
    }
    assert(route_map(after) =~= map);
}

/// Builder for Router.
pub struct RouterBuilder<F> {
    /// Contains DynRoutes, sorted by endpoint.
    /// Why do we sort? Because we want efficiently find handlers later,
    /// and we use binary search for it. We could use stuff like HashMap,
    /// but it performs badly on small route count.
    routes: Vec<DynRoute<F>>,
}

impl<F> View for RouterBuilder<F> {
    type V = Map<Seq<char>, F>;

    /// The handlers added so far, by endpoint.
    closed spec fn view(&self) -> Map<Seq<char>, F> {
        route_map(self.routes@)
    }
}

impl<F> RouterBuilder<F> {
    /// The routes are in order.
    pub closed spec fn wf(self) -> bool {
        sorted(self.routes@)
    }

    /// Creates new builder with empty set of routes.
    pub fn new() -> (builder: RouterBuilder<F>)
        ensures
            builder.wf(),
            builder@ == Map::<Seq<char>, F>::empty(),
    {
        let builder = RouterBuilder { routes: Vec::new() };
        assert(builder@ =~= Map::<Seq<char>, F>::empty());
        builder
    }

    /// Whether a route with the given endpoint was added.
    pub fn has_route(&self, endpoint: &str) -> (has: bool)
        requires
            self.wf(),
        ensures
            has == self@.contains_key(endpoint@),
    {
        match search(&self.routes, endpoint) {
            Ok(pos) => {
                proof {
                    lemma_route_at(self.routes@, pos as int);
                }
                true
            },
            Err(pos) => {
                proof {
                    lemma_no_route(self.routes@, endpoint@, pos as int);
                }
                false
            },
        }
    }

    /// Adds a route to the router. Takes route handler - what will
    /// handle requests to this route.
    ///
    /// No other route with the same endpoint may have been added earlier.
    pub fn add_route(&mut self, endpoint: &'static str, handler: F)
        requires
            old(self).wf(),
            !old(self)@.contains_key(endpoint@),
        ensures
            final(self).wf(),
            final(self)@ == old(self)@.insert(endpoint@, handler),
    {
        match search(&self.routes, endpoint) {
            Ok(pos) => {
                proof {
                    lemma_route_at(self.routes@, pos as int);
                }
            },
            Err(pos) => {
                let item = DynRoute { endpoint, func: handler };
                proof {
                    lemma_route_inserted(self.routes@, pos as int, item);
                }
                self.routes.insert(pos, item);
            },
        }
    }

    /// Converts this builder into a router.
    pub fn build(self) -> (router: Router<F>)
        requires
            self.wf(),
        ensures
            router.wf(),
            router@ == self@,
    {
        Router { routes: Arc::new(self.routes) }
    }
}

impl<F> Default for RouterBuilder<F> {
    fn default() -> (builder: Self)
        ensures
            builder.wf(),
            builder@ == Map::<Seq<char>, F>::empty(),
    {
        RouterBuilder::new()
    }
}

/// Service which can be used to serve requests.
pub struct Router<F> {
    routes: Arc<Vec<DynRoute<F>>>,
}

impl<F> View for Router<F> {
    type V = Map<Seq<char>, F>;

    /// The handlers, by endpoint.
    closed spec fn view(&self) -> Map<Seq<char>, F> {
        route_map(self.routes@)
    }
}

/// Wrapper around Router, which makes one router per connection.
pub struct MakeRouter<F>(pub Router<F>);

/// What becomes of a request.
pub enum Routed<'a, F> {
    /// The request is answered with this status and this text.
    Refused { status: u16, body: &'static str },
    /// The request is passed to this handler, which makes the response body.
    Accepted(&'a F),
}

/// What becomes of a request with the given method and path.
pub open spec fn routed<'a, F>(
    handlers: Map<Seq<char>, F>,
    method: Seq<char>,
    path: Seq<char>,
) -> Routed<'a, F> {
    if method != "POST"@ {
        Routed::Refused { status: 405, body: "only POST is allowed" }
    } else if !handlers.contains_key(path) {
        Routed::Refused { status: 404, body: "Unknown endpoint" }
    } else {
        Routed::Accepted(&handlers[path])
    }
}

impl<F> Router<F> {
    /// The routes are in order.
    pub closed spec fn wf(self) -> bool {
        sorted(self.routes@)
    }

    /// The route for the requested endpoint.
    fn find_route(&self, requested_endpoint: &str) -> (found: Option<&DynRoute<F>>)
        requires
            self.wf(),
        ensures
            match found {
                Some(route) => self@.contains_key(requested_endpoint@) && route.func
                    == self@[requested_endpoint@],
                None => !self@.contains_key(requested_endpoint@),
            },
    {
        match search(&self.routes, requested_endpoint) {
            Ok(pos) => {
                proof {
                    lemma_route_at(self.routes@, pos as int);
                }
                Some(&self.routes[pos])
            },
            Err(pos) => {
                proof {
                    lemma_no_route(self.routes@, requested_endpoint@, pos as int);
                }
                None
            },
        }
    }

    /// Wraps a copy of this router.
    pub fn as_make_service(&self) -> (make: MakeRouter<F>)
        requires
            self.wf(),
        ensures
            make.0.wf(),
            make.0@ == self@,
    {
        MakeRouter(self.clone())
    }

    /// Decides what becomes of a request, given its method and the path it asks for.
    pub fn call_inner(&self, method: &str, path: &str) -> (decision: Routed<'_, F>)
        requires
            self.wf(),
        ensures
            decision == routed(self@, method@, path@),
    {
        if !text::same(method, "POST") {
            return Routed::Refused {
                status: status::method_not_allowed(),
                body: "only POST is allowed",
            };
        }
        match self.find_route(path) {
            Some(route) => Routed::Accepted(&route.func),
            None => Routed::Refused { status: status::not_found(), body: "Unknown endpoint" },
        }
    }
}

impl<F> Clone for Router<F> {
    fn clone(&self) -> (router: Self)
        ensures
            router == *self,
    {
        Router { routes: self.routes.clone() }
    }
}

impl<F> MakeRouter<F> {
    /// The router for one more connection.
    pub fn call(&self) -> (router: Router<F>)
        ensures
            router == self.0,
    {
        self.0.clone()
    }
}

/// It does not matter in which order routes are added.
pub proof fn law_order_of_routes_is_irrelevant<F>(
    handlers: Map<Seq<char>, F>,
    first: Seq<char>,
    first_handler: F,
    second: Seq<char>,
    second_handler: F,
)
    requires
        first != second,
    ensures
        handlers.insert(first, first_handler).insert(second, second_handler) == handlers.insert(
            second,
            second_handler,
        ).insert(first, first_handler),
{
    assert(handlers.insert(first, first_handler).insert(second, second_handler)
        =~= handlers.insert(second, second_handler).insert(first, first_handler));
}

/// A route that was added gets the POST requests to exactly its endpoint, and
/// what becomes of all other requests stays as it was.
pub proof fn law_added_route_is_found<F>(
    handlers: Map<Seq<char>, F>,
    endpoint: Seq<char>,
    handler: F,
    method: Seq<char>,
    path: Seq<char>,
)
    ensures
        routed(handlers.insert(endpoint, handler), "POST"@, endpoint) == Routed::Accepted(&handler),
        path != endpoint || method != "POST"@ ==> routed(
            handlers.insert(endpoint, handler),
            method,
            path,
        ) == routed(handlers, method, path),
{
}

/// Which requests are refused, and how: those that are no POST requests, wherever
/// they go, and those that go to no endpoint that was added.
pub proof fn law_refusals<F>(handlers: Map<Seq<char>, F>, method: Seq<char>, path: Seq<char>)
    ensures
        method != "POST"@ ==> (routed(handlers, method, path) matches Routed::Refused {
            status,
            body,
        } && status == 405 && body@ == "only POST is allowed"@),
        method == "POST"@ && !handlers.contains_key(path) ==> (routed(
            handlers,
            method,
            path,
        ) matches Routed::Refused { status, body } && status == 404 && body@
            == "Unknown endpoint"@),
        method == "POST"@ && handlers.contains_key(path) ==> routed(handlers, method, path)
            == Routed::Accepted(&handlers[path]),
{
}

/// Every route of a router gets its requests, wherever in the list it is, and no
/// endpoint has a handler that no route has.
pub proof fn law_routes_are_all_found<F>(routes: Seq<DynRoute<F>>, i: int, endpoint: Seq<char>)
    requires
        sorted(routes),
    ensures
        0 <= i < routes.len() ==> route_map(routes).contains_key(routes[i].endpoint@)
            && route_map(routes)[routes[i].endpoint@] == routes[i].func,
        (forall|j: int| 0 <= j < routes.len() ==> (#[trigger] routes[j]).endpoint@ != endpoint)
            ==> !route_map(routes).contains_key(endpoint),
{
    if 0 <= i < routes.len() {
        lemma_route_at(routes, i);
    }
}

} // verus!
