//! A prefixed route collection and groups of routes that share a
//! prefix.
use vstd::prelude::*;
use crate::common::{HttpMethod, join_path, spec_join_path};
use crate::routing::{
    Route, RouteError, RouteResolver, HTTPHandler, register_in, registered, mounted, route_views,
    spec_mount_v, lemma_register_views,
};

verus! {

/// An ordered route table under a fixed path prefix.
pub struct Router<H> {
    pub prefix: String,
    pub routes: Vec<Route<H>>,
}

/// Routes collected under a shared prefix, to be mounted into a table.
pub struct RouteGroup<H> {
    pub prefix: String,
    pub routes: Vec<Route<H>>,
}

impl<H> Router<H> {
    /// An empty table under `prefix`.
    pub fn new(prefix: &str) -> (r: Router<H>)
        ensures
            r.prefix@ == prefix@,
            r.routes@.len() == 0,
    {
        Router { prefix: String::from_str(prefix), routes: Vec::new() }
    }

    /// A group whose prefix extends this router's prefix.
    pub fn group(&self, prefix: &str) -> (g: RouteGroup<H>)
        ensures
            g.prefix@ == spec_join_path(self.prefix@, prefix@),
            g.routes@.len() == 0,
    {
        RouteGroup { prefix: join_path(self.prefix.as_str(), prefix), routes: Vec::new() }
    }

    /// Registers every route of the group, in order, each under its
    /// own handler, with the usual replace-or-append rule.
    pub fn mount(&mut self, group: RouteGroup<H>)
        ensures
            mounted(old(self).routes@, final(self).routes@, group.routes@),
            route_views(final(self).routes@) == spec_mount_v(
                route_views(old(self).routes@),
                route_views(group.routes@),
            ),
            final(self).prefix == old(self).prefix,
    {
        mount_routes(&mut self.routes, group.routes);
    }
}

/// Registers each of `gs`, in order, into `routes`.
pub fn mount_routes<H>(routes: &mut Vec<Route<H>>, gs: Vec<Route<H>>)
    ensures
        mounted(old(routes)@, final(routes)@, gs@),
        route_views(final(routes)@) == spec_mount_v(
            route_views(old(routes)@),
            route_views(gs@),
        ),
{
    let ghost gvr = gs@;
    let ghost gv = route_views(gs@);
    let mut rest = gs;
    let ghost mut k: int = 0;
    let ghost mut steps: Seq<Seq<Route<H>>> = seq![routes@];
    proof {
        assert(rest@ =~= gvr.skip(0));
    }
    while rest.len() > 0
        invariant
            0 <= k <= gvr.len(),
            rest@ == gvr.skip(k),
            steps.len() == k + 1,
            steps[0] == old(routes)@,
            steps[k] == routes@,
            forall|i: int|
                0 <= i < k ==> #[trigger] registered(
                    steps[i],
                    steps[i + 1],
                    gvr[i].path@,
                    gvr[i].method,
                    gvr[i].handler,
                ),
            spec_mount_v(route_views(old(routes)@), gv) == spec_mount_v(
                route_views(routes@),
                route_views(rest@),
            ),
        decreases rest@.len(),
    {
        let ghost rs_before = routes@;
        let ghost rest_before = rest@;
        let r = rest.remove(0);
        let ghost r0 = r;
        proof {
            assert(rest@ =~= rest_before.skip(1));
            assert(rest@ =~= gvr.skip(k + 1));
            assert(route_views(rest@) =~= route_views(rest_before).skip(1));
            assert(route_views(rest_before)[0] == (r.method, r.path@));
            assert(gvr[k] == r0);
        }
        let ghost p = r.path@;
        let ghost m = r.method;
        register_in(routes, r.path, r.method, r.handler);
        proof {
            lemma_register_views(rs_before, routes@, p, m, r0.handler);
            assert(spec_mount_v(route_views(rs_before), route_views(rest_before))
                == spec_mount_v(route_views(routes@), route_views(rest@)));
            assert(registered(rs_before, routes@, r0.path@, r0.method, r0.handler));
            let ghost steps0 = steps;
            steps = steps.push(routes@);
            k = k + 1;
            assert(steps[k] == routes@);
            assert(steps[0] == old(routes)@);
            assert forall|i: int|
                0 <= i < k implies #[trigger] registered(
                steps[i],
                steps[i + 1],
                gvr[i].path@,
                gvr[i].method,
                gvr[i].handler,
            ) by {
                if i < k - 1 {
                    assert(steps[i] == steps0[i]);
                    assert(steps[i + 1] == steps0[i + 1]);
                    assert(registered(
                        steps0[i],
                        steps0[i + 1],
                        gvr[i].path@,
                        gvr[i].method,
                        gvr[i].handler,
                    ));
                } else {
                    assert(steps[i] == rs_before);
                    assert(steps[i + 1] == routes@);
                }
            }
        }
    }
    proof {
        assert(route_views(rest@).len() == 0);
        assert(k == gvr.len());
        assert(mounted(old(routes)@, routes@, gvr));
    }
}

impl<H> RouteResolver for Router<H> {

}

impl<H> HTTPHandler<H> for Router<H> {
    type Error = RouteError;

    open spec fn entries(&self) -> Seq<Route<H>> {
        self.routes@
    }

    open spec fn reg_path(&self, path: Seq<char>) -> Seq<char> {
        spec_join_path(self.prefix@, path)
    }

    fn register_route(&mut self, path: &str, method: HttpMethod, handler: H) {
        let p = join_path(self.prefix.as_str(), path);
        register_in(&mut self.routes, p, method, handler);
    }
}

impl<H> HTTPHandler<H> for RouteGroup<H> {
    type Error = RouteError;

    open spec fn entries(&self) -> Seq<Route<H>> {
        self.routes@
    }

    open spec fn reg_path(&self, path: Seq<char>) -> Seq<char> {
        spec_join_path(self.prefix@, path)
    }

    fn register_route(&mut self, path: &str, method: HttpMethod, handler: H) {
        let p = join_path(self.prefix.as_str(), path);
        register_in(&mut self.routes, p, method, handler);
    }
}

} // verus!
