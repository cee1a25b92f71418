use vstd::prelude::*;

verus! {

/// One recognized route declaration.
#[derive(Debug)]
pub struct RouteInfo {
    /// The literal route segment, if declared as a string literal.
    pub path: Option<String>,
    /// Source text of the lazy-load arrow function's body, if any.
    pub load_children: Option<String>,
    /// Absolute path of the file that declares this route.
    pub source_file: String,
    /// Literal children first, then any lazily loaded routes.
    pub children: Vec<RouteInfo>,
}

/// The mathematical value of a route tree.
pub struct RouteSpec {
    pub path: Option<Seq<char>>,
    pub load_children: Option<Seq<char>>,
    pub source_file: Seq<char>,
    pub children: Seq<RouteSpec>,
}

pub open spec fn opt_view(o: Option<String>) -> Option<Seq<char>> {
    match o {
        Some(s) => Some(s@),
        None => None,
    }
}

/// The value of one route tree.
pub open spec fn route_view(r: RouteInfo) -> RouteSpec
    decreases r,
{
    RouteSpec {
        path: opt_view(r.path),
        load_children: opt_view(r.load_children),
        source_file: r.source_file@,
        children: routes_view(r.children@),
    }
}

/// The values of a sequence of route trees, in order.
pub open spec fn routes_view(rs: Seq<RouteInfo>) -> Seq<RouteSpec>
    decreases rs,
{
    if rs.len() == 0 {
        Seq::empty()
    } else {
        routes_view(rs.drop_last()).push(route_view(rs.last()))
    }
}

/// A sequence's value holds the value of each route, position by position.
pub proof fn lemma_routes_view_index(rs: Seq<RouteInfo>)
    ensures
        routes_view(rs).len() == rs.len(),
        forall|k: int| 0 <= k < rs.len() ==> #[trigger] routes_view(rs)[k] == route_view(rs[k]),
    decreases rs.len(),
{
    if rs.len() > 0 {
        lemma_routes_view_index(rs.drop_last());
    }
}

/// Viewing a sequence with one more route appends that route's value.
pub proof fn lemma_routes_view_push(rs: Seq<RouteInfo>, r: RouteInfo)
    ensures
        routes_view(rs.push(r)) == routes_view(rs).push(route_view(r)),
{
    assert(rs.push(r).drop_last() =~= rs);
}

/// Viewing a concatenation concatenates the values.
pub proof fn lemma_routes_view_concat(a: Seq<RouteInfo>, b: Seq<RouteInfo>)
    ensures
        routes_view(a + b) == routes_view(a) + routes_view(b),
    decreases b.len(),
{
    if b.len() == 0 {
        assert(a + b =~= a);
        assert(routes_view(b) =~= Seq::<RouteSpec>::empty());
        assert(routes_view(a) + routes_view(b) =~= routes_view(a));
    } else {
        lemma_routes_view_concat(a, b.drop_last());
        assert((a + b).drop_last() =~= a + b.drop_last());
        assert((a + b).last() == b.last());
        assert(routes_view(a) + routes_view(b) =~= (routes_view(a) + routes_view(b.drop_last())).push(
            route_view(b.last()),
        ));
    }
}

/// Moves every route of `src` to the end of `dst`, keeping their order.
pub fn append_routes(dst: &mut Vec<RouteInfo>, src: Vec<RouteInfo>)
    ensures
        final(dst)@ == old(dst)@ + src@,
        routes_view(final(dst)@) == routes_view(old(dst)@) + routes_view(src@),
{
    let mut src = src;
    proof {
        lemma_routes_view_concat(dst@, src@);
    }
    dst.append(&mut src);
}

} // verus!
