use vstd::prelude::*;
use crate::extract::extract_routes;
use crate::extract::extracted;
use crate::model::{
    append_routes, lemma_routes_view_concat, lemma_routes_view_index, route_view,
    routes_view, RouteInfo, RouteSpec,
};
use crate::resolve::{base_of, candidate_base, candidates, candidates_of, first_existing, import_target_of};
use crate::syntax::Node;
use crate::text::{ends_with_text, text_ends_with, text_eq};

verus! {

broadcast use vstd::std_specs::vec::group_vec_axioms, vstd::seq::group_seq_axioms;

/// The longest chain of lazy loads followed from one route.
pub const MAX_LOAD_DEPTH: usize = 64;

/// Name suffix of a main routing file.
pub const MAIN_APP_ROUTING_MODULE: &'static str = "app-routing.module.ts";

/// Name suffix of a main routing file.
pub const MAIN_APP_ROUTING: &'static str = "app-routing.ts";

/// Name suffix of a main routing file.
pub const MAIN_ROUTING_MODULE: &'static str = "routing.module.ts";

/// Name suffix of a main routing file.
pub const MAIN_ROUTES: &'static str = "routes.ts";

/// Whether a file of this name is an entry point into the route forest.
pub open spec fn is_main_routing_name(name: Seq<char>) -> bool {
    text_ends_with(name, MAIN_APP_ROUTING_MODULE@) || text_ends_with(name, MAIN_APP_ROUTING@)
        || text_ends_with(name, MAIN_ROUTING_MODULE@) || text_ends_with(name, MAIN_ROUTES@)
}

/// Whether a file of this name is an entry point into the route forest.
pub fn is_main_routing_file(name: &str) -> (r: bool)
    ensures
        r == is_main_routing_name(name@),
{
    ends_with_text(name, MAIN_APP_ROUTING_MODULE) || ends_with_text(name, MAIN_APP_ROUTING)
        || ends_with_text(name, MAIN_ROUTING_MODULE) || ends_with_text(name, MAIN_ROUTES)
}

/// The files that routes are read from.
pub trait SourceTree {
    /// Whether `path` names an existing directory.
    fn is_dir(&self, path: &str) -> bool;

    /// Whether `path` names an existing file.
    fn is_file(&self, path: &str) -> bool;

    /// The top-level syntax nodes of the file at `path`, or a message that
    /// says why it could not be read or parsed.
    fn load(&mut self, path: &str) -> Result<Vec<Node>, String>;
}

/// Why resolution stopped.
#[derive(Debug)]
pub enum ResolveError {
    /// A file could not be read or parsed: its path and the reason.
    Load(String, String),
    /// A lazy load led back to a file that is being resolved on the same
    /// chain.
    Cycle(String),
    /// A chain of lazy loads grew longer than `MAX_LOAD_DEPTH`.
    TooDeep(String),
}

/// Whether a route's lazy-load text names no import target, so that
/// resolution adds nothing to it.
pub open spec fn no_target(r: RouteSpec) -> bool {
    match r.load_children {
        Some(t) => import_target_of(t) is None,
        None => true,
    }
}

/// Whether no route of the tree names an import target.
pub open spec fn settled(r: RouteSpec) -> bool
    decreases r,
{
    no_target(r) && forall|i: int| 0 <= i < r.children.len() ==> settled(#[trigger] r.children[i])
}

/// Whether `tail` is, route by route, the top-level routes extracted from
/// some syntax tree of `file`, each declared in `file`, with its properties
/// kept and its own children first.
pub open spec fn loaded_from(tail: Seq<RouteSpec>, file: Seq<char>) -> bool {
    exists|module: Seq<Node>|
        #[trigger] extracted(module, file).len() == tail.len() && forall|k: int|
            0 <= k < tail.len() ==> {
                let e = extracted(module, file)[k];
                &&& (#[trigger] tail[k]).path == e.path
                &&& tail[k].load_children == e.load_children
                &&& tail[k].source_file == file
                &&& tail[k].children.len() >= e.children.len()
            }
}

/// Whether a lazy-load text declared in `parent` may lead to `file`: it is
/// one of the candidates of the text's base path.
pub open spec fn may_load(raw: Seq<char>, parent: Seq<char>, file: Seq<char>) -> bool {
    exists|b: Seq<char>, d: bool|
        base_of(raw, parent) == Some(b) && #[trigger] candidates_of(b, d).contains(file)
}

/// Whether `path` is one of `files`.
pub open spec fn on_chain(files: Seq<String>, path: Seq<char>) -> bool {
    exists|k: int| 0 <= k < files.len() && #[trigger] files[k]@ == path
}

/// Whether `new` is `old` with lazily loaded routes appended: every node
/// keeps its properties, its children start with the resolved form of its
/// own children, a node without import target gains nothing, and what a
/// node gains are the routes of one candidate file of its lazy load.
pub open spec fn extends(new: RouteSpec, old: RouteSpec) -> bool
    decreases old,
{
    &&& new.path == old.path
    &&& new.load_children == old.load_children
    &&& new.source_file == old.source_file
    &&& new.children.len() >= old.children.len()
    &&& forall|i: int|
        0 <= i < old.children.len() ==> extends(#[trigger] new.children[i], old.children[i])
    &&& no_target(old) ==> new.children.len() == old.children.len()
    &&& new.children.len() > old.children.len() ==> exists|f: Seq<char>|
        old.load_children is Some && #[trigger] may_load(
            old.load_children->Some_0,
            old.source_file,
            f,
        ) && loaded_from(new.children.subrange(old.children.len() as int, new.children.len() as int), f)
}

/// The file that a lazy-load text declared in `parent_file` points to: the
/// first existing candidate, or `None` when the text holds no
/// dynamic-import call or no candidate exists.
pub fn resolve_load_children_path<T: SourceTree>(
    load_children_str: &str,
    parent_file: &str,
    tree: &T,
) -> (r: Option<String>)
    ensures
        base_of(load_children_str@, parent_file@) is None ==> r is None,
        match r {
            Some(p) => exists|b: Seq<char>, d: bool|
                base_of(load_children_str@, parent_file@) == Some(b) && #[trigger] candidates_of(
                    b,
                    d,
                ).contains(p@),
            None => true,
        },
{
    match candidate_base(load_children_str, parent_file) {
        Some(base) => {
            let is_dir = tree.is_dir(base.as_str());
            let cands = candidates(base.as_str(), is_dir);
            let mut present: Vec<bool> = Vec::new();
            let mut i: usize = 0;
            while i < cands.len()
                invariant
                    i <= cands.len(),
                    present.len() == i,
                decreases cands.len() - i,
            {
                present.push(tree.is_file(cands[i].as_str()));
                i = i + 1;
            }
            let r = first_existing(&cands, &present);
            proof {
                if r is Some {
                    let p = r->Some_0;
                    let k = choose|k: int| 0 <= k < cands.len() && present[k] && cands[k]@ == p@;
                    assert(cands@.map_values(|q: String| q@)[k] == p@);
                    assert(candidates_of(base@, is_dir).contains(p@));
                }
            }
            r
        },
        None => None,
    }
}

/// Appends the routes loaded for a node, if any, after its own children.
pub fn attach_loaded(route: &mut RouteInfo, loaded: Option<Vec<RouteInfo>>)
    ensures
        match loaded {
            Some(v) => final(route).children@ == old(route).children@ + v@ && final(route).path
                == old(route).path && final(route).load_children == old(route).load_children
                && final(route).source_file == old(route).source_file,
            None => *final(route) == *old(route),
        },
{
    match loaded {
        Some(v) => append_routes(&mut route.children, v),
        None => {},
    }
}

/// The error that stops a lazy load of `file`, if any: `TooDeep` when no
/// budget is left, else `Cycle` when `file` is already on the chain.
pub fn check_load(file: &String, active: &Vec<String>, budget: usize) -> (r: Option<ResolveError>)
    ensures
        budget == 0 ==> r is Some && r->Some_0 is TooDeep && r->Some_0->TooDeep_0@ == file@,
        budget > 0 && on_chain(active@, file@) ==> r is Some && r->Some_0 is Cycle
            && r->Some_0->Cycle_0@ == file@,
        budget > 0 && !on_chain(active@, file@) ==> r is None,
{
    if budget == 0 {
        return Some(ResolveError::TooDeep(file.clone()));
    }
    if is_active(active, file) {
        return Some(ResolveError::Cycle(file.clone()));
    }
    None
}

/// Whether `path` is one of `files`.
fn is_active(files: &Vec<String>, path: &String) -> (r: bool)
    ensures
        r == exists|k: int| 0 <= k < files.len() && #[trigger] files[k]@ == path@,
{
    let mut i: usize = 0;
    while i < files.len()
        invariant
            i <= files.len(),
            forall|k: int| 0 <= k < i ==> #[trigger] files[k]@ != path@,
        decreases files.len() - i,
    {
        if text_eq(files[i].as_str(), path.as_str()) {
            return true;
        }
        i = i + 1;
    }
    false
}

/// Resolves `route` and everything below it: its own children first, in
/// order, then the routes of the file its lazy load points to, which are
/// appended after them. `active` holds the files being resolved on the
/// current chain; `budget` is how many more lazy loads the chain may take.
fn resolve_node<T: SourceTree>(
    route: RouteInfo,
    tree: &mut T,
    active: &mut Vec<String>,
    budget: usize,
) -> (r: Result<RouteInfo, ResolveError>)
    ensures
        final(active)@ == old(active)@,
        r is Ok ==> extends(route_view(r->Ok_0), route_view(route)),
        settled(route_view(route)) ==> r is Ok && route_view(r->Ok_0) == route_view(route),
    decreases budget, route,
{
    let ghost old_route = route;
    let ghost old_children = route.children@;
    proof {
        lemma_routes_view_index(old_children);
    }
    let RouteInfo { path, load_children, source_file, children } = route;
    let mut rest = children;
    let mut done: Vec<RouteInfo> = Vec::new();
    let n = rest.len();
    let mut i: usize = 0;
    while i < n
        invariant
            i <= n,
            n == old_children.len(),
            old_children == old_route.children@,
            old_route == route,
            rest@ == old_children.subrange(i as int, n as int),
            done.len() == i,
            forall|k: int|
                0 <= k < i ==> extends(#[trigger] route_view(done@[k]), route_view(old_children[k])),
            settled(route_view(old_route)) ==> forall|k: int|
                0 <= k < i ==> #[trigger] route_view(done@[k]) == route_view(old_children[k]),
            active@ == old(active)@,
        decreases n - i,
    {
        let child = rest.remove(0);
        proof {
            lemma_routes_view_index(old_children);
            assert(child == old_route.children@[i as int]);
            assert(decreases_to!(old_route.children => old_route.children[i as int]));
            assert(decreases_to!(old_route => old_route.children));
            assert(decreases_to!(old_route => child));
            if settled(route_view(old_route)) {
                assert(route_view(old_route).children == routes_view(old_children));
                assert(settled(route_view(old_route).children[i as int]));
            }
            assert(routes_view(old_children)[i as int] == route_view(child));
        }
        match resolve_node(child, tree, active, budget) {
            Ok(c) => {
                done.push(c);
            },
            Err(e) => {
                return Err(e);
            },
        }
        i = i + 1;
    }
    let mut loaded: Option<Vec<RouteInfo>> = None;
    let ghost mut loaded_file: Seq<char> = Seq::empty();
    match &load_children {
        Some(raw) => {
            match resolve_load_children_path(raw.as_str(), source_file.as_str(), tree) {
                Some(file) => {
                    proof {
                        assert(!settled(route_view(old_route)));
                    }
                    match check_load(&file, active, budget) {
                        Some(e) => {
                            return Err(e);
                        },
                        None => {},
                    }
                    let nodes = match tree.load(file.as_str()) {
                        Ok(nodes) => nodes,
                        Err(m) => {
                            return Err(ResolveError::Load(file, m));
                        },
                    };
                    let mut subs = extract_routes(&nodes, &file);
                    let ghost fv = file@;
                    let ghost want = extracted(nodes@, fv);
                    let n = subs.len();
                    proof {
                        lemma_routes_view_index(subs@);
                        assert(want.subrange(0, n as int) =~= want);
                    }
                    active.push(file);
                    let mut resolved: Vec<RouteInfo> = Vec::new();
                    let mut k: usize = 0;
                    while k < n
                        invariant
                            active@ == old(active)@.push(active@.last()),
                            active.len() == old(active).len() + 1,
                            budget > 0,
                            old_route == route,
                            !settled(route_view(old_route)),
                            k <= n,
                            n == want.len(),
                            want == extracted(nodes@, fv),
                            routes_view(subs@) == want.subrange(k as int, n as int),
                            forall|j: int|
                                0 <= j < subs.len() ==> (#[trigger] subs@[j]).source_file@ == fv,
                            resolved.len() == k,
                            forall|j: int|
                                0 <= j < k ==> extends(
                                    #[trigger] route_view(resolved@[j]),
                                    want[j],
                                ) && resolved@[j].source_file@ == fv,
                        decreases n - k,
                    {
                        proof {
                            lemma_routes_view_index(subs@);
                            assert(routes_view(subs@)[0] == want[k as int]);
                            let rest = subs@.subrange(1, subs@.len() as int);
                            lemma_routes_view_index(rest);
                            assert forall|j: int| 0 <= j < rest.len() implies #[trigger] routes_view(
                                rest,
                            )[j] == want[k + 1 + j] by {
                                assert(routes_view(subs@)[j + 1] == want.subrange(
                                    k as int,
                                    n as int,
                                )[j + 1]);
                                assert(rest[j] == subs@[j + 1]);
                            }
                            assert(routes_view(rest) =~= want.subrange(k + 1, n as int));
                        }
                        let sub = subs.remove(0);
                        match resolve_node(sub, tree, active, budget - 1) {
                            Ok(x) => {
                                resolved.push(x);
                            },
                            Err(e) => {
                                active.pop();
                                assert(active@ =~= old(active)@);
                                return Err(e);
                            },
                        }
                        k = k + 1;
                    }
                    active.pop();
                    assert(active@ =~= old(active)@);
                    proof {
                        lemma_routes_view_index(resolved@);
                        let rs = routes_view(resolved@);
                        assert forall|j: int| 0 <= j < rs.len() implies {
                            let e = extracted(nodes@, fv)[j];
                            &&& (#[trigger] rs[j]).path == e.path
                            &&& rs[j].load_children == e.load_children
                            &&& rs[j].source_file == fv
                            &&& rs[j].children.len() >= e.children.len()
                        } by {
                            assert(rs[j] == route_view(resolved@[j]));
                        }
                        assert(loaded_from(rs, fv));
                        loaded_file = fv;
                    }
                    loaded = Some(resolved);
                },
                None => {},
            }
        },
        None => {},
    }
    let mut new_route = RouteInfo { path, load_children, source_file, children: done };
    proof {
        lemma_routes_view_index(done@);
    }
    attach_loaded(&mut new_route, loaded);
    proof {
        lemma_routes_view_index(new_route.children@);
        let nv = route_view(new_route);
        let ov = route_view(old_route);
        assert forall|k: int| 0 <= k < ov.children.len() implies extends(
            #[trigger] nv.children[k],
            ov.children[k],
        ) by {
            assert(new_route.children@[k] == done@[k]);
        }
        if settled(ov) {
            assert(nv.children =~= ov.children);
        }
        if nv.children.len() > ov.children.len() {
            let v = loaded->Some_0;
            lemma_routes_view_concat(done@, v@);
            assert(nv.children.subrange(ov.children.len() as int, nv.children.len() as int)
                =~= routes_view(v@));
            assert(may_load(ov.load_children->Some_0, ov.source_file, loaded_file));
        }
    }
    Ok(new_route)
}

/// A copy of an optional text.
fn copy_text(o: &Option<String>) -> (r: Option<String>)
    ensures
        r == *o,
{
    match o {
        Some(t) => Some(t.clone()),
        None => None,
    }
}

/// Resolves `route` in place: its own children first, in order, then the
/// routes of the file its lazy load points to, appended after them, and so
/// on below. A chain of lazy loads that returns to a file already on it
/// ends with `Cycle`; one longer than `MAX_LOAD_DEPTH` with `TooDeep`.
/// The route keeps its path, lazy-load text and source file either way;
/// after an error its children are dropped.
pub fn resolve_children_recursively<T: SourceTree>(route: &mut RouteInfo, tree: &mut T) -> (r:
    Result<(), ResolveError>)
    ensures
        route_view(*final(route)).path == route_view(*old(route)).path,
        route_view(*final(route)).load_children == route_view(*old(route)).load_children,
        final(route).source_file@ == old(route).source_file@,
        r is Ok ==> extends(route_view(*final(route)), route_view(*old(route))),
        settled(route_view(*old(route))) ==> r is Ok && route_view(*final(route)) == route_view(
            *old(route),
        ),
{
    let mut owned = RouteInfo {
        path: None,
        load_children: None,
        source_file: String::new(),
        children: Vec::new(),
    };
    core::mem::swap(route, &mut owned);
    let path = copy_text(&owned.path);
    let load_children = copy_text(&owned.load_children);
    let source_file = owned.source_file.clone();
    let mut active: Vec<String> = Vec::new();
    active.push(owned.source_file.clone());
    match resolve_node(owned, tree, &mut active, MAX_LOAD_DEPTH) {
        Ok(x) => {
            *route = x;
            Ok(())
        },
        Err(e) => {
            *route = RouteInfo { path, load_children, source_file, children: Vec::new() };
            Err(e)
        },
    }
}

/// The routes of `parts`, part after part.
pub open spec fn concat_all(parts: Seq<Seq<RouteSpec>>) -> Seq<RouteSpec>
    decreases parts.len(),
{
    if parts.len() == 0 {
        Seq::empty()
    } else {
        concat_all(parts.drop_last()) + parts.last()
    }
}

/// Whether `rs` is, route by route, the resolved form of the top-level
/// routes extracted from some syntax tree of `file`.
pub open spec fn resolved_file(rs: Seq<RouteSpec>, file: Seq<char>) -> bool {
    exists|module: Seq<Node>|
        #[trigger] extracted(module, file).len() == rs.len() && forall|k: int|
            0 <= k < rs.len() ==> extends(#[trigger] rs[k], extracted(module, file)[k])
}

/// Extracts and resolves the routes of each main routing file, in the order
/// given, and concatenates them without merging.
pub fn resolve_forest<T: SourceTree>(main_files: &Vec<String>, tree: &mut T) -> (r: Result<
    Vec<RouteInfo>,
    ResolveError,
>)
    ensures
        main_files.len() == 0 ==> r is Ok && r->Ok_0@.len() == 0,
        r is Ok ==> exists|parts: Seq<Seq<RouteSpec>>|
            parts.len() == main_files.len() && routes_view(r->Ok_0@) == concat_all(parts)
                && forall|i: int|
                0 <= i < parts.len() ==> resolved_file(#[trigger] parts[i], main_files[i]@),
{
    let mut all: Vec<RouteInfo> = Vec::new();
    let ghost mut parts: Seq<Seq<RouteSpec>> = Seq::empty();
    let mut i: usize = 0;
    while i < main_files.len()
        invariant
            i <= main_files.len(),
            parts.len() == i,
            routes_view(all@) == concat_all(parts),
            i == 0 ==> all@.len() == 0,
            forall|j: int| 0 <= j < i ==> resolved_file(#[trigger] parts[j], main_files[j]@),
        decreases main_files.len() - i,
    {
        let file = &main_files[i];
        let nodes = match tree.load(file.as_str()) {
            Ok(nodes) => nodes,
            Err(m) => {
                return Err(ResolveError::Load(file.clone(), m));
            },
        };
        let mut tops = extract_routes(&nodes, file);
        let ghost want = extracted(nodes@, file@);
        let n = tops.len();
        proof {
            lemma_routes_view_index(tops@);
            assert(want.subrange(0, n as int) =~= want);
        }
        let mut done: Vec<RouteInfo> = Vec::new();
        let mut k: usize = 0;
        while k < n
            invariant
                k <= n,
                i < main_files.len(),
                n == want.len(),
                want == extracted(nodes@, file@),
                routes_view(tops@) == want.subrange(k as int, n as int),
                done.len() == k,
                forall|j: int| 0 <= j < k ==> extends(#[trigger] route_view(done@[j]), want[j]),
            decreases n - k,
        {
            proof {
                lemma_routes_view_index(tops@);
                assert(tops@.len() > 0);
                assert(routes_view(tops@)[0] == want[k as int]);
                assert(tops@.remove(0) =~= tops@.subrange(1, tops@.len() as int));
                let sub = tops@.subrange(1, tops@.len() as int);
                lemma_routes_view_index(sub);
                assert forall|j: int| 0 <= j < sub.len() implies #[trigger] routes_view(sub)[j]
                    == want[k + 1 + j] by {
                    assert(routes_view(tops@)[j + 1] == want.subrange(k as int, n as int)[j + 1]);
                    assert(sub[j] == tops@[j + 1]);
                }
                assert(routes_view(tops@.subrange(1, tops@.len() as int)) =~= want.subrange(
                    k + 1,
                    n as int,
                ));
            }
            let mut top = tops.remove(0);
            match resolve_children_recursively(&mut top, tree) {
                Ok(()) => {},
                Err(e) => {
                    return Err(e);
                },
            }
            done.push(top);
            k = k + 1;
        }
        proof {
            lemma_routes_view_index(done@);
            let rs = routes_view(done@);
            assert(extracted(nodes@, file@).len() == rs.len());
            assert forall|j: int| 0 <= j < rs.len() implies extends(
                #[trigger] rs[j],
                extracted(nodes@, file@)[j],
            ) by {
                assert(rs[j] == route_view(done@[j]));
            }
            assert(resolved_file(rs, file@));
            lemma_routes_view_concat(all@, done@);
            assert(parts.push(rs).drop_last() =~= parts);
        }
        let ghost rs = routes_view(done@);
        append_routes(&mut all, done);
        proof {
            parts = parts.push(rs);
        }
        i = i + 1;
    }
    Ok(all)
}

} // verus!
