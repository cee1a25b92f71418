use vstd::prelude::*;
use crate::model::{
    append_routes, lemma_routes_view_push, opt_view, route_view, routes_view, RouteInfo, RouteSpec,
};
use crate::syntax::Node;
use crate::text::{contains_text, text_contains, text_eq};

verus! {

broadcast use vstd::std_specs::vec::group_vec_axioms, vstd::seq::group_seq_axioms;

/// Property key of a route's literal segment.
pub const PATH_KEY: &'static str = "path";

/// Property key of a route's lazy-load reference.
pub const LOAD_CHILDREN_KEY: &'static str = "loadChildren";

/// Property key of a route's literal sub-routes.
pub const CHILDREN_KEY: &'static str = "children";

/// The route segment declared by a property list: the value of the last
/// `path` property whose value is a string literal.
pub open spec fn props_path(props: Seq<Node>) -> Option<Seq<char>>
    decreases props.len(),
{
    if props.len() == 0 {
        None
    } else {
        match props.last() {
            Node::KeyValue(k, v) if k@ == PATH_KEY@ && *v is Str => Some((*v)->Str_0@),
            _ => props_path(props.drop_last()),
        }
    }
}

/// The lazy-load text declared by a property list: the body text of the last
/// `loadChildren` property whose value is an arrow function.
pub open spec fn props_load(props: Seq<Node>) -> Option<Seq<char>>
    decreases props.len(),
{
    if props.len() == 0 {
        None
    } else {
        match props.last() {
            Node::KeyValue(k, v) if k@ == LOAD_CHILDREN_KEY@ && *v is Arrow => Some(
                (*v)->Arrow_0@,
            ),
            _ => props_load(props.drop_last()),
        }
    }
}

/// The route described by an object literal's properties.
pub open spec fn route_of(props: Seq<Node>, file: Seq<char>) -> RouteSpec
    decreases props, 1nat,
{
    RouteSpec {
        path: props_path(props),
        load_children: props_load(props),
        source_file: file,
        children: props_children(props, file),
    }
}

/// The literal children of a property list: the routes of every `children`
/// property whose value is an array literal, in order.
pub open spec fn props_children(props: Seq<Node>, file: Seq<char>) -> Seq<RouteSpec>
    decreases props, 0nat,
{
    if props.len() == 0 {
        Seq::empty()
    } else {
        let rest = props_children(props.drop_last(), file);
        match props.last() {
            Node::KeyValue(k, v) if k@ == CHILDREN_KEY@ => match *v {
                Node::Array(elems) => rest + object_routes(elems@, file),
                _ => rest,
            },
            _ => rest,
        }
    }
}

/// The routes of the object literals among `elems`, in order; other
/// elements are skipped.
pub open spec fn object_routes(elems: Seq<Node>, file: Seq<char>) -> Seq<RouteSpec>
    decreases elems, 0nat,
{
    if elems.len() == 0 {
        Seq::empty()
    } else {
        let rest = object_routes(elems.drop_last(), file);
        match elems.last() {
            Node::Object(props) => rest.push(route_of(props@, file)),
            _ => rest,
        }
    }
}

/// The three recognized property keys differ from one another.
proof fn lemma_keys_distinct()
    ensures
        PATH_KEY@ != LOAD_CHILDREN_KEY@,
        PATH_KEY@ != CHILDREN_KEY@,
        LOAD_CHILDREN_KEY@ != CHILDREN_KEY@,
{
    reveal_strlit("path");
    reveal_strlit("loadChildren");
    reveal_strlit("children");
    assert(PATH_KEY@.len() != LOAD_CHILDREN_KEY@.len());
    assert(PATH_KEY@.len() != CHILDREN_KEY@.len());
    assert(LOAD_CHILDREN_KEY@.len() != CHILDREN_KEY@.len());
}

/// Builds the route that an object literal's properties describe.
pub fn parse_route_object(props: &Vec<Node>, file: &String) -> (r: RouteInfo)
    ensures
        route_view(r) == route_of(props@, file@),
        r.source_file@ == file@,
    decreases props@, 1nat,
{
    let mut path: Option<String> = None;
    let mut load_children: Option<String> = None;
    let mut children: Vec<RouteInfo> = Vec::new();
    let mut i: usize = 0;
    while i < props.len()
        invariant
            i <= props.len(),
            opt_view(path) == props_path(props@.subrange(0, i as int)),
            opt_view(load_children) == props_load(props@.subrange(0, i as int)),
            routes_view(children@) == props_children(props@.subrange(0, i as int), file@),
        decreases props.len() - i,
    {
        let ghost pre = props@.subrange(0, i as int);
        proof {
            assert(props@.subrange(0, i + 1).drop_last() =~= pre);
            lemma_keys_distinct();
        }
        match &props[i] {
            Node::KeyValue(k, v) => {
                if text_eq(k.as_str(), PATH_KEY) {
                    match &**v {
                        Node::Str(s) => {
                            path = Some(s.clone());
                        },
                        _ => {},
                    }
                } else if text_eq(k.as_str(), LOAD_CHILDREN_KEY) {
                    match &**v {
                        Node::Arrow(text, _) => {
                            load_children = Some(text.clone());
                        },
                        _ => {},
                    }
                } else if text_eq(k.as_str(), CHILDREN_KEY) {
                    match &**v {
                        Node::Array(elems) => {
                            let sub = extract_routes_from_array(elems, file);
                            append_routes(&mut children, sub);
                        },
                        _ => {},
                    }
                }
            },
            _ => {},
        }
        i = i + 1;
    }
    proof {
        assert(props@.subrange(0, props.len() as int) =~= props@);
    }
    RouteInfo { path, load_children, source_file: file.clone(), children }
}

/// Builds the routes of the object literals among `elems`, in order.
pub fn extract_routes_from_array(elems: &Vec<Node>, file: &String) -> (r: Vec<RouteInfo>)
    ensures
        routes_view(r@) == object_routes(elems@, file@),
        forall|k: int| 0 <= k < r.len() ==> (#[trigger] r@[k]).source_file@ == file@,
    decreases elems@, 0nat,
{
    let mut routes: Vec<RouteInfo> = Vec::new();
    let mut i: usize = 0;
    while i < elems.len()
        invariant
            i <= elems.len(),
            routes_view(routes@) == object_routes(elems@.subrange(0, i as int), file@),
            forall|k: int| 0 <= k < routes.len() ==> (#[trigger] routes@[k]).source_file@ == file@,
        decreases elems.len() - i,
    {
        proof {
            assert(elems@.subrange(0, i + 1).drop_last() =~= elems@.subrange(0, i as int));
        }
        match &elems[i] {
            Node::Object(props) => {
                let route = parse_route_object(props, file);
                proof {
                    lemma_routes_view_push(routes@, route);
                }
                routes.push(route);
            },
            _ => {},
        }
        i = i + 1;
    }
    proof {
        assert(elems@.subrange(0, elems.len() as int) =~= elems@);
    }
    routes
}

/// Variable name that always denotes a route list.
pub const ROUTES_VAR: &'static str = "routes";

/// Substring that marks any other variable name as a route list.
pub const ROUTE_WORD: &'static str = "route";

/// Name of the router-module symbol whose registration calls declare routes.
pub const ROUTER_MODULE: &'static str = "RouterModule";

/// Registration method for top-level routes.
pub const FOR_ROOT: &'static str = "forRoot";

/// Registration method for feature routes.
pub const FOR_CHILD: &'static str = "forChild";

/// Whether a variable of this name is captured as a route list.
pub open spec fn is_route_var(name: Seq<char>) -> bool {
    name == ROUTES_VAR@ || text_contains(name, ROUTE_WORD@)
}

/// Whether some element is an object literal.
pub open spec fn has_object(elems: Seq<Node>) -> bool {
    exists|i: int| 0 <= i < elems.len() && #[trigger] elems[i] is Object
}

/// The state of a traversal: the routes found so far, and the route lists
/// captured so far under their variable names, oldest first.
pub struct Scan {
    pub routes: Seq<RouteSpec>,
    pub named: Seq<(Seq<char>, Seq<Node>)>,
}

/// The elements of the latest route list captured under `name`.
pub open spec fn lookup(named: Seq<(Seq<char>, Seq<Node>)>, name: Seq<char>) -> Option<Seq<Node>>
    decreases named.len(),
{
    if named.len() == 0 {
        None
    } else if named.last().0 == name {
        Some(named.last().1)
    } else {
        lookup(named.drop_last(), name)
    }
}

/// Whether a callee is `RouterModule.forRoot` or `RouterModule.forChild`.
pub open spec fn is_registration(callee: Node) -> bool {
    match callee {
        Node::Member(obj, method) => match *obj {
            Node::Ident(name) => name@ == ROUTER_MODULE@ && (method@ == FOR_ROOT@ || method@
                == FOR_CHILD@),
            _ => false,
        },
        _ => false,
    }
}

/// The routes that a call contributes: a registration call with exactly one
/// argument contributes the object literals of an array argument, or of the
/// route list captured under an identifier argument; nothing otherwise.
pub open spec fn registered_routes(
    callee: Node,
    args: Seq<Node>,
    named: Seq<(Seq<char>, Seq<Node>)>,
    file: Seq<char>,
) -> Seq<RouteSpec> {
    if is_registration(callee) && args.len() == 1 {
        match args[0] {
            Node::Array(elems) => object_routes(elems@, file),
            Node::Ident(name) => match lookup(named, name@) {
                Some(elems) => object_routes(elems, file),
                None => Seq::empty(),
            },
            _ => Seq::empty(),
        }
    } else {
        Seq::empty()
    }
}

/// The traversal state after a declarator of `name` initialized with `init`.
pub open spec fn captured(name: Seq<char>, init: Node, s: Scan) -> Scan {
    match init {
        Node::Array(elems) => if is_route_var(name) && has_object(elems@) {
            Scan { routes: s.routes, named: s.named.push((name, elems@)) }
        } else {
            s
        },
        _ => s,
    }
}

/// The traversal state after visiting `n` and its sub-nodes in source order.
pub open spec fn scan_node(n: Node, s: Scan, file: Seq<char>) -> Scan
    decreases n, 1nat,
{
    match n {
        Node::Ident(_) => s,
        Node::Str(_) => s,
        Node::Array(v) => scan_nodes(v@, s, file),
        Node::Object(v) => scan_nodes(v@, s, file),
        Node::Other(v) => scan_nodes(v@, s, file),
        Node::KeyValue(_, b) => scan_node(*b, s, file),
        Node::Arrow(_, b) => scan_node(*b, s, file),
        Node::Member(b, _) => scan_node(*b, s, file),
        Node::Call(c, a) => {
            let s1 = Scan {
                routes: s.routes + registered_routes(*c, a@, s.named, file),
                named: s.named,
            };
            scan_nodes(a@, scan_node(*c, s1, file), file)
        },
        Node::Decl(name, init) => scan_node(*init, captured(name@, *init, s), file),
    }
}

/// The traversal state after visiting each of `v` in order.
pub open spec fn scan_nodes(v: Seq<Node>, s: Scan, file: Seq<char>) -> Scan
    decreases v, 0nat,
{
    if v.len() == 0 {
        s
    } else {
        scan_node(v.last(), scan_nodes(v.drop_last(), s, file), file)
    }
}

/// The top-level routes of a file whose top-level nodes are `module`.
pub open spec fn extracted(module: Seq<Node>, file: Seq<char>) -> Seq<RouteSpec> {
    scan_nodes(module, Scan { routes: Seq::empty(), named: Seq::empty() }, file).routes
}

/// Whether a subtree holds no call and no declarator, so that traversing it
/// changes nothing.
pub open spec fn inert(n: Node) -> bool
    decreases n, 1nat,
{
    match n {
        Node::Ident(_) => true,
        Node::Str(_) => true,
        Node::Array(v) => inert_all(v@),
        Node::Object(v) => inert_all(v@),
        Node::Other(v) => inert_all(v@),
        Node::KeyValue(_, b) => inert(*b),
        Node::Arrow(_, b) => inert(*b),
        Node::Member(b, _) => inert(*b),
        Node::Call(_, _) => false,
        Node::Decl(_, _) => false,
    }
}

/// Whether each of `v` is inert.
pub open spec fn inert_all(v: Seq<Node>) -> bool
    decreases v, 0nat,
{
    v.len() == 0 || (inert_all(v.drop_last()) && inert(v.last()))
}

/// Traversing an inert subtree leaves the traversal state as it was.
pub proof fn lemma_inert_scan(n: Node, s: Scan, file: Seq<char>)
    requires
        inert(n),
    ensures
        scan_node(n, s, file) == s,
    decreases n, 1nat,
{
    match n {
        Node::Array(v) => lemma_inert_scan_all(v@, s, file),
        Node::Object(v) => lemma_inert_scan_all(v@, s, file),
        Node::Other(v) => lemma_inert_scan_all(v@, s, file),
        Node::KeyValue(_, b) => lemma_inert_scan(*b, s, file),
        Node::Arrow(_, b) => lemma_inert_scan(*b, s, file),
        Node::Member(b, _) => lemma_inert_scan(*b, s, file),
        _ => {},
    }
}

/// Traversing inert subtrees leaves the traversal state as it was.
pub proof fn lemma_inert_scan_all(v: Seq<Node>, s: Scan, file: Seq<char>)
    requires
        inert_all(v),
    ensures
        scan_nodes(v, s, file) == s,
    decreases v, 0nat,
{
    if v.len() > 0 {
        lemma_inert_scan_all(v.drop_last(), s, file);
        lemma_inert_scan(v.last(), s, file);
    }
}

/// Elements that are all object literals give one route each, in order.
pub proof fn lemma_object_routes_all_objects(elems: Seq<Node>, file: Seq<char>)
    requires
        forall|i: int| 0 <= i < elems.len() ==> #[trigger] elems[i] is Object,
    ensures
        object_routes(elems, file).len() == elems.len(),
        forall|i: int|
            0 <= i < elems.len() ==> #[trigger] object_routes(elems, file)[i] == route_of(
                elems[i]->Object_0@,
                file,
            ),
    decreases elems.len(),
{
    if elems.len() > 0 {
        let rest = elems.drop_last();
        assert forall|i: int| 0 <= i < rest.len() implies #[trigger] rest[i] is Object by {
            assert(rest[i] == elems[i]);
        }
        lemma_object_routes_all_objects(rest, file);
        assert(elems[elems.len() - 1] is Object);
    }
}

/// A list bound to `routes` and registered by name yields one top-level
/// route per object literal of the list, in array order: for a file made of
/// the declarator `routes = [o1, ..., oN]` of object literals that hold no
/// calls or declarators, followed by the call `RouterModule.forRoot(routes)`
/// (or `forChild`), extraction gives exactly the routes of `o1` to `oN`.
pub proof fn lemma_named_list_registration(decl: Node, call: Node, file: Seq<char>)
    requires
        decl is Decl,
        decl->Decl_0@ == ROUTES_VAR@,
        *decl->Decl_1 is Array,
        forall|i: int|
            0 <= i < (*decl->Decl_1)->Array_0@.len() ==> #[trigger] (*decl->Decl_1)->Array_0@[i] is Object
                && inert((*decl->Decl_1)->Array_0@[i]),
        (*decl->Decl_1)->Array_0@.len() > 0,
        call is Call,
        is_registration(*call->Call_0),
        call->Call_1@.len() == 1,
        call->Call_1@[0] is Ident,
        call->Call_1@[0]->Ident_0@ == ROUTES_VAR@,
    ensures
        ({
            let elems = (*decl->Decl_1)->Array_0@;
            &&& extracted(seq![decl, call], file).len() == elems.len()
            &&& forall|i: int|
                0 <= i < elems.len() ==> extracted(seq![decl, call], file)[i] == route_of(
                    (#[trigger] elems[i])->Object_0@,
                    file,
                )
        }),
{
    let init = *decl->Decl_1;
    let elems = init->Array_0@;
    let callee = *call->Call_0;
    let args = call->Call_1@;
    let m = seq![decl, call];
    let s0 = Scan { routes: Seq::empty(), named: Seq::empty() };
    assert(m.drop_last() =~= seq![decl]);
    assert(seq![decl].drop_last() =~= Seq::<Node>::empty());
    assert(has_object(elems)) by {
        assert(elems[0] is Object);
    }
    let s1 = captured(decl->Decl_0@, init, s0);
    assert(s1.named == seq![(ROUTES_VAR@, elems)]);
    assert(inert_all(elems)) by {
        lemma_inert_all_from_index(elems);
    }
    lemma_inert_scan_all(elems, s1, file);
    assert(scan_node(init, s1, file) == s1);
    assert(scan_node(decl, s0, file) == scan_node(init, s1, file));
    assert(scan_nodes(Seq::<Node>::empty(), s0, file) == s0);
    assert(seq![decl].last() == decl);
    assert(scan_nodes(seq![decl], s0, file) == scan_node(decl, s0, file));
    assert(s1.named.drop_last() =~= Seq::<(Seq<char>, Seq<Node>)>::empty());
    assert(lookup(s1.named, ROUTES_VAR@) == Some(elems));
    let s2 = Scan {
        routes: s1.routes + registered_routes(callee, args, s1.named, file),
        named: s1.named,
    };
    assert(registered_routes(callee, args, s1.named, file) == object_routes(elems, file));
    match callee {
        Node::Member(b, _) => {
            lemma_inert_scan(*b, s2, file);
        },
        _ => {},
    }
    assert(args.drop_last() =~= Seq::<Node>::empty());
    lemma_inert_scan(args[0], s2, file);
    assert(scan_node(callee, s2, file) == s2);
    assert(scan_nodes(Seq::<Node>::empty(), s2, file) == s2);
    assert(args.last() == args[0]);
    assert(scan_nodes(args, s2, file) == s2);
    assert(scan_node(call, s1, file) == scan_nodes(args, scan_node(callee, s2, file), file));
    assert(scan_node(call, s1, file) == s2);
    assert(scan_nodes(m, s0, file) == scan_node(call, scan_nodes(seq![decl], s0, file), file));
    assert(s2.routes =~= object_routes(elems, file));
    lemma_object_routes_all_objects(elems, file);
}

/// A registration call whose sole argument names a captured list of object
/// literals contributes one route per literal, in list order, wherever it
/// stands in a file.
pub proof fn lemma_registration_by_name(
    callee: Node,
    args: Seq<Node>,
    named: Seq<(Seq<char>, Seq<Node>)>,
    file: Seq<char>,
    elems: Seq<Node>,
)
    requires
        is_registration(callee),
        args.len() == 1,
        args[0] is Ident,
        lookup(named, args[0]->Ident_0@) == Some(elems),
        forall|i: int| 0 <= i < elems.len() ==> #[trigger] elems[i] is Object,
    ensures
        registered_routes(callee, args, named, file).len() == elems.len(),
        forall|i: int|
            0 <= i < elems.len() ==> registered_routes(callee, args, named, file)[i] == route_of(
                (#[trigger] elems[i])->Object_0@,
                file,
            ),
{
    lemma_object_routes_all_objects(elems, file);
}

/// A declarator that binds a route-list name to an array holding an object
/// literal makes that array's elements the list found under the name.
pub proof fn lemma_capture_then_lookup(name: Seq<char>, init: Node, s: Scan)
    requires
        is_route_var(name),
        init is Array,
        has_object(init->Array_0@),
    ensures
        lookup(captured(name, init, s).named, name) == Some(init->Array_0@),
{
}

/// Elements that are each inert make an inert sequence.
proof fn lemma_inert_all_from_index(v: Seq<Node>)
    requires
        forall|i: int| 0 <= i < v.len() ==> #[trigger] inert(v[i]),
    ensures
        inert_all(v),
    decreases v.len(),
{
    if v.len() > 0 {
        let rest = v.drop_last();
        assert forall|i: int| 0 <= i < rest.len() implies #[trigger] inert(rest[i]) by {
            assert(rest[i] == v[i]);
        }
        lemma_inert_all_from_index(rest);
        assert(inert(v[v.len() - 1]));
    }
}

/// The route of an object literal carries the value of its last `path`
/// property that holds a string literal, exactly as written.
pub proof fn lemma_path_literal(props: Seq<Node>, file: Seq<char>, i: int)
    requires
        0 <= i < props.len(),
        props[i] is KeyValue,
        props[i]->KeyValue_0@ == PATH_KEY@,
        *props[i]->KeyValue_1 is Str,
        forall|j: int|
            i < j < props.len() ==> !(#[trigger] props[j] is KeyValue && props[j]->KeyValue_0@
                == PATH_KEY@ && *props[j]->KeyValue_1 is Str),
    ensures
        route_of(props, file).path == Some((*props[i]->KeyValue_1)->Str_0@),
    decreases props.len(),
{
    if i < props.len() - 1 {
        let rest = props.drop_last();
        assert forall|j: int| i < j < rest.len() implies !(#[trigger] rest[j] is KeyValue
            && rest[j]->KeyValue_0@ == PATH_KEY@ && *rest[j]->KeyValue_1 is Str) by {
            assert(rest[j] == props[j]);
        }
        lemma_path_literal(rest, file, i);
        assert(!(props[props.len() - 1] is KeyValue && props[props.len() - 1]->KeyValue_0@
            == PATH_KEY@ && *props[props.len() - 1]->KeyValue_1 is Str));
    }
}

/// The values of captured route lists.
pub open spec fn named_view(named: Seq<(&String, &Vec<Node>)>) -> Seq<(Seq<char>, Seq<Node>)> {
    named.map_values(|p: (&String, &Vec<Node>)| (p.0@, p.1@))
}

/// Whether a variable of this name is captured as a route list.
pub fn is_route_variable(name: &str) -> (r: bool)
    ensures
        r == is_route_var(name@),
{
    text_eq(name, ROUTES_VAR) || contains_text(name, ROUTE_WORD)
}

/// Traversal of one file's syntax tree: collects registered routes, with the
/// route lists captured so far in this file.
pub struct RouteVisitor<'a> {
    pub source_file: String,
    pub routes: Vec<RouteInfo>,
    pub named: Vec<(&'a String, &'a Vec<Node>)>,
}

impl<'a> RouteVisitor<'a> {
    /// The traversal state this visitor holds.
    pub open spec fn scan(&self) -> Scan {
        Scan { routes: routes_view(self.routes@), named: named_view(self.named@) }
    }

    /// Every route found so far was declared in this visitor's file.
    pub open spec fn routes_from_file(&self) -> bool {
        forall|k: int|
            0 <= k < self.routes.len() ==> (#[trigger] self.routes@[k]).source_file@
                == self.source_file@
    }

    /// A fresh traversal of the file at `source_file`.
    pub fn new(source_file: String) -> (r: Self)
        ensures
            r.source_file == source_file,
            r.scan() == (Scan { routes: Seq::empty(), named: Seq::empty() }),
            r.routes_from_file(),
    {
        let r = RouteVisitor { source_file, routes: Vec::new(), named: Vec::new() };
        assert(named_view(r.named@) =~= Seq::empty());
        r
    }

    /// The elements of the latest route list captured under `name`.
    pub fn lookup_named(&self, name: &String) -> (r: Option<&'a Vec<Node>>)
        ensures
            match r {
                Some(v) => lookup(self.scan().named, name@) == Some(v@),
                None => lookup(self.scan().named, name@) is None,
            },
    {
        let mut i: usize = self.named.len();
        assert(self.scan().named.subrange(0, i as int) =~= self.scan().named);
        while i > 0
            invariant
                i <= self.named.len(),
                lookup(self.scan().named, name@) == lookup(self.scan().named.subrange(0, i as int), name@),
            decreases i,
        {
            let ghost pre = self.scan().named.subrange(0, i as int);
            assert(pre.drop_last() =~= self.scan().named.subrange(0, i - 1));
            let (k, v) = self.named[i - 1];
            if *k == *name {
                return Some(v);
            }
            i = i - 1;
        }
        None
    }

    /// Records the declarator of `name` initialized with `init`, when it
    /// binds a route list.
    pub fn visit_var_decl(&mut self, name: &'a String, init: &'a Node)
        ensures
            final(self).source_file == old(self).source_file,
            final(self).routes == old(self).routes,
            final(self).scan() == captured(name@, *init, old(self).scan()),
    {
        match init {
            Node::Array(elems) => {
                if is_route_variable(name.as_str()) {
                    let mut found = false;
                    let mut i: usize = 0;
                    while i < elems.len()
                        invariant
                            i <= elems.len(),
                            found == exists|j: int| 0 <= j < i && #[trigger] elems@[j] is Object,
                        decreases elems.len() - i,
                    {
                        if let Node::Object(_) = &elems[i] {
                            found = true;
                        }
                        i = i + 1;
                    }
                    if found {
                        self.named.push((name, elems));
                        assert(named_view(self.named@) =~= named_view(old(self).named@).push(
                            (name@, elems@),
                        ));
                    }
                }
            },
            _ => {},
        }
    }

    /// Handles a call: adds the routes that a registration call contributes.
    pub fn visit_call_expr(&mut self, callee: &'a Node, args: &'a Vec<Node>)
        requires
            old(self).routes_from_file(),
        ensures
            final(self).routes_from_file(),
            final(self).source_file == old(self).source_file,
            final(self).named == old(self).named,
            routes_view(final(self).routes@) == routes_view(old(self).routes@) + registered_routes(
                *callee,
                args@,
                old(self).scan().named,
                old(self).source_file@,
            ),
    {
        let mut found: Vec<RouteInfo> = Vec::new();
        if args.len() == 1 {
            if let Node::Member(obj, method) = callee {
                if let Node::Ident(name) = &**obj {
                    if text_eq(name.as_str(), ROUTER_MODULE) && (text_eq(method.as_str(), FOR_ROOT)
                        || text_eq(method.as_str(), FOR_CHILD)) {
                        match &args[0] {
                            Node::Array(elems) => {
                                found = extract_routes_from_array(elems, &self.source_file);
                            },
                            Node::Ident(var) => {
                                if let Some(elems) = self.lookup_named(var) {
                                    found = extract_routes_from_array(elems, &self.source_file);
                                }
                            },
                            _ => {},
                        }
                    }
                }
            }
        }
        assert(routes_view(Seq::<RouteInfo>::empty()) =~= Seq::<RouteSpec>::empty());
        append_routes(&mut self.routes, found);
    }

    /// Visits `n` and its sub-nodes in source order.
    pub fn visit_node(&mut self, n: &'a Node)
        requires
            old(self).routes_from_file(),
        ensures
            final(self).routes_from_file(),
            final(self).source_file == old(self).source_file,
            final(self).scan() == scan_node(*n, old(self).scan(), old(self).source_file@),
        decreases n, 1nat,
    {
        match n {
            Node::Ident(_) => {},
            Node::Str(_) => {},
            Node::Array(v) => self.visit_nodes(v),
            Node::Object(v) => self.visit_nodes(v),
            Node::Other(v) => self.visit_nodes(v),
            Node::KeyValue(_, b) => self.visit_node(b),
            Node::Arrow(_, b) => self.visit_node(b),
            Node::Member(b, _) => self.visit_node(b),
            Node::Call(c, a) => {
                self.visit_call_expr(c, a);
                self.visit_node(c);
                self.visit_nodes(a);
            },
            Node::Decl(name, init) => {
                self.visit_var_decl(name, init);
                self.visit_node(init);
            },
        }
    }

    /// Visits each of `v` in order.
    pub fn visit_nodes(&mut self, v: &'a Vec<Node>)
        requires
            old(self).routes_from_file(),
        ensures
            final(self).routes_from_file(),
            final(self).source_file == old(self).source_file,
            final(self).scan() == scan_nodes(v@, old(self).scan(), old(self).source_file@),
        decreases v, 0nat,
    {
        let mut i: usize = 0;
        while i < v.len()
            invariant
                i <= v.len(),
                self.source_file == old(self).source_file,
                self.routes_from_file(),
                self.scan() == scan_nodes(v@.subrange(0, i as int), old(self).scan(), old(self).source_file@),
            decreases v.len() - i,
        {
            assert(v@.subrange(0, i + 1).drop_last() =~= v@.subrange(0, i as int));
            self.visit_node(&v[i]);
            i = i + 1;
        }
        assert(v@.subrange(0, v.len() as int) =~= v@);
    }
}

/// The top-level routes declared in a file whose top-level nodes are
/// `module`, in declaration order.
pub fn extract_routes(module: &Vec<Node>, source_file: &String) -> (r: Vec<RouteInfo>)
    ensures
        routes_view(r@) == extracted(module@, source_file@),
        forall|k: int| 0 <= k < r.len() ==> (#[trigger] r@[k]).source_file@ == source_file@,
{
    let mut visitor = RouteVisitor::new(source_file.clone());
    visitor.visit_nodes(module);
    visitor.routes
}

} // verus!
