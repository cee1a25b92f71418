use vstd::prelude::*;

verus! {

/// One syntax node of a routing source file, reduced to the shapes that route
/// extraction tells apart. Every other node is an `Other` that keeps its
/// sub-nodes in source order, so that traversal still reaches nested
/// declarations and calls.
#[derive(Debug)]
pub enum Node {
    /// An identifier reference.
    Ident(String),
    /// A string literal, with its value.
    Str(String),
    /// An array literal; holes and spread elements are `Other`.
    Array(Vec<Node>),
    /// An object literal, with its properties in order.
    Object(Vec<Node>),
    /// A `key: value` property whose key is a plain identifier.
    KeyValue(String, Box<Node>),
    /// An arrow function: the source text of its body, and the body.
    Arrow(String, Box<Node>),
    /// A member access `object.name` with a plain identifier as name.
    Member(Box<Node>, String),
    /// A call: callee and arguments.
    Call(Box<Node>, Vec<Node>),
    /// A variable declarator that binds a plain identifier; a declarator
    /// without initializer carries an empty `Other`.
    Decl(String, Box<Node>),
    /// Any other node, with its sub-nodes in source order.
    Other(Vec<Node>),
}

} // verus!
