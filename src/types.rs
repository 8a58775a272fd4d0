//! The object model: tagged values behind cheap, shared handles.
//!
//! Handles share ownership of what they point at; a `Pair` may therefore reuse
//! sub-structure. Nothing here collects reference cycles: a cyclic graph, if one
//! were ever built, would never be reclaimed.

use std::rc::Rc;
use vstd::prelude::*;

verus! {

/// The mathematical value of an object: what equality of handles compares.
pub enum Datum {
    Nil,
    Pair(Box<Datum>, Box<Datum>),
    Symbol(Seq<char>),
    Integer(int),
    Text(Seq<char>),
    EndOfInput,
}

/// A tagged value. `Empty` is the empty list and the end of a proper list.
#[derive(Clone, Debug, PartialEq, Eq)]
pub enum Object {
    Empty,
    Cons(Handle, Handle),
    Symbol(String),
    Int64(i64),
    String(String),
    Eof,
}

/// A shared reference to an object. Two handles are equal when the objects
/// they reach are equal, recursively.
#[derive(Clone, Debug, PartialEq, Eq)]
pub struct Handle(Rc<Object>);

impl Object {
    pub open spec fn datum(&self) -> Datum
        decreases self,
    {
        match self {
            Object::Empty => Datum::Nil,
            Object::Cons(a, d) => Datum::Pair(Box::new(a.datum()), Box::new(d.datum())),
            Object::Symbol(s) => Datum::Symbol(s@),
            Object::Int64(n) => Datum::Integer(*n as int),
            Object::String(s) => Datum::Text(s@),
            Object::Eof => Datum::EndOfInput,
        }
    }
}

impl Handle {
    pub closed spec fn datum(&self) -> Datum
        decreases self,
    {
        (*self.0).datum()
    }

    pub fn new_nil() -> (r: Self)
        ensures
            r.datum() == Datum::Nil,
    {
        Handle(Rc::new(Object::Empty))
    }

    pub fn new_cons(car: Handle, cdr: Handle) -> (r: Self)
        ensures
            r.datum() == Datum::Pair(Box::new(car.datum()), Box::new(cdr.datum())),
    {
        Handle(Rc::new(Object::Cons(car, cdr)))
    }

    pub fn new_symbol(value: String) -> (r: Self)
        ensures
            r.datum() == Datum::Symbol(value@),
    {
        Handle(Rc::new(Object::Symbol(value)))
    }

    pub fn new_int64(value: i64) -> (r: Self)
        ensures
            r.datum() == Datum::Integer(value as int),
    {
        Handle(Rc::new(Object::Int64(value)))
    }

    pub fn new_string(value: String) -> (r: Self)
        ensures
            r.datum() == Datum::Text(value@),
    {
        Handle(Rc::new(Object::String(value)))
    }

    pub fn new_eof() -> (r: Self)
        ensures
            r.datum() == Datum::EndOfInput,
    {
        Handle(Rc::new(Object::Eof))
    }

    /// The object this handle points at.
    pub fn borrow(&self) -> (r: &Object)
        ensures
            r.datum() == self.datum(),
    {
        &self.0
    }
}

} // verus!
