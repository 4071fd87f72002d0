//! The values that flow through handles.

use vstd::prelude::*;

verus! {

/// A fixed-size group of units of one resource.
#[derive(Debug, Clone, Copy, PartialEq, Eq, Structural)]
pub struct Bundle {
    /// Which resource the units are of.
    pub resource: u32,
    /// How many units the bundle holds.
    pub amount: u32,
}

/// What a handle resolves to.
#[derive(Debug, PartialEq, Eq)]
pub enum Value {
    /// Nothing but the fact of completion.
    Unit,
    /// A bundle of one resource.
    Bundle(Bundle),
    /// A capability token, or a reference to something the host holds.
    Token(u32),
    /// The results of two joined handles.
    Pair(Box<Value>, Box<Value>),
    /// The results of a list of joined handles.
    List(Vec<Value>),
}

} // verus!
