//! The values that the tree stores and the queries hand out.

use vstd::prelude::*;

verus! {

/// A value as it travels to the protocol layer: one of the two
/// representable kinds, or one of the two markers.
#[derive(Clone, Debug, PartialEq, Eq)]
pub enum WireValue {
    Integer(i32),
    OctetString(String),
    NoSuchObject,
    EndOfMibView,
}

/// The mathematical content of a [`WireValue`].
pub enum WireModel {
    Integer(i32),
    OctetString(Seq<char>),
    NoSuchObject,
    EndOfMibView,
}

impl View for WireValue {
    type V = WireModel;

    open spec fn view(&self) -> WireModel {
        match *self {
            WireValue::Integer(i) => WireModel::Integer(i),
            WireValue::OctetString(s) => WireModel::OctetString(s@),
            WireValue::NoSuchObject => WireModel::NoSuchObject,
            WireValue::EndOfMibView => WireModel::EndOfMibView,
        }
    }
}

impl WireValue {
    /// A copy with the same content.
    pub fn copy(&self) -> (r: WireValue)
        ensures
            r@ == self@,
    {
        match self {
            WireValue::Integer(i) => WireValue::Integer(*i),
            WireValue::OctetString(s) => WireValue::OctetString(s.clone()),
            WireValue::NoSuchObject => WireValue::NoSuchObject,
            WireValue::EndOfMibView => WireValue::EndOfMibView,
        }
    }
}

/// An object identifier as a request carries it: its components and the
/// flag that says whether a search may return the identifier itself.
#[derive(Clone, Debug, PartialEq, Eq)]
pub struct Id {
    pub inclusive: bool,
    pub sub_ids: Vec<u32>,
}

impl Id {
    /// The identifier with the given components and a cleared flag.
    pub fn new(sub_ids: Vec<u32>) -> (r: Id)
        ensures
            !r.inclusive,
            r.sub_ids@ == sub_ids@,
    {
        Id { inclusive: false, sub_ids }
    }

    /// The null identifier has no components; as an end bound it means
    /// "unbounded".
    pub fn is_null(&self) -> (r: bool)
        ensures
            r == (self.sub_ids@.len() == 0),
    {
        self.sub_ids.len() == 0
    }

    /// A copy with the same flag and components.
    pub fn copy(&self) -> (r: Id)
        ensures
            r.inclusive == self.inclusive,
            r.sub_ids@ == self.sub_ids@,
    {
        Id { inclusive: self.inclusive, sub_ids: crate::oid::path_copy(&self.sub_ids) }
    }
}

/// One range of a search: where it starts and where it ends. A null end
/// leaves the range open.
#[derive(Clone, Debug, PartialEq, Eq)]
pub struct SearchRange {
    pub start: Id,
    pub end: Id,
}

/// An identifier bound to the value found for it.
#[derive(Clone, Debug, PartialEq, Eq)]
pub struct VarBind {
    pub name: Id,
    pub data: WireValue,
}

impl VarBind {
    pub fn new(name: Id, data: WireValue) -> (r: VarBind)
        ensures
            r.name == name,
            r.data == data,
    {
        VarBind { name, data }
    }
}

} // verus!
