//! Properties: key + value pairs attached to entities.
//!
//! A property value is immutable once constructed and is held behind a
//! reference-counted pointer, so several entities (or several versions of one
//! entity across transactions) may alias the same payload without copying it.

use vstd::prelude::*;

verus! {

/// Property key type.
pub type KT = u32;

/// Identity of a logical document.
pub type DocId = u32;

/// Sentinel property key: attaching this key with a `DocId` value to an
/// entity materializes that document's content as the entity's children.
pub const INS_DOC: KT = 33;

/// Closed set of payload types a property value can carry.
#[derive(Clone, PartialEq, Eq, Debug)]
pub enum PropData {
    Int(i32),
    Text(String),
    Doc(DocId),
}

/// A property attached to an entity: a key and an immutable payload.
///
/// Stored as `Rc<Value2>`; one instance may be assigned to several entities.
#[derive(Debug)]
pub struct Value2 {
    pub key: KT,
    pub value: PropData,
}

/// View of a payload: text as a character sequence.
pub enum PropDataV {
    Int(i32),
    Text(Seq<char>),
    Doc(DocId),
}

impl View for PropData {
    type V = PropDataV;

    open spec fn view(&self) -> PropDataV {
        match self {
            PropData::Int(i) => PropDataV::Int(*i),
            PropData::Text(s) => PropDataV::Text(s@),
            PropData::Doc(d) => PropDataV::Doc(*d),
        }
    }
}

/// Rust values that can be stored as a property payload.
pub trait IntoProp: Sized {
    /// The payload view this value turns into.
    spec fn prop_spec(self) -> PropDataV;

    /// Wrap the value as a payload.
    fn into_prop(self) -> (r: PropData)
        ensures
            r@ == self.prop_spec(),
    ;
}

impl IntoProp for i32 {
    open spec fn prop_spec(self) -> PropDataV {
        PropDataV::Int(self)
    }

    fn into_prop(self) -> (r: PropData) {
        PropData::Int(self)
    }
}

impl IntoProp for u32 {
    open spec fn prop_spec(self) -> PropDataV {
        PropDataV::Doc(self)
    }

    fn into_prop(self) -> (r: PropData) {
        PropData::Doc(self)
    }
}

impl IntoProp for &str {
    open spec fn prop_spec(self) -> PropDataV {
        PropDataV::Text(self@)
    }

    fn into_prop(self) -> (r: PropData) {
        PropData::Text(String::from_str(self))
    }
}

impl IntoProp for String {
    open spec fn prop_spec(self) -> PropDataV {
        PropDataV::Text(self@)
    }

    fn into_prop(self) -> (r: PropData) {
        PropData::Text(self)
    }
}

/// Rust types a property payload can be read back as.
pub trait PropGet: Sized + View {
    /// What reading a payload as this type yields, if anything.
    spec fn extract(d: PropDataV) -> Option<Self::V>;

    /// Read the payload as this type; `None` if it holds another type.
    fn from_data(d: &PropData) -> (r: Option<Self>)
        ensures
            match r {
                Some(v) => Self::extract(d@) == Some(v@),
                None => Self::extract(d@) is None,
            },
    ;
}

impl PropGet for i32 {
    open spec fn extract(d: PropDataV) -> Option<i32> {
        match d {
            PropDataV::Int(i) => Some(i),
            _ => None,
        }
    }

    fn from_data(d: &PropData) -> (r: Option<Self>) {
        match d {
            PropData::Int(i) => Some(*i),
            _ => None,
        }
    }
}

impl PropGet for u32 {
    open spec fn extract(d: PropDataV) -> Option<u32> {
        match d {
            PropDataV::Doc(i) => Some(i),
            _ => None,
        }
    }

    fn from_data(d: &PropData) -> (r: Option<Self>) {
        match d {
            PropData::Doc(i) => Some(*i),
            _ => None,
        }
    }
}

impl PropGet for String {
    open spec fn extract(d: PropDataV) -> Option<Seq<char>> {
        match d {
            PropDataV::Text(s) => Some(s),
            _ => None,
        }
    }

    fn from_data(d: &PropData) -> (r: Option<Self>) {
        match d {
            PropData::Text(s) => Some(s.clone()),
            _ => None,
        }
    }
}

} // verus!
