//! Identifiers as the protocol crate holds them. An `agentx::encodings::ID`
//! shows its components only as dotted text, so they are read from that.

use vstd::prelude::*;
use vstd::string::StrSliceExecFns;
use agentx::encodings::ID;
use crate::text::{dotted, dotted_text, lemma_dotted_roundtrip, parse_dotted};

verus! {

/// An identifier of the protocol crate, carried through as it is.
#[verifier::external_type_specification]
#[verifier::external_body]
pub struct ExId(agentx::encodings::ID);

/// The components that an identifier holds, in order.
pub uninterp spec fn id_components(id: agentx::encodings::ID) -> Seq<u32>;

/// The text of an identifier, as its `Display` writes it (`to_string`):
/// the components in decimal, with a dot between each two.
#[verifier::external_body]
pub(crate) fn id_text(id: &ID) -> (s: String)
    ensures
        s@ == dotted_text(id_components(*id)),
{
    id.to_string()
}

/// The components of an identifier that has some.
pub fn as_vec(value: &ID) -> (r: Vec<u32>)
    requires
        id_components(*value).len() > 0,
    ensures
        r@ == id_components(*value),
{
    let text = id_text(value);
    proof {
        lemma_dotted_roundtrip(id_components(*value));
    }
    match parse_dotted(text.as_str()) {
        Some(v) => v,
        None => Vec::new(),
    }
}

/// The components of any identifier: none for the null identifier.
pub fn path_of(value: &ID) -> (r: Vec<u32>)
    ensures
        r@ == id_components(*value),
{
    let text = id_text(value);
    proof {
        if id_components(*value).len() > 0 {
            lemma_dotted_roundtrip(id_components(*value));
            assert(dotted(Seq::<char>::empty()) is None);
        }
    }
    if text.as_str().unicode_len() == 0 {
        proof {
            assert(text@ =~= Seq::<char>::empty());
            assert(id_components(*value) =~= Seq::<u32>::empty());
        }
        Vec::new()
    } else {
        match parse_dotted(text.as_str()) {
            Some(v) => v,
            None => Vec::new(),
        }
    }
}

} // verus!
