//! Rendering values as YAML text, through the document representation.
//!
//! A value is first converted to its document tree (`to_document_node`,
//! verified), the tree is handed to serde_yaml to build the equivalent
//! `serde_yaml::Value`, and that is serialized. The two trusted functions
//! below carry exact models: `doc_repr` names the document tree a
//! `serde_yaml::Value` stands for, and `rendered` names the YAML text that
//! serde_yaml produces for a tree — a function of the tree alone, since the
//! serializer is deterministic.

use vstd::prelude::*;
use crate::model::Val;
use crate::order::wf_val;
use crate::value::{YamlValue, ValueError};
use crate::doc::{DocNode, Doc, doc_of_val};

verus! {

#[verifier::external_type_specification]
#[verifier::external_body]
pub struct ExSerdeValue(serde_yaml::Value);

/// The document tree that a `serde_yaml::Value` stands for.
pub uninterp spec fn doc_repr(v: serde_yaml::Value) -> Doc;

/// The YAML text that serde_yaml's serializer produces for a document tree.
pub uninterp spec fn rendered(d: Doc) -> Seq<char>;

/// Whether serde_yaml's serializer succeeds on a document tree. The
/// serializer is deterministic, so success is a function of the tree alone.
pub uninterp spec fn render_ok(d: Doc) -> bool;

/// Relies on serde_yaml's value constructors (`Value::{Null, Bool, Number,
/// String, Sequence, Mapping}`, `Number::from`): builds the `serde_yaml`
/// tree of exactly the given node's shape. The input comes from a well-formed
/// value, so nested mapping keys are pairwise distinct and no entries
/// collapse when serde_yaml's mapping is collected, and no unrepresentable
/// number occurs.
#[verifier::external_body]
fn serde_value_of(n: &DocNode) -> (r: serde_yaml::Value)
    requires
        exists|v: Val| wf_val(v) && #[trigger] doc_of_val(v) == n@,
    ensures
        doc_repr(r) == n@,
{
    match n {
        DocNode::Null => serde_yaml::Value::Null,
        DocNode::Bool(b) => serde_yaml::Value::Bool(*b),
        DocNode::Int(i) => serde_yaml::Value::Number(serde_yaml::Number::from(*i)),
        // unreachable under the precondition: the document tree of a value
        // never holds an unrepresentable number
        DocNode::BadNum(_) => serde_yaml::Value::Null,
        DocNode::Text(t) => serde_yaml::Value::String(t.clone()),
        DocNode::List(xs) => serde_yaml::Value::Sequence(
            xs.iter().map(serde_value_of).collect(),
        ),
        DocNode::Pairs(ps) => serde_yaml::Value::Mapping(
            ps.iter().map(|p| (serde_value_of(&p.0), serde_value_of(&p.1))).collect(),
        ),
    }
}

/// Relies on serde_yaml::to_string: whether serialization of a document tree
/// succeeds, and the YAML text it produces when it does, are both functions
/// of the tree alone, since the serializer is deterministic.
#[verifier::external_body]
fn serde_to_text(v: &serde_yaml::Value) -> (r: Option<String>)
    ensures
        r is Some <==> render_ok(doc_repr(*v)),
        r matches Some(s) ==> s@ == rendered(doc_repr(*v)),
{
    serde_yaml::to_string(v).ok()
}

impl YamlValue {
    /// The YAML text of this value, rendered through the generic document
    /// representation: exactly the text the document serializer produces for
    /// `to_document_node`'s tree, with mapping entries in insertion order.
    /// Succeeds exactly when the serializer does, and fails only with its
    /// error.
    pub fn to_string(&self) -> (r: Result<String, ValueError>)
        requires
            self.wf(),
        ensures
            r is Ok <==> render_ok(doc_of_val(self@)),
            r matches Ok(s) ==> s@ == rendered(doc_of_val(self@)),
            r matches Err(e) ==> e is RenderFailed,
    {
        let node = self.to_document_node();
        proof {
            assert(wf_val(self@) && doc_of_val(self@) == node@);
        }
        let sv = serde_value_of(&node);
        match serde_to_text(&sv) {
            Some(s) => Ok(s),
            None => Err(ValueError::RenderFailed),
        }
    }
}

} // verus!
