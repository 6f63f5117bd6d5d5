//! Plain records exchanged with host runtimes.

use vstd::prelude::*;
use crate::entity::Entity;

verus! {

/// An annotation as exchanged with a host: property and value as text.
#[derive(Clone, Debug, PartialEq, Eq)]
pub struct SerializableAnnotation {
    /// IRI
    pub property: String,
    /// IRI or literal
    pub value: String,
}

/// A class by label and parent labels.
#[derive(Clone, Debug, PartialEq, Eq)]
pub struct SerializableClass {
    pub label: String,
    pub parents: Vec<String>,
}

impl SerializableClass {
    pub fn new(label: String, parents: Vec<String>) -> (r: Self)
        ensures
            r.label@ == label@,
            r.parents@ == parents@,
    {
        SerializableClass { label, parents }
    }
}

/// A class by the CIDs of its annotations and superclasses, as text.
#[derive(Clone, Debug, PartialEq, Eq)]
pub struct SerializableClassV2 {
    pub annotations: Vec<String>,
    pub sub_class_of_class: Vec<String>,
}

/// An individual by the CIDs of its annotations and class assertions, as
/// text.
#[derive(Clone, Debug, PartialEq, Eq)]
pub struct SerializableIndividualV2 {
    pub annotations: Vec<String>,
    pub class_assertions: Vec<String>,
    pub negative_class_assertions: Vec<String>,
}

/// A named truth value.
#[derive(Clone, Debug, PartialEq, Eq)]
pub struct SerializableVariable {
    pub variable: String,
    pub value: bool,
}

/// An individual by label and the labels of its classes.
#[derive(Clone, Debug, PartialEq, Eq)]
pub struct Individual {
    pub label: String,
    pub class_memberships: Vec<String>,
}

impl Individual {
    pub fn new(label: String, class_memberships: Vec<String>) -> (r: Self)
        ensures
            r.label@ == label@,
            r.class_memberships@ == class_memberships@,
    {
        Individual { label, class_memberships }
    }
}

/// Annotations, keyed by the bytes of their CIDs.
pub struct AnnotationMap(pub std::collections::BTreeMap<Vec<u8>, Entity>);

/// Classes, keyed by the bytes of their CIDs.
pub struct ClassMap(pub std::collections::BTreeMap<Vec<u8>, Entity>);

} // verus!
