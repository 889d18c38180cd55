//! Builders of nodes and relationships.
//!
//! A builder knows nothing of ids: a node or a relationship gets its id when the
//! graph takes it.

use vstd::prelude::*;

use crate::graph::property::Property;
use crate::graph::property::PropertyMap;
use crate::graph::property::PropertyModel;
use crate::graph::record::NodeRecord;
use crate::graph::record::SlotRef;
use crate::graph::stored::StoredEdge;

verus! {

/// A node to be.
#[derive(Debug)]
pub struct NodeBuilder {
    pub label_id: u32,
    pub properties: PropertyMap,
}

impl NodeBuilder {
    pub open spec fn wf(&self) -> bool {
        self.properties.wf()
    }

    /// A node with no label and no properties.
    pub fn new() -> (r: Self)
        ensures
            r.wf(),
            r.label_id == 0,
            r.properties@ == Map::<Seq<char>, PropertyModel>::empty(),
            r.properties.list().len() == 0,
    {
        NodeBuilder { label_id: 0, properties: PropertyMap::new() }
    }

    /// The node with a label.
    pub fn label(self, label_id: u32) -> (r: Self)
        ensures
            r.label_id == label_id,
            r.properties == self.properties,
    {
        NodeBuilder { label_id, properties: self.properties }
    }

    /// The node with a property; a property of that name is replaced.
    pub fn property(self, key: &str, value: Property) -> (r: Self)
        requires
            self.wf(),
        ensures
            r.wf(),
            r.label_id == self.label_id,
            r.properties@ == self.properties@.insert(key@, value.model()),
    {
        let mut properties = self.properties;
        properties.insert(key.to_owned(), value);
        NodeBuilder { label_id: self.label_id, properties }
    }

    /// The record of the node, with no id yet.
    pub fn build(self) -> (r: NodeRecord)
        ensures
            r == NodeRecord::spec_new(0, self.label_id),
    {
        NodeRecord::new(0, self.label_id)
    }

    /// The record of the node, with no id yet, and the properties.
    pub fn into_parts(self) -> (r: (NodeRecord, PropertyMap))
        ensures
            r.0 == NodeRecord::spec_new(0, self.label_id),
            r.1 == self.properties,
    {
        (NodeRecord::new(0, self.label_id), self.properties)
    }

    /// The properties.
    pub fn properties(self) -> (r: PropertyMap)
        ensures
            r == self.properties,
    {
        self.properties
    }

    /// The label.
    pub fn label_id(&self) -> (r: u32)
        ensures
            r == self.label_id,
    {
        self.label_id
    }
}

impl Default for NodeBuilder {
    fn default() -> (r: Self)
        ensures
            r.wf(),
            r.label_id == 0,
            r.properties.list().len() == 0,
    {
        NodeBuilder::new()
    }
}

/// A relationship to be.
#[derive(Debug)]
pub struct RelationshipBuilder {
    pub type_id: u32,
    pub source_id: Option<u64>,
    pub target_id: Option<u64>,
    pub properties: PropertyMap,
}

/// What a relationship lacks.
#[derive(Debug, Clone, Copy, PartialEq, Eq, Structural)]
pub enum BuilderError {
    /// There is no source node.
    MissingSource,
    /// There is no target node.
    MissingTarget,
    /// There is no type.
    MissingType,
}

impl BuilderError {
    /// The message of the error.
    pub open spec fn spec_message(self) -> Seq<char> {
        match self {
            BuilderError::MissingSource => "source node id is required"@,
            BuilderError::MissingTarget => "target node id is required"@,
            BuilderError::MissingType => "relationship type id is required"@,
        }
    }

    /// The message of each error.
    pub proof fn law_messages(self)
        ensures
            self is MissingSource ==> self.spec_message() == "source node id is required"@,
            self is MissingTarget ==> self.spec_message() == "target node id is required"@,
            self is MissingType ==> self.spec_message() == "relationship type id is required"@,
    {
    }

    /// The message of the error.
    pub fn message(&self) -> (r: &'static str)
        ensures
            r@ == self.spec_message(),
    {
        match self {
            BuilderError::MissingSource => "source node id is required",
            BuilderError::MissingTarget => "target node id is required",
            BuilderError::MissingType => "relationship type id is required",
        }
    }
}

impl RelationshipBuilder {
    pub open spec fn wf(&self) -> bool {
        self.properties.wf()
    }

    /// What the relationship lacks first.
    pub open spec fn lacks(&self) -> Option<BuilderError> {
        if self.source_id is None {
            Some(BuilderError::MissingSource)
        } else if self.target_id is None {
            Some(BuilderError::MissingTarget)
        } else if self.type_id == 0 {
            Some(BuilderError::MissingType)
        } else {
            None
        }
    }

    /// The edge of the relationship, with no id and no slots yet.
    pub open spec fn edge(&self) -> StoredEdge {
        StoredEdge::spec_new(
            0,
            self.type_id,
            self.source_id->0,
            self.target_id->0,
            SlotRef::null(),
            SlotRef::null(),
        )
    }

    /// A relationship with nothing set.
    pub fn new() -> (r: Self)
        ensures
            r.wf(),
            r.type_id == 0,
            r.source_id is None,
            r.target_id is None,
            r.properties@ == Map::<Seq<char>, PropertyModel>::empty(),
            r.properties.list().len() == 0,
    {
        RelationshipBuilder {
            type_id: 0,
            source_id: None,
            target_id: None,
            properties: PropertyMap::new(),
        }
    }

    /// The relationship with a source node.
    pub fn from(self, node_id: u64) -> (r: Self)
        ensures
            r == (RelationshipBuilder { source_id: Some(node_id), ..self }),
    {
        RelationshipBuilder {
            type_id: self.type_id,
            source_id: Some(node_id),
            target_id: self.target_id,
            properties: self.properties,
        }
    }

    /// The relationship with a target node.
    pub fn to(self, node_id: u64) -> (r: Self)
        ensures
            r == (RelationshipBuilder { target_id: Some(node_id), ..self }),
    {
        RelationshipBuilder {
            type_id: self.type_id,
            source_id: self.source_id,
            target_id: Some(node_id),
            properties: self.properties,
        }
    }

    /// The relationship with a type.
    pub fn type_id(self, type_id: u32) -> (r: Self)
        ensures
            r == (RelationshipBuilder { type_id, ..self }),
    {
        RelationshipBuilder {
            type_id,
            source_id: self.source_id,
            target_id: self.target_id,
            properties: self.properties,
        }
    }

    /// The relationship with a property; a property of that name is replaced.
    pub fn property(self, key: &str, value: Property) -> (r: Self)
        requires
            self.wf(),
        ensures
            r.wf(),
            r.type_id == self.type_id,
            r.source_id == self.source_id,
            r.target_id == self.target_id,
            r.properties@ == self.properties@.insert(key@, value.model()),
    {
        let mut properties = self.properties;
        properties.insert(key.to_owned(), value);
        RelationshipBuilder {
            type_id: self.type_id,
            source_id: self.source_id,
            target_id: self.target_id,
            properties,
        }
    }

    /// The edge of the relationship, with no id and no slots yet.
    pub fn build(self) -> (r: Result<StoredEdge, BuilderError>)
        ensures
            match r {
                Ok(edge) => self.lacks() is None && edge == self.edge(),
                Err(e) => self.lacks() == Some(e),
            },
            r is Ok <==> self.source_id is Some && self.target_id is Some && self.type_id != 0,
            r matches Err(e) ==> match e {
                BuilderError::MissingSource => self.source_id is None,
                BuilderError::MissingTarget => self.source_id is Some && self.target_id is None,
                BuilderError::MissingType => self.source_id is Some && self.target_id is Some
                    && self.type_id == 0,
            },
            r matches Ok(edge) ==> edge.source_id == self.source_id->0 && edge.target_id
                == self.target_id->0 && edge.record.type_id == self.type_id && edge.record.edge_id == 0,
    {
        match self.into_parts() {
            Ok(parts) => Ok(parts.0),
            Err(e) => Err(e),
        }
    }

    /// The edge of the relationship, with no id and no slots yet, and the
    /// properties.
    pub fn into_parts(self) -> (r: Result<(StoredEdge, PropertyMap), BuilderError>)
        ensures
            match r {
                Ok(parts) => self.lacks() is None && parts.0 == self.edge() && parts.1
                    == self.properties,
                Err(e) => self.lacks() == Some(e),
            },
            r is Ok <==> self.source_id is Some && self.target_id is Some && self.type_id != 0,
            r matches Err(e) ==> match e {
                BuilderError::MissingSource => self.source_id is None,
                BuilderError::MissingTarget => self.source_id is Some && self.target_id is None,
                BuilderError::MissingType => self.source_id is Some && self.target_id is Some
                    && self.type_id == 0,
            },
            r matches Ok(parts) ==> parts.0.source_id == self.source_id->0 && parts.0.target_id
                == self.target_id->0 && parts.0.record.type_id == self.type_id && parts.0.record.edge_id == 0,
    {
        let source_id: u64 = match self.source_id {
            Some(id) => id,
            None => {
                return Err(BuilderError::MissingSource);
            },
        };
        let target_id: u64 = match self.target_id {
            Some(id) => id,
            None => {
                return Err(BuilderError::MissingTarget);
            },
        };
        if self.type_id == 0 {
            return Err(BuilderError::MissingType);
        }
        let edge = StoredEdge::new(
            0,
            self.type_id,
            source_id,
            target_id,
            SlotRef::null(),
            SlotRef::null(),
        );
        Ok((edge, self.properties))
    }

    /// The properties.
    pub fn properties(self) -> (r: PropertyMap)
        ensures
            r == self.properties,
    {
        self.properties
    }
}

impl Default for RelationshipBuilder {
    fn default() -> (r: Self)
        ensures
            r.wf(),
            r.type_id == 0,
            r.source_id is None,
            r.target_id is None,
            r.properties.list().len() == 0,
    {
        RelationshipBuilder::new()
    }
}

} // verus!
