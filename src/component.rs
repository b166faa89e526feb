use vstd::prelude::*;

verus! {

/// The type-tag that every entity carries.
pub const ENTITY_ID: &'static str = "entity";

/// The type-tag of transform components.
pub const TRANSFORM_ID: &'static str = "transform";

/// The type-tag of light components.
pub const LIGHT_ID: &'static str = "light";

/// The type-tag of camera components.
pub const CAMERA_ID: &'static str = "camera";

/// The type-tag of model components.
pub const MODEL_ID: &'static str = "model";

/// The type-tag of event handler components.
pub const EVENT_HANDLER_ID: &'static str = "event handler";

/// The closed set of variants a slot of the world can hold. A query asks for
/// one of them and fails when a component under the queried tag is of
/// another variant.
#[derive(Clone, Copy, PartialEq, Eq, Debug, Structural)]
pub enum Kind {
    Entity,
    Transform,
    Model,
    Light,
    Camera,
    EventHandler,
    Custom,
}

/// A handle to any attachable unit held by a `World`, an entity included.
#[derive(Clone, Copy, PartialEq, Eq, Debug, Structural)]
pub struct Component {
    pub index: usize,
}

/// A handle to an entity held by a `World`.
#[derive(Clone, Copy, PartialEq, Eq, Debug, Structural)]
pub struct Entity {
    pub index: usize,
}

impl Entity {
    /// The entity seen as a component, so that it can be nested in another.
    pub fn as_component(&self) -> (r: Component)
        ensures
            r.index == self.index,
    {
        Component { index: self.index }
    }
}

/// What a world operation can report instead of a result.
#[derive(Clone, PartialEq, Eq, Debug)]
pub enum EcsError {
    /// The tag "entity" and the variant `Kind::Entity` belong to entities alone.
    ReservedTag,
    /// A component under the queried tag is not of the queried variant.
    TypeMismatch { tid: String, id: String },
    /// A traversal went deeper than the world has slots: the tree has a cycle.
    TooDeep,
}

} // verus!
