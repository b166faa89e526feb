use vstd::prelude::*;

pub mod component;
pub mod entity;
pub mod shaders;
pub mod traverse;
pub mod world;

pub use component::{
    Component, EcsError, Entity, Kind, CAMERA_ID, ENTITY_ID, EVENT_HANDLER_ID, LIGHT_ID, MODEL_ID,
    TRANSFORM_ID,
};
pub use shaders::Shaders;
pub use traverse::{collect, owner_transform, resolve};
pub use world::World;

verus! {

/// Builds an identifier from its text.
pub fn id(s: &str) -> (r: String)
    ensures
        r@ == s@,
{
    s.to_string()
}

} // verus!
