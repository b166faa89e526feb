use vstd::prelude::*;

verus! {

/// Compiled SPIR-V words of a vertex and a fragment shader.
pub struct Shaders {
    pub vertex: Vec<u32>,
    pub fragment: Vec<u32>,
}

impl Shaders {
    pub fn new(vertex: Vec<u32>, fragment: Vec<u32>) -> (r: Shaders)
        ensures
            r.vertex@ == vertex@,
            r.fragment@ == fragment@,
    {
        Shaders { vertex, fragment }
    }
}

} // verus!
