use vstd::prelude::*;

verus! {

/// How an edge is drawn: a line style and a stroke thickness.
#[derive(Debug, Hash, Clone, Copy)]
pub struct EdgeModel {
    pub line_type: u32,
    pub thickness: u32,
}

impl Default for EdgeModel {
    /// A solid line of thickness 10.
    fn default() -> (r: EdgeModel)
        ensures
            r.line_type == 0,
            r.thickness == 10,
    {
        EdgeModel { line_type: 0, thickness: 10 }
    }
}

} // verus!
