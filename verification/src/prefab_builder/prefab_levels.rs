use vstd::prelude::*;

verus! {

/// A template that makes up a whole level.
#[derive(PartialEq, Eq, Clone, Copy, Debug)]
pub struct PrefabLevel {
    pub template: &'static str,
    pub width: usize,
    pub height: usize,
}

/// One layer of a layered image: `width * height` character codes, row by
/// row.
pub struct RexLayer {
    pub width: usize,
    pub height: usize,
    pub cells: Vec<u32>,
}

/// A layered image of character codes, the first layer lowest.
pub struct RexImage {
    pub layers: Vec<RexLayer>,
}

impl RexLayer {
    pub open spec fn wf(&self) -> bool {
        self.cells@.len() == self.width * self.height
    }
}

impl RexImage {
    pub open spec fn wf(&self) -> bool {
        forall|i: int| 0 <= i < self.layers@.len() ==> (#[trigger] self.layers@[i]).wf()
    }
}

} // verus!
