use vstd::prelude::*;

verus! {

/// One node of a Bézier path. Coordinates are the bit patterns of `f32` values.
#[derive(Clone, Copy, Debug, PartialEq, Eq, Structural)]
pub struct PathNode {
    pub anchor_x: u32,
    pub anchor_y: u32,
    pub handle_in_x: u32,
    pub handle_in_y: u32,
    pub handle_out_x: u32,
    pub handle_out_y: u32,
    pub smooth: bool,
}

/// The pen tool's working path.
pub struct BezierPath {
    pub nodes: Vec<PathNode>,
    pub is_closed: bool,
}

#[verifier::ext_equal]
pub struct PathModel {
    pub nodes: Seq<PathNode>,
    pub is_closed: bool,
}

impl View for BezierPath {
    type V = PathModel;

    open spec fn view(&self) -> PathModel {
        PathModel { nodes: self.nodes@, is_closed: self.is_closed }
    }
}

impl Clone for BezierPath {
    fn clone(&self) -> (r: Self)
        ensures
            r@ == self@,
    {
        let nodes = self.nodes.clone();
        assert(nodes@ =~= self.nodes@);
        BezierPath { nodes, is_closed: self.is_closed }
    }
}

impl BezierPath {
    pub fn new() -> (p: BezierPath)
        ensures
            p@ == (PathModel { nodes: Seq::empty(), is_closed: false }),
    {
        let p = BezierPath { nodes: Vec::new(), is_closed: false };
        assert(p@.nodes =~= Seq::<PathNode>::empty());
        p
    }

    /// Whether both paths hold the same nodes and closure.
    pub fn same_as(&self, other: &BezierPath) -> (r: bool)
        ensures
            r == (self@ == other@),
    {
        if self.is_closed != other.is_closed || self.nodes.len() != other.nodes.len() {
            return false;
        }
        let n = self.nodes.len();
        for i in 0..n
            invariant
                n == self.nodes.len(),
                n == other.nodes.len(),
                forall|k: int| 0 <= k < i ==> self.nodes@[k] == other.nodes@[k],
        {
            if self.nodes[i] != other.nodes[i] {
                return false;
            }
        }
        assert(self.nodes@ =~= other.nodes@);
        true
    }
}

} // verus!
