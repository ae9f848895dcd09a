//! Layout state of the GUI.
use vstd::prelude::*;
use crate::collections::ordered_dag::NodeId;

verus! {

/// Marks the GUI graph as dirty, starting at the given node.
#[derive(Debug)]
pub struct LayoutDirty(Option<NodeId>);

impl Default for LayoutDirty {
    /// Nothing is dirty.
    fn default() -> (r: Self)
        ensures
            r.node() is None,
    {
        LayoutDirty(None)
    }
}

impl LayoutDirty {
    /// The dirty node, if any.
    pub closed spec fn node(&self) -> Option<NodeId> {
        self.0
    }

    pub fn with_node_id(node_id: NodeId) -> (r: Self)
        ensures
            r.node() == Some(node_id),
    {
        LayoutDirty(Some(node_id))
    }

    pub fn set_node_id(&mut self, node_id: NodeId)
        ensures
            final(self).node() == Some(node_id),
    {
        self.0 = Some(node_id);
    }

    pub fn node_id(&self) -> (r: Option<NodeId>)
        ensures
            r == self.node(),
    {
        self.0
    }

    /// Takes the dirty node, leaving the graph clean.
    pub fn take_node_id(&mut self) -> (r: Option<NodeId>)
        ensures
            r == old(self).node(),
            final(self).node() is None,
    {
        self.0.take()
    }
}

/// How the children of a widget are arranged.
#[derive(Debug)]
pub enum PackMode {
    Vertical,
    Horizontal,
    Grid { columns: u16 },
    Frame,
}

pub enum MeasurementMode {
    /// In Parent mode the Widget will conform to the space its
    /// parent assigns to it.
    Parent,
    /// In Content mode the Widget will attempt to wrap its
    /// content, and will be asked by the parent how much space
    /// it needs.
    Content,
}

} // verus!
