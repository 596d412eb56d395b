//! Shaped text as layout reads it back: for each box that text is set in, its
//! lines and where on them the clusters stand.
use vstd::prelude::*;
use crate::float_bits::Bits;
use crate::node_map::NodeMap;

verus! {

/// Where a cluster stands on its line: the glyphs of one or more characters that
/// are shaped together. A run of text in one font has many, whatever the colors
/// and elements in it.
#[derive(Clone, Copy, Debug, PartialEq, Eq, Structural)]
pub struct Cluster {
    /// The cluster's left edge.
    pub start: Bits,
    /// The cluster's right edge, which does not belong to it.
    pub end: Bits,
    /// The byte offset of the cluster's own first character in the box's text.
    pub byte: usize,
}

/// Where an inline box stands in the text's own space.
#[derive(Clone, Copy, Debug, PartialEq, Eq, Structural)]
pub struct PlacedBox {
    /// The box's number in the inline content.
    pub id: usize,
    pub x: Bits,
    pub y: Bits,
    pub width: Bits,
    pub height: Bits,
}

/// A line of shaped text.
pub struct LineBox {
    /// The top of the line box, half its leading above the ascent.
    pub top: Bits,
    /// The bottom of the line box, half its leading below the descent.
    pub bottom: Bits,
    /// Where the line's block band ends.
    pub block_max: Bits,
    /// The byte offset at which the line's text ends.
    pub text_end: usize,
    /// The clusters, in the order in which they are painted.
    pub clusters: Vec<Cluster>,
    /// The inline boxes on the line, in their order.
    pub boxes: Vec<PlacedBox>,
}

/// The shaped text of one box.
pub struct TextLayout {
    pub lines: Vec<LineBox>,
}

/// The shaped text of every box that has some, by box.
pub struct TextMeasureCtx {
    pub layouts: NodeMap<TextLayout>,
}

} // verus!
