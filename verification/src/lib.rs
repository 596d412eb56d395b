//! The logic of a layout engine for HTML documents, verified.
//!
//! A document ([`dom`]) and the values that the cascade computed for it
//! ([`style_plane`]) become a tree of boxes ([`box_tree`]), and a layout of that
//! tree becomes fragments ([`fragment`]). Around that stand the bookkeeping of
//! the cascade ([`cascade`], [`matching`], [`snapshot`], [`stylist`]), a session
//! that keeps a layout in step with its document ([`incremental`], [`scroll`]),
//! and what is asked of a laid out page: the box under a point ([`topmost`]),
//! carets and selections, links, images, accessibility.
//!
//! What a style engine, a box layout algorithm or a text shaper computes comes
//! in as plain values or through closures.
pub mod a11y;
pub mod adapter;
pub mod box_tree;
pub mod caret;
pub mod cascade;
pub mod computed_query;
pub mod construct;
pub mod contain_intrinsic;
pub mod dom;
pub mod float_bits;
pub mod font_metrics;
pub mod fragment;
pub mod highlight;
pub mod host_loader;
pub mod image_decode;
pub mod incremental;
pub mod inline_content;
pub mod inline_hit;
pub mod invalidate;
pub mod layout_style;
pub mod link_harvest;
pub mod list_marker;
pub mod matching;
pub mod media;
pub mod node_map;
pub mod overlays;
pub mod pipeline;
pub mod scan;
pub mod scroll;
pub mod snapshot;
pub mod style_plane;
pub mod stylist;
pub mod text;
pub mod text_layout;
pub mod topmost;
