//! The cascade's results as layout reads them: computed values per element,
//! in plain form, and the plane that holds them by node.
use vstd::prelude::*;
use crate::dom::NodeId;
use crate::float_bits::{Bits, FOUR_HUNDRED, ONE, SIXTEEN, ZERO};
use crate::node_map::NodeMap;

verus! {

/// The outer display type.
#[derive(Clone, Copy, Debug, PartialEq, Eq, Structural)]
pub enum DisplayOutside {
    Off,
    Inline,
    Block,
    TableCaption,
    InternalTable,
}

/// The inner display type.
#[derive(Clone, Copy, Debug, PartialEq, Eq, Structural)]
pub enum DisplayInside {
    Off,
    Contents,
    Flow,
    FlowRoot,
    Flex,
    Grid,
    Table,
    TableCell,
    Other,
}

/// `overflow-x` and `overflow-y`.
#[derive(Clone, Copy, Debug, PartialEq, Eq, Structural)]
pub enum Overflow {
    Visible,
    Hidden,
    Scroll,
    Auto,
    Clip,
}

/// `position`.
#[derive(Clone, Copy, Debug, PartialEq, Eq, Structural)]
pub enum Position {
    Static,
    Relative,
    Absolute,
    Fixed,
    Sticky,
}

/// `float`, resolved to a side.
#[derive(Clone, Copy, Debug, PartialEq, Eq, Structural)]
pub enum Float {
    Off,
    Left,
    Right,
}

/// `clear`, resolved to sides.
#[derive(Clone, Copy, Debug, PartialEq, Eq, Structural)]
pub enum Clear {
    Off,
    Left,
    Right,
    Both,
}

/// `white-space-collapse`.
#[derive(Clone, Copy, Debug, PartialEq, Eq, Structural)]
pub enum WhiteSpaceCollapse {
    Collapse,
    Preserve,
    PreserveBreaks,
    BreakSpaces,
}

/// `list-style-type`: no marker, a counter style by name, or one that has no
/// name (a string, `symbols()`).
pub enum ListStyleType {
    NoMarker,
    Name(String),
    Anonymous,
}

/// A generic font family.
#[derive(Clone, Copy, Debug, PartialEq, Eq, Structural)]
pub enum GenericFont {
    Unnamed,
    Serif,
    SansSerif,
    Monospace,
    Cursive,
    Fantasy,
    SystemUi,
}

/// One entry of `font-family`.
pub enum FontFamily {
    Named(String),
    Generic(GenericFont),
}

/// `line-height`: the font's own, a multiple of the font size, or a length.
#[derive(Clone, Copy, Debug, PartialEq, Eq, Structural)]
pub enum LineHeightSpec {
    Normal,
    Factor(Bits),
    Px(Bits),
}

/// A color as straight red, green, blue and alpha.
#[derive(Clone, Copy, Debug, PartialEq, Eq, Structural)]
pub struct Rgba {
    pub r: Bits,
    pub g: Bits,
    pub b: Bits,
    pub a: Bits,
}

/// Opaque black.
pub open spec fn opaque_black() -> Rgba {
    Rgba { r: ZERO, g: ZERO, b: ZERO, a: ONE }
}

/// Transparent black.
pub open spec fn transparent_black() -> Rgba {
    Rgba { r: ZERO, g: ZERO, b: ZERO, a: ZERO }
}

/// Opaque black.
pub fn black() -> (r: Rgba)
    ensures
        r == opaque_black(),
{
    Rgba { r: ZERO, g: ZERO, b: ZERO, a: ONE }
}

/// Transparent black.
pub fn transparent() -> (r: Rgba)
    ensures
        r == transparent_black(),
{
    Rgba { r: ZERO, g: ZERO, b: ZERO, a: ZERO }
}

/// An image value: none, a `url()`, or another kind of image (a gradient).
pub enum CssImage {
    NoImage,
    Url(String),
    Generated,
}

/// The computed values of an element or of one of its pseudo-elements.
pub struct ComputedStyle {
    pub display_outside: DisplayOutside,
    pub display_inside: DisplayInside,
    pub overflow_x: Overflow,
    pub overflow_y: Overflow,
    pub position: Position,
    pub float: Float,
    pub clear: Clear,
    /// Whether `contain` includes `size`.
    pub contain_size: bool,
    /// `width`, where it is a definite length.
    pub width: Option<Bits>,
    /// `height`, where it is a definite length.
    pub height: Option<Bits>,
    pub white_space_collapse: WhiteSpaceCollapse,
    /// Whether `text-wrap-mode` is `nowrap`.
    pub nowrap: bool,
    pub list_style_type: ListStyleType,
    /// Whether `list-style-position` is `inside`.
    pub list_style_inside: bool,
    pub font_size: Bits,
    pub font_weight: Bits,
    /// Whether `font-style` is other than `normal`.
    pub italic: bool,
    pub font_family: Vec<FontFamily>,
    pub line_height: LineHeightSpec,
    pub letter_spacing: Bits,
    pub word_spacing: Bits,
    pub color: Rgba,
    pub background_color: Rgba,
    pub underline: bool,
    pub line_through: bool,
    pub overline: bool,
    pub text_decoration_color: Rgba,
    /// The layers of `background-image`, topmost first.
    pub background_image: Vec<CssImage>,
    pub border_image_source: CssImage,
    /// Whether `pointer-events` is `none`.
    pub pointer_events_none: bool,
    /// The text of each longhand that a computed-value query answers.
    pub longhands: [String; 30],
}

/// The contents of some strings.
pub open spec fn texts_of(v: Seq<String>) -> Seq<Seq<char>> {
    v.map(|i: int, s: String| s@)
}

/// The initial value of each longhand that a computed-value query answers, as CSS
/// text.
pub open spec fn initial_longhands() -> Seq<Seq<char>> {
    seq![
        "rgb(0, 0, 0)"@,
        "rgba(0, 0, 0, 0)"@,
        "inline"@,
        "visible"@,
        "1"@,
        "static"@,
        "auto"@,
        "auto"@,
        "auto"@,
        "auto"@,
        "none"@,
        "visible"@,
        "visible"@,
        "16px"@,
        "serif"@,
        "400"@,
        "normal"@,
        "normal"@,
        "start"@,
        "collapse"@,
        "auto"@,
        "auto"@,
        "0px"@,
        "0px"@,
        "0px"@,
        "0px"@,
        "0px"@,
        "0px"@,
        "0px"@,
        "0px"@,
    ]
}

fn initial_texts() -> (r: [String; 30])
    ensures
        texts_of(r@) == initial_longhands(),
{
    let r: [String; 30] = [
        "rgb(0, 0, 0)".to_owned(),
        "rgba(0, 0, 0, 0)".to_owned(),
        "inline".to_owned(),
        "visible".to_owned(),
        "1".to_owned(),
        "static".to_owned(),
        "auto".to_owned(),
        "auto".to_owned(),
        "auto".to_owned(),
        "auto".to_owned(),
        "none".to_owned(),
        "visible".to_owned(),
        "visible".to_owned(),
        "16px".to_owned(),
        "serif".to_owned(),
        "400".to_owned(),
        "normal".to_owned(),
        "normal".to_owned(),
        "start".to_owned(),
        "collapse".to_owned(),
        "auto".to_owned(),
        "auto".to_owned(),
        "0px".to_owned(),
        "0px".to_owned(),
        "0px".to_owned(),
        "0px".to_owned(),
        "0px".to_owned(),
        "0px".to_owned(),
        "0px".to_owned(),
        "0px".to_owned(),
    ];
    assert(texts_of(r@) =~= initial_longhands());
    r
}

/// The CSS initial values.
pub fn initial_style() -> (r: ComputedStyle)
    ensures
        r.display_outside == DisplayOutside::Inline,
        r.display_inside == DisplayInside::Flow,
        r.overflow_x == Overflow::Visible && r.overflow_y == Overflow::Visible,
        r.position == Position::Static,
        r.float == Float::Off && r.clear == Clear::Off,
        !r.contain_size,
        r.width is None && r.height is None,
        r.white_space_collapse == WhiteSpaceCollapse::Collapse,
        !r.nowrap,
        r.list_style_type matches ListStyleType::Name(n) && n@ == "disc"@,
        !r.list_style_inside,
        r.font_size == SIXTEEN,
        r.font_weight == FOUR_HUNDRED,
        !r.italic,
        r.font_family@.len() == 0,
        r.line_height == LineHeightSpec::Normal,
        r.letter_spacing == ZERO && r.word_spacing == ZERO,
        r.color == opaque_black(),
        r.background_color == transparent_black(),
        !r.underline && !r.line_through && !r.overline,
        r.text_decoration_color == opaque_black(),
        r.background_image@.len() == 0,
        r.border_image_source is NoImage,
        !r.pointer_events_none,
        texts_of(r.longhands@) == initial_longhands(),
{
    ComputedStyle {
        display_outside: DisplayOutside::Inline,
        display_inside: DisplayInside::Flow,
        overflow_x: Overflow::Visible,
        overflow_y: Overflow::Visible,
        position: Position::Static,
        float: Float::Off,
        clear: Clear::Off,
        contain_size: false,
        width: None,
        height: None,
        white_space_collapse: WhiteSpaceCollapse::Collapse,
        nowrap: false,
        list_style_type: ListStyleType::Name("disc".to_owned()),
        list_style_inside: false,
        font_size: SIXTEEN,
        font_weight: FOUR_HUNDRED,
        italic: false,
        font_family: Vec::new(),
        line_height: LineHeightSpec::Normal,
        letter_spacing: ZERO,
        word_spacing: ZERO,
        color: black(),
        background_color: transparent(),
        underline: false,
        line_through: false,
        overline: false,
        text_decoration_color: black(),
        background_image: Vec::new(),
        border_image_source: CssImage::NoImage,
        pointer_events_none: false,
        longhands: initial_texts(),
    }
}

/// The two box-making pseudo-elements.
#[derive(Clone, Copy, Debug, PartialEq, Eq, Structural)]
pub enum PseudoKind {
    Before,
    After,
}

/// What the style engine keeps for one element.
pub struct StyleEntry {
    /// The element's computed values, `None` before the cascade has run.
    pub primary: Option<ComputedStyle>,
    pub before: Option<ComputedStyle>,
    pub after: Option<ComputedStyle>,
    pub selection: Option<ComputedStyle>,
    /// The element's state bits.
    pub state: u64,
    /// The restyle hint of the coming traversal.
    pub hint: u32,
    /// The damage that the last traversal found.
    pub damage: u32,
    /// Whether the traversal has used this element's snapshot.
    pub handled_snapshot: bool,
    /// Whether the traversal must visit the descendants.
    pub dirty_descendants: bool,
    /// The text of the inline `style` attribute to apply.
    pub inline_style: Option<String>,
    /// What selector matching noted for later invalidation.
    pub selector_flags: u32,
}

/// An entry that no cascade has filled yet.
pub open spec fn blank_entry() -> StyleEntry {
    StyleEntry {
        primary: None,
        before: None,
        after: None,
        selection: None,
        state: 0,
        hint: 0,
        damage: 0,
        handled_snapshot: false,
        dirty_descendants: false,
        inline_style: None,
        selector_flags: 0,
    }
}

impl StyleEntry {
    /// An entry that no cascade has filled yet.
    pub fn blank() -> (r: StyleEntry)
        ensures
            r == blank_entry(),
    {
        StyleEntry {
            primary: None,
            before: None,
            after: None,
            selection: None,
            state: 0,
            hint: 0,
            damage: 0,
            handled_snapshot: false,
            dirty_descendants: false,
            inline_style: None,
            selector_flags: 0,
        }
    }
}

/// A replacement for the intrinsic size that an element is sized by.
#[derive(Clone, Copy, Debug, PartialEq, Eq, Structural)]
pub struct ContainIntrinsicOverride {
    pub width: Option<Bits>,
    pub height: Option<Bits>,
}

/// The style of every element, by node.
pub struct StylePlane {
    pub entries: NodeMap<StyleEntry>,
    pub contain_intrinsic: NodeMap<ContainIntrinsicOverride>,
    /// The style of the marker of every list item that a `::marker` rule
    /// matches.
    pub marker_styles: NodeMap<ComputedStyle>,
}

impl StylePlane {
    /// The computed values of `id`, `None` where no cascade has run for it.
    pub open spec fn primary_at(&self, id: NodeId) -> Option<ComputedStyle> {
        if self.entries@.contains_key(id) {
            self.entries@[id].primary
        } else {
            None
        }
    }

    /// An empty plane.
    pub fn new() -> (r: StylePlane)
        ensures
            r.entries@ == Map::<NodeId, StyleEntry>::empty(),
            r.contain_intrinsic@ == Map::<NodeId, ContainIntrinsicOverride>::empty(),
            r.marker_styles@ == Map::<NodeId, ComputedStyle>::empty(),
    {
        StylePlane {
            entries: NodeMap::new(),
            contain_intrinsic: NodeMap::new(),
            marker_styles: NodeMap::new(),
        }
    }

    /// The entry of `id`.
    pub fn get(&self, id: NodeId) -> (r: Option<&StyleEntry>)
        ensures
            r == (if self.entries@.contains_key(id) {
                Some(&self.entries@[id])
            } else {
                None
            }),
    {
        self.entries.get(id)
    }

    /// The computed values of `id`, `None` where no cascade has run for it.
    pub fn primary(&self, id: NodeId) -> (r: Option<&ComputedStyle>)
        ensures
            match r {
                Some(s) => self.primary_at(id) == Some(*s),
                None => self.primary_at(id) is None,
            },
    {
        match self.entries.get(id) {
            Some(e) => match &e.primary {
                Some(s) => Some(s),
                None => None,
            },
            None => None,
        }
    }

    /// The entry of `id`, a blank one where there is none.
    pub open spec fn entry_at(&self, id: NodeId) -> StyleEntry {
        if self.entries@.contains_key(id) {
            self.entries@[id]
        } else {
            blank_entry()
        }
    }

    /// Stores the computed values of `id`, and keeps the rest of its entry.
    pub fn set_primary(&mut self, id: NodeId, style: ComputedStyle)
        ensures
            final(self).entries@ == old(self).entries@.insert(
                id,
                (StyleEntry { primary: Some(style), ..old(self).entry_at(id) }),
            ),
            final(self).contain_intrinsic == old(self).contain_intrinsic,
            final(self).marker_styles == old(self).marker_styles,
    {
        let entry = self.entries.remove(id);
        let mut e = match entry {
            Some(e) => e,
            None => StyleEntry::blank(),
        };
        e.primary = Some(style);
        self.entries.insert(id, e);
        assert(self.entries@ =~= old(self).entries@.insert(
            id,
            StyleEntry { primary: Some(style), ..old(self).entry_at(id) },
        ));
    }
}

/// An entry that no cascade has filled has no style and no mark, and a node without
/// an entry counts as one.
pub proof fn a_blank_entry_holds_nothing(plane: &StylePlane, id: NodeId)
    ensures
        ({
            let e = blank_entry();
            &&& e.primary is None && e.before is None && e.after is None && e.selection is None
            &&& e.state == 0 && e.hint == 0 && e.damage == 0 && e.selector_flags == 0
            &&& !e.handled_snapshot && !e.dirty_descendants
            &&& e.inline_style is None
        }),
        !plane.entries@.contains_key(id) ==> plane.entry_at(id) == blank_entry()
            && plane.primary_at(id) is None,
        plane.entries@.contains_key(id) ==> plane.entry_at(id) == plane.entries@[id]
            && plane.primary_at(id) == plane.entries@[id].primary,
{
}

} // verus!
