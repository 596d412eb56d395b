//! The style that a box is laid out by, from the computed values of its element.
//!
//! What layout has no notion of comes to the nearest that it has: a sticky box
//! is laid out as a relative one, a fixed box as an absolute one, the sizing
//! keywords as `auto`, a table as a grid. Named grid lines are not laid out.
use vstd::prelude::*;
use crate::float_bits::{Bits, ZERO};
use crate::style_plane::{Clear, DisplayInside, DisplayOutside, Float, Overflow, Position};

verus! {

// ---------------------------------------------------------------------------
// Computed values
// ---------------------------------------------------------------------------
/// A length, a part of the containing block, or a sum of such, which stands for
/// itself by its number.
#[derive(Clone, Copy, Debug, PartialEq, Eq, Structural)]
pub enum LengthPercentage {
    Px(Bits),
    Percent(Bits),
    Calc(usize),
}

/// `width` and its kin. The keywords are those that size by the content.
#[derive(Clone, Copy, Debug, PartialEq, Eq, Structural)]
pub enum SizeValue {
    Auto,
    NoLimit,
    Keyword,
    Length(LengthPercentage),
}

/// A margin or an inset.
#[derive(Clone, Copy, Debug, PartialEq, Eq, Structural)]
pub enum MarginValue {
    Auto,
    Length(LengthPercentage),
}

/// `row-gap` and `column-gap`.
#[derive(Clone, Copy, Debug, PartialEq, Eq, Structural)]
pub enum GapValue {
    Normal,
    Length(LengthPercentage),
}

/// `flex-basis`.
#[derive(Clone, Copy, Debug, PartialEq, Eq, Structural)]
pub enum BasisValue {
    Content,
    Size(SizeValue),
}

/// `border-style` of one side, as far as it tells whether the border has a
/// width.
#[derive(Clone, Copy, Debug, PartialEq, Eq, Structural)]
pub enum BorderLine {
    NoLine,
    Hidden,
    Drawn,
}

/// One side of a border.
#[derive(Clone, Copy, Debug, PartialEq, Eq, Structural)]
pub struct BorderValue {
    pub width: Bits,
    pub line: BorderLine,
}

/// What a keyword of the alignment properties says.
#[derive(Clone, Copy, Debug, PartialEq, Eq, Structural)]
pub enum AlignValue {
    Auto,
    Normal,
    Start,
    End,
    Left,
    Right,
    FlexStart,
    FlexEnd,
    SelfStart,
    SelfEnd,
    Center,
    Stretch,
    Baseline,
    SpaceBetween,
    SpaceAround,
    SpaceEvenly,
    Other,
}

/// `box-sizing`.
#[derive(Clone, Copy, Debug, PartialEq, Eq, Structural)]
pub enum BoxSizing {
    ContentBox,
    BorderBox,
}

/// `flex-direction`.
#[derive(Clone, Copy, Debug, PartialEq, Eq, Structural)]
pub enum FlexDirection {
    Row,
    RowReverse,
    Column,
    ColumnReverse,
}

/// `flex-wrap`.
#[derive(Clone, Copy, Debug, PartialEq, Eq, Structural)]
pub enum FlexWrap {
    NoWrap,
    Wrap,
    WrapReverse,
}

/// A value for each side of a box.
#[derive(Clone, Copy, Debug, PartialEq, Eq, Structural)]
pub struct Sides<T> {
    pub left: T,
    pub right: T,
    pub top: T,
    pub bottom: T,
}

/// A value for each axis.
#[derive(Clone, Copy, Debug, PartialEq, Eq, Structural)]
pub struct Axes<T> {
    pub width: T,
    pub height: T,
}

/// The computed values that a box is laid out by.
#[derive(Clone, Copy, Debug, PartialEq, Eq)]
pub struct BoxValues {
    pub display_outside: DisplayOutside,
    pub display_inside: DisplayInside,
    pub box_sizing: BoxSizing,
    pub position: Position,
    pub overflow_x: Overflow,
    pub overflow_y: Overflow,
    pub float: Float,
    pub clear: Clear,
    pub width: SizeValue,
    pub height: SizeValue,
    pub min_width: SizeValue,
    pub min_height: SizeValue,
    pub max_width: SizeValue,
    pub max_height: SizeValue,
    pub aspect_ratio: Option<Bits>,
    pub inset: Sides<MarginValue>,
    pub margin: Sides<MarginValue>,
    pub padding: Sides<LengthPercentage>,
    pub border: Sides<BorderValue>,
    pub column_gap: GapValue,
    pub row_gap: GapValue,
    pub align_content: AlignValue,
    pub justify_content: AlignValue,
    pub align_items: AlignValue,
    pub align_self: AlignValue,
    pub flex_direction: FlexDirection,
    pub flex_wrap: FlexWrap,
    pub flex_grow: Bits,
    pub flex_shrink: Bits,
    pub flex_basis: BasisValue,
}

// ---------------------------------------------------------------------------
// The style of a box
// ---------------------------------------------------------------------------
/// How a box lays out what is in it.
#[derive(Clone, Copy, Debug, PartialEq, Eq, Structural)]
pub enum BoxDisplay {
    Off,
    Block,
    Flex,
    Grid,
}

/// How a box is placed.
#[derive(Clone, Copy, Debug, PartialEq, Eq, Structural)]
pub enum BoxPosition {
    Relative,
    Absolute,
}

/// What a box does with what does not fit.
#[derive(Clone, Copy, Debug, PartialEq, Eq, Structural)]
pub enum BoxOverflow {
    Visible,
    Clip,
    Hidden,
    Scroll,
}

/// A length that layout may have to find.
#[derive(Clone, Copy, Debug, PartialEq, Eq, Structural)]
pub enum Dimension {
    Auto,
    Length(LengthPercentage),
}

/// How lines or tracks are aligned.
#[derive(Clone, Copy, Debug, PartialEq, Eq, Structural)]
pub enum ContentAlignment {
    Start,
    End,
    FlexStart,
    FlexEnd,
    Center,
    Stretch,
    SpaceBetween,
    SpaceAround,
    SpaceEvenly,
}

/// How boxes are aligned.
#[derive(Clone, Copy, Debug, PartialEq, Eq, Structural)]
pub enum ItemAlignment {
    Start,
    End,
    FlexStart,
    FlexEnd,
    Center,
    Stretch,
    Baseline,
}

/// The style that a box is laid out by.
#[derive(Clone, Copy, Debug, PartialEq, Eq)]
pub struct BoxStyle {
    pub display: BoxDisplay,
    pub box_sizing: BoxSizing,
    pub position: BoxPosition,
    pub overflow_x: BoxOverflow,
    pub overflow_y: BoxOverflow,
    pub float: Float,
    pub clear: Clear,
    pub size: Axes<Dimension>,
    pub min_size: Axes<Dimension>,
    pub max_size: Axes<Dimension>,
    pub aspect_ratio: Option<Bits>,
    pub inset: Sides<Dimension>,
    pub margin: Sides<Dimension>,
    pub padding: Sides<LengthPercentage>,
    pub border: Sides<LengthPercentage>,
    pub gap: Axes<LengthPercentage>,
    pub align_content: Option<ContentAlignment>,
    pub justify_content: Option<ContentAlignment>,
    pub align_items: Option<ItemAlignment>,
    pub align_self: Option<ItemAlignment>,
    pub flex_direction: FlexDirection,
    pub flex_wrap: FlexWrap,
    pub flex_grow: Bits,
    pub flex_shrink: Bits,
    pub flex_basis: Dimension,
}

// ---------------------------------------------------------------------------
// One value
// ---------------------------------------------------------------------------
/// How a box of a `display` lays out what is in it.
pub open spec fn display_of(outside: DisplayOutside, inside: DisplayInside) -> BoxDisplay {
    if outside == DisplayOutside::Off || inside == DisplayInside::Off {
        BoxDisplay::Off
    } else {
        match inside {
            DisplayInside::Flow => BoxDisplay::Block,
            DisplayInside::FlowRoot => BoxDisplay::Block,
            DisplayInside::TableCell => BoxDisplay::Block,
            DisplayInside::Grid => BoxDisplay::Grid,
            DisplayInside::Table => BoxDisplay::Grid,
            _ => BoxDisplay::Flex,
        }
    }
}

/// How a box of a `display` lays out what is in it.
pub fn box_display(outside: DisplayOutside, inside: DisplayInside) -> (r: BoxDisplay)
    ensures
        r == display_of(outside, inside),
{
    if outside == DisplayOutside::Off || inside == DisplayInside::Off {
        BoxDisplay::Off
    } else {
        match inside {
            DisplayInside::Flow => BoxDisplay::Block,
            DisplayInside::FlowRoot => BoxDisplay::Block,
            DisplayInside::TableCell => BoxDisplay::Block,
            DisplayInside::Grid => BoxDisplay::Grid,
            DisplayInside::Table => BoxDisplay::Grid,
            _ => BoxDisplay::Flex,
        }
    }
}

/// How a box of a `position` is placed: by its containing block where it is out
/// of the flow.
pub open spec fn position_of(p: Position) -> BoxPosition {
    if p == Position::Absolute || p == Position::Fixed {
        BoxPosition::Absolute
    } else {
        BoxPosition::Relative
    }
}

fn box_position(p: Position) -> (r: BoxPosition)
    ensures
        r == position_of(p),
{
    if p == Position::Absolute || p == Position::Fixed {
        BoxPosition::Absolute
    } else {
        BoxPosition::Relative
    }
}

/// What a box of an `overflow` does: `auto` scrolls.
pub open spec fn overflow_of(o: Overflow) -> BoxOverflow {
    match o {
        Overflow::Visible => BoxOverflow::Visible,
        Overflow::Clip => BoxOverflow::Clip,
        Overflow::Hidden => BoxOverflow::Hidden,
        Overflow::Scroll => BoxOverflow::Scroll,
        Overflow::Auto => BoxOverflow::Scroll,
    }
}

fn box_overflow(o: Overflow) -> (r: BoxOverflow)
    ensures
        r == overflow_of(o),
{
    match o {
        Overflow::Visible => BoxOverflow::Visible,
        Overflow::Clip => BoxOverflow::Clip,
        Overflow::Hidden => BoxOverflow::Hidden,
        Overflow::Scroll => BoxOverflow::Scroll,
        Overflow::Auto => BoxOverflow::Scroll,
    }
}

/// A size as layout has it: all but a length is `auto`.
pub open spec fn dimension_of(v: SizeValue) -> Dimension {
    match v {
        SizeValue::Length(l) => Dimension::Length(l),
        _ => Dimension::Auto,
    }
}

fn dimension(v: SizeValue) -> (r: Dimension)
    ensures
        r == dimension_of(v),
{
    match v {
        SizeValue::Length(l) => Dimension::Length(l),
        _ => Dimension::Auto,
    }
}

/// A margin or an inset as layout has it.
pub open spec fn margin_of(v: MarginValue) -> Dimension {
    match v {
        MarginValue::Auto => Dimension::Auto,
        MarginValue::Length(l) => Dimension::Length(l),
    }
}

fn margin(v: MarginValue) -> (r: Dimension)
    ensures
        r == margin_of(v),
{
    match v {
        MarginValue::Auto => Dimension::Auto,
        MarginValue::Length(l) => Dimension::Length(l),
    }
}

/// The width of a border: none where no line is drawn.
pub open spec fn border_of(v: BorderValue) -> LengthPercentage {
    if v.line == BorderLine::Drawn {
        LengthPercentage::Px(v.width)
    } else {
        LengthPercentage::Px(ZERO)
    }
}

fn border(v: BorderValue) -> (r: LengthPercentage)
    ensures
        r == border_of(v),
{
    if v.line == BorderLine::Drawn {
        LengthPercentage::Px(v.width)
    } else {
        LengthPercentage::Px(ZERO)
    }
}

/// A gap: `normal` is none.
pub open spec fn gap_of(v: GapValue) -> LengthPercentage {
    match v {
        GapValue::Normal => LengthPercentage::Px(ZERO),
        GapValue::Length(l) => l,
    }
}

fn gap(v: GapValue) -> (r: LengthPercentage)
    ensures
        r == gap_of(v),
{
    match v {
        GapValue::Normal => LengthPercentage::Px(ZERO),
        GapValue::Length(l) => l,
    }
}

/// A `flex-basis`: `content` is `auto`.
pub open spec fn basis_of(v: BasisValue) -> Dimension {
    match v {
        BasisValue::Content => Dimension::Auto,
        BasisValue::Size(s) => dimension_of(s),
    }
}

fn basis(v: BasisValue) -> (r: Dimension)
    ensures
        r == basis_of(v),
{
    match v {
        BasisValue::Content => Dimension::Auto,
        BasisValue::Size(s) => dimension(s),
    }
}

/// How lines or tracks are aligned; `None` where the keyword leaves it open.
pub open spec fn content_alignment_of(v: AlignValue) -> Option<ContentAlignment> {
    match v {
        AlignValue::Start => Some(ContentAlignment::Start),
        AlignValue::Left => Some(ContentAlignment::Start),
        AlignValue::End => Some(ContentAlignment::End),
        AlignValue::Right => Some(ContentAlignment::End),
        AlignValue::FlexStart => Some(ContentAlignment::FlexStart),
        AlignValue::FlexEnd => Some(ContentAlignment::FlexEnd),
        AlignValue::Center => Some(ContentAlignment::Center),
        AlignValue::Stretch => Some(ContentAlignment::Stretch),
        AlignValue::SpaceBetween => Some(ContentAlignment::SpaceBetween),
        AlignValue::SpaceAround => Some(ContentAlignment::SpaceAround),
        AlignValue::SpaceEvenly => Some(ContentAlignment::SpaceEvenly),
        _ => None,
    }
}

/// How lines or tracks are aligned.
pub fn content_alignment(v: AlignValue) -> (r: Option<ContentAlignment>)
    ensures
        r == content_alignment_of(v),
{
    match v {
        AlignValue::Start => Some(ContentAlignment::Start),
        AlignValue::Left => Some(ContentAlignment::Start),
        AlignValue::End => Some(ContentAlignment::End),
        AlignValue::Right => Some(ContentAlignment::End),
        AlignValue::FlexStart => Some(ContentAlignment::FlexStart),
        AlignValue::FlexEnd => Some(ContentAlignment::FlexEnd),
        AlignValue::Center => Some(ContentAlignment::Center),
        AlignValue::Stretch => Some(ContentAlignment::Stretch),
        AlignValue::SpaceBetween => Some(ContentAlignment::SpaceBetween),
        AlignValue::SpaceAround => Some(ContentAlignment::SpaceAround),
        AlignValue::SpaceEvenly => Some(ContentAlignment::SpaceEvenly),
        _ => None,
    }
}

/// How boxes are aligned; `None` where the keyword leaves it to the parent.
/// `normal` stretches.
pub open spec fn item_alignment_of(v: AlignValue) -> Option<ItemAlignment> {
    match v {
        AlignValue::Normal => Some(ItemAlignment::Stretch),
        AlignValue::Stretch => Some(ItemAlignment::Stretch),
        AlignValue::Start => Some(ItemAlignment::Start),
        AlignValue::SelfStart => Some(ItemAlignment::Start),
        AlignValue::Left => Some(ItemAlignment::Start),
        AlignValue::End => Some(ItemAlignment::End),
        AlignValue::SelfEnd => Some(ItemAlignment::End),
        AlignValue::Right => Some(ItemAlignment::End),
        AlignValue::FlexStart => Some(ItemAlignment::FlexStart),
        AlignValue::FlexEnd => Some(ItemAlignment::FlexEnd),
        AlignValue::Center => Some(ItemAlignment::Center),
        AlignValue::Baseline => Some(ItemAlignment::Baseline),
        _ => None,
    }
}

/// How boxes are aligned.
pub fn item_alignment(v: AlignValue) -> (r: Option<ItemAlignment>)
    ensures
        r == item_alignment_of(v),
{
    match v {
        AlignValue::Normal => Some(ItemAlignment::Stretch),
        AlignValue::Stretch => Some(ItemAlignment::Stretch),
        AlignValue::Start => Some(ItemAlignment::Start),
        AlignValue::SelfStart => Some(ItemAlignment::Start),
        AlignValue::Left => Some(ItemAlignment::Start),
        AlignValue::End => Some(ItemAlignment::End),
        AlignValue::SelfEnd => Some(ItemAlignment::End),
        AlignValue::Right => Some(ItemAlignment::End),
        AlignValue::FlexStart => Some(ItemAlignment::FlexStart),
        AlignValue::FlexEnd => Some(ItemAlignment::FlexEnd),
        AlignValue::Center => Some(ItemAlignment::Center),
        AlignValue::Baseline => Some(ItemAlignment::Baseline),
        _ => None,
    }
}

// ---------------------------------------------------------------------------
// All values
// ---------------------------------------------------------------------------
/// A value for each side, each mapped.
pub open spec fn each_side<S, T>(s: Sides<S>, f: spec_fn(S) -> T) -> Sides<T> {
    Sides { left: f(s.left), right: f(s.right), top: f(s.top), bottom: f(s.bottom) }
}

/// The style that a box is laid out by: every value as layout has it, on the
/// side and the axis that it was computed for.
pub fn to_taffy_style(v: &BoxValues) -> (r: BoxStyle)
    ensures
        r.display == display_of(v.display_outside, v.display_inside),
        r.box_sizing == v.box_sizing,
        r.position == position_of(v.position),
        r.overflow_x == overflow_of(v.overflow_x),
        r.overflow_y == overflow_of(v.overflow_y),
        r.float == v.float,
        r.clear == v.clear,
        r.size == (Axes { width: dimension_of(v.width), height: dimension_of(v.height) }),
        r.min_size == (Axes {
            width: dimension_of(v.min_width),
            height: dimension_of(v.min_height),
        }),
        r.max_size == (Axes {
            width: dimension_of(v.max_width),
            height: dimension_of(v.max_height),
        }),
        r.aspect_ratio == v.aspect_ratio,
        r.inset == each_side(v.inset, |m: MarginValue| margin_of(m)),
        r.margin == each_side(v.margin, |m: MarginValue| margin_of(m)),
        r.padding == v.padding,
        r.border == each_side(v.border, |b: BorderValue| border_of(b)),
        r.gap == (Axes { width: gap_of(v.column_gap), height: gap_of(v.row_gap) }),
        r.align_content == content_alignment_of(v.align_content),
        r.justify_content == content_alignment_of(v.justify_content),
        r.align_items == item_alignment_of(v.align_items),
        r.align_self == item_alignment_of(v.align_self),
        r.flex_direction == v.flex_direction,
        r.flex_wrap == v.flex_wrap,
        r.flex_grow == v.flex_grow,
        r.flex_shrink == v.flex_shrink,
        r.flex_basis == basis_of(v.flex_basis),
{
    BoxStyle {
        display: box_display(v.display_outside, v.display_inside),
        box_sizing: v.box_sizing,
        position: box_position(v.position),
        overflow_x: box_overflow(v.overflow_x),
        overflow_y: box_overflow(v.overflow_y),
        float: v.float,
        clear: v.clear,
        size: Axes { width: dimension(v.width), height: dimension(v.height) },
        min_size: Axes { width: dimension(v.min_width), height: dimension(v.min_height) },
        max_size: Axes { width: dimension(v.max_width), height: dimension(v.max_height) },
        aspect_ratio: v.aspect_ratio,
        inset: Sides {
            left: margin(v.inset.left),
            right: margin(v.inset.right),
            top: margin(v.inset.top),
            bottom: margin(v.inset.bottom),
        },
        margin: Sides {
            left: margin(v.margin.left),
            right: margin(v.margin.right),
            top: margin(v.margin.top),
            bottom: margin(v.margin.bottom),
        },
        padding: v.padding,
        border: Sides {
            left: border(v.border.left),
            right: border(v.border.right),
            top: border(v.border.top),
            bottom: border(v.border.bottom),
        },
        gap: Axes { width: gap(v.column_gap), height: gap(v.row_gap) },
        align_content: content_alignment(v.align_content),
        justify_content: content_alignment(v.justify_content),
        align_items: item_alignment(v.align_items),
        align_self: item_alignment(v.align_self),
        flex_direction: v.flex_direction,
        flex_wrap: v.flex_wrap,
        flex_grow: v.flex_grow,
        flex_shrink: v.flex_shrink,
        flex_basis: basis(v.flex_basis),
    }
}

// ---------------------------------------------------------------------------
// Forced sizes
// ---------------------------------------------------------------------------
/// The style of a box whose size is forced on it: a replaced element's box has
/// its definite size on both axes, in place of what its style says.
pub fn css_style(style: BoxStyle, replaced: Option<(Bits, Bits)>) -> (r: BoxStyle)
    ensures
        r == (match replaced {
            Some((w, h)) => BoxStyle {
                size: Axes {
                    width: Dimension::Length(LengthPercentage::Px(w)),
                    height: Dimension::Length(LengthPercentage::Px(h)),
                },
                ..style
            },
            None => style,
        }),
{
    match replaced {
        Some((w, h)) => {
            let mut forced = style;
            forced.size = Axes {
                width: Dimension::Length(LengthPercentage::Px(w)),
                height: Dimension::Length(LengthPercentage::Px(h)),
            };
            forced
        },
        None => style,
    }
}

// ---------------------------------------------------------------------------
// Laws
// ---------------------------------------------------------------------------
/// A box is not laid out where its `display` says `none` outside or inside. Otherwise a
/// grid and a table are laid out as grids, a flow, its root and a table cell as blocks,
/// and all else as a flex container.
pub proof fn a_display_is_laid_out_by_its_inside(outside: DisplayOutside, inside: DisplayInside)
    ensures
        ({
            let d = display_of(outside, inside);
            let shown = outside != DisplayOutside::Off && inside != DisplayInside::Off;
            &&& d == BoxDisplay::Off <==> !shown
            &&& d == BoxDisplay::Grid <==> shown && (inside == DisplayInside::Grid || inside
                == DisplayInside::Table)
            &&& d == BoxDisplay::Block <==> shown && (inside == DisplayInside::Flow || inside
                == DisplayInside::FlowRoot || inside == DisplayInside::TableCell)
        }),
{
}

/// Absolute and fixed boxes are placed by their containing block, all others in the
/// flow. What overflows is shown, cut off or scrolled as its keyword says, and `auto`
/// scrolls.
pub proof fn a_box_is_placed_and_cut_off_as_its_keywords_say(p: Position, o: Overflow)
    ensures
        position_of(p) == BoxPosition::Absolute <==> p == Position::Absolute || p
            == Position::Fixed,
        overflow_of(o) == BoxOverflow::Visible <==> o == Overflow::Visible,
        overflow_of(o) == BoxOverflow::Clip <==> o == Overflow::Clip,
        overflow_of(o) == BoxOverflow::Hidden <==> o == Overflow::Hidden,
        overflow_of(o) == BoxOverflow::Scroll <==> o == Overflow::Scroll || o == Overflow::Auto,
{
}

/// A length stays what it is on its way into layout; whatever else a size, a margin, a
/// basis or a gap says leaves the length to layout, or is none.
pub proof fn lengths_stay_what_they_are(
    s: SizeValue,
    m: MarginValue,
    b: BasisValue,
    g: GapValue,
    e: BorderValue,
    l: LengthPercentage,
)
    ensures
        dimension_of(s) == Dimension::Length(l) <==> s == SizeValue::Length(l),
        margin_of(m) == Dimension::Length(l) <==> m == MarginValue::Length(l),
        basis_of(b) == Dimension::Length(l) <==> b == BasisValue::Size(SizeValue::Length(l)),
        g == GapValue::Length(l) ==> gap_of(g) == l,
        g == GapValue::Normal ==> gap_of(g) == LengthPercentage::Px(ZERO),
        e.line == BorderLine::Drawn ==> border_of(e) == LengthPercentage::Px(e.width),
        e.line != BorderLine::Drawn ==> border_of(e) == LengthPercentage::Px(ZERO),
{
}

/// Each alignment keyword that layout knows is that alignment: `left` is the start and
/// `right` the end, and for boxes their own start and end too, and `normal` stretches.
/// What layout does not know is left open.
pub proof fn alignments_are_what_their_keywords_say(v: AlignValue)
    ensures
        ({
            let c = content_alignment_of(v);
            &&& c == Some(ContentAlignment::Start) <==> v == AlignValue::Start || v
                == AlignValue::Left
            &&& c == Some(ContentAlignment::End) <==> v == AlignValue::End || v
                == AlignValue::Right
            &&& c == Some(ContentAlignment::FlexStart) <==> v == AlignValue::FlexStart
            &&& c == Some(ContentAlignment::FlexEnd) <==> v == AlignValue::FlexEnd
            &&& c == Some(ContentAlignment::Center) <==> v == AlignValue::Center
            &&& c == Some(ContentAlignment::Stretch) <==> v == AlignValue::Stretch
            &&& c == Some(ContentAlignment::SpaceBetween) <==> v == AlignValue::SpaceBetween
            &&& c == Some(ContentAlignment::SpaceAround) <==> v == AlignValue::SpaceAround
            &&& c == Some(ContentAlignment::SpaceEvenly) <==> v == AlignValue::SpaceEvenly
        }),
        ({
            let i = item_alignment_of(v);
            &&& i == Some(ItemAlignment::Start) <==> v == AlignValue::Start || v
                == AlignValue::SelfStart || v == AlignValue::Left
            &&& i == Some(ItemAlignment::End) <==> v == AlignValue::End || v
                == AlignValue::SelfEnd || v == AlignValue::Right
            &&& i == Some(ItemAlignment::FlexStart) <==> v == AlignValue::FlexStart
            &&& i == Some(ItemAlignment::FlexEnd) <==> v == AlignValue::FlexEnd
            &&& i == Some(ItemAlignment::Center) <==> v == AlignValue::Center
            &&& i == Some(ItemAlignment::Stretch) <==> v == AlignValue::Stretch || v
                == AlignValue::Normal
            &&& i == Some(ItemAlignment::Baseline) <==> v == AlignValue::Baseline
        }),
{
}

/// What is mapped side by side keeps each side in its place.
pub proof fn each_side_stays_in_its_place<S, T>(s: Sides<S>, f: spec_fn(S) -> T)
    ensures
        each_side(s, f).left == f(s.left),
        each_side(s, f).right == f(s.right),
        each_side(s, f).top == f(s.top),
        each_side(s, f).bottom == f(s.bottom),
{
}

} // verus!
