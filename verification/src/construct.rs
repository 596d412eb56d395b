//! What an element's box is: whether it flows inline, holds text or is
//! replaced, how large a replaced one is, and how its white space collapses.
use vstd::prelude::*;
use vstd::string::*;
use vstd::utf8::*;
use crate::dom::{Dom, NodeId, NodeKind};
use crate::float_bits;
use crate::float_bits::{
    at_most, finite, less, Bits, FOUR_HUNDRED, ONE_HUNDRED_FIFTY, SIXTEEN, THREE_HUNDRED, ZERO,
};
use crate::image_decode::ImagePlane;
use crate::list_marker;
use crate::list_marker::list_marker_text;
use crate::style_plane;
use crate::style_plane::{
    black, transparent, Clear, ComputedStyle, DisplayInside, DisplayOutside, Float, FontFamily,
    GenericFont, LineHeightSpec, Rgba, StylePlane, WhiteSpaceCollapse,
};
use crate::text;
use crate::text::{chars_of, parse_u64, str_eq, trim};

verus! {

// ---------------------------------------------------------------------------
// White space
// ---------------------------------------------------------------------------
/// A text with each run of white space made one space.
pub open spec fn collapsed(s: Seq<char>) -> Seq<char>
    decreases s.len(),
{
    if s.len() == 0 {
        Seq::empty()
    } else {
        let before = collapsed(s.drop_last());
        if !text::is_white_space(s.last()) {
            before.push(s.last())
        } else if s.len() >= 2 && text::is_white_space(s[s.len() - 2]) {
            before
        } else {
            before.push(' ')
        }
    }
}

/// The length of the run of white space that a text begins with.
pub open spec fn space_run(s: Seq<char>) -> nat
    decreases s.len(),
{
    if s.len() == 0 || !text::is_white_space(s[0]) {
        0
    } else {
        1 + space_run(s.skip(1))
    }
}

/// A text with each run of white space made one newline where it holds one,
/// else one space.
pub open spec fn collapsed_to_breaks(s: Seq<char>) -> Seq<char>
    decreases s.len(),
{
    if s.len() == 0 {
        Seq::empty()
    } else if text::is_white_space(s[0]) {
        proof {
            lemma_space_run_fits(s.skip(1));
        }
        let n = space_run(s.skip(1)) + 1;
        let mark = if s.take(n as int).contains('\n') {
            '\n'
        } else {
            ' '
        };
        seq![mark] + collapsed_to_breaks(s.skip(n as int))
    } else {
        seq![s[0]] + collapsed_to_breaks(s.skip(1))
    }
}

proof fn lemma_collapsed_last(s: Seq<char>)
    requires
        s.len() > 0,
    ensures
        collapsed(s).len() > 0,
        text::is_white_space(collapsed(s).last()) == text::is_white_space(s.last()),
    decreases s.len(),
{
    if s.len() >= 2 && text::is_white_space(s.last()) && text::is_white_space(s[s.len() - 2]) {
        assert(s.drop_last().last() == s[s.len() - 2]);
        lemma_collapsed_last(s.drop_last());
    }
}

/// What is collapsed stays as it is when it is collapsed again.
proof fn lemma_collapsed_twice(s: Seq<char>)
    ensures
        collapsed(collapsed(s)) == collapsed(s),
    decreases s.len(),
{
    if s.len() > 0 {
        let before = collapsed(s.drop_last());
        lemma_collapsed_twice(s.drop_last());
        let now = collapsed(s);
        if now.len() > before.len() {
            assert(now.drop_last() =~= before);
            if s.len() >= 2 {
                lemma_collapsed_last(s.drop_last());
                assert(s.drop_last().last() == s[s.len() - 2]);
                assert(now[now.len() - 2] == before.last());
            }
        }
    }
}

/// Makes each run of white space one space (`white-space: normal`). A text
/// that is collapsed already does not change.
pub fn collapse_whitespace(s: &str) -> (r: String)
    ensures
        r@ == collapsed(s@),
        collapsed(r@) == r@,
{
    let chars = chars_of(s);
    let mut out: String = String::new();
    let mut prev_ws = false;
    let mut i: usize = 0;
    while i < chars.len()
        invariant
            chars@ == s@,
            i <= chars@.len(),
            out@ == collapsed(s@.take(i as int)),
            prev_ws == (i > 0 && text::is_white_space(s@[i - 1])),
        decreases chars.len() - i,
    {
        let c = chars[i];
        assert(s@.take(i + 1).drop_last() =~= s@.take(i as int));
        if c.is_whitespace() {
            if !prev_ws {
                out.push(' ');
            }
            prev_ws = true;
        } else {
            out.push(c);
            prev_ws = false;
        }
        i += 1;
    }
    assert(s@.take(i as int) =~= s@);
    proof {
        lemma_collapsed_twice(s@);
    }
    out
}

/// What is left to write while a run of white space is open: `None` where none
/// is, else whether a newline was in it so far.
spec fn rest_with_run(run: Option<bool>, s: Seq<char>) -> Seq<char> {
    match run {
        None => collapsed_to_breaks(s),
        Some(b) => {
            let n = space_run(s);
            let mark = if b || s.take(n as int).contains('\n') {
                '\n'
            } else {
                ' '
            };
            seq![mark] + collapsed_to_breaks(s.skip(n as int))
        },
    }
}

proof fn lemma_run_opens(s: Seq<char>)
    requires
        s.len() > 0,
        text::is_white_space(s[0]),
    ensures
        rest_with_run(None, s) == rest_with_run(Some(s[0] == '\n'), s.skip(1)),
{
    let n = space_run(s.skip(1));
    lemma_space_run_fits(s.skip(1));
    assert(s.take((n + 1) as int) =~= seq![s[0]] + s.skip(1).take(n as int));
    assert(s.skip((n + 1) as int) =~= s.skip(1).skip(n as int));
    lemma_contains_front(s[0], s.skip(1).take(n as int));
}

proof fn lemma_run_goes_on(b: bool, s: Seq<char>)
    requires
        s.len() > 0,
        text::is_white_space(s[0]),
    ensures
        rest_with_run(Some(b), s) == rest_with_run(Some(b || s[0] == '\n'), s.skip(1)),
{
    let n = space_run(s.skip(1));
    lemma_space_run_fits(s.skip(1));
    assert(s.take((n + 1) as int) =~= seq![s[0]] + s.skip(1).take(n as int));
    assert(s.skip((n + 1) as int) =~= s.skip(1).skip(n as int));
    lemma_contains_front(s[0], s.skip(1).take(n as int));
}

/// A run of white space is part of the text it begins.
pub proof fn lemma_space_run_fits(s: Seq<char>)
    ensures
        space_run(s) <= s.len(),
    decreases s.len(),
{
    if s.len() > 0 && text::is_white_space(s[0]) {
        lemma_space_run_fits(s.skip(1));
    }
}

proof fn lemma_contains_front(c: char, rest: Seq<char>)
    ensures
        (seq![c] + rest).contains('\n') == (c == '\n' || rest.contains('\n')),
{
    let all = seq![c] + rest;
    if all.contains('\n') {
        let i = choose|i: int| 0 <= i < all.len() && all[i] == '\n';
        if i > 0 {
            assert(rest[i - 1] == '\n');
        }
    }
    if rest.contains('\n') {
        let i = choose|i: int| 0 <= i < rest.len() && rest[i] == '\n';
        assert(all[i + 1] == '\n');
    }
    if c == '\n' {
        assert(all[0] == '\n');
    }
}

/// Makes each run of white space one newline where it holds one, else one
/// space (`white-space: pre-line`).
pub fn collapse_preserving_breaks(s: &str) -> (r: String)
    ensures
        r@ == collapsed_to_breaks(s@),
{
    let chars = chars_of(s);
    let mut out: String = String::new();
    let mut run: Option<bool> = None;
    let mut i: usize = 0;
    assert(s@.skip(0) =~= s@);
    assert(out@ + rest_with_run(run, s@.skip(0)) =~= collapsed_to_breaks(s@));
    while i < chars.len()
        invariant
            chars@ == s@,
            i <= chars@.len(),
            out@ + rest_with_run(run, s@.skip(i as int)) == collapsed_to_breaks(s@),
        decreases chars.len() - i,
    {
        let c = chars[i];
        let ghost rest = s@.skip(i as int);
        let ghost before = out@;
        assert(rest[0] == c);
        assert(rest.skip(1) =~= s@.skip(i + 1));
        if c.is_whitespace() {
            proof {
                match run {
                    None => lemma_run_opens(rest),
                    Some(b) => lemma_run_goes_on(b, rest),
                }
            }
            run = match run {
                None => Some(c == '\n'),
                Some(b) => Some(b || c == '\n'),
            };
        } else {
            if let Some(b) = run {
                out.push(if b { '\n' } else { ' ' });
                assert(rest.take(0) =~= Seq::<char>::empty());
                assert(rest.skip(0) =~= rest);
                assert(out@ + collapsed_to_breaks(rest) =~= before + rest_with_run(run, rest));
                run = None;
            }
            let ghost mid = out@;
            out.push(c);
            assert(out@ + collapsed_to_breaks(rest.skip(1)) =~= mid + collapsed_to_breaks(rest));
        }
        i += 1;
    }
    let ghost tail = s@.skip(i as int);
    assert(tail =~= Seq::<char>::empty());
    if let Some(b) = run {
        let ghost before = out@;
        out.push(if b { '\n' } else { ' ' });
        assert(tail.take(0) =~= Seq::<char>::empty());
        assert(tail.skip(0) =~= Seq::<char>::empty());
        assert(out@ =~= before + rest_with_run(run, tail));
    } else {
        assert(out@ =~= out@ + rest_with_run(run, tail));
    }
    out
}

proof fn lemma_collapsed_add(a: Seq<char>, b: Seq<char>)
    requires
        a.len() > 0 && b.len() > 0 ==> !(text::is_white_space(a.last()) && text::is_white_space(
            b[0],
        )),
    ensures
        collapsed(a + b) == collapsed(a) + collapsed(b),
    decreases b.len(),
{
    if b.len() == 0 {
        assert(a + b =~= a);
        assert(collapsed(a) + collapsed(b) =~= collapsed(a));
    } else {
        let all = a + b;
        let front = b.drop_last();
        assert(all.drop_last() =~= a + front);
        lemma_collapsed_add(a, front);
        if b.len() == 1 {
            assert(a.len() > 0 ==> all[all.len() - 2] == a.last());
        } else {
            assert(all[all.len() - 2] == b[b.len() - 2]);
        }
        assert(collapsed(all) =~= collapsed(a) + collapsed(b));
    }
}

proof fn lemma_collapsed_run(s: Seq<char>, n: nat)
    requires
        0 < n <= space_run(s),
        n <= s.len(),
    ensures
        collapsed(s.take(n as int)) == seq![' '],
        text::is_white_space(s[n - 1]),
    decreases n,
{
    lemma_run_is_space(s, n - 1);
    let run = s.take(n as int);
    assert(run.drop_last() =~= s.take(n - 1));
    if n > 1 {
        lemma_collapsed_run(s, (n - 1) as nat);
        assert(run[run.len() - 2] == s[n - 2]);
    } else {
        assert(collapsed(run.drop_last()) =~= Seq::<char>::empty());
    }
    assert(collapsed(run) =~= seq![' ']);
}

proof fn lemma_run_is_space(s: Seq<char>, k: int)
    requires
        0 <= k < space_run(s),
    ensures
        k < s.len(),
        text::is_white_space(s[k]),
    decreases k,
{
    if k > 0 {
        lemma_run_is_space(s.skip(1), k - 1);
    }
}

proof fn lemma_run_ends(s: Seq<char>)
    ensures
        space_run(s) <= s.len(),
        space_run(s) < s.len() ==> !text::is_white_space(s[space_run(s) as int]),
    decreases s.len(),
{
    if s.len() > 0 && text::is_white_space(s[0]) {
        lemma_run_ends(s.skip(1));
    }
}

/// Collapsing a text once collapses it for good, and collapsing one that kept its
/// breaks is collapsing the text itself.
pub proof fn collapsing_forgets_how_it_was_collapsed(s: Seq<char>)
    ensures
        collapsed(collapsed(s)) == collapsed(s),
        collapsed(collapsed_to_breaks(s)) == collapsed(s),
    decreases s.len(),
{
    lemma_collapsed_twice(s);
    if s.len() > 0 {
        let n = if text::is_white_space(s[0]) {
            space_run(s)
        } else {
            1
        };
        lemma_run_ends(s);
        lemma_run_ends(s.skip(1));
        let head = s.take(n as int);
        let rest = s.skip(n as int);
        assert(head + rest =~= s);
        collapsing_forgets_how_it_was_collapsed(rest);
        let kept = collapsed_to_breaks(rest);
        let first = collapsed_to_breaks(s)[0];
        assert(collapsed_to_breaks(s) =~= seq![first] + kept);
        let one = seq![first];
        assert(one.drop_last() =~= Seq::<char>::empty());
        reveal_with_fuel(collapsed, 2);
        if text::is_white_space(s[0]) {
            lemma_collapsed_run(s, n);
            assert(collapsed(one) =~= seq![' ']);
            if rest.len() > 0 {
                assert(rest[0] == s[n as int]);
                assert(kept[0] == rest[0]);
            }
        } else {
            assert(head.drop_last() =~= Seq::<char>::empty());
            assert(collapsed(one) =~= one);
            assert(collapsed(head) =~= one);
        }
        lemma_collapsed_add(head, rest);
        lemma_collapsed_add(one, kept);
    }
}

/// A text as the `white-space-collapse` of the element `id` has it; collapsed
/// where no cascade has run.
pub open spec fn rendered_text(styles: &StylePlane, id: NodeId, s: Seq<char>) -> Seq<char> {
    let mode = match styles.primary_at(id) {
        Some(style) => style.white_space_collapse,
        None => WhiteSpaceCollapse::Collapse,
    };
    match mode {
        WhiteSpaceCollapse::Collapse => collapsed(s),
        WhiteSpaceCollapse::Preserve => s,
        WhiteSpaceCollapse::BreakSpaces => s,
        WhiteSpaceCollapse::PreserveBreaks => collapsed_to_breaks(s),
    }
}

/// Applies the `white-space-collapse` of the element `id` to a text.
pub fn apply_white_space_collapse(styles: &StylePlane, id: NodeId, s: &str) -> (r: String)
    ensures
        r@ == rendered_text(styles, id, s@),
{
    let mode = match styles.primary(id) {
        Some(style) => style.white_space_collapse,
        None => WhiteSpaceCollapse::Collapse,
    };
    match mode {
        WhiteSpaceCollapse::Collapse => collapse_whitespace(s),
        WhiteSpaceCollapse::Preserve => s.to_owned(),
        WhiteSpaceCollapse::BreakSpaces => s.to_owned(),
        WhiteSpaceCollapse::PreserveBreaks => collapse_preserving_breaks(s),
    }
}

// ---------------------------------------------------------------------------
// What an element is
// ---------------------------------------------------------------------------
/// Whether an element is replaced content, which has a box of its own in place
/// of flowed text.
pub open spec fn replaced(dom: &Dom, id: NodeId) -> bool {
    ||| dom.is_named(id, "img"@)
    ||| dom.is_named(id, "iframe"@)
    ||| dom.is_named(id, "canvas"@)
    ||| dom.is_named(id, "video"@)
    ||| dom.is_named(id, "object"@)
    ||| dom.is_named(id, "embed"@)
    ||| dom.is_named(id, "external-texture"@)
}

/// Whether an element is replaced content.
pub fn is_replaced(dom: &Dom, id: NodeId) -> (r: bool)
    requires
        dom.has(id),
    ensures
        r == replaced(dom, id),
{
    dom.named(id, "img") || dom.named(id, "iframe") || dom.named(id, "canvas") || dom.named(
        id,
        "video",
    ) || dom.named(id, "object") || dom.named(id, "embed") || dom.named(id, "external-texture")
}

/// The key of the texture that a host paints in place of an element: the
/// number in the `key` of an `<external-texture>`, or in the
/// `data-serval-external-texture-key` of a `<canvas>` or `<video>`.
pub open spec fn texture_key(dom: &Dom, id: NodeId) -> Option<int> {
    let value = if dom.is_named(id, "external-texture"@) {
        dom.plain_attr(id, "key"@)
    } else if dom.is_named(id, "canvas"@) || dom.is_named(id, "video"@) {
        dom.plain_attr(id, "data-serval-external-texture-key"@)
    } else {
        None
    };
    match value {
        Some(v) => text::parsed_int(v, 0, u64::MAX as int),
        None => None,
    }
}

/// The key of the texture that a host paints in place of an element.
pub fn external_texture_key_of(dom: &Dom, id: NodeId) -> (r: Option<u64>)
    requires
        dom.has(id),
    ensures
        match r {
            Some(k) => texture_key(dom, id) == Some(k as int),
            None => texture_key(dom, id) is None,
        },
{
    let value = if dom.named(id, "external-texture") {
        dom.plain_attribute(id, "key")
    } else if dom.named(id, "canvas") || dom.named(id, "video") {
        dom.plain_attribute(id, "data-serval-external-texture-key")
    } else {
        None
    };
    match value {
        Some(v) => {
            let chars = chars_of(v);
            parse_u64(chars.as_slice())
        },
        None => None,
    }
}

/// Whether an element that has no content of its own takes the default object
/// size: every named one but `<img>`.
pub open spec fn has_default_size(dom: &Dom, id: NodeId) -> bool {
    dom.local_at(id) is Some && !dom.is_named(id, "img"@)
}

/// Whether an element that has no content of its own takes the default object
/// size.
pub fn uses_default_object_size(dom: &Dom, id: NodeId) -> (r: bool)
    requires
        dom.has(id),
    ensures
        r == has_default_size(dom, id),
{
    dom.element_name(id).is_some() && !dom.named(id, "img")
}

/// Whether an element's inline content stays on one line.
pub fn no_wrap_of(styles: &StylePlane, id: NodeId) -> (r: bool)
    ensures
        r == (styles.primary_at(id) matches Some(s) && s.nowrap),
{
    match styles.primary(id) {
        Some(s) => s.nowrap,
        None => false,
    }
}

/// Whether an element is inline outside.
pub open spec fn inline_outside(styles: &StylePlane, id: NodeId) -> bool {
    styles.primary_at(id) matches Some(s) && s.display_outside == DisplayOutside::Inline
}

/// Whether an element is inline outside; `None` where no cascade has run.
pub fn is_inline_element(styles: &StylePlane, id: NodeId) -> (r: Option<bool>)
    ensures
        r == (match styles.primary_at(id) {
            Some(s) => Some(s.display_outside == DisplayOutside::Inline),
            None => None,
        }),
{
    match styles.primary(id) {
        Some(s) => Some(s.display_outside == DisplayOutside::Inline),
        None => None,
    }
}

/// Whether an element floats.
pub open spec fn floats(styles: &StylePlane, id: NodeId) -> bool {
    styles.primary_at(id) matches Some(s) && s.float != Float::Off
}

/// Whether an element floats.
pub fn is_floating(styles: &StylePlane, id: NodeId) -> (r: bool)
    ensures
        r == floats(styles, id),
{
    match styles.primary(id) {
        Some(s) => s.float != Float::Off,
        None => false,
    }
}

/// Whether an element is moved below floats.
pub open spec fn clears(styles: &StylePlane, id: NodeId) -> bool {
    styles.primary_at(id) matches Some(s) && s.clear != Clear::Off
}

/// Whether an element is moved below floats.
pub fn has_clearance(styles: &StylePlane, id: NodeId) -> (r: bool)
    ensures
        r == clears(styles, id),
{
    match styles.primary(id) {
        Some(s) => s.clear != Clear::Off,
        None => false,
    }
}

/// Whether an element is an `inline-block`.
pub open spec fn inline_block(styles: &StylePlane, id: NodeId) -> bool {
    styles.primary_at(id) matches Some(s) && s.display_outside == DisplayOutside::Inline
        && s.display_inside == DisplayInside::FlowRoot
}

/// Whether an element is an `inline-block`.
pub fn is_inline_block(styles: &StylePlane, id: NodeId) -> (r: bool)
    ensures
        r == inline_block(styles, id),
{
    match styles.primary(id) {
        Some(s) => s.display_outside == DisplayOutside::Inline && s.display_inside
            == DisplayInside::FlowRoot,
        None => false,
    }
}

/// Whether the content of an element flows in lines with its neighbours: it is
/// not replaced, inline outside, and a flow or a flow root inside.
pub open spec fn in_line(dom: &Dom, styles: &StylePlane, id: NodeId) -> bool {
    &&& dom.kind_at(id) == NodeKind::Element
    &&& !replaced(dom, id)
    &&& styles.primary_at(id) matches Some(s) && s.display_outside == DisplayOutside::Inline && (
    s.display_inside == DisplayInside::Flow || s.display_inside == DisplayInside::FlowRoot)
}

/// Whether the content of an element flows in lines with its neighbours.
pub fn flows_inline(dom: &Dom, styles: &StylePlane, id: NodeId) -> (r: bool)
    requires
        dom.has(id),
    ensures
        r == in_line(dom, styles, id),
{
    if dom.kind(id) != NodeKind::Element || is_replaced(dom, id) {
        return false;
    }
    match styles.primary(id) {
        Some(s) => s.display_outside == DisplayOutside::Inline && (s.display_inside
            == DisplayInside::Flow || s.display_inside == DisplayInside::FlowRoot),
        None => false,
    }
}

// ---------------------------------------------------------------------------
// Inline formatting contexts
// ---------------------------------------------------------------------------
/// What a child does to the question whether its parent lays out in lines.
#[derive(Clone, Copy, Debug, PartialEq, Eq, Structural)]
pub enum ChildRole {
    /// It has no say.
    Neutral,
    /// It is text, or flows or sits in a line.
    InLine,
    /// It is a replaced box, which can flow in a line.
    Box,
    /// It makes the parent a container of blocks.
    Block,
}

/// What a child does to the question whether its parent lays out in lines.
pub open spec fn child_role(dom: &Dom, styles: &StylePlane, id: NodeId) -> ChildRole {
    match dom.kind_at(id) {
        NodeKind::Text => match dom.text_at(id) {
            Some(t) => if text::trimmed(t).len() > 0 {
                ChildRole::InLine
            } else {
                ChildRole::Neutral
            },
            None => ChildRole::Neutral,
        },
        NodeKind::Element => if replaced(dom, id) {
            if floats(styles, id) {
                ChildRole::Block
            } else {
                ChildRole::Box
            }
        } else if clears(styles, id) {
            ChildRole::Block
        } else if inline_outside(styles, id) {
            ChildRole::InLine
        } else {
            ChildRole::Block
        },
        _ => ChildRole::Neutral,
    }
}

/// How many of the first `k` children of an element have the given role.
pub open spec fn children_with(
    dom: &Dom,
    styles: &StylePlane,
    id: NodeId,
    role: ChildRole,
    k: nat,
) -> nat
    decreases k,
{
    if k == 0 {
        0
    } else {
        children_with(dom, styles, id, role, (k - 1) as nat) + if child_role(
            dom,
            styles,
            dom.children_at(id)[k - 1],
        ) == role {
            1nat
        } else {
            0nat
        }
    }
}

/// Whether an element lays out its content in lines: no child makes it a
/// container of blocks, and a child is text or flows in a line, or two are
/// replaced boxes.
pub open spec fn lays_out_lines(dom: &Dom, styles: &StylePlane, id: NodeId) -> bool {
    let n = dom.children_at(id).len();
    &&& children_with(dom, styles, id, ChildRole::Block, n) == 0
    &&& children_with(dom, styles, id, ChildRole::InLine, n) > 0 || children_with(
        dom,
        styles,
        id,
        ChildRole::Box,
        n,
    ) >= 2
}

fn role_of_child(dom: &Dom, styles: &StylePlane, id: NodeId) -> (r: ChildRole)
    requires
        dom.has(id),
    ensures
        r == child_role(dom, styles, id),
{
    match dom.kind(id) {
        NodeKind::Text => match dom.text(id) {
            Some(t) => {
                let chars = chars_of(t);
                if trim(chars.as_slice()).len() > 0 {
                    ChildRole::InLine
                } else {
                    ChildRole::Neutral
                }
            },
            None => ChildRole::Neutral,
        },
        NodeKind::Element => if is_replaced(dom, id) {
            if is_floating(styles, id) {
                ChildRole::Block
            } else {
                ChildRole::Box
            }
        } else if has_clearance(styles, id) {
            ChildRole::Block
        } else if is_inline_block(styles, id) {
            ChildRole::InLine
        } else {
            match is_inline_element(styles, id) {
                Some(true) => ChildRole::InLine,
                _ => ChildRole::Block,
            }
        },
        _ => ChildRole::Neutral,
    }
}

proof fn lemma_children_with_grows(
    dom: &Dom,
    styles: &StylePlane,
    id: NodeId,
    role: ChildRole,
    j: nat,
    k: nat,
)
    requires
        j <= k,
    ensures
        children_with(dom, styles, id, role, j) <= children_with(dom, styles, id, role, k),
    decreases k,
{
    if j < k {
        lemma_children_with_grows(dom, styles, id, role, j, (k - 1) as nat);
    }
}

/// Whether an element lays out its content in lines.
pub fn establishes_inline_context(dom: &Dom, styles: &StylePlane, elem: NodeId) -> (r: bool)
    requires
        dom.wf(),
        dom.has(elem),
    ensures
        r == lays_out_lines(dom, styles, elem),
{
    let children = dom.dom_children(elem);
    let mut has_inline_text = false;
    let mut replaced_count: usize = 0;
    let mut k: usize = 0;
    while k < children.len()
        invariant
            dom.wf(),
            dom.has(elem),
            children@ == dom.children_at(elem),
            k <= children@.len(),
            replaced_count <= k,
            children_with(dom, styles, elem, ChildRole::Block, k as nat) == 0,
            has_inline_text == (children_with(
                dom,
                styles,
                elem,
                ChildRole::InLine,
                k as nat,
            ) > 0),
            replaced_count == children_with(dom, styles, elem, ChildRole::Box, k as nat),
        decreases children.len() - k,
    {
        assert(dom.has(dom.children_at(elem)[k as int]));
        match role_of_child(dom, styles, children[k]) {
            ChildRole::Neutral => {},
            ChildRole::InLine => {
                has_inline_text = true;
            },
            ChildRole::Box => {
                replaced_count += 1;
            },
            ChildRole::Block => {
                proof {
                    lemma_children_with_grows(
                        dom,
                        styles,
                        elem,
                        ChildRole::Block,
                        (k + 1) as nat,
                        children@.len(),
                    );
                }
                return false;
            },
        }
        k += 1;
    }
    has_inline_text || replaced_count >= 2
}

// ---------------------------------------------------------------------------
// The sizes of replaced elements
// ---------------------------------------------------------------------------
/// A length: a whole number of image pixels, or a CSS length.
#[derive(Clone, Copy, Debug, PartialEq, Eq, Structural)]
pub enum Extent {
    Pixels(u32),
    Px(Bits),
}

/// An attribute's value as a length: a number that is positive and finite.
pub open spec fn length_attr(dom: &Dom, id: NodeId, name: Seq<char>) -> Option<Bits> {
    match crate::dom::found_attr(dom.attributes_at(id), Seq::empty(), name) {
        Some(a) => match a.number {
            Some(n) => if float_bits::lt(ZERO, n) && float_bits::is_finite(n) {
                Some(n)
            } else {
                None
            },
            None => None,
        },
        None => None,
    }
}

/// An attribute's value as a length.
pub fn dimension_attr(dom: &Dom, id: NodeId, name: &str) -> (r: Option<Bits>)
    requires
        dom.has(id),
    ensures
        r == length_attr(dom, id, name@),
{
    proof {
        reveal_strlit("");
        assert(""@ =~= Seq::<char>::empty());
    }
    match dom.find_attribute(id, "", name) {
        Some(a) => match a.number {
            Some(n) => if less(ZERO, n) && finite(n) {
                Some(n)
            } else {
                None
            },
            None => None,
        },
        None => None,
    }
}

/// The size of an element that has no content of its own: its `width` and
/// `height` attributes, or 300 by 150.
pub open spec fn object_size(dom: &Dom, id: NodeId) -> (Extent, Extent) {
    (
        Extent::Px(
            match length_attr(dom, id, "width"@) {
                Some(w) => w,
                None => THREE_HUNDRED,
            },
        ),
        Extent::Px(
            match length_attr(dom, id, "height"@) {
                Some(h) => h,
                None => ONE_HUNDRED_FIFTY,
            },
        ),
    )
}

/// The size of an element's content: that of its decoded image, or the object
/// size. An `<img>` without an image has none.
pub open spec fn content_size(dom: &Dom, images: &ImagePlane, id: NodeId) -> Option<
    (Extent, Extent),
> {
    if images@.contains_key(id) {
        Some((Extent::Pixels(images@[id].width), Extent::Pixels(images@[id].height)))
    } else if has_default_size(dom, id) {
        Some(object_size(dom, id))
    } else {
        None
    }
}

/// The size that an element under `contain: size` is sized by in place of its
/// content's, where a `contain-intrinsic` declaration applies to it.
pub open spec fn contained_size(
    dom: &Dom,
    styles: &StylePlane,
    images: &ImagePlane,
    id: NodeId,
) -> Option<(Extent, Extent)> {
    match (content_size(dom, images, id), styles.primary_at(id)) {
        (Some(size), Some(s)) => if s.contain_size && styles.contain_intrinsic@.contains_key(id) {
            let o = styles.contain_intrinsic@[id];
            Some(
                (
                    match o.width {
                        Some(w) => Extent::Px(w),
                        None => size.0,
                    },
                    match o.height {
                        Some(h) => Extent::Px(h),
                        None => size.1,
                    },
                ),
            )
        } else {
            None
        },
        _ => None,
    }
}

/// The size of a replaced element: the one it is sized by (none at all is zero
/// by zero), each side overridden by a definite CSS length.
pub open spec fn replaced_size(
    dom: &Dom,
    styles: &StylePlane,
    images: &ImagePlane,
    id: NodeId,
) -> (Extent, Extent) {
    let base = match contained_size(dom, styles, images, id) {
        Some(size) => size,
        None => match content_size(dom, images, id) {
            Some(size) => size,
            None => (Extent::Px(ZERO), Extent::Px(ZERO)),
        },
    };
    match styles.primary_at(id) {
        Some(s) => (
            match s.width {
                Some(w) => Extent::Px(w),
                None => base.0,
            },
            match s.height {
                Some(h) => Extent::Px(h),
                None => base.1,
            },
        ),
        None => base,
    }
}

/// The size of an element that has no content of its own.
pub fn default_object_size_from_attrs(dom: &Dom, id: NodeId) -> (r: (Extent, Extent))
    requires
        dom.has(id),
    ensures
        r == object_size(dom, id),
{
    let width: Bits = match dimension_attr(dom, id, "width") {
        Some(w) => w,
        None => THREE_HUNDRED,
    };
    let height: Bits = match dimension_attr(dom, id, "height") {
        Some(h) => h,
        None => ONE_HUNDRED_FIFTY,
    };
    (Extent::Px(width), Extent::Px(height))
}

/// The size of an element's content.
pub fn replaced_intrinsic_size(dom: &Dom, images: &ImagePlane, id: NodeId) -> (r: Option<
    (Extent, Extent),
>)
    requires
        dom.has(id),
    ensures
        r == content_size(dom, images, id),
{
    if let Some(image) = images.get(id) {
        return Some((Extent::Pixels(image.width), Extent::Pixels(image.height)));
    }
    if uses_default_object_size(dom, id) {
        return Some(default_object_size_from_attrs(dom, id));
    }
    None
}

/// The size that an element under `contain: size` is sized by.
pub fn replaced_sizing_intrinsic_size(
    dom: &Dom,
    styles: &StylePlane,
    images: &ImagePlane,
    id: NodeId,
) -> (r: Option<(Extent, Extent)>)
    requires
        dom.has(id),
    ensures
        r == contained_size(dom, styles, images, id),
{
    let size = match replaced_intrinsic_size(dom, images, id) {
        Some(size) => size,
        None => return None,
    };
    match styles.primary(id) {
        Some(s) => {
            if !s.contain_size {
                return None;
            }
        },
        None => return None,
    }
    match styles.contain_intrinsic.get(id) {
        Some(o) => {
            let width = match o.width {
                Some(w) => Extent::Px(w),
                None => size.0,
            };
            let height = match o.height {
                Some(h) => Extent::Px(h),
                None => size.1,
            };
            Some((width, height))
        },
        None => None,
    }
}

/// The size of a replaced element.
pub fn replaced_px_size(dom: &Dom, styles: &StylePlane, images: &ImagePlane, id: NodeId) -> (r: (
    Extent,
    Extent,
))
    requires
        dom.has(id),
    ensures
        r == replaced_size(dom, styles, images, id),
{
    let base = match replaced_sizing_intrinsic_size(dom, styles, images, id) {
        Some(size) => size,
        None => match replaced_intrinsic_size(dom, images, id) {
            Some(size) => size,
            None => (Extent::Px(ZERO), Extent::Px(ZERO)),
        },
    };
    match styles.primary(id) {
        Some(s) => {
            let width = match s.width {
                Some(w) => Extent::Px(w),
                None => base.0,
            };
            let height = match s.height {
                Some(h) => Extent::Px(h),
                None => base.1,
            };
            (width, height)
        },
        None => base,
    }
}

// ---------------------------------------------------------------------------
// Laws
// ---------------------------------------------------------------------------
/// The names of the elements that are replaced content.
pub open spec fn replaced_names() -> Seq<Seq<char>> {
    seq![
        "img"@,
        "iframe"@,
        "canvas"@,
        "video"@,
        "object"@,
        "embed"@,
        "external-texture"@,
    ]
}

/// Whether an element has the name of replaced content.
pub open spec fn is_replaced_by_name(dom: &Dom, id: NodeId) -> bool {
    dom.local_at(id) matches Some(n) && replaced_names().contains(n)
}

/// An element is replaced content by its name alone.
pub proof fn replaced_content_is_told_by_name(dom: &Dom, id: NodeId)
    ensures
        replaced(dom, id) <==> is_replaced_by_name(dom, id),
{
    let all = replaced_names();
    assert(all.len() == 7);
    assert(all[0] == "img"@);
    assert(all[1] == "iframe"@);
    assert(all[2] == "canvas"@);
    assert(all[3] == "video"@);
    assert(all[4] == "object"@);
    assert(all[5] == "embed"@);
    assert(all[6] == "external-texture"@);
}

/// The number in an attribute, where it is positive and finite.
pub open spec fn positive_number_in(dom: &Dom, id: NodeId, name: Seq<char>) -> Option<Bits> {
    match crate::dom::found_attr(dom.attributes_at(id), Seq::empty(), name) {
        Some(a) => match a.number {
            Some(n) if float_bits::lt(ZERO, n) && float_bits::is_finite(n) => Some(n),
            _ => None,
        },
        None => None,
    }
}

/// What stands in for the length of a replaced element's content on one side: the
/// decoded image's, or that of an attribute or else the given one; an `<img>`
/// without an image has no length.
pub open spec fn is_the_length_of_the_content(
    e: Extent,
    dom: &Dom,
    images: &ImagePlane,
    id: NodeId,
    across: bool,
) -> bool {
    &&& images@.contains_key(id) && across ==> e == Extent::Pixels(images@[id].width)
    &&& images@.contains_key(id) && !across ==> e == Extent::Pixels(images@[id].height)
    &&& !images@.contains_key(id) && dom.is_named(id, "img"@) ==> e == Extent::Px(ZERO)
    &&& !images@.contains_key(id) && !dom.is_named(id, "img"@) && across ==> match positive_number_in(
        dom,
        id,
        "width"@,
    ) {
        Some(n) => e == Extent::Px(n),
        None => e == Extent::Px(THREE_HUNDRED),
    }
    &&& !images@.contains_key(id) && !dom.is_named(id, "img"@) && !across ==> match positive_number_in(
        dom,
        id,
        "height"@,
    ) {
        Some(n) => e == Extent::Px(n),
        None => e == Extent::Px(ONE_HUNDRED_FIFTY),
    }
}

/// Whether a replaced element is sized by `contain-intrinsic` declarations in
/// place of its content: it has content, is under `contain: size`, and such a
/// declaration applies to it.
pub open spec fn is_sized_apart(
    dom: &Dom,
    styles: &StylePlane,
    images: &ImagePlane,
    id: NodeId,
) -> bool {
    &&& images@.contains_key(id) || !dom.is_named(id, "img"@)
    &&& styles.primary_at(id) matches Some(s) && s.contain_size
    &&& styles.contain_intrinsic@.contains_key(id)
}

/// Whether a length is the width of a replaced element: a definite CSS `width`
/// goes before all else, then an intrinsic width that it is to have in place of
/// its content's, then its content's.
pub open spec fn is_the_width_of(
    e: Extent,
    dom: &Dom,
    styles: &StylePlane,
    images: &ImagePlane,
    id: NodeId,
) -> bool {
    match styles.primary_at(id) {
        Some(s) if s.width is Some => e == Extent::Px(s.width->0),
        _ => if is_sized_apart(dom, styles, images, id)
            && styles.contain_intrinsic@[id].width is Some {
            e == Extent::Px(styles.contain_intrinsic@[id].width->0)
        } else {
            is_the_length_of_the_content(e, dom, images, id, true)
        },
    }
}

/// Whether a length is the height of a replaced element: a definite CSS `height`
/// goes before all else, then an intrinsic height that it is to have in place of
/// its content's, then its content's.
pub open spec fn is_the_height_of(
    e: Extent,
    dom: &Dom,
    styles: &StylePlane,
    images: &ImagePlane,
    id: NodeId,
) -> bool {
    match styles.primary_at(id) {
        Some(s) if s.height is Some => e == Extent::Px(s.height->0),
        _ => if is_sized_apart(dom, styles, images, id)
            && styles.contain_intrinsic@[id].height is Some {
            e == Extent::Px(styles.contain_intrinsic@[id].height->0)
        } else {
            is_the_length_of_the_content(e, dom, images, id, false)
        },
    }
}

/// Each side of a replaced element is its own: a definite CSS length on one side
/// is that side, whatever the image, the attributes or the containment say, and
/// leaves the other as it was.
pub proof fn each_side_of_a_replaced_element_is_its_own(
    dom: &Dom,
    styles: &StylePlane,
    images: &ImagePlane,
    id: NodeId,
)
    requires
        is_replaced_by_name(dom, id),
    ensures
        is_the_width_of(replaced_size(dom, styles, images, id).0, dom, styles, images, id),
        is_the_height_of(replaced_size(dom, styles, images, id).1, dom, styles, images, id),
        styles.primary_at(id) matches Some(s) ==> {
            &&& s.width matches Some(w) ==> replaced_size(dom, styles, images, id).0 == Extent::Px(w)
            &&& s.height matches Some(h) ==> replaced_size(dom, styles, images, id).1 == Extent::Px(
                h,
            )
        },
{
    replaced_content_is_told_by_name(dom, id);
}

/// An `<external-texture>` is painted by the texture whose number its `key` is,
/// and a `<canvas>` or `<video>` by the one whose number its
/// `data-serval-external-texture-key` is; no other element is painted by one.
pub proof fn a_texture_is_keyed_by_its_element(dom: &Dom, id: NodeId)
    ensures
        dom.is_named(id, "external-texture"@) ==> texture_key(dom, id) == (match dom.plain_attr(
            id,
            "key"@,
        ) {
            Some(v) => text::parsed_int(v, 0, u64::MAX as int),
            None => None,
        }),
        dom.is_named(id, "canvas"@) || dom.is_named(id, "video"@) ==> texture_key(dom, id) == (
        match dom.plain_attr(id, "data-serval-external-texture-key"@) {
            Some(v) => text::parsed_int(v, 0, u64::MAX as int),
            None => None,
        }),
        !dom.is_named(id, "external-texture"@) && !dom.is_named(id, "canvas"@) && !dom.is_named(
            id,
            "video"@,
        ) ==> texture_key(dom, id) is None,
{
    reveal_strlit("external-texture");
    reveal_strlit("canvas");
    reveal_strlit("video");
    assert("external-texture"@.len() == 16 && "canvas"@.len() == 6 && "video"@.len() == 5);
}

/// Whether a child makes its parent a container of blocks: a replaced one that
/// floats, or another element that clears floats or is not inline outside.
pub open spec fn breaks_the_lines(dom: &Dom, styles: &StylePlane, child: NodeId) -> bool {
    &&& dom.kind_at(child) == NodeKind::Element
    &&& if is_replaced_by_name(dom, child) {
        styles.primary_at(child) matches Some(s) && s.float != Float::Off
    } else {
        match styles.primary_at(child) {
            Some(s) => s.clear != Clear::Off || s.display_outside != DisplayOutside::Inline,
            None => true,
        }
    }
}

/// Whether a child is set in its parent's lines: text that is more than white
/// space, or an element that is inline outside and neither replaced nor clearing
/// floats.
pub open spec fn is_set_in_lines(dom: &Dom, styles: &StylePlane, child: NodeId) -> bool {
    ||| dom.kind_at(child) == NodeKind::Text && (dom.text_at(child) matches Some(t)
        && text::trimmed(t).len() > 0)
    ||| dom.kind_at(child) == NodeKind::Element && !is_replaced_by_name(dom, child) && (
    styles.primary_at(child) matches Some(s) && s.clear == Clear::Off && s.display_outside
        == DisplayOutside::Inline)
}

/// Whether a child is a replaced element in its parent's lines.
pub open spec fn is_a_box_in_lines(dom: &Dom, styles: &StylePlane, child: NodeId) -> bool {
    &&& dom.kind_at(child) == NodeKind::Element
    &&& is_replaced_by_name(dom, child)
    &&& !(styles.primary_at(child) matches Some(s) && s.float != Float::Off)
}

proof fn lemma_children_with_counts(
    dom: &Dom,
    styles: &StylePlane,
    id: NodeId,
    role: ChildRole,
    k: nat,
)
    requires
        k <= dom.children_at(id).len(),
    ensures
        children_with(dom, styles, id, role, k) == 0 <==> forall|i: int|
            0 <= i < k ==> child_role(dom, styles, #[trigger] dom.children_at(id)[i]) != role,
        children_with(dom, styles, id, role, k) >= 2 <==> exists|i: int, j: int|
            0 <= i < j < k && child_role(dom, styles, #[trigger] dom.children_at(id)[i]) == role
                && child_role(dom, styles, #[trigger] dom.children_at(id)[j]) == role,
    decreases k,
{
    if k > 0 {
        let m = (k - 1) as nat;
        let all = dom.children_at(id);
        lemma_children_with_counts(dom, styles, id, role, m);
        if children_with(dom, styles, id, role, m) == 0 {
            if child_role(dom, styles, all[k - 1]) != role {
                assert(children_with(dom, styles, id, role, k) == 0);
            }
        } else {
            let i = choose|i: int|
                0 <= i < m && child_role(dom, styles, #[trigger] all[i]) == role;
            assert(child_role(dom, styles, all[i]) == role);
            if child_role(dom, styles, all[k - 1]) == role {
                assert(0 <= i < k - 1 && child_role(dom, styles, all[k - 1]) == role);
            }
        }
        if exists|i: int, j: int|
            0 <= i < j < k && child_role(dom, styles, #[trigger] all[i]) == role && child_role(
                dom,
                styles,
                #[trigger] all[j],
            ) == role {
            let (i, j) = choose|i: int, j: int|
                0 <= i < j < k && child_role(dom, styles, #[trigger] all[i]) == role && child_role(
                    dom,
                    styles,
                    #[trigger] all[j],
                ) == role;
            assert(child_role(dom, styles, all[i]) == role);
            if j < m {
                assert(child_role(dom, styles, all[j]) == role);
            } else {
                assert(children_with(dom, styles, id, role, m) != 0);
            }
        }
    }
}

/// An element lays its content out in lines just where no child makes it a
/// container of blocks, and a child is set in lines or two are replaced boxes.
pub proof fn an_element_lays_out_lines_by_its_children(
    dom: &Dom,
    styles: &StylePlane,
    id: NodeId,
)
    ensures
        ({
            let all = dom.children_at(id);
            lays_out_lines(dom, styles, id) <==> {
                &&& forall|i: int|
                    0 <= i < all.len() ==> !breaks_the_lines(dom, styles, #[trigger] all[i])
                &&& {
                    ||| exists|i: int|
                        0 <= i < all.len() && is_set_in_lines(dom, styles, #[trigger] all[i])
                    ||| exists|i: int, j: int|
                        0 <= i < j < all.len() && is_a_box_in_lines(dom, styles, #[trigger] all[i])
                            && is_a_box_in_lines(dom, styles, #[trigger] all[j])
                }
            }
        }),
{
    let all = dom.children_at(id);
    let n = all.len();
    lemma_children_with_counts(dom, styles, id, ChildRole::Block, n);
    lemma_children_with_counts(dom, styles, id, ChildRole::InLine, n);
    lemma_children_with_counts(dom, styles, id, ChildRole::Box, n);
    assert forall|i: int| 0 <= i < n implies {
        let c = #[trigger] all[i];
        &&& child_role(dom, styles, c) == ChildRole::Block <==> breaks_the_lines(dom, styles, c)
        &&& child_role(dom, styles, c) == ChildRole::InLine <==> is_set_in_lines(dom, styles, c)
        &&& child_role(dom, styles, c) == ChildRole::Box <==> is_a_box_in_lines(dom, styles, c)
    } by {
        replaced_content_is_told_by_name(dom, all[i]);
    }
}

/// White space is shown as the element's `white-space-collapse` says: kept as it
/// stands where it is preserved, and otherwise made one character a run, the
/// breaks kept or not. Without computed values it collapses.
pub proof fn white_space_is_shown_as_the_style_says(styles: &StylePlane, id: NodeId, s: Seq<char>)
    ensures
        match styles.primary_at(id) {
            Some(style) => {
                let mode = style.white_space_collapse;
                &&& mode == WhiteSpaceCollapse::Preserve || mode == WhiteSpaceCollapse::BreakSpaces
                    ==> rendered_text(styles, id, s) == s
                &&& mode == WhiteSpaceCollapse::Collapse ==> rendered_text(styles, id, s)
                    == collapsed(s)
                &&& mode == WhiteSpaceCollapse::PreserveBreaks ==> rendered_text(styles, id, s)
                    == collapsed_to_breaks(s)
            },
            None => rendered_text(styles, id, s) == collapsed(s),
        },
{
}

/// The characters of a text that are not white space.
pub open spec fn ink(s: Seq<char>) -> Seq<char> {
    s.filter(|c: char| !text::is_white_space(c))
}

/// Collapsing keeps every character that is not white space, in order; leaves
/// nothing but single spaces of the rest; and leaves one exactly where white space
/// stood, so that words stay apart and nothing grows.
pub proof fn collapsing_keeps_the_words(s: Seq<char>)
    ensures
        ink(collapsed(s)) == ink(s),
        forall|i: int|
            0 <= i < collapsed(s).len() && text::is_white_space(#[trigger] collapsed(s)[i])
                ==> collapsed(s)[i] == ' ',
        forall|i: int|
            0 < i < collapsed(s).len() && text::is_white_space(#[trigger] collapsed(s)[i])
                ==> !text::is_white_space(collapsed(s)[i - 1]),
        s.len() > 0 ==> {
            &&& collapsed(s).len() > 0
            &&& text::is_white_space(collapsed(s)[0]) == text::is_white_space(s[0])
            &&& text::is_white_space(collapsed(s).last()) == text::is_white_space(s.last())
        },
        collapsed(s).len() <= s.len(),
    decreases s.len(),
{
    let p = |c: char| !text::is_white_space(c);
    reveal(Seq::filter);
    if s.len() > 0 {
        let front = s.drop_last();
        let before = collapsed(front);
        let now = collapsed(s);
        collapsing_keeps_the_words(front);
        lemma_collapsed_last(s);
        if front.len() > 0 {
            assert(front[0] == s[0]);
            assert(front.last() == s[s.len() - 2]);
            assert(now[0] == before[0]);
        }
        if now.len() > before.len() {
            assert(now.drop_last() =~= before);
            assert(now.last() == now[now.len() - 1]);
            assert forall|i: int|
                0 <= i < now.len() && text::is_white_space(#[trigger] now[i]) implies now[i]
                == ' ' by {
                if i < before.len() {
                    assert(before[i] == now[i]);
                }
            }
            assert forall|i: int|
                0 < i < now.len() && text::is_white_space(
                    #[trigger] now[i],
                ) implies !text::is_white_space(now[i - 1]) by {
                if i < before.len() {
                    assert(before[i] == now[i] && before[i - 1] == now[i - 1]);
                } else {
                    assert(now[i - 1] == before.last());
                }
            }
        } else {
            assert(now == before);
        }
        assert(ink(now) =~= ink(s));
    }
}

/// What keeps its breaks keeps every character that is not white space, in order.
pub proof fn keeping_breaks_keeps_the_words(s: Seq<char>)
    ensures
        collapsed(collapsed_to_breaks(s)) == collapsed(s),
        ink(collapsed_to_breaks(s)) == ink(s),
{
    collapsing_forgets_how_it_was_collapsed(s);
    collapsing_keeps_the_words(s);
    collapsing_keeps_the_words(collapsed_to_breaks(s));
}

proof fn lemma_space_run_add(a: Seq<char>, b: Seq<char>)
    requires
        a.len() > 0 && b.len() > 0 ==> !(text::is_white_space(a.last()) && text::is_white_space(
            b[0],
        )),
        a.len() > 0,
    ensures
        space_run(a + b) == space_run(a),
    decreases a.len(),
{
    reveal_with_fuel(space_run, 2);
    if text::is_white_space(a[0]) {
        assert((a + b).skip(1) =~= a.skip(1) + b);
        if a.len() == 1 {
            assert(a.skip(1) + b =~= b);
            assert(a.last() == a[0]);
        } else {
            assert(a.skip(1).last() == a.last());
            lemma_space_run_add(a.skip(1), b);
        }
    }
}

proof fn lemma_breaks_add(a: Seq<char>, b: Seq<char>)
    requires
        a.len() > 0 && b.len() > 0 ==> !(text::is_white_space(a.last()) && text::is_white_space(
            b[0],
        )),
    ensures
        collapsed_to_breaks(a + b) == collapsed_to_breaks(a) + collapsed_to_breaks(b),
    decreases a.len(),
{
    if a.len() == 0 {
        assert(a + b =~= b);
        assert(collapsed_to_breaks(a) + collapsed_to_breaks(b) =~= collapsed_to_breaks(b));
    } else {
        let n = if text::is_white_space(a[0]) {
            space_run(a)
        } else {
            1
        };
        lemma_run_ends(a);
        lemma_space_run_add(a, b);
        let rest = a.skip(n as int);
        assert((a + b).take(n as int) =~= a.take(n as int));
        assert((a + b).skip(n as int) =~= rest + b);
        if rest.len() > 0 {
            assert(rest.last() == a.last());
        }
        lemma_breaks_add(rest, b);
        assert(collapsed_to_breaks(a + b) =~= collapsed_to_breaks(a) + collapsed_to_breaks(b));
    }
}

/// A run of white space becomes one space, or one newline where breaks are kept
/// and it holds one; what stands before and after it is as it would be alone.
pub proof fn a_run_of_white_space_becomes_one_character(
    before: Seq<char>,
    run: Seq<char>,
    after: Seq<char>,
)
    requires
        run.len() > 0,
        forall|i: int| 0 <= i < run.len() ==> text::is_white_space(#[trigger] run[i]),
        before.len() > 0 ==> !text::is_white_space(before.last()),
        after.len() > 0 ==> !text::is_white_space(after[0]),
    ensures
        collapsed(before + run + after) == collapsed(before) + seq![' '] + collapsed(after),
        collapsed_to_breaks(before + run + after) == collapsed_to_breaks(before) + seq![
            if run.contains('\n') {
                '\n'
            } else {
                ' '
            },
        ] + collapsed_to_breaks(after),
{
    let head = before + run;
    assert(head.last() == run.last());
    assert(run.last() == run[run.len() - 1]);
    lemma_breaks_add(head, after);
    lemma_breaks_add(before, run);
    lemma_collapsed_add(head, after);
    lemma_collapsed_add(before, run);
    lemma_run_of_spaces(run);
    lemma_collapsed_run(run, run.len());
    assert(run.take(run.len() as int) =~= run);
    assert(run.skip(run.len() as int) =~= Seq::<char>::empty());
    assert(collapsed_to_breaks(Seq::<char>::empty()) =~= Seq::<char>::empty());
    assert(collapsed_to_breaks(run) =~= seq![
        if run.contains('\n') {
            '\n'
        } else {
            ' '
        },
    ]);
}

proof fn lemma_run_of_spaces(run: Seq<char>)
    requires
        forall|i: int| 0 <= i < run.len() ==> text::is_white_space(#[trigger] run[i]),
    ensures
        space_run(run) == run.len(),
    decreases run.len(),
{
    if run.len() > 0 {
        assert(text::is_white_space(run[0]));
        let rest = run.skip(1);
        assert forall|i: int| 0 <= i < rest.len() implies text::is_white_space(
            #[trigger] rest[i],
        ) by {
            assert(rest[i] == run[i + 1]);
        }
        lemma_run_of_spaces(rest);
    }
}

/// An element flows in lines with its neighbours where it shows no content of its
/// own kind, and its style has it inline outside and a flow inside, new or not.
pub proof fn an_element_flows_in_lines_by_its_display(
    dom: &Dom,
    styles: &StylePlane,
    id: NodeId,
    s: ComputedStyle,
)
    requires
        styles.primary_at(id) == Some(s),
    ensures
        in_line(dom, styles, id) <==> dom.kind_at(id) is Element && !is_replaced_by_name(dom, id)
            && s.display_outside is Inline && (s.display_inside is Flow || s.display_inside
            is FlowRoot),
        styles.primary_at(id) is None ==> !in_line(dom, styles, id),
{
    replaced_content_is_told_by_name(dom, id);
}

} // verus!
