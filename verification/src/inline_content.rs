//! Gathering the inline content of an element: runs of styled text and the
//! boxes that sit between them.
use vstd::prelude::*;
use vstd::string::*;
use vstd::utf8::*;
use crate::construct;
use crate::construct::{
    apply_white_space_collapse, is_inline_block, is_replaced, replaced_px_size, Extent,
};
use crate::dom::{Dom, NodeId, NodeKind};
use crate::float_bits::{Bits, FOUR_HUNDRED, ONE, SIXTEEN, ZERO};
use crate::image_decode::ImagePlane;
use crate::list_marker;
use crate::list_marker::list_marker_text;
use crate::style_plane;
use crate::style_plane::{
    black, transparent, ComputedStyle, DisplayInside, DisplayOutside, FontFamily, GenericFont,
    LineHeightSpec, Rgba, StylePlane,
};

verus! {

// ---------------------------------------------------------------------------
// Runs
// ---------------------------------------------------------------------------
/// A generic family that the text engine knows.
#[derive(Clone, Copy, Debug, PartialEq, Eq, Structural)]
pub enum GenericFamilyKind {
    Serif,
    SansSerif,
    Monospace,
    Cursive,
    Fantasy,
}

/// The family that a run is set in.
pub enum FontFamilySpec {
    Named(String),
    Generic(GenericFamilyKind),
}

/// A piece of text in one style.
pub struct InlineRun {
    pub text: String,
    /// The element that the text came from, which styles it.
    pub source: NodeId,
    pub font_size: Bits,
    /// `None` leaves the choice to the text engine.
    pub font_family: Option<FontFamilySpec>,
    pub weight: Bits,
    pub italic: bool,
    pub color: Rgba,
    pub underline: bool,
    pub strikethrough: bool,
    pub overline: bool,
    pub decoration_color: Rgba,
    pub letter_spacing: Bits,
    pub word_spacing: Bits,
    pub line_height: LineHeightSpec,
}

/// A family, by its name's characters.
pub enum FamilyModel {
    Named(Seq<char>),
    Generic(GenericFamilyKind),
}

/// What a run holds.
pub struct RunModel {
    pub text: Seq<char>,
    pub source: NodeId,
    pub font_size: Bits,
    pub font_family: Option<FamilyModel>,
    pub weight: Bits,
    pub italic: bool,
    pub color: Rgba,
    pub underline: bool,
    pub strikethrough: bool,
    pub overline: bool,
    pub decoration_color: Rgba,
    pub letter_spacing: Bits,
    pub word_spacing: Bits,
    pub line_height: LineHeightSpec,
}

impl View for FontFamilySpec {
    type V = FamilyModel;

    open spec fn view(&self) -> FamilyModel {
        match self {
            FontFamilySpec::Named(n) => FamilyModel::Named(n@),
            FontFamilySpec::Generic(g) => FamilyModel::Generic(*g),
        }
    }
}

impl View for InlineRun {
    type V = RunModel;

    open spec fn view(&self) -> RunModel {
        RunModel {
            text: self.text@,
            source: self.source,
            font_size: self.font_size,
            font_family: match self.font_family {
                Some(f) => Some(f@),
                None => None,
            },
            weight: self.weight,
            italic: self.italic,
            color: self.color,
            underline: self.underline,
            strikethrough: self.strikethrough,
            overline: self.overline,
            decoration_color: self.decoration_color,
            letter_spacing: self.letter_spacing,
            word_spacing: self.word_spacing,
            line_height: self.line_height,
        }
    }
}

/// The family that a generic one of CSS stands for; those that the text engine
/// does not know stand for `sans-serif`.
pub open spec fn generic_kind(g: GenericFont) -> GenericFamilyKind {
    match g {
        GenericFont::Serif => GenericFamilyKind::Serif,
        GenericFont::SansSerif => GenericFamilyKind::SansSerif,
        GenericFont::Monospace => GenericFamilyKind::Monospace,
        GenericFont::Cursive => GenericFamilyKind::Cursive,
        GenericFont::Fantasy => GenericFamilyKind::Fantasy,
        GenericFont::Unnamed => GenericFamilyKind::SansSerif,
        GenericFont::SystemUi => GenericFamilyKind::SansSerif,
    }
}

/// The first family of an element's `font-family`.
pub open spec fn family_model(styles: &StylePlane, id: NodeId) -> Option<FamilyModel> {
    match styles.primary_at(id) {
        None => None,
        Some(s) => if s.font_family@.len() == 0 {
            None
        } else {
            Some(
                match s.font_family@[0] {
                    FontFamily::Named(n) => FamilyModel::Named(n@),
                    FontFamily::Generic(g) => FamilyModel::Generic(generic_kind(g)),
                },
            )
        },
    }
}

/// A run of `text` in the style of the element `id`; where no cascade has run,
/// 16 px black text of weight 400.
pub open spec fn run_model(styles: &StylePlane, id: NodeId, text: Seq<char>) -> RunModel {
    match styles.primary_at(id) {
        Some(s) => RunModel {
            text,
            source: id,
            font_size: s.font_size,
            font_family: family_model(styles, id),
            weight: s.font_weight,
            italic: s.italic,
            color: s.color,
            underline: s.underline,
            strikethrough: s.line_through,
            overline: s.overline,
            decoration_color: s.text_decoration_color,
            letter_spacing: s.letter_spacing,
            word_spacing: s.word_spacing,
            line_height: s.line_height,
        },
        None => RunModel {
            text,
            source: id,
            font_size: SIXTEEN,
            font_family: None,
            weight: FOUR_HUNDRED,
            italic: false,
            color: style_plane::opaque_black(),
            underline: false,
            strikethrough: false,
            overline: false,
            decoration_color: style_plane::opaque_black(),
            letter_spacing: ZERO,
            word_spacing: ZERO,
            line_height: LineHeightSpec::Normal,
        },
    }
}

/// The family that a generic one of CSS stands for.
pub fn generic_family(g: GenericFont) -> (r: GenericFamilyKind)
    ensures
        r == generic_kind(g),
{
    match g {
        GenericFont::Serif => GenericFamilyKind::Serif,
        GenericFont::SansSerif => GenericFamilyKind::SansSerif,
        GenericFont::Monospace => GenericFamilyKind::Monospace,
        GenericFont::Cursive => GenericFamilyKind::Cursive,
        GenericFont::Fantasy => GenericFamilyKind::Fantasy,
        GenericFont::Unnamed => GenericFamilyKind::SansSerif,
        GenericFont::SystemUi => GenericFamilyKind::SansSerif,
    }
}

/// The first family of an element's `font-family`; `None` where no cascade has
/// run or the list is empty.
pub fn font_family_of(styles: &StylePlane, id: NodeId) -> (r: Option<FontFamilySpec>)
    ensures
        family_model(styles, id) == (match r {
            Some(f) => Some(f@),
            None => None,
        }),
{
    match styles.primary(id) {
        None => None,
        Some(s) => if s.font_family.len() == 0 {
            None
        } else {
            match &s.font_family[0] {
                FontFamily::Named(n) => Some(FontFamilySpec::Named(n.clone())),
                FontFamily::Generic(g) => Some(FontFamilySpec::Generic(generic_family(*g))),
            }
        },
    }
}

/// A run of `text` in the style of the element `id`.
pub fn run_for_element(styles: &StylePlane, id: NodeId, text: String) -> (r: InlineRun)
    ensures
        r@ == run_model(styles, id, text@),
{
    let font_family = font_family_of(styles, id);
    match styles.primary(id) {
        Some(s) => InlineRun {
            text,
            source: id,
            font_size: s.font_size,
            font_family,
            weight: s.font_weight,
            italic: s.italic,
            color: s.color,
            underline: s.underline,
            strikethrough: s.line_through,
            overline: s.overline,
            decoration_color: s.text_decoration_color,
            letter_spacing: s.letter_spacing,
            word_spacing: s.word_spacing,
            line_height: s.line_height,
        },
        None => InlineRun {
            text,
            source: id,
            font_size: SIXTEEN,
            font_family,
            weight: FOUR_HUNDRED,
            italic: false,
            color: black(),
            underline: false,
            strikethrough: false,
            overline: false,
            decoration_color: black(),
            letter_spacing: ZERO,
            word_spacing: ZERO,
            line_height: LineHeightSpec::Normal,
        },
    }
}

// ---------------------------------------------------------------------------
// Content
// ---------------------------------------------------------------------------
/// A box between runs: replaced content, or an `inline-block` with content of
/// its own.
pub struct InlineBoxItem {
    /// The byte offset in the content's text at which the box sits.
    pub index: usize,
    pub width: Extent,
    pub height: Extent,
    pub source: NodeId,
    pub block: Option<Box<InlineBlockBox>>,
}

/// The inside of an `inline-block`.
pub struct InlineBlockBox {
    pub content: InlineContent,
    pub css_width: Option<Bits>,
    pub css_height: Option<Bits>,
    pub background: Rgba,
}

/// The inline content of an element: its runs, and the boxes between them.
pub struct InlineContent {
    pub runs: Vec<InlineRun>,
    pub boxes: Vec<InlineBoxItem>,
}

/// What each run holds.
pub open spec fn run_views(runs: Seq<InlineRun>) -> Seq<RunModel> {
    runs.map(|i: int, r: InlineRun| r@)
}

/// The element that the text of a byte range came from.
#[derive(Clone, Copy, Debug, PartialEq, Eq, Structural)]
pub struct SourceSpan {
    pub start: usize,
    pub end: usize,
    pub source: NodeId,
}

/// Where the text of the first `n` runs ends, in bytes, as far as a `usize` can
/// count.
pub open spec fn text_end(runs: Seq<RunModel>, n: nat) -> usize
    decreases n,
{
    if n == 0 {
        0
    } else {
        past(text_end(runs, (n - 1) as nat), Piece::Run(runs[n - 1]))
    }
}

/// The ranges of the first `n` runs in their joined text, each with the element that
/// the run came from.
pub open spec fn run_spans(runs: Seq<RunModel>, n: nat) -> Seq<SourceSpan>
    decreases n,
{
    if n == 0 {
        Seq::empty()
    } else {
        run_spans(runs, (n - 1) as nat).push(
            SourceSpan {
                start: text_end(runs, (n - 1) as nat),
                end: text_end(runs, n),
                source: runs[n - 1].source,
            },
        )
    }
}

/// The elements that the text of some content came from: one range of the joined
/// text for each run, in order.
pub open spec fn sources_of(content: InlineContent) -> Seq<SourceSpan> {
    run_spans(run_views(content.runs@), content.runs@.len())
}

/// The elements that the text of some content came from.
pub fn inline_sources(content: &InlineContent) -> (r: Vec<SourceSpan>)
    ensures
        r@ == sources_of(*content),
{
    let ghost runs = run_views(content.runs@);
    let mut spans: Vec<SourceSpan> = Vec::new();
    let mut start: usize = 0;
    let mut i: usize = 0;
    while i < content.runs.len()
        invariant
            i <= content.runs@.len(),
            runs == run_views(content.runs@),
            start == text_end(runs, i as nat),
            spans@ == run_spans(runs, i as nat),
        decreases content.runs.len() - i,
    {
        assert(runs[i as int] == content.runs@[i as int]@);
        let bytes: usize = content.runs[i].text.as_str().as_bytes().len();
        let end: usize = start.saturating_add(bytes);
        spans.push(SourceSpan { start, end, source: content.runs[i].source });
        start = end;
        i += 1;
    }
    spans
}

/// The ranges of a content's runs stand in order and hold no byte twice: the first
/// begins the text, and each begins where the one before it ends.
pub proof fn runs_follow_each_other(runs: Seq<RunModel>, n: nat)
    requires
        n <= runs.len(),
    ensures
        run_spans(runs, n).len() == n,
        n > 0 ==> run_spans(runs, n)[0].start == 0,
        n > 0 ==> run_spans(runs, n)[n - 1].end == text_end(runs, n),
        forall|k: int|
            0 <= k < n ==> (#[trigger] run_spans(runs, n)[k]).source == runs[k].source
                && run_spans(runs, n)[k].start <= run_spans(runs, n)[k].end,
        forall|i: int, k: int|
            0 <= i < k < n ==> (#[trigger] run_spans(runs, n)[i]).end <= (#[trigger] run_spans(
                runs,
                n,
            )[k]).start,
        forall|k: int|
            0 < k < n ==> (#[trigger] run_spans(runs, n)[k]).start == run_spans(runs, n)[k - 1].end,
    decreases n,
{
    if n > 0 {
        let m = (n - 1) as nat;
        runs_follow_each_other(runs, m);
        let a = run_spans(runs, m);
        let b = run_spans(runs, n);
        assert forall|k: int| 0 <= k < m implies b[k] == a[k] by {}
        assert(text_end(runs, m) <= text_end(runs, n));
        assert forall|i: int, k: int| 0 <= i < k < n implies (#[trigger] b[i]).end <= (
        #[trigger] b[k]).start by {
            assert(a[i] == b[i]);
            if k == m {
                assert(a[m - 1].end == text_end(runs, m));
                if i < m - 1 {
                    assert(a[i].end <= a[m - 1].start);
                    assert(a[m - 1].start <= a[m - 1].end);
                }
            } else {
                assert(a[k] == b[k]);
            }
        }
        assert forall|k: int| 0 < k < n implies (#[trigger] b[k]).start == b[k - 1].end by {
            assert(b[k - 1] == a[k - 1]);
            if k < m {
                assert(b[k] == a[k]);
            }
        }
    }
}

/// One piece of an element's inline content.
pub enum Piece {
    /// A run of text.
    Run(RunModel),
    /// A box that stands for this element.
    Atom(NodeId),
}

/// The pieces that a child contributes in document order, its bare text styled
/// by `styling`. White space is collapsed as the styling element has it and
/// what is empty left out; `<br>` is a newline; replaced content and
/// `inline-block`s are boxes; any other element contributes its children.
pub open spec fn pieces(dom: &Dom, styles: &StylePlane, styling: NodeId, child: NodeId) -> Seq<
    Piece,
>
    decreases usize::MAX - dom.depth_at(child), dom.children_at(child).len() + 1,
    when dom.wf() && dom.has(child)
{
    match dom.kind_at(child) {
        NodeKind::Text => {
            let source = match dom.text_at(child) {
                Some(t) => t,
                None => ""@,
            };
            let text = construct::rendered_text(styles, styling, source);
            if text.len() == 0 {
                Seq::empty()
            } else {
                seq![Piece::Run(run_model(styles, styling, text))]
            }
        },
        NodeKind::Element => if dom.is_named(child, "br"@) {
            seq![Piece::Run(run_model(styles, styling, "\n"@))]
        } else if construct::replaced(dom, child) || construct::inline_block(styles, child) {
            seq![Piece::Atom(child)]
        } else {
            pieces_from(dom, styles, child, 0)
        },
        _ => Seq::empty(),
    }
}

/// The pieces that the children of `node` from number `k` on contribute.
pub open spec fn pieces_from(dom: &Dom, styles: &StylePlane, node: NodeId, k: nat) -> Seq<Piece>
    decreases usize::MAX - dom.depth_at(node), dom.children_at(node).len() - k,
    when dom.wf() && dom.has(node)
{
    if k >= dom.children_at(node).len() {
        Seq::empty()
    } else {
        pieces(dom, styles, node, dom.children_at(node)[k as int]) + pieces_from(
            dom,
            styles,
            node,
            k + 1,
        )
    }
}

/// The runs among some pieces.
pub open spec fn runs_of(ps: Seq<Piece>) -> Seq<RunModel>
    decreases ps.len(),
{
    if ps.len() == 0 {
        Seq::empty()
    } else {
        match ps[0] {
            Piece::Run(r) => seq![r] + runs_of(ps.skip(1)),
            Piece::Atom(_) => runs_of(ps.skip(1)),
        }
    }
}

/// The offset after a piece that begins at `offset`: past a run's bytes, as far
/// as a `usize` can count.
pub open spec fn past(offset: usize, p: Piece) -> usize {
    match p {
        Piece::Run(r) => if offset + encode_utf8(r.text).len() > usize::MAX {
            usize::MAX
        } else {
            (offset + encode_utf8(r.text).len()) as usize
        },
        Piece::Atom(_) => offset,
    }
}

/// The offset after some pieces that begin at `offset`.
pub open spec fn past_all(offset: usize, ps: Seq<Piece>) -> usize
    decreases ps.len(),
{
    if ps.len() == 0 {
        offset
    } else {
        past_all(past(offset, ps[0]), ps.skip(1))
    }
}

/// The boxes among some pieces that begin at `offset`: where each sits, and
/// which element it stands for.
pub open spec fn atoms_of(offset: usize, ps: Seq<Piece>) -> Seq<(usize, NodeId)>
    decreases ps.len(),
{
    if ps.len() == 0 {
        Seq::empty()
    } else {
        let rest = atoms_of(past(offset, ps[0]), ps.skip(1));
        match ps[0] {
            Piece::Run(_) => rest,
            Piece::Atom(id) => seq![(offset, id)] + rest,
        }
    }
}

/// Whether an item is the box that stands at `at` for an element below `node`:
/// replaced content at its size, or an `inline-block` with its own content,
/// its definite CSS size and its background.
pub open spec fn item_is(
    item: InlineBoxItem,
    dom: &Dom,
    styles: &StylePlane,
    images: &ImagePlane,
    node: NodeId,
    at: (usize, NodeId),
) -> bool
    decreases usize::MAX - dom.depth_at(node), 0nat,
    when dom.wf() && dom.has(node)
{
    &&& item.index == at.0
    &&& item.source == at.1
    &&& dom.has(at.1)
    &&& dom.depth_at(at.1) > dom.depth_at(node)
    &&& if construct::replaced(dom, at.1) {
        &&& (item.width, item.height) == construct::replaced_size(dom, styles, images, at.1)
        &&& item.block is None
    } else {
        &&& item.width == Extent::Px(ZERO)
        &&& item.height == Extent::Px(ZERO)
        &&& item.block matches Some(b) && {
            &&& content_is(b.content, dom, styles, images, at.1)
            &&& styles.primary_at(at.1) matches Some(s) && {
                &&& b.css_width == s.width
                &&& b.css_height == s.height
                &&& b.background == s.background_color
            }
        }
    }
}

/// Whether some content is that of the element `node`.
pub open spec fn content_is(
    content: InlineContent,
    dom: &Dom,
    styles: &StylePlane,
    images: &ImagePlane,
    node: NodeId,
) -> bool
    decreases usize::MAX - dom.depth_at(node), 1nat,
    when dom.wf() && dom.has(node)
{
    let ps = pieces_from(dom, styles, node, 0);
    let atoms = atoms_of(0, ps);
    &&& run_views(content.runs@) == runs_of(ps)
    &&& content.boxes@.len() == atoms.len()
    &&& forall|k: int|
        0 <= k < atoms.len() ==> item_is(
            #[trigger] content.boxes@[k],
            dom,
            styles,
            images,
            node,
            atoms[k],
        )
}

// ---------------------------------------------------------------------------
// Gathering
// ---------------------------------------------------------------------------
proof fn lemma_pieces_add(offset: usize, a: Seq<Piece>, b: Seq<Piece>)
    ensures
        runs_of(a + b) == runs_of(a) + runs_of(b),
        past_all(offset, a + b) == past_all(past_all(offset, a), b),
        atoms_of(offset, a + b) == atoms_of(offset, a) + atoms_of(past_all(offset, a), b),
    decreases a.len(),
{
    if a.len() == 0 {
        assert(a + b =~= b);
        assert(runs_of(a) + runs_of(b) =~= runs_of(b));
        assert(atoms_of(offset, a) + atoms_of(offset, b) =~= atoms_of(offset, b));
    } else {
        assert((a + b).skip(1) =~= a.skip(1) + b);
        lemma_pieces_add(past(offset, a[0]), a.skip(1), b);
        assert(runs_of(a + b) =~= runs_of(a) + runs_of(b));
        assert(atoms_of(offset, a + b) =~= atoms_of(offset, a) + atoms_of(
            past_all(offset, a),
            b,
        ));
    }
}

/// What has been gathered so far.
struct Gathered {
    runs: Vec<InlineRun>,
    boxes: Vec<InlineBoxItem>,
    offset: usize,
}

impl Gathered {
    /// Whether `after` is this with the given pieces of the element `top`
    /// added.
    spec fn grows_to(
        self,
        after: Gathered,
        dom: &Dom,
        styles: &StylePlane,
        images: &ImagePlane,
        top: NodeId,
        ps: Seq<Piece>,
    ) -> bool {
        let atoms = atoms_of(self.offset, ps);
        let n = self.boxes@.len();
        &&& run_views(after.runs@) == run_views(self.runs@) + runs_of(ps)
        &&& after.offset == past_all(self.offset, ps)
        &&& after.boxes@.len() == n + atoms.len()
        &&& forall|k: int| 0 <= k < n ==> #[trigger] after.boxes@[k] == self.boxes@[k]
        &&& forall|k: int|
            n <= k < n + atoms.len() ==> item_is(
                #[trigger] after.boxes@[k],
                dom,
                styles,
                images,
                top,
                atoms[k - n],
            )
    }

    proof fn lemma_grows_twice(
        self,
        mid: Gathered,
        after: Gathered,
        dom: &Dom,
        styles: &StylePlane,
        images: &ImagePlane,
        top: NodeId,
        a: Seq<Piece>,
        b: Seq<Piece>,
    )
        requires
            self.grows_to(mid, dom, styles, images, top, a),
            mid.grows_to(after, dom, styles, images, top, b),
        ensures
            self.grows_to(after, dom, styles, images, top, a + b),
    {
        lemma_pieces_add(self.offset, a, b);
        let n = self.boxes@.len();
        let atoms = atoms_of(self.offset, a + b);
        let first = atoms_of(self.offset, a);
        assert(run_views(after.runs@) =~= run_views(self.runs@) + runs_of(a + b));
        assert forall|k: int| 0 <= k < n implies #[trigger] after.boxes@[k] == self.boxes@[k] by {
            assert(mid.boxes@[k] == self.boxes@[k]);
        }
        assert forall|k: int| n <= k < n + atoms.len() implies item_is(
            #[trigger] after.boxes@[k],
            dom,
            styles,
            images,
            top,
            atoms[k - n],
        ) by {
            if k < n + first.len() {
                assert(after.boxes@[k] == mid.boxes@[k]);
                assert(atoms[k - n] == first[k - n]);
            }
        }
    }

    proof fn lemma_grows_by_nothing(
        self,
        dom: &Dom,
        styles: &StylePlane,
        images: &ImagePlane,
        top: NodeId,
    )
        ensures
            self.grows_to(self, dom, styles, images, top, Seq::empty()),
    {
        let empty = Seq::<Piece>::empty();
        assert(run_views(self.runs@) + runs_of(empty) =~= run_views(self.runs@));
    }

    /// Adds a run.
    fn push_run(
        &mut self,
        run: InlineRun,
        Ghost(dom): Ghost<&Dom>,
        Ghost(styles): Ghost<&StylePlane>,
        Ghost(images): Ghost<&ImagePlane>,
        Ghost(top): Ghost<NodeId>,
    )
        ensures
            old(self).grows_to(
                *final(self),
                dom,
                styles,
                images,
                top,
                seq![Piece::Run(run@)],
            ),
    {
        let bytes: usize = run.text.as_str().as_bytes().len();
        self.offset = self.offset.saturating_add(bytes);
        self.runs.push(run);
        proof {
            reveal_with_fuel(runs_of, 2);
            reveal_with_fuel(past_all, 2);
            reveal_with_fuel(atoms_of, 2);
            let ps = seq![Piece::Run(run@)];
            assert(ps.skip(1) =~= Seq::<Piece>::empty());
            assert(runs_of(ps) =~= seq![run@]);
            assert(past_all(old(self).offset, ps) == past(old(self).offset, ps[0]));
            assert(atoms_of(old(self).offset, ps) =~= Seq::<(usize, NodeId)>::empty());
            assert(run_views(self.runs@) =~= run_views(old(self).runs@) + runs_of(ps));
        }
    }

    /// Adds a box.
    fn push_box(
        &mut self,
        item: InlineBoxItem,
        Ghost(dom): Ghost<&Dom>,
        Ghost(styles): Ghost<&StylePlane>,
        Ghost(images): Ghost<&ImagePlane>,
        Ghost(top): Ghost<NodeId>,
    )
        requires
            item_is(item, dom, styles, images, top, (old(self).offset, item.source)),
        ensures
            old(self).grows_to(
                *final(self),
                dom,
                styles,
                images,
                top,
                seq![Piece::Atom(item.source)],
            ),
    {
        self.boxes.push(item);
        proof {
            reveal_with_fuel(runs_of, 2);
            reveal_with_fuel(past_all, 2);
            reveal_with_fuel(atoms_of, 2);
            let ps = seq![Piece::Atom(item.source)];
            assert(ps.skip(1) =~= Seq::<Piece>::empty());
            assert(runs_of(ps) =~= Seq::<RunModel>::empty());
            assert(past_all(old(self).offset, ps) == past(old(self).offset, ps[0]));
            assert(atoms_of(old(self).offset, ps) =~= seq![(old(self).offset, item.source)]);
            assert(run_views(self.runs@) =~= run_views(old(self).runs@) + runs_of(ps));
        }
    }
}

/// The size, content and background of an `inline-block`.
fn inline_block_box(dom: &Dom, styles: &StylePlane, images: &ImagePlane, child: NodeId) -> (r:
    InlineBlockBox)
    requires
        dom.wf(),
        dom.has(child),
        construct::inline_block(styles, child),
    ensures
        content_is(r.content, dom, styles, images, child),
        styles.primary_at(child) matches Some(s) && {
            &&& r.css_width == s.width
            &&& r.css_height == s.height
            &&& r.background == s.background_color
        },
    decreases usize::MAX - dom.depth_at(child), 3nat,
{
    let content = gather_inline_content(dom, styles, images, child);
    match styles.primary(child) {
        Some(s) => InlineBlockBox {
            content,
            css_width: s.width,
            css_height: s.height,
            background: s.background_color,
        },
        None => InlineBlockBox {
            content,
            css_width: None,
            css_height: None,
            background: transparent(),
        },
    }
}

/// Gathers what one child contributes, its bare text styled by `styling`.
fn gather_child(
    dom: &Dom,
    styles: &StylePlane,
    images: &ImagePlane,
    styling: NodeId,
    child: NodeId,
    out: &mut Gathered,
    Ghost(top): Ghost<NodeId>,
)
    requires
        dom.wf(),
        dom.has(child),
        dom.has(top),
        dom.depth_at(child) > dom.depth_at(top),
    ensures
        old(out).grows_to(
            *final(out),
            dom,
            styles,
            images,
            top,
            pieces(dom, styles, styling, child),
        ),
    decreases usize::MAX - dom.depth_at(child), 4nat,
{
    match dom.kind(child) {
        NodeKind::Text => {
            let source = match dom.text(child) {
                Some(t) => t,
                None => "",
            };
            let text = apply_white_space_collapse(styles, styling, source);
            if !text.as_str().is_empty() {
                let run = run_for_element(styles, styling, text);
                out.push_run(run, Ghost(dom), Ghost(styles), Ghost(images), Ghost(top));
            } else {
                proof {
                    old(out).lemma_grows_by_nothing(dom, styles, images, top);
                }
            }
        },
        NodeKind::Element => {
            if dom.named(child, "br") {
                let run = run_for_element(styles, styling, "\n".to_owned());
                out.push_run(run, Ghost(dom), Ghost(styles), Ghost(images), Ghost(top));
            } else if is_replaced(dom, child) {
                let size = replaced_px_size(dom, styles, images, child);
                let item = InlineBoxItem {
                    index: out.offset,
                    width: size.0,
                    height: size.1,
                    source: child,
                    block: None,
                };
                out.push_box(item, Ghost(dom), Ghost(styles), Ghost(images), Ghost(top));
            } else if is_inline_block(styles, child) {
                let block = inline_block_box(dom, styles, images, child);
                let item = InlineBoxItem {
                    index: out.offset,
                    width: Extent::Px(ZERO),
                    height: Extent::Px(ZERO),
                    source: child,
                    block: Some(Box::new(block)),
                };
                out.push_box(item, Ghost(dom), Ghost(styles), Ghost(images), Ghost(top));
            } else {
                gather_runs(dom, styles, images, child, out, Ghost(top));
            }
        },
        _ => {
            proof {
                old(out).lemma_grows_by_nothing(dom, styles, images, top);
            }
        },
    }
}

/// Gathers what the children of `node` contribute, styled by `node`.
fn gather_runs(
    dom: &Dom,
    styles: &StylePlane,
    images: &ImagePlane,
    node: NodeId,
    out: &mut Gathered,
    Ghost(top): Ghost<NodeId>,
)
    requires
        dom.wf(),
        dom.has(node),
        dom.has(top),
        dom.depth_at(node) >= dom.depth_at(top),
    ensures
        old(out).grows_to(
            *final(out),
            dom,
            styles,
            images,
            top,
            pieces_from(dom, styles, node, 0),
        ),
    decreases usize::MAX - dom.depth_at(node), 1nat,
{
    let children = dom.dom_children(node);
    let ghost mut done = Seq::<Piece>::empty();
    let mut k: usize = 0;
    proof {
        old(out).lemma_grows_by_nothing(dom, styles, images, top);
        assert(done + pieces_from(dom, styles, node, 0) =~= pieces_from(dom, styles, node, 0));
    }
    while k < children.len()
        invariant
            dom.wf(),
            dom.has(node),
            dom.has(top),
            dom.depth_at(node) >= dom.depth_at(top),
            children@ == dom.children_at(node),
            k <= children@.len(),
            old(out).grows_to(*out, dom, styles, images, top, done),
            done + pieces_from(dom, styles, node, k as nat) == pieces_from(dom, styles, node, 0),
        decreases children.len() - k,
    {
        assert(dom.has(dom.children_at(node)[k as int]));
        assert(dom.parent_at(dom.children_at(node)[k as int]) == Some(node));
        let child = children[k];
        let ghost mid = *out;
        gather_child(dom, styles, images, node, child, out, Ghost(top));
        proof {
            let ps = pieces(dom, styles, node, child);
            old(out).lemma_grows_twice(mid, *out, dom, styles, images, top, done, ps);
            assert((done + ps) + pieces_from(dom, styles, node, (k + 1) as nat) =~= done
                + pieces_from(dom, styles, node, k as nat));
            done = done + ps;
        }
        k += 1;
    }
    assert(done =~= done + pieces_from(dom, styles, node, k as nat));
}

/// The inline content of the element `elem`.
pub fn gather_inline_content(
    dom: &Dom,
    styles: &StylePlane,
    images: &ImagePlane,
    elem: NodeId,
) -> (r: InlineContent)
    requires
        dom.wf(),
        dom.has(elem),
    ensures
        content_is(r, dom, styles, images, elem),
    decreases usize::MAX - dom.depth_at(elem), 2nat,
{
    let mut out = Gathered { runs: Vec::new(), boxes: Vec::new(), offset: 0 };
    let ghost start = out;
    gather_runs(dom, styles, images, elem, &mut out, Ghost(elem));
    let r = InlineContent { runs: out.runs, boxes: out.boxes };
    proof {
        let ps = pieces_from(dom, styles, elem, 0);
        assert(run_views(start.runs@) =~= Seq::<RunModel>::empty());
        assert(run_views(r.runs@) =~= runs_of(ps));
        let atoms = atoms_of(0, ps);
        assert forall|k: int| 0 <= k < atoms.len() implies item_is(
            #[trigger] r.boxes@[k],
            dom,
            styles,
            images,
            elem,
            atoms[k],
        ) by {
            assert(r.boxes@[k] == out.boxes@[k]);
        }
    }
    r
}

/// Whether the runs among some pieces came from nodes that are there.
pub open spec fn pieces_known(dom: &Dom, ps: Seq<Piece>) -> bool {
    forall|i: int|
        0 <= i < ps.len() ==> (#[trigger] ps[i] matches Piece::Run(r) ==> dom.has(r.source))
}

/// Whether the runs and the boxes of some content came from nodes that are there.
pub open spec fn content_known(dom: &Dom, content: InlineContent) -> bool {
    &&& forall|i: int| 0 <= i < content.runs@.len() ==> dom.has((#[trigger] content.runs@[i]).source)
    &&& forall|i: int|
        0 <= i < content.boxes@.len() ==> dom.has((#[trigger] content.boxes@[i]).source)
}

proof fn lemma_pieces_known(dom: &Dom, styles: &StylePlane, styling: NodeId, child: NodeId)
    requires
        dom.wf(),
        dom.has(styling),
        dom.has(child),
    ensures
        pieces_known(dom, pieces(dom, styles, styling, child)),
    decreases usize::MAX - dom.depth_at(child), dom.children_at(child).len() + 1,
{
    if dom.kind_at(child) == NodeKind::Element {
        lemma_pieces_from_known(dom, styles, child, 0);
    }
}

proof fn lemma_pieces_from_known(dom: &Dom, styles: &StylePlane, node: NodeId, k: nat)
    requires
        dom.wf(),
        dom.has(node),
    ensures
        pieces_known(dom, pieces_from(dom, styles, node, k)),
    decreases usize::MAX - dom.depth_at(node), dom.children_at(node).len() - k,
{
    if k < dom.children_at(node).len() {
        let child = dom.children_at(node)[k as int];
        assert(dom.has(child) && dom.parent_at(child) == Some(node));
        lemma_pieces_known(dom, styles, node, child);
        lemma_pieces_from_known(dom, styles, node, k + 1);
    }
}

proof fn lemma_runs_known(dom: &Dom, ps: Seq<Piece>)
    requires
        pieces_known(dom, ps),
    ensures
        forall|i: int| 0 <= i < runs_of(ps).len() ==> dom.has((#[trigger] runs_of(ps)[i]).source),
    decreases ps.len(),
{
    if ps.len() > 0 {
        let rest = ps.skip(1);
        assert forall|i: int| 0 <= i < rest.len() implies (#[trigger] rest[i] matches Piece::Run(r)
            ==> dom.has(r.source)) by {
            assert(rest[i] == ps[i + 1]);
        }
        lemma_runs_known(dom, rest);
        assert(ps[0] == ps[0]);
        assert forall|i: int| 0 <= i < runs_of(ps).len() implies dom.has(
            (#[trigger] runs_of(ps)[i]).source,
        ) by {
            match ps[0] {
                Piece::Run(r) => {
                    if i > 0 {
                        assert(runs_of(ps)[i] == runs_of(rest)[i - 1]);
                    }
                },
                Piece::Atom(_) => {
                    assert(runs_of(ps)[i] == runs_of(rest)[i]);
                },
            }
        }
    }
}

/// The content of an element came from nodes of its document.
pub proof fn content_comes_from_the_document(
    content: InlineContent,
    dom: &Dom,
    styles: &StylePlane,
    images: &ImagePlane,
    node: NodeId,
)
    requires
        dom.wf(),
        dom.has(node),
        content_is(content, dom, styles, images, node),
    ensures
        content_known(dom, content),
{
    let ps = pieces_from(dom, styles, node, 0);
    lemma_pieces_from_known(dom, styles, node, 0);
    lemma_runs_known(dom, ps);
    assert forall|i: int| 0 <= i < content.runs@.len() implies dom.has(
        (#[trigger] content.runs@[i]).source,
    ) by {
        assert(run_views(content.runs@)[i] == content.runs@[i]@);
    }
    let atoms = atoms_of(0, ps);
    assert forall|i: int| 0 <= i < content.boxes@.len() implies dom.has(
        (#[trigger] content.boxes@[i]).source,
    ) by {
        assert(item_is(content.boxes@[i], dom, styles, images, node, atoms[i]));
    }
}

// ---------------------------------------------------------------------------
// A group of siblings
// ---------------------------------------------------------------------------
/// The pieces that the members of `group` from number `k` on contribute, their
/// bare text styled by `styling`.
pub open spec fn group_pieces(
    dom: &Dom,
    styles: &StylePlane,
    styling: NodeId,
    group: Seq<NodeId>,
    k: nat,
) -> Seq<Piece>
    decreases group.len() - k,
{
    if k >= group.len() {
        Seq::empty()
    } else {
        pieces(dom, styles, styling, group[k as int]) + group_pieces(
            dom,
            styles,
            styling,
            group,
            k + 1,
        )
    }
}

/// Whether some content is that of a group of nodes below the element
/// `styling`.
pub open spec fn group_content_is(
    content: InlineContent,
    dom: &Dom,
    styles: &StylePlane,
    images: &ImagePlane,
    styling: NodeId,
    group: Seq<NodeId>,
) -> bool {
    let ps = group_pieces(dom, styles, styling, group, 0);
    let atoms = atoms_of(0, ps);
    &&& run_views(content.runs@) == runs_of(ps)
    &&& content.boxes@.len() == atoms.len()
    &&& forall|k: int|
        0 <= k < atoms.len() ==> item_is(
            #[trigger] content.boxes@[k],
            dom,
            styles,
            images,
            styling,
            atoms[k],
        )
}

/// The inline content of a group of nodes below the element `styling`, for an
/// anonymous box. Bare text is styled by `styling`.
pub fn gather_inline_group(
    dom: &Dom,
    styles: &StylePlane,
    images: &ImagePlane,
    styling: NodeId,
    group: &[NodeId],
) -> (r: InlineContent)
    requires
        dom.wf(),
        dom.has(styling),
        forall|i: int|
            0 <= i < group@.len() ==> dom.has(#[trigger] group@[i]) && dom.depth_at(group@[i])
                > dom.depth_at(styling),
    ensures
        group_content_is(r, dom, styles, images, styling, group@),
{
    let mut out = Gathered { runs: Vec::new(), boxes: Vec::new(), offset: 0 };
    let ghost start = out;
    let ghost all = group_pieces(dom, styles, styling, group@, 0);
    let ghost mut done = Seq::<Piece>::empty();
    let mut k: usize = 0;
    proof {
        start.lemma_grows_by_nothing(dom, styles, images, styling);
        assert(done + all =~= all);
    }
    while k < group.len()
        invariant
            dom.wf(),
            dom.has(styling),
            forall|i: int|
                0 <= i < group@.len() ==> dom.has(#[trigger] group@[i]) && dom.depth_at(group@[i])
                    > dom.depth_at(styling),
            k <= group@.len(),
            start.grows_to(out, dom, styles, images, styling, done),
            done + group_pieces(dom, styles, styling, group@, k as nat) == all,
        decreases group.len() - k,
    {
        let child = group[k];
        assert(dom.has(group@[k as int]));
        let ghost mid = out;
        gather_child(dom, styles, images, styling, child, &mut out, Ghost(styling));
        proof {
            let ps = pieces(dom, styles, styling, child);
            start.lemma_grows_twice(mid, out, dom, styles, images, styling, done, ps);
            assert((done + ps) + group_pieces(dom, styles, styling, group@, (k + 1) as nat) =~= done
                + group_pieces(dom, styles, styling, group@, k as nat));
            done = done + ps;
        }
        k += 1;
    }
    let r = InlineContent { runs: out.runs, boxes: out.boxes };
    proof {
        assert(done =~= all);
        assert(run_views(start.runs@) =~= Seq::<RunModel>::empty());
        assert(run_views(r.runs@) =~= runs_of(all));
        let atoms = atoms_of(0, all);
        assert forall|k: int| 0 <= k < atoms.len() implies item_is(
            #[trigger] r.boxes@[k],
            dom,
            styles,
            images,
            styling,
            atoms[k],
        ) by {
            assert(r.boxes@[k] == out.boxes@[k]);
        }
    }
    r
}

// ---------------------------------------------------------------------------
// List markers
// ---------------------------------------------------------------------------
/// A marker's run: in the item's style, without underline or strike.
pub open spec fn marker_run(styles: &StylePlane, id: NodeId, text: Seq<char>) -> RunModel {
    RunModel { underline: false, strikethrough: false, ..run_model(styles, id, text) }
}

/// The run of a list item's marker that hangs beside the item; `None` for what
/// has no marker.
pub open spec fn hanging_marker(dom: &Dom, styles: &StylePlane, id: NodeId) -> Option<RunModel> {
    match list_marker::marker_text(dom, styles, id) {
        Some(t) => Some(marker_run(styles, id, t)),
        None => None,
    }
}

/// The run of a list item's marker that flows before the item's content: it
/// ends in a space.
pub open spec fn flowing_marker(dom: &Dom, styles: &StylePlane, id: NodeId) -> Option<RunModel> {
    match list_marker::marker_text(dom, styles, id) {
        Some(t) => Some(marker_run(styles, id, t.push(' '))),
        None => None,
    }
}

/// Whether a list item's marker flows inside the item.
pub open spec fn marker_inside(styles: &StylePlane, id: NodeId) -> bool {
    styles.primary_at(id) matches Some(s) && s.list_style_inside
}

/// Whether a list item's marker flows inside the item.
pub fn list_marker_is_inside(styles: &StylePlane, id: NodeId) -> (r: bool)
    ensures
        r == marker_inside(styles, id),
{
    match styles.primary(id) {
        Some(s) => s.list_style_inside,
        None => false,
    }
}

fn run_for_marker(styles: &StylePlane, id: NodeId, text: String) -> (r: InlineRun)
    ensures
        r@ == marker_run(styles, id, text@),
{
    let mut run = run_for_element(styles, id, text);
    run.underline = false;
    run.strikethrough = false;
    run
}

/// Whether some content is a single run, the marker that hangs beside `id`.
pub open spec fn marker_content_is(
    content: Option<InlineContent>,
    dom: &Dom,
    styles: &StylePlane,
    id: NodeId,
) -> bool {
    match hanging_marker(dom, styles, id) {
        Some(run) => content matches Some(c) && run_views(c.runs@) == seq![run] && c.boxes@.len()
            == 0,
        None => content is None,
    }
}

/// The marker of a list item as content of its own, to hang beside the item.
pub fn list_marker_content(dom: &Dom, styles: &StylePlane, id: NodeId) -> (r: Option<InlineContent>)
    requires
        dom.wf(),
        dom.has(id),
    ensures
        marker_content_is(r, dom, styles, id),
{
    match list_marker_text(dom, styles, id) {
        Some(text) => {
            let mut runs: Vec<InlineRun> = Vec::new();
            runs.push(run_for_marker(styles, id, text));
            let r = InlineContent { runs, boxes: Vec::new() };
            assert(run_views(r.runs@) =~= seq![marker_run(styles, id, text@)]);
            Some(r)
        },
        None => None,
    }
}

/// The marker of a list item as a run, to flow before the item's content.
pub fn list_marker_inline_run(dom: &Dom, styles: &StylePlane, id: NodeId) -> (r: Option<InlineRun>)
    requires
        dom.wf(),
        dom.has(id),
    ensures
        flowing_marker(dom, styles, id) == (match r {
            Some(run) => Some(run@),
            None => None,
        }),
{
    match list_marker_text(dom, styles, id) {
        Some(text) => {
            let mut t = text;
            t.push(' ');
            Some(run_for_marker(styles, id, t))
        },
        None => None,
    }
}

// ---------------------------------------------------------------------------
// Laws
// ---------------------------------------------------------------------------
/// Whether a run is in the family that a `font-family` names first.
pub open spec fn is_in_the_first_family(run: InlineRun, families: Seq<FontFamily>) -> bool {
    if families.len() == 0 {
        run.font_family is None
    } else {
        match families[0] {
            FontFamily::Named(n) => run.font_family matches Some(FontFamilySpec::Named(m)) && m@
                == n@,
            FontFamily::Generic(g) => run.font_family matches Some(FontFamilySpec::Generic(k)) && {
                &&& g == GenericFont::Serif <==> k == GenericFamilyKind::Serif
                &&& g == GenericFont::Monospace <==> k == GenericFamilyKind::Monospace
                &&& g == GenericFont::Cursive <==> k == GenericFamilyKind::Cursive
                &&& g == GenericFont::Fantasy <==> k == GenericFamilyKind::Fantasy
            },
        }
    }
}

/// Whether a run has the size, the weight, the slant, the family, the color and
/// the spacing of some computed values, and their overline.
pub open spec fn is_set_in(run: InlineRun, s: ComputedStyle) -> bool {
    &&& run.font_size == s.font_size
    &&& run.weight == s.font_weight
    &&& run.italic == s.italic
    &&& run.color == s.color
    &&& run.overline == s.overline
    &&& run.decoration_color == s.text_decoration_color
    &&& run.letter_spacing == s.letter_spacing
    &&& run.word_spacing == s.word_spacing
    &&& run.line_height == s.line_height
    &&& is_in_the_first_family(run, s.font_family@)
}

/// Whether a run is set as text that nothing styles: upright black at 16 px and
/// weight 400, without lines or spacing of its own.
pub open spec fn is_set_plain(run: InlineRun) -> bool {
    &&& run.font_size == SIXTEEN
    &&& run.weight == FOUR_HUNDRED
    &&& !run.italic
    &&& run.color == (Rgba { r: ZERO, g: ZERO, b: ZERO, a: ONE })
    &&& !run.overline
    &&& run.decoration_color == (Rgba { r: ZERO, g: ZERO, b: ZERO, a: ONE })
    &&& run.letter_spacing == ZERO
    &&& run.word_spacing == ZERO
    &&& run.line_height == LineHeightSpec::Normal
    &&& run.font_family is None
}

/// Whether a run is set in the computed values of its source, or plain where that
/// has none.
pub open spec fn is_set_like_its_source(run: InlineRun, styles: &StylePlane) -> bool {
    match styles.primary_at(run.source) {
        Some(s) => is_set_in(run, s),
        None => is_set_plain(run),
    }
}

/// Whether a run is underlined and struck through as its source says.
pub open spec fn is_lined_like_its_source(run: InlineRun, styles: &StylePlane) -> bool {
    match styles.primary_at(run.source) {
        Some(s) => run.underline == s.underline && run.strikethrough == s.line_through,
        None => !run.underline && !run.strikethrough,
    }
}

/// A run made in the style of an element is set and lined as that element's
/// computed values say.
pub proof fn a_run_of_an_element_is_set_in_its_style(
    run: InlineRun,
    styles: &StylePlane,
    id: NodeId,
    text: Seq<char>,
)
    requires
        run@ == run_model(styles, id, text),
    ensures
        run.text@ == text,
        run.source == id,
        is_set_like_its_source(run, styles),
        is_lined_like_its_source(run, styles),
{
}

/// A list item's marker is set in the item's style, and never underlined or
/// struck through.
pub proof fn a_marker_is_set_in_the_style_of_its_item(
    run: InlineRun,
    styles: &StylePlane,
    id: NodeId,
    text: Seq<char>,
)
    requires
        run@ == marker_run(styles, id, text),
    ensures
        run.text@ == text,
        run.source == id,
        is_set_like_its_source(run, styles),
        !run.underline,
        !run.strikethrough,
{
}

spec fn pieces_styled(styles: &StylePlane, ps: Seq<Piece>) -> bool {
    forall|i: int|
        0 <= i < ps.len() ==> (#[trigger] ps[i] matches Piece::Run(r) ==> r == run_model(
            styles,
            r.source,
            r.text,
        ))
}

proof fn lemma_pieces_styled(dom: &Dom, styles: &StylePlane, styling: NodeId, child: NodeId)
    requires
        dom.wf(),
        dom.has(child),
    ensures
        pieces_styled(styles, pieces(dom, styles, styling, child)),
    decreases usize::MAX - dom.depth_at(child), dom.children_at(child).len() + 1,
{
    if dom.kind_at(child) == NodeKind::Element {
        lemma_pieces_from_styled(dom, styles, child, 0);
    }
}

proof fn lemma_pieces_from_styled(dom: &Dom, styles: &StylePlane, node: NodeId, k: nat)
    requires
        dom.wf(),
        dom.has(node),
    ensures
        pieces_styled(styles, pieces_from(dom, styles, node, k)),
    decreases usize::MAX - dom.depth_at(node), dom.children_at(node).len() - k,
{
    if k < dom.children_at(node).len() {
        let child = dom.children_at(node)[k as int];
        assert(dom.has(child) && dom.parent_at(child) == Some(node));
        lemma_pieces_styled(dom, styles, node, child);
        lemma_pieces_from_styled(dom, styles, node, k + 1);
    }
}

proof fn lemma_runs_styled(styles: &StylePlane, ps: Seq<Piece>)
    requires
        pieces_styled(styles, ps),
    ensures
        forall|i: int|
            0 <= i < runs_of(ps).len() ==> #[trigger] runs_of(ps)[i] == run_model(
                styles,
                runs_of(ps)[i].source,
                runs_of(ps)[i].text,
            ),
    decreases ps.len(),
{
    if ps.len() > 0 {
        let rest = ps.skip(1);
        assert forall|i: int| 0 <= i < rest.len() implies (#[trigger] rest[i] matches Piece::Run(r)
            ==> r == run_model(styles, r.source, r.text)) by {
            assert(rest[i] == ps[i + 1]);
        }
        lemma_runs_styled(styles, rest);
        assert(ps[0] == ps[0]);
        assert forall|i: int| 0 <= i < runs_of(ps).len() implies #[trigger] runs_of(ps)[i]
            == run_model(styles, runs_of(ps)[i].source, runs_of(ps)[i].text) by {
            match ps[0] {
                Piece::Run(r) => {
                    if i > 0 {
                        assert(runs_of(ps)[i] == runs_of(rest)[i - 1]);
                    }
                },
                Piece::Atom(_) => {
                    assert(runs_of(ps)[i] == runs_of(rest)[i]);
                },
            }
        }
    }
}

/// Every run of an element's content is set and lined as the computed values of
/// the element that it came from say, field by field.
pub proof fn the_runs_of_a_content_are_set_like_their_sources(
    content: InlineContent,
    dom: &Dom,
    styles: &StylePlane,
    images: &ImagePlane,
    node: NodeId,
)
    requires
        dom.wf(),
        dom.has(node),
        content_is(content, dom, styles, images, node),
    ensures
        forall|i: int|
            0 <= i < content.runs@.len() ==> is_set_like_its_source(
                #[trigger] content.runs@[i],
                styles,
            ) && is_lined_like_its_source(content.runs@[i], styles),
{
    let ps = pieces_from(dom, styles, node, 0);
    lemma_pieces_from_styled(dom, styles, node, 0);
    lemma_runs_styled(styles, ps);
    assert forall|i: int| 0 <= i < content.runs@.len() implies is_set_like_its_source(
        #[trigger] content.runs@[i],
        styles,
    ) && is_lined_like_its_source(content.runs@[i], styles) by {
        let r = content.runs@[i];
        assert(run_views(content.runs@)[i] == r@);
        a_run_of_an_element_is_set_in_its_style(r, styles, r.source, r.text@);
    }
}

/// Whether an item in a line is sized as its source says: replaced content has its
/// size and nothing inside; an `inline-block` has the content of its element,
/// with the element's own definite lengths and background.
pub open spec fn is_boxed_like_its_source(
    item: InlineBoxItem,
    dom: &Dom,
    styles: &StylePlane,
    images: &ImagePlane,
) -> bool {
    if construct::is_replaced_by_name(dom, item.source) {
        &&& item.block is None
        &&& construct::is_the_width_of(item.width, dom, styles, images, item.source)
        &&& construct::is_the_height_of(item.height, dom, styles, images, item.source)
    } else {
        &&& item.block matches Some(b) && {
            &&& content_is(b.content, dom, styles, images, item.source)
            &&& styles.primary_at(item.source) matches Some(s) && {
                &&& b.css_width == s.width
                &&& b.css_height == s.height
                &&& b.background == s.background_color
            }
        }
    }
}

/// Every box in an element's lines is sized as the element that it stands for
/// says.
pub proof fn the_boxes_of_a_content_are_sized_like_their_sources(
    content: InlineContent,
    dom: &Dom,
    styles: &StylePlane,
    images: &ImagePlane,
    node: NodeId,
)
    requires
        dom.wf(),
        dom.has(node),
        content_is(content, dom, styles, images, node),
    ensures
        forall|i: int|
            0 <= i < content.boxes@.len() ==> is_boxed_like_its_source(
                #[trigger] content.boxes@[i],
                dom,
                styles,
                images,
            ),
{
    let atoms = atoms_of(0, pieces_from(dom, styles, node, 0));
    assert forall|i: int| 0 <= i < content.boxes@.len() implies is_boxed_like_its_source(
        #[trigger] content.boxes@[i],
        dom,
        styles,
        images,
    ) by {
        let item = content.boxes@[i];
        assert(item_is(item, dom, styles, images, node, atoms[i]));
        construct::replaced_content_is_told_by_name(dom, item.source);
        if construct::replaced(dom, item.source) {
            construct::each_side_of_a_replaced_element_is_its_own(
                dom,
                styles,
                images,
                item.source,
            );
        }
    }
}

/// What a child adds to the lines of its element. A text adds one run of itself,
/// as the element's white space has it and in the element's style, or nothing
/// where that leaves it empty. A `<br>` adds a newline. Replaced content and an
/// `inline-block` add a box and no text. Any other element adds what its own
/// children add. What is neither text nor element adds nothing.
pub proof fn what_a_child_adds_to_the_lines(
    dom: &Dom,
    styles: &StylePlane,
    node: NodeId,
    child: NodeId,
    offset: usize,
)
    requires
        dom.wf(),
        dom.has(node),
        dom.has(child),
    ensures
        ({
            let ps = pieces(dom, styles, node, child);
            let runs = runs_of(ps);
            let atoms = atoms_of(offset, ps);
            let is_br = dom.is_named(child, "br"@);
            let is_box = construct::is_replaced_by_name(dom, child) || (styles.primary_at(
                child,
            ) matches Some(s) && s.display_outside == DisplayOutside::Inline && s.display_inside
                == DisplayInside::FlowRoot);
            match dom.kind_at(child) {
                NodeKind::Text => {
                    let shown = match dom.text_at(child) {
                        Some(t) => construct::rendered_text(styles, node, t),
                        None => construct::rendered_text(styles, node, Seq::empty()),
                    };
                    &&& atoms.len() == 0
                    &&& shown.len() == 0 ==> runs.len() == 0
                    &&& shown.len() > 0 ==> runs.len() == 1 && runs[0].text == shown
                        && runs[0].source == node
                },
                NodeKind::Element => {
                    &&& is_br ==> atoms.len() == 0 && runs.len() == 1 && runs[0].text == seq!['\n']
                        && runs[0].source == node
                    &&& !is_br && is_box ==> runs.len() == 0 && atoms == seq![(offset, child)]
                    &&& !is_br && !is_box ==> ps == pieces_from(dom, styles, child, 0)
                },
                _ => runs.len() == 0 && atoms.len() == 0,
            }
        }),
{
    reveal_strlit("");
    assert(""@ =~= Seq::<char>::empty());
    reveal_strlit("\n");
    assert("\n"@ =~= seq!['\n']);
    let ps = pieces(dom, styles, node, child);
    reveal_with_fuel(runs_of, 2);
    reveal_with_fuel(atoms_of, 2);
    construct::replaced_content_is_told_by_name(dom, child);
    if ps.len() == 1 {
        assert(ps.skip(1) =~= Seq::<Piece>::empty());
    }
}

/// The lines of an element hold what its children add, one after the other.
pub proof fn the_lines_of_an_element_are_those_of_its_children(
    dom: &Dom,
    styles: &StylePlane,
    node: NodeId,
)
    requires
        dom.wf(),
        dom.has(node),
    ensures
        pieces_from(dom, styles, node, 0) == dom.children_at(node).map_values(
            |c: NodeId| pieces(dom, styles, node, c),
        ).flatten(),
{
    lemma_pieces_from_flatten(dom, styles, node, 0);
    assert(dom.children_at(node).skip(0) =~= dom.children_at(node));
}

proof fn lemma_pieces_from_flatten(dom: &Dom, styles: &StylePlane, node: NodeId, k: nat)
    requires
        dom.wf(),
        dom.has(node),
        k <= dom.children_at(node).len(),
    ensures
        pieces_from(dom, styles, node, k) == dom.children_at(node).skip(k as int).map_values(
            |c: NodeId| pieces(dom, styles, node, c),
        ).flatten(),
    decreases dom.children_at(node).len() - k,
{
    let f = |c: NodeId| pieces(dom, styles, node, c);
    let all = dom.children_at(node);
    let parts = all.skip(k as int).map_values(f);
    if k < all.len() {
        lemma_pieces_from_flatten(dom, styles, node, k + 1);
        assert(parts.first() == f(all[k as int]));
        assert(parts.drop_first() =~= all.skip((k + 1) as int).map_values(f));
    } else {
        assert(parts =~= Seq::<Seq<Piece>>::empty());
    }
}

/// The lines of a group of siblings hold what its members add, one after the
/// other, their bare text in the style of the element that they stand in.
pub proof fn the_lines_of_a_group_are_those_of_its_members(
    dom: &Dom,
    styles: &StylePlane,
    styling: NodeId,
    group: Seq<NodeId>,
    k: nat,
)
    requires
        k <= group.len(),
    ensures
        group_pieces(dom, styles, styling, group, k) == group.skip(k as int).map_values(
            |c: NodeId| pieces(dom, styles, styling, c),
        ).flatten(),
    decreases group.len() - k,
{
    let f = |c: NodeId| pieces(dom, styles, styling, c);
    let parts = group.skip(k as int).map_values(f);
    if k < group.len() {
        the_lines_of_a_group_are_those_of_its_members(dom, styles, styling, group, k + 1);
        assert(parts.first() == f(group[k as int]));
        assert(parts.drop_first() =~= group.skip((k + 1) as int).map_values(f));
    } else {
        assert(parts =~= Seq::<Seq<Piece>>::empty());
    }
}

/// The content of a group holds a run for each run that its members add, in their
/// order, and a box for each box, set in the style of the element that they stand
/// in.
pub proof fn the_content_of_a_group_is_what_its_members_add(
    content: InlineContent,
    dom: &Dom,
    styles: &StylePlane,
    images: &ImagePlane,
    styling: NodeId,
    group: Seq<NodeId>,
)
    requires
        dom.wf(),
        dom.has(styling),
        group_content_is(content, dom, styles, images, styling, group),
    ensures
        ({
            let added = group.map_values(|c: NodeId| pieces(dom, styles, styling, c)).flatten();
            &&& run_views(content.runs@) == runs_of(added)
            &&& content.boxes@.len() == atoms_of(0, added).len()
            &&& forall|i: int|
                0 <= i < content.boxes@.len() ==> (#[trigger] content.boxes@[i]).source == atoms_of(
                    0,
                    added,
                )[i].1 && content.boxes@[i].index == atoms_of(0, added)[i].0
        }),
{
    the_lines_of_a_group_are_those_of_its_members(dom, styles, styling, group, 0);
    assert(group.skip(0) =~= group);
    let ps = group_pieces(dom, styles, styling, group, 0);
    let atoms = atoms_of(0, ps);
    assert forall|i: int| 0 <= i < content.boxes@.len() implies (
    #[trigger] content.boxes@[i]).source == atoms[i].1 && content.boxes@[i].index == atoms[i].0 by {
        assert(item_is(content.boxes@[i], dom, styles, images, styling, atoms[i]));
    }
}

/// The content of a hanging marker is one run, the item's marker, and no box; an
/// item without one has no such content.
pub proof fn a_hanging_marker_is_one_run(
    content: Option<InlineContent>,
    dom: &Dom,
    styles: &StylePlane,
    id: NodeId,
)
    requires
        marker_content_is(content, dom, styles, id),
    ensures
        content is Some <==> hanging_marker(dom, styles, id) is Some,
        content matches Some(c) ==> c.runs@.len() == 1 && c.boxes@.len() == 0 && Some(c.runs@[0]@)
            == hanging_marker(dom, styles, id),
{
    if let Some(c) = content {
        assert(run_views(c.runs@).len() == c.runs@.len());
        assert(run_views(c.runs@)[0] == c.runs@[0]@);
    }
}

} // verus!
