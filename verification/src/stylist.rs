//! The rules of the style engine: the style sheets that it matches with, and the
//! declarations of `style` attributes.
use vstd::prelude::*;
use vstd::string::*;
use crate::cascade::{sheets_in_order, SheetOrigin};
use crate::dom::{NodeId, QuirksMode};
use crate::host_loader;
use crate::host_loader::base_for;
use crate::node_map::NodeMap;
use crate::style_plane::StylePlane;
use crate::text;

verus! {

// ---------------------------------------------------------------------------
// Outside calls
// ---------------------------------------------------------------------------
/// The engine that style sheets are matched with.
#[verifier::external_type_specification]
#[verifier::external_body]
pub struct ExStylist(style::stylist::Stylist);

/// The device that media queries are asked of.
#[verifier::external_type_specification]
#[verifier::external_body]
pub struct ExDevice(style::device::Device);

/// The lock that rules are read under.
#[verifier::external_type_specification]
#[verifier::external_body]
pub struct ExSharedRwLock(style::shared_lock::SharedRwLock);

/// The parsed declarations of a `style` attribute.
#[verifier::external_type_specification]
#[verifier::external_body]
pub struct ExDeclarationBlock(style::properties::PropertyDeclarationBlock);

/// The style sheets of an engine in the order in which they were added: where each
/// comes from, the quirks mode and the URL that it was parsed with, and its text.
pub uninterp spec fn sheets_held(stylist: style::stylist::Stylist) -> Seq<
    (SheetOrigin, QuirksMode, Seq<char>, Seq<char>),
>;

/// The quirks mode that an engine was made with.
pub uninterp spec fn quirks_held(stylist: style::stylist::Stylist) -> QuirksMode;

/// The device that an engine was made for.
pub uninterp spec fn device_held(stylist: style::stylist::Stylist) -> style::device::Device;

/// Whether every style sheet of an engine is wrapped under a lock.
pub uninterp spec fn sheets_under(
    stylist: style::stylist::Stylist,
    lock: style::shared_lock::SharedRwLock,
) -> bool;

/// Whether nobody writes under a lock, as under one that only its maker has.
pub uninterp spec fn is_idle(lock: style::shared_lock::SharedRwLock) -> bool;

/// Whether the rules of all of an engine's style sheets are in force.
pub uninterp spec fn is_flushed(stylist: style::stylist::Stylist) -> bool;

/// The texts that the declarations of a block were parsed from, each with the
/// quirks mode and the URL that its references resolve against.
pub uninterp spec fn block_held(block: style::properties::PropertyDeclarationBlock) -> Seq<
    (QuirksMode, Seq<char>, Seq<char>),
>;

/// `style::stylist::Stylist::new` makes an engine without style sheets.
#[verifier::external_body]
fn new_stylist(device: style::device::Device, quirks: QuirksMode) -> (r: style::stylist::Stylist)
    ensures
        sheets_held(r) == Seq::<(SheetOrigin, QuirksMode, Seq<char>, Seq<char>)>::empty(),
        quirks_held(r) == quirks,
        device_held(r) == device,
        forall|lock: style::shared_lock::SharedRwLock| sheets_under(r, lock),
{
    let quirks = match quirks {
        QuirksMode::NoQuirks => selectors::matching::QuirksMode::NoQuirks,
        QuirksMode::LimitedQuirks => selectors::matching::QuirksMode::LimitedQuirks,
        QuirksMode::Quirks => selectors::matching::QuirksMode::Quirks,
    };
    style::stylist::Stylist::new(device, quirks)
}

/// `style::shared_lock::SharedRwLock::new` makes a lock that nobody holds.
#[verifier::external_body]
fn new_lock() -> (r: style::shared_lock::SharedRwLock)
    ensures
        is_idle(r),
{
    style::shared_lock::SharedRwLock::new()
}

/// `style::stylesheets::Stylesheet::from_str` parses a style sheet with the
/// engine's quirks mode, wrapped under a lock, and `Stylist::append_stylesheet`
/// adds it behind the others. What the rules are that a text parses to is not said:
/// the process switches properties on and off.
#[verifier::external_body]
fn append_sheet(
    stylist: &mut style::stylist::Stylist,
    lock: &style::shared_lock::SharedRwLock,
    origin: SheetOrigin,
    base: &str,
    css: &str,
)
    requires
        host_loader::normal_url(base@) is Some,
        sheets_under(*old(stylist), *lock),
        is_idle(*lock),
    ensures
        sheets_held(*final(stylist)) == sheets_held(*old(stylist)).push(
            (origin, quirks_held(*old(stylist)), host_loader::normal_url(base@)->0, css@),
        ),
        quirks_held(*final(stylist)) == quirks_held(*old(stylist)),
        device_held(*final(stylist)) == device_held(*old(stylist)),
        sheets_under(*final(stylist), *lock),
{
    let url = style::stylesheets::UrlExtraData::from(url::Url::parse(base).unwrap());
    let origin = match origin {
        SheetOrigin::UserAgent => style::stylesheets::Origin::UserAgent,
        SheetOrigin::Author => style::stylesheets::Origin::Author,
    };
    let media = servo_arc::Arc::new(lock.wrap(style::media_queries::MediaList::empty()));
    let quirks = stylist.quirks_mode();
    let imports = style::stylesheets::AllowImportRules::Yes;
    let sheet = style::stylesheets::Stylesheet::from_str(
        css, url, origin, media, lock.clone(), None, None, quirks, imports,
    );
    let sheet = style::stylesheets::DocumentStyleSheet(servo_arc::Arc::new(sheet));
    stylist.append_stylesheet(sheet, &lock.read());
}

/// `Stylist::flush` puts the rules of the style sheets in force, which are all
/// wrapped under a lock.
#[verifier::external_body]
fn flush(stylist: &mut style::stylist::Stylist, lock: &style::shared_lock::SharedRwLock)
    requires
        sheets_under(*old(stylist), *lock),
        is_idle(*lock),
    ensures
        is_flushed(*final(stylist)),
        sheets_held(*final(stylist)) == sheets_held(*old(stylist)),
        quirks_held(*final(stylist)) == quirks_held(*old(stylist)),
        device_held(*final(stylist)) == device_held(*old(stylist)),
        sheets_under(*final(stylist), *lock),
{
    let read = lock.read();
    let guards = style::shared_lock::StylesheetGuards { author: &read, ua_or_user: &read };
    stylist.flush(&guards);
}

/// `style::properties::declaration_block::parse_style_attribute` parses the
/// declarations of a `style` attribute. Which they are is not said: the process
/// switches properties on and off.
#[verifier::external_body]
fn parse_block(css: &str, base: &str, quirks: QuirksMode) -> (r:
    style::properties::PropertyDeclarationBlock)
    requires
        host_loader::normal_url(base@) is Some,
    ensures
        block_held(r) == seq![(quirks, host_loader::normal_url(base@)->0, css@)],
{
    let url = style::stylesheets::UrlExtraData::from(url::Url::parse(base).unwrap());
    let quirks = match quirks {
        QuirksMode::NoQuirks => selectors::matching::QuirksMode::NoQuirks,
        QuirksMode::LimitedQuirks => selectors::matching::QuirksMode::LimitedQuirks,
        QuirksMode::Quirks => selectors::matching::QuirksMode::Quirks,
    };
    let rule = style::stylesheets::CssRuleType::Style;
    style::properties::declaration_block::parse_style_attribute(css, &url, None, quirks, rule)
}

// ---------------------------------------------------------------------------
// Style sheets
// ---------------------------------------------------------------------------
/// The style sheets of a document as an engine holds them: the browser's own
/// first, then the author's in their order, all with the document's quirks mode
/// and base.
pub open spec fn sheets_of_document(
    defaults: Seq<char>,
    sheets: Seq<&str>,
    quirks: QuirksMode,
    base: Seq<char>,
) -> Seq<(SheetOrigin, QuirksMode, Seq<char>, Seq<char>)> {
    seq![(SheetOrigin::UserAgent, quirks, base, defaults)] + sheets.map(
        |i: int, s: &str| (SheetOrigin::Author, quirks, base, s@),
    )
}

/// An engine for a device with the browser's own style sheet and those of an
/// author, and the lock that its rules are read under. References in the sheets
/// resolve against the document's URL.
pub fn build_stylist(
    device: style::device::Device,
    quirks: QuirksMode,
    defaults: &str,
    stylesheets: &[&str],
    base_url: Option<&str>,
) -> (r: (style::stylist::Stylist, style::shared_lock::SharedRwLock))
    ensures
        sheets_held(r.0) == sheets_of_document(
            defaults@,
            stylesheets@,
            quirks,
            host_loader::sheet_base(text::view_of(base_url)),
        ),
        quirks_held(r.0) == quirks,
        device_held(r.0) == device,
        sheets_under(r.0, r.1),
        is_flushed(r.0),
{
    let base = base_for(base_url);
    let ghost url = host_loader::sheet_base(text::view_of(base_url));
    let ghost all = sheets_of_document(defaults@, stylesheets@, quirks, url);
    let lock = new_lock();
    let mut stylist = new_stylist(device, quirks);
    let sheets = sheets_in_order(defaults, stylesheets);
    let mut i: usize = 0;
    assert(sheets_held(stylist) =~= all.take(0));
    while i < sheets.len()
        invariant
            host_loader::normal_url(base@) == Some(url),
            sheets@ == seq![(SheetOrigin::UserAgent, defaults)] + stylesheets@.map(
                |i: int, s: &str| (SheetOrigin::Author, s),
            ),
            all == sheets_of_document(defaults@, stylesheets@, quirks, url),
            i <= sheets@.len(),
            sheets_held(stylist) == all.take(i as int),
            quirks_held(stylist) == quirks,
            device_held(stylist) == device,
            sheets_under(stylist, lock),
            is_idle(lock),
        decreases sheets.len() - i,
    {
        let (origin, css) = sheets[i];
        assert(all[i as int] == (origin, quirks, url, css@));
        append_sheet(&mut stylist, &lock, origin, base, css);
        i += 1;
        assert(sheets_held(stylist) =~= all.take(i as int));
    }
    assert(all.take(i as int) =~= all);
    flush(&mut stylist, &lock);
    (stylist, lock)
}

// ---------------------------------------------------------------------------
// Style attributes
// ---------------------------------------------------------------------------
/// Whether `blocks` holds the parsed declarations of a node's entry, where it has
/// the text of a `style` attribute, and else none; none either where the node is
/// not `listed`.
pub open spec fn holds_block(
    blocks: Map<NodeId, style::properties::PropertyDeclarationBlock>,
    plane: &StylePlane,
    quirks: QuirksMode,
    base: Seq<char>,
    k: NodeId,
    listed: bool,
) -> bool {
    if listed && plane.entries@.contains_key(k) && plane.entries@[k].inline_style is Some {
        blocks.contains_key(k) && block_held(blocks[k]) == seq![
            (quirks, base, plane.entries@[k].inline_style->0@),
        ]
    } else {
        !blocks.contains_key(k)
    }
}

/// The declarations of every `style` attribute that a plane has the text of.
pub fn inline_blocks(plane: &StylePlane, quirks: QuirksMode, base_url: Option<&str>) -> (r: NodeMap<
    style::properties::PropertyDeclarationBlock,
>)
    ensures
        forall|k: NodeId| #[trigger]
            holds_block(
                r@,
                plane,
                quirks,
                host_loader::sheet_base(text::view_of(base_url)),
                k,
                true,
            ),
{
    let base = base_for(base_url);
    let ghost url = host_loader::sheet_base(text::view_of(base_url));
    let keys = plane.entries.keys();
    let mut blocks: NodeMap<style::properties::PropertyDeclarationBlock> = NodeMap::new();
    let mut i: usize = 0;
    while i < keys.len()
        invariant
            host_loader::normal_url(base@) == Some(url),
            i <= keys@.len(),
            keys@.no_duplicates(),
            forall|k: NodeId| #[trigger] keys@.contains(k) <==> plane.entries@.contains_key(k),
            forall|k: NodeId| #[trigger]
                holds_block(
                    blocks@,
                    plane,
                    quirks,
                    url,
                    k,
                    keys@.take(i as int).contains(k),
                ),
        decreases keys.len() - i,
    {
        let id = keys[i];
        assert(keys@.contains(keys@[i as int]));
        let ghost before = blocks@;
        if let Some(e) = plane.entries.get(id) {
            if let Some(css) = &e.inline_style {
                blocks.insert(id, parse_block(css.as_str(), base, quirks));
            }
        }
        assert forall|k: NodeId| #[trigger]
            holds_block(
                blocks@,
                plane,
                quirks,
                url,
                k,
                keys@.take(i + 1).contains(k),
            ) by {
            let a = keys@.take(i as int);
            let b = keys@.take(i + 1);
            assert(holds_block(before, plane, quirks, url, k, a.contains(k)));
            assert(b.contains(k) <==> a.contains(k) || k == id) by {
                if a.contains(k) {
                    let j = a.index_of(k);
                    assert(b[j] == k);
                }
                if b.contains(k) {
                    let j = b.index_of(k);
                    if j < i {
                        assert(a[j] == k);
                    }
                }
                assert(b[i as int] == id);
            }
        }
        i += 1;
    }
    assert(keys@.take(i as int) =~= keys@);
    assert forall|k: NodeId| #[trigger] holds_block(blocks@, plane, quirks, url, k, true) by {
        assert(holds_block(blocks@, plane, quirks, url, k, keys@.contains(k)));
    }
    blocks
}

/// The browser's own style sheet comes before those of the author, which keep
/// their order; each has the document's quirks mode and base.
pub proof fn the_author_sheets_follow_the_browsers(
    defaults: Seq<char>,
    sheets: Seq<&str>,
    quirks: QuirksMode,
    base: Seq<char>,
    i: int,
)
    requires
        0 <= i < sheets_of_document(defaults, sheets, quirks, base).len(),
    ensures
        sheets_of_document(defaults, sheets, quirks, base).len() == sheets.len() + 1,
        ({
            let sheet = sheets_of_document(defaults, sheets, quirks, base)[i];
            &&& sheet.0 is UserAgent <==> i == 0
            &&& sheet.0 is Author <==> i > 0
            &&& sheet.1 == quirks
            &&& sheet.2 == base
            &&& i == 0 ==> sheet.3 == defaults
            &&& i > 0 ==> sheet.3 == sheets[i - 1]@
        }),
{
}

/// A node has parsed declarations exactly where it is listed and its entry has the
/// text of a `style` attribute, and they are parsed from that text.
pub proof fn declarations_come_from_the_style_attribute(
    blocks: Map<NodeId, style::properties::PropertyDeclarationBlock>,
    plane: &StylePlane,
    quirks: QuirksMode,
    base: Seq<char>,
    k: NodeId,
    css: String,
)
    requires
        holds_block(blocks, plane, quirks, base, k, true),
    ensures
        blocks.contains_key(k) <==> plane.entries@.contains_key(k)
            && plane.entries@[k].inline_style is Some,
        plane.entries@.contains_key(k) && plane.entries@[k].inline_style == Some(css) ==> {
            let held = block_held(blocks[k]);
            held.len() == 1 && held[0].0 == quirks && held[0].1 == base && held[0].2 == css@
        },
{
}

} // verus!
