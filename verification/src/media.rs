//! Media queries, and the environment that they are asked of.
use style_traits::ToCss;
use vstd::prelude::*;
use vstd::string::*;
use crate::text;

verus! {

/// Whether a text is a word that names a type of media: of ASCII letters, and
/// none of the words that the grammar keeps.
pub open spec fn is_media_type(query: Seq<char>) -> bool {
    let word = text::lowered(query);
    &&& query.len() > 0
    &&& forall|i: int|
        0 <= i < query.len() ==> ('a' <= #[trigger] query[i] <= 'z') || ('A' <= query[i] <= 'Z')
    &&& word != "not"@ && word != "or"@ && word != "and"@ && word != "only"@ && word != "layer"@
}

/// Whether a text is made of blanks alone.
pub open spec fn is_blank(query: Seq<char>) -> bool {
    forall|i: int|
        0 <= i < query.len() ==> #[trigger] query[i] == ' ' || query[i] == '\t' || query[i] == '\n'
}

/// Whether `r` can be the answer to a media query list: its normal form, and
/// whether it matches. Nothing is asked by a blank one; a single type of media is
/// its name in lower case. `not all`, which a list becomes that cannot be read,
/// never matches; an empty list and `all` always do.
pub open spec fn can_answer(query: Seq<char>, r: (String, bool)) -> bool {
    &&& is_blank(query) ==> r.0@.len() == 0
    &&& is_media_type(query) ==> r.0@ == text::lowered(query)
    &&& text::lowered(query) == "not all"@ ==> r.0@ == "not all"@
    &&& r.0@ == "not all"@ ==> !r.1
    &&& r.0@.len() == 0 || r.0@ == "all"@ ==> r.1
}

/// `style::media_queries::MediaList::parse`, `to_css_string` and `evaluate` read
/// a media query list as CSS has it, write it in its normal form, and ask it of
/// the engine's device. A blank list is empty, and a type of media alone is
/// written in lower case. A list that cannot be read is `not all`, which never
/// matches; an empty one and `all` always do. The normal form of any other rests
/// with switches that the process sets, and what it answers with the device and
/// the fonts of the system; neither is said.
#[verifier::external_body]
pub(crate) fn ask_media_query(stylist: &style::stylist::Stylist, base: &str, query: &str) -> (r: (
    String,
    bool,
))
    requires
        base@ == "about:internal-stylesheet"@,
    ensures
        can_answer(query@, r),
{
    let url = style::stylesheets::UrlExtraData::from(url::Url::parse(base).unwrap());
    let quirks = stylist.quirks_mode();
    let origin = style::stylesheets::Origin::Author;
    let mode = style_traits::ParsingMode::DEFAULT;
    let context = style::parser::ParserContext::new(
        origin, &url, None, mode, quirks, Default::default(), None, None, Default::default(),
    );
    let mut input = cssparser::ParserInput::new(query);
    let mut parser = cssparser::Parser::new(&mut input);
    let list = style::media_queries::MediaList::parse(&context, &mut parser);
    let mut custom = style::stylesheets::CustomMediaEvaluator::none();
    (list.to_css_string(), list.evaluate(stylist.device(), quirks, &mut custom))
}

/// Whether `r` is an answer of a style engine to a media query list, asked with a
/// base that nothing resolves against.
pub open(crate) spec fn is_answer(
    stylist: &style::stylist::Stylist,
    query: &str,
    r: (String, bool),
) -> bool {
    exists|base: &str|
        base@ == "about:internal-stylesheet"@ && #[trigger] call_ensures(
            ask_media_query,
            (stylist, base, query),
            r,
        )
}

/// The normal form of a media query list, and whether it matches the engine's
/// device. One that cannot be read is `not all` and does not match; an empty one
/// and `all` do.
pub fn evaluate_media_query(stylist: &style::stylist::Stylist, query: &str) -> (r: (String, bool))
    ensures
        is_answer(stylist, query, r),
        can_answer(query@, r),
{
    ask_media_query(stylist, "about:internal-stylesheet", query)
}

/// Answers media queries for one window, without a document.
pub struct MediaQueryEvaluator {
    pub stylist: style::stylist::Stylist,
}

impl MediaQueryEvaluator {
    /// An evaluator over an engine whose device is the window.
    pub fn new(stylist: style::stylist::Stylist) -> (r: MediaQueryEvaluator)
        ensures
            r.stylist == stylist,
    {
        MediaQueryEvaluator { stylist }
    }

    /// The normal form of a media query list, and whether it matches.
    pub fn evaluate(&self, query: &str) -> (r: (String, bool))
        ensures
            is_answer(&self.stylist, query, r),
            can_answer(query@, r),
    {
        evaluate_media_query(&self.stylist, query)
    }
}

// ---------------------------------------------------------------------------
// Preferences
// ---------------------------------------------------------------------------
/// What the user prefers.
#[derive(Clone, Copy, Debug, PartialEq, Eq, Structural)]
pub struct MediaEnvironment {
    pub dark: bool,
    pub reduced_motion: bool,
}

impl MediaEnvironment {
    /// The environment with another color scheme.
    pub fn with_color_scheme(self, dark: bool) -> (r: MediaEnvironment)
        ensures
            r == (MediaEnvironment { dark, ..self }),
    {
        MediaEnvironment { dark, reduced_motion: self.reduced_motion }
    }

    /// The environment with another wish about motion.
    pub fn with_reduced_motion(self, reduced_motion: bool) -> (r: MediaEnvironment)
        ensures
            r == (MediaEnvironment { reduced_motion, ..self }),
    {
        MediaEnvironment { dark: self.dark, reduced_motion }
    }
}

} // verus!
