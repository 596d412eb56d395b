//! The `contain-intrinsic-*` declarations of style sheets and inline styles: a
//! small cascade of its own over simple selectors, whose winners replace the
//! intrinsic size that an element is sized by.
use vstd::prelude::*;
use vstd::string::*;
use crate::dom::{Dom, NodeId, NodeKind};
use crate::float_bits;
use crate::float_bits::{at_most, finite, Bits, ZERO};
use crate::node_map::NodeMap;
use crate::scan;
use crate::scan::{contains_part, find_char, has_word, split_chars, split_words};
use crate::style_plane::{ContainIntrinsicOverride, StylePlane};
use crate::text;
use crate::text::{
    chars_eq, chars_of, lower_char, lower_chars, str_eq, string_of, sub_chars, trim,
};

verus! {

// ---------------------------------------------------------------------------
// Lengths
// ---------------------------------------------------------------------------
/// A CSS token, as far as lengths go.
pub enum CssToken {
    Dimension { value: Bits, unit: String },
    Number(Bits),
    Other,
}

/// What a token holds.
pub enum TokenModel {
    Dimension { value: Bits, unit: Seq<char> },
    Number(Bits),
    Other,
}

impl View for CssToken {
    type V = TokenModel;

    open spec fn view(&self) -> TokenModel {
        match self {
            CssToken::Dimension { value, unit } => TokenModel::Dimension {
                value: *value,
                unit: unit@,
            },
            CssToken::Number(value) => TokenModel::Number(*value),
            CssToken::Other => TokenModel::Other,
        }
    }
}

/// What some tokens hold.
pub open spec fn token_views(tokens: Seq<CssToken>) -> Seq<TokenModel> {
    tokens.map(|i: int, t: CssToken| t@)
}

/// The tokens of a CSS value, those inside blocks and functions left out.
pub uninterp spec fn css_tokens(css: Seq<char>) -> Seq<TokenModel>;

/// Whether two tokens are of one kind, with the same unit where they have one.
pub open spec fn alike(a: TokenModel, b: TokenModel) -> bool {
    match (a, b) {
        (TokenModel::Dimension { unit: x, .. }, TokenModel::Dimension { unit: y, .. }) => x == y,
        (TokenModel::Number(_), TokenModel::Number(_)) => true,
        (TokenModel::Other, TokenModel::Other) => true,
        _ => false,
    }
}

/// Whether two lists of tokens are alike, one by one.
pub open spec fn all_alike(a: Seq<TokenModel>, b: Seq<TokenModel>) -> bool {
    a.len() == b.len() && forall|i: int| 0 <= i < a.len() ==> alike(#[trigger] a[i], b[i])
}

/// Whether a text may hold a number with an exponent: a digit, an `e`, and a digit
/// that may have a sign.
pub open spec fn has_exponent(css: Seq<char>) -> bool {
    exists|i: int|
        {
            &&& 0 < i < css.len() - 1
            &&& (#[trigger] css[i] == 'e' || css[i] == 'E')
            &&& text::is_digit(css[i - 1])
            &&& text::is_digit(css[i + 1]) || ((css[i + 1] == '+' || css[i + 1] == '-') && i + 2
                < css.len() && text::is_digit(css[i + 2]))
        }
}

/// `cssparser::Parser::next_including_whitespace_and_comments` gives the tokens
/// of a CSS value one by one until its end, passing over what is inside blocks
/// and functions. The result is named, not spelled out. The values of numbers are
/// said only of a text without an exponent: an exponent is raised with a precision
/// that differs from machine to machine.
#[verifier::external_body]
fn tokenize(css: &str) -> (r: Vec<CssToken>)
    ensures
        all_alike(token_views(r@), css_tokens(css@)),
        !has_exponent(css@) ==> token_views(r@) == css_tokens(css@),
{
    let mut input = cssparser::ParserInput::new(css);
    let mut parser = cssparser::Parser::new(&mut input);
    let mut out = Vec::new();
    while let Ok(token) = parser.next_including_whitespace_and_comments() {
        out.push(match token {
            cssparser::Token::Dimension { value, unit, .. } =>
                CssToken::Dimension { value: value.to_bits(), unit: unit.to_string() },
            cssparser::Token::Number { value, .. } => CssToken::Number(value.to_bits()),
            _ => CssToken::Other,
        });
    }
    out
}

/// The length that a token is: a `px` dimension that is finite and not
/// negative, or a plain zero.
pub open spec fn px_of(t: TokenModel) -> Option<Bits> {
    match t {
        TokenModel::Dimension { value, unit } => if text::lowered(unit) == "px"@ && float_bits::le(
            ZERO,
            value,
        ) && float_bits::is_finite(value) {
            Some(value)
        } else {
            None
        },
        TokenModel::Number(value) => if float_bits::rank(value) == 0 {
            Some(ZERO)
        } else {
            None
        },
        TokenModel::Other => None,
    }
}

/// The lengths among some tokens, in order.
pub open spec fn px_among(tokens: Seq<TokenModel>) -> Seq<Bits>
    decreases tokens.len(),
{
    if tokens.len() == 0 {
        Seq::empty()
    } else {
        let before = px_among(tokens.drop_last());
        match px_of(tokens.last()) {
            Some(v) => before.push(v),
            None => before,
        }
    }
}

fn unit_is_px(unit: &str) -> (r: bool)
    ensures
        r == (text::lowered(unit@) == "px"@),
{
    let chars = chars_of(unit);
    let low = lower_chars(chars.as_slice());
    let px = chars_of("px");
    chars_eq(low.as_slice(), px.as_slice())
}

fn read_px(t: &CssToken) -> (r: Option<Bits>)
    ensures
        r == px_of(t@),
{
    match t {
        CssToken::Dimension { value, unit } => {
            if unit_is_px(unit.as_str()) && at_most(ZERO, *value) && finite(*value) {
                Some(*value)
            } else {
                None
            }
        },
        CssToken::Number(value) => if *value == 0 || *value == 0x8000_0000 {
            Some(ZERO)
        } else {
            None
        },
        CssToken::Other => None,
    }
}

/// The lengths among some tokens, in order.
pub fn px_lengths_among(tokens: &Vec<CssToken>) -> (r: Vec<Bits>)
    ensures
        r@ == px_among(token_views(tokens@)),
{
    let mut out: Vec<Bits> = Vec::new();
    let ghost all = token_views(tokens@);
    let mut i: usize = 0;
    assert(px_among(all.take(0)) =~= Seq::<Bits>::empty());
    while i < tokens.len()
        invariant
            i <= tokens@.len(),
            all == token_views(tokens@),
            out@ == px_among(all.take(i as int)),
        decreases tokens.len() - i,
    {
        assert(all.take(i + 1).drop_last() =~= all.take(i as int));
        assert(all.take(i + 1).last() == tokens@[i as int]@);
        if let Some(v) = read_px(&tokens[i]) {
            out.push(v);
        }
        i += 1;
    }
    assert(all.take(i as int) =~= all);
    out
}

/// Whether some tokens can be those of a CSS value.
pub open spec fn can_be_tokens(css: Seq<char>, tokens: Seq<TokenModel>) -> bool {
    &&& all_alike(tokens, css_tokens(css))
    &&& !has_exponent(css) ==> tokens == css_tokens(css)
}

/// The lengths in a CSS value, in order, as its tokens have them.
pub open spec fn px_in(css: Seq<char>) -> Seq<Bits> {
    px_among(css_tokens(css))
}

/// Whether some lengths can be those read from a CSS value. There is one reading
/// of a value without an exponent.
pub open spec fn can_read(css: Seq<char>, lengths: Seq<Bits>) -> bool {
    exists|tokens: Seq<TokenModel>| #[trigger]
        can_be_tokens(css, tokens) && lengths == px_among(tokens)
}

proof fn lemma_can_read(css: Seq<char>)
    ensures
        can_read(css, px_in(css)),
{
    assert(can_be_tokens(css, css_tokens(css)));
}

/// The lengths in a CSS value, in order.
pub fn px_lengths(css: &str) -> (r: Vec<Bits>)
    ensures
        can_read(css@, r@),
        !has_exponent(css@) ==> r@ == px_in(css@),
{
    let tokens = tokenize(css);
    assert(can_be_tokens(css@, token_views(tokens@)));
    px_lengths_among(&tokens)
}

/// The first of some lengths.
pub open spec fn first_of(lengths: Seq<Bits>) -> Option<Bits> {
    if lengths.len() == 0 {
        None
    } else {
        Some(lengths[0])
    }
}

/// Whether `r` can be the first length read from a CSS value.
pub open spec fn can_read_first(css: Seq<char>, r: Option<Bits>) -> bool {
    exists|lengths: Seq<Bits>| #[trigger] can_read(css, lengths) && r == first_of(lengths)
}

/// The first length in a CSS value.
pub fn first_px_length(css: &str) -> (r: Option<Bits>)
    ensures
        can_read_first(css@, r),
        !has_exponent(css@) ==> r == first_of(px_in(css@)),
{
    let lengths = px_lengths(css);
    let r: Option<Bits> = if lengths.len() == 0 {
        None
    } else {
        Some(lengths[0])
    };
    assert(can_read(css@, lengths@) && r == first_of(lengths@));
    r
}

// ---------------------------------------------------------------------------
// Declarations
// ---------------------------------------------------------------------------
/// No override.
pub open spec fn nothing() -> ContainIntrinsicOverride {
    ContainIntrinsicOverride { width: None, height: None }
}

/// What a declaration makes of the ones before it, given the lengths in its value:
/// a width or height sets or unsets its side, a size with one or two lengths sets
/// both.
pub open spec fn declared_after(
    before: ContainIntrinsicOverride,
    name: Seq<char>,
    lengths: Seq<Bits>,
) -> ContainIntrinsicOverride {
    if name == "contain-intrinsic-width"@ {
        ContainIntrinsicOverride { width: first_of(lengths), height: before.height }
    } else if name == "contain-intrinsic-height"@ {
        ContainIntrinsicOverride { width: before.width, height: first_of(lengths) }
    } else if name == "contain-intrinsic-size"@ {
        if lengths.len() == 0 {
            before
        } else {
            ContainIntrinsicOverride {
                width: Some(lengths[0]),
                height: Some(
                    if lengths.len() >= 2 {
                        lengths[1]
                    } else {
                        lengths[0]
                    },
                ),
            }
        }
    } else {
        before
    }
}

/// The value of a declaration: what stands behind its first colon.
pub open spec fn value_of(decl: Seq<char>) -> Seq<char> {
    match scan::first_index(decl, ':') {
        Some(k) => decl.skip((k + 1) as int),
        None => Seq::empty(),
    }
}

/// What one declaration, a name and a value with a colon between, makes of the
/// ones before it, given the lengths in its value.
pub open spec fn declaration_after(
    before: ContainIntrinsicOverride,
    decl: Seq<char>,
    lengths: Seq<Bits>,
) -> ContainIntrinsicOverride {
    match scan::first_index(decl, ':') {
        Some(k) => declared_after(
            before,
            text::lowered(text::trimmed(decl.take(k as int))),
            lengths,
        ),
        None => before,
    }
}

/// What the first `n` of some declarations come to, given the lengths in the value
/// of each.
pub open spec fn declared_by(
    decls: Seq<Seq<char>>,
    readings: Seq<Seq<Bits>>,
    n: nat,
) -> ContainIntrinsicOverride
    decreases n,
{
    if n == 0 {
        nothing()
    } else {
        declaration_after(
            declared_by(decls, readings, (n - 1) as nat),
            decls[n - 1],
            readings[n - 1],
        )
    }
}

/// Whether some lengths can be those read from the values of some declarations.
pub open spec fn reads_each(decls: Seq<Seq<char>>, readings: Seq<Seq<Bits>>) -> bool {
    &&& readings.len() == decls.len()
    &&& forall|i: int| 0 <= i < decls.len() ==> can_read(value_of(decls[i]), #[trigger] readings[i])
}

/// Whether the declarations of a block can come to `value`.
pub open spec fn can_declare(css: Seq<char>, value: ContainIntrinsicOverride) -> bool {
    let decls = scan::split(css, ';');
    exists|readings: Seq<Seq<Bits>>| #[trigger]
        reads_each(decls, readings) && value == declared_by(decls, readings, decls.len())
}

/// The lengths in the values of some declarations, as their tokens have them.
pub open spec fn readings_of(decls: Seq<Seq<char>>) -> Seq<Seq<Bits>> {
    decls.map(|i: int, d: Seq<char>| px_in(value_of(d)))
}

/// What the declarations of a block come to, as their tokens have them.
pub open spec fn declared(css: Seq<char>) -> ContainIntrinsicOverride {
    let decls = scan::split(css, ';');
    declared_by(decls, readings_of(decls), decls.len())
}

/// Whether no value of a block's declarations has an exponent.
pub open spec fn is_plain(css: Seq<char>) -> bool {
    let decls = scan::split(css, ';');
    forall|i: int| 0 <= i < decls.len() ==> !has_exponent(value_of(#[trigger] decls[i]))
}

proof fn lemma_can_declare(css: Seq<char>)
    ensures
        can_declare(css, declared(css)),
{
    let decls = scan::split(css, ';');
    assert forall|i: int| 0 <= i < decls.len() implies can_read(
        value_of(decls[i]),
        #[trigger] readings_of(decls)[i],
    ) by {
        lemma_can_read(value_of(decls[i]));
    }
    assert(reads_each(decls, readings_of(decls)));
}

proof fn lemma_declared_prefix(
    decls: Seq<Seq<char>>,
    a: Seq<Seq<Bits>>,
    b: Seq<Seq<Bits>>,
    n: nat,
)
    requires
        forall|i: int| 0 <= i < n ==> a[i] == b[i],
    ensures
        declared_by(decls, a, n) == declared_by(decls, b, n),
    decreases n,
{
    if n > 0 {
        lemma_declared_prefix(decls, a, b, (n - 1) as nat);
    }
}

/// A block without exponents comes to one value, whoever reads it.
pub proof fn a_plain_block_comes_to_one_value(css: Seq<char>, value: ContainIntrinsicOverride)
    requires
        is_plain(css),
    ensures
        can_declare(css, value) <==> value == declared(css),
{
    lemma_can_declare(css);
    if can_declare(css, value) {
        let decls = scan::split(css, ';');
        let readings = choose|readings: Seq<Seq<Bits>>| #[trigger]
            reads_each(decls, readings) && value == declared_by(decls, readings, decls.len());
        assert forall|i: int| 0 <= i < decls.len() implies readings[i] == readings_of(decls)[i] by {
            assert(can_read(value_of(decls[i]), readings[i]));
        }
        lemma_declared_prefix(decls, readings, readings_of(decls), decls.len());
    }
}

/// Whether one declaration can make `r` of the ones before it.
pub open spec fn can_declare_after(
    before: ContainIntrinsicOverride,
    decl: Seq<char>,
    r: ContainIntrinsicOverride,
) -> bool {
    exists|lengths: Seq<Bits>| #[trigger]
        can_read(value_of(decl), lengths) && r == declaration_after(before, decl, lengths)
}

fn apply_declaration(before: ContainIntrinsicOverride, decl: &Vec<char>) -> (r:
    ContainIntrinsicOverride)
    ensures
        can_declare_after(before, decl@, r),
{
    proof {
        lemma_can_read(value_of(decl@));
    }
    let count: usize = decl.len();
    assert(decl@.skip(0) =~= decl@);
    let colon: usize = match find_char(decl.as_slice(), 0, ':') {
        Some(k) => k,
        None => {
            assert(declaration_after(before, decl@, px_in(value_of(decl@))) == before);
            return before;
        },
    };
    let head = sub_chars(decl.as_slice(), 0, colon);
    assert(head@ =~= decl@.take(colon as int));
    let trimmed = trim(head.as_slice());
    let name_chars = lower_chars(trimmed.as_slice());
    let name = string_of(name_chars.as_slice());
    let tail = sub_chars(decl.as_slice(), colon + 1, count);
    assert(tail@ =~= value_of(decl@));
    let value = string_of(tail.as_slice());
    let n = name.as_str();
    if str_eq(n, "contain-intrinsic-width") {
        let first: Option<Bits> = first_px_length(value.as_str());
        let ghost lengths = choose|lengths: Seq<Bits>| #[trigger]
            can_read(value@, lengths) && first == first_of(lengths);
        let r = ContainIntrinsicOverride { width: first, height: before.height };
        assert(can_read(value_of(decl@), lengths) && r == declaration_after(before, decl@, lengths));
        r
    } else if str_eq(n, "contain-intrinsic-height") {
        let first: Option<Bits> = first_px_length(value.as_str());
        let ghost lengths = choose|lengths: Seq<Bits>| #[trigger]
            can_read(value@, lengths) && first == first_of(lengths);
        let r = ContainIntrinsicOverride { width: before.width, height: first };
        assert(can_read(value_of(decl@), lengths) && r == declaration_after(before, decl@, lengths));
        r
    } else if str_eq(n, "contain-intrinsic-size") {
        let lengths = px_lengths(value.as_str());
        let r = if lengths.len() == 0 {
            before
        } else {
            let width: Bits = lengths[0];
            let height: Bits = if lengths.len() >= 2 { lengths[1] } else { width };
            ContainIntrinsicOverride { width: Some(width), height: Some(height) }
        };
        assert(can_read(value_of(decl@), lengths@) && r == declaration_after(
            before,
            decl@,
            lengths@,
        ));
        r
    } else {
        assert(declaration_after(before, decl@, px_in(value_of(decl@))) == before);
        before
    }
}

/// What the declarations of a block come to.
pub fn parse_contain_intrinsic_declarations(css: &[char]) -> (r: ContainIntrinsicOverride)
    ensures
        can_declare(css@, r),
        is_plain(css@) ==> r == declared(css@),
{
    let decls = split_chars(css, ';');
    let ghost all = scan::split(css@, ';');
    let ghost mut readings = Seq::<Seq<Bits>>::empty();
    let mut value = ContainIntrinsicOverride { width: None, height: None };
    let mut i: usize = 0;
    while i < decls.len()
        invariant
            i <= decls@.len(),
            scan::views(decls@) == all,
            readings.len() == i,
            forall|j: int| 0 <= j < i ==> can_read(value_of(all[j]), #[trigger] readings[j]),
            value == declared_by(all, readings, i as nat),
        decreases decls.len() - i,
    {
        assert(all[i as int] == decls@[i as int]@);
        let ghost before = value;
        let ghost known = readings;
        value = apply_declaration(value, &decls[i]);
        proof {
            let lengths = choose|lengths: Seq<Bits>| #[trigger]
                can_read(value_of(all[i as int]), lengths) && value == declaration_after(
                    before,
                    all[i as int],
                    lengths,
                );
            readings = known.push(lengths);
            lemma_declared_prefix(all, known, readings, i as nat);
            assert forall|j: int| 0 <= j < i + 1 implies can_read(
                value_of(all[j]),
                #[trigger] readings[j],
            ) by {
                if j < i {
                    assert(readings[j] == known[j]);
                }
            }
        }
        i += 1;
    }
    assert(decls@.len() == all.len());
    assert(reads_each(all, readings));
    proof {
        if is_plain(css@) {
            a_plain_block_comes_to_one_value(css@, value);
        }
    }
    value
}

// ---------------------------------------------------------------------------
// Selectors
// ---------------------------------------------------------------------------
/// A simple selector: a type, an id and classes, each optional.
pub struct SimpleSelector {
    pub local: Option<Vec<char>>,
    pub id: Option<Vec<char>>,
    pub classes: Vec<Vec<char>>,
    pub specificity: u128,
}

/// What a simple selector asks of an element.
pub struct SelectorModel {
    pub local: Option<Seq<char>>,
    pub id: Option<Seq<char>>,
    pub classes: Seq<Seq<char>>,
}

/// The characters of a text that may be missing.
pub open spec fn opt_view(t: Option<Vec<char>>) -> Option<Seq<char>> {
    match t {
        Some(v) => Some(v@),
        None => None,
    }
}

/// The weight of a selector in the cascade: one for a type, ten for each class,
/// a hundred for an id.
pub open spec fn weight(m: SelectorModel) -> int {
    (if m.local is Some {
        1int
    } else {
        0int
    }) + m.classes.len() * 10 + if m.id is Some {
        100int
    } else {
        0int
    }
}

impl SimpleSelector {
    /// What the selector asks of an element.
    pub open spec fn model(&self) -> SelectorModel {
        SelectorModel {
            local: opt_view(self.local),
            id: opt_view(self.id),
            classes: scan::views(self.classes@),
        }
    }

    /// The specificity is the selector's weight.
    pub open spec fn wf(&self) -> bool {
        self.specificity == weight(self.model())
    }
}

/// Whether a character is an ASCII letter.
pub open spec fn is_letter(c: char) -> bool {
    ('a' <= c <= 'z') || ('A' <= c <= 'Z')
}

/// Whether a character can stand in a type selector.
pub open spec fn in_type(c: char) -> bool {
    is_letter(c) || text::is_digit(c) || c == '-'
}

/// Whether a character can stand in the name of a class or id.
pub open spec fn in_name(c: char) -> bool {
    is_letter(c) || text::is_digit(c) || c == '-' || c == '_'
}

/// Whether a character makes a selector one that is not simple: white space, a
/// combinator, an attribute test, a pseudo-class.
pub open spec fn is_complex(c: char) -> bool {
    c == ' ' || c == '\t' || c == '\n' || c == '\r' || c == '>' || c == '+' || c == '~' || c == '['
        || c == ':'
}

/// The length of the run of characters at the start of a text that can stand
/// in a type selector (`name` is false) or in a name (`name` is true).
pub open spec fn run_len(s: Seq<char>, name: bool) -> nat
    decreases s.len(),
{
    if s.len() > 0 && (if name {
        in_name(s[0])
    } else {
        in_type(s[0])
    }) {
        1 + run_len(s.skip(1), name)
    } else {
        0
    }
}

/// A run is part of the text it begins.
pub proof fn lemma_run_len_fits(s: Seq<char>, name: bool)
    ensures
        run_len(s, name) <= s.len(),
    decreases s.len(),
{
    if s.len() > 0 && (if name {
        in_name(s[0])
    } else {
        in_type(s[0])
    }) {
        lemma_run_len_fits(s.skip(1), name);
    }
}

/// A selector that the classes and ids in `s` are added to: each begins with a
/// full stop or a number sign and has a name, and there is at most one id.
pub open spec fn with_parts(m: SelectorModel, s: Seq<char>) -> Option<SelectorModel>
    decreases s.len(),
{
    if s.len() == 0 {
        Some(m)
    } else if s[0] != '.' && s[0] != '#' {
        None
    } else {
        proof {
            lemma_run_len_fits(s.skip(1), true);
        }
        let n = run_len(s.skip(1), true);
        let name = s.skip(1).take(n as int);
        let rest = s.skip(1).skip(n as int);
        if n == 0 {
            None
        } else if s[0] == '.' {
            with_parts(
                SelectorModel { local: m.local, id: m.id, classes: m.classes.push(name) },
                rest,
            )
        } else if m.id is Some {
            None
        } else {
            with_parts(
                SelectorModel { local: m.local, id: Some(name), classes: m.classes },
                rest,
            )
        }
    }
}

/// The simple selector that a text is: a star or a type (either may be left
/// out), then classes and ids. `None` for any other text.
pub open spec fn selector_in(raw: Seq<char>) -> Option<SelectorModel> {
    let s = text::trimmed(raw);
    let any = SelectorModel { local: None, id: None, classes: Seq::empty() };
    if s.len() == 0 || exists|i: int| 0 <= i < s.len() && is_complex(#[trigger] s[i]) {
        None
    } else if s[0] == '*' {
        with_parts(any, s.skip(1))
    } else if is_letter(s[0]) || s[0] == '-' {
        let n = run_len(s, false);
        with_parts(
            SelectorModel {
                local: Some(text::lowered(s.take(n as int))),
                id: None,
                classes: Seq::empty(),
            },
            s.skip(n as int),
        )
    } else {
        with_parts(any, s)
    }
}

fn letter(c: char) -> (r: bool)
    ensures
        r == is_letter(c),
{
    ('a' <= c && c <= 'z') || ('A' <= c && c <= 'Z')
}

fn digit(c: char) -> (r: bool)
    ensures
        r == text::is_digit(c),
{
    '0' <= c && c <= '9'
}

/// The end of the run of characters from `from` on that can stand in a type
/// selector or in a name.
fn run_end(s: &Vec<char>, from: usize, name: bool) -> (r: usize)
    requires
        from <= s@.len(),
    ensures
        from <= r <= s@.len(),
        run_len(s@.skip(from as int), name) == r - from,
{
    let mut i: usize = from;
    while i < s.len() && (letter(s[i]) || digit(s[i]) || s[i] == '-' || (name && s[i] == '_'))
        invariant
            from <= i <= s@.len(),
            run_len(s@.skip(from as int), name) == (i - from) + run_len(s@.skip(i as int), name),
        decreases s.len() - i,
    {
        assert(s@.skip(i as int).skip(1) =~= s@.skip(i + 1));
        i += 1;
    }
    i
}

fn has_complex(s: &Vec<char>) -> (r: bool)
    ensures
        r == (exists|i: int| 0 <= i < s@.len() && is_complex(#[trigger] s@[i])),
{
    let mut i: usize = 0;
    while i < s.len()
        invariant
            i <= s@.len(),
            forall|k: int| 0 <= k < i ==> !is_complex(#[trigger] s@[k]),
        decreases s.len() - i,
    {
        let c = s[i];
        if c == ' ' || c == '\t' || c == '\n' || c == '\r' || c == '>' || c == '+' || c == '~' || c
            == '[' || c == ':' {
            assert(is_complex(s@[i as int]));
            return true;
        }
        i += 1;
    }
    false
}

impl SimpleSelector {
    /// The simple selector that a text is; `None` for any other text.
    pub fn parse(raw: &[char]) -> (r: Option<SimpleSelector>)
        ensures
            match r {
                Some(s) => s.wf() && selector_in(raw@) == Some(s.model()),
                None => selector_in(raw@) is None,
            },
    {
        let s = trim(raw);
        if s.len() == 0 || has_complex(&s) {
            return None;
        }
        let count: usize = s.len();
        let mut local: Option<Vec<char>> = None;
        let mut id: Option<Vec<char>> = None;
        let mut classes: Vec<Vec<char>> = Vec::new();
        let mut i: usize = 0;
        let ghost any = SelectorModel { local: None, id: None, classes: Seq::empty() };
        assert(scan::views(classes@) =~= Seq::<Seq<char>>::empty());
        assert(s@.skip(0) =~= s@);
        if s[0] == '*' {
            i = 1;
        } else if letter(s[0]) || s[0] == '-' {
            i = run_end(&s, 0, false);
            let name = sub_chars(s.as_slice(), 0, i);
            assert(name@ =~= s@.take(i as int));
            local = Some(lower_chars(name.as_slice()));
        }
        let ghost m0 = SelectorModel {
            local: opt_view(local),
            id: None,
            classes: Seq::empty(),
        };
        assert(selector_in(raw@) == with_parts(m0, s@.skip(i as int)));
        while i < s.len()
            invariant
                i <= s@.len(),
                count == s@.len(),
                selector_in(raw@) == with_parts(
                    SelectorModel {
                        local: opt_view(local),
                        id: opt_view(id),
                        classes: scan::views(classes@),
                    },
                    s@.skip(i as int),
                ),
            decreases s.len() - i,
        {
            let marker = s[i];
            let ghost rest = s@.skip(i as int);
            if marker != '.' && marker != '#' {
                return None;
            }
            let start: usize = i + 1;
            assert(rest.skip(1) =~= s@.skip(start as int));
            let end: usize = run_end(&s, start, true);
            if start == end {
                return None;
            }
            let ident = sub_chars(s.as_slice(), start, end);
            assert(ident@ =~= rest.skip(1).take(end - start));
            assert(rest.skip(1).skip(end - start) =~= s@.skip(end as int));
            if marker == '.' {
                let ghost before = classes@;
                classes.push(ident);
                assert(scan::views(classes@) =~= scan::views(before).push(ident@));
            } else {
                if id.is_some() {
                    return None;
                }
                id = Some(ident);
            }
            i = end;
        }
        let mut specificity: u128 = classes.len() as u128 * 10;
        if local.is_some() {
            specificity = specificity + 1;
        }
        if id.is_some() {
            specificity = specificity + 100;
        }
        Some(SimpleSelector { local, id, classes, specificity })
    }
}

/// Whether an element is what a selector asks for: it has the type, whatever
/// the case of ASCII letters, the id, and each of the classes.
pub open spec fn selects(m: SelectorModel, dom: &Dom, id: NodeId) -> bool {
    &&& m.local matches Some(l) ==> (dom.local_at(id) matches Some(n) && text::lowered(n)
        == text::lowered(l))
    &&& m.id matches Some(want) ==> dom.plain_attr(id, "id"@) == Some(want)
    &&& m.classes.len() > 0 ==> (dom.plain_attr(id, "class"@) matches Some(v) && forall|k: int|
        0 <= k < m.classes.len() ==> scan::words(v).contains(#[trigger] m.classes[k]))
}

impl SimpleSelector {
    /// Whether an element is what the selector asks for.
    pub fn matches(&self, dom: &Dom, id: NodeId) -> (r: bool)
        requires
            dom.has(id),
        ensures
            r == selects(self.model(), dom, id),
    {
        let ghost m = self.model();
        if let Some(local) = &self.local {
            match dom.element_name(id) {
                Some(name) => {
                    let have = chars_of(name.local.as_str());
                    let low = lower_chars(have.as_slice());
                    let want = lower_chars(local.as_slice());
                    if !chars_eq(low.as_slice(), want.as_slice()) {
                        return false;
                    }
                },
                None => return false,
            }
        }
        if let Some(want) = &self.id {
            match dom.plain_attribute(id, "id") {
                Some(v) => {
                    let have = chars_of(v);
                    if !chars_eq(have.as_slice(), want.as_slice()) {
                        return false;
                    }
                },
                None => return false,
            }
        }
        if self.classes.len() > 0 {
            let v = match dom.plain_attribute(id, "class") {
                Some(v) => v,
                None => return false,
            };
            let chars = chars_of(v);
            let list = split_words(chars.as_slice());
            let mut k: usize = 0;
            while k < self.classes.len()
                invariant
                    k <= self.classes@.len(),
                    m == self.model(),
                    dom.plain_attr(id, "class"@) == Some(v@),
                    scan::views(list@) == scan::words(v@),
                    forall|j: int|
                        0 <= j < k ==> scan::words(v@).contains(#[trigger] m.classes[j]),
                decreases self.classes.len() - k,
            {
                assert(m.classes[k as int] == self.classes@[k as int]@);
                if !has_word(&list, self.classes[k].as_slice()) {
                    return false;
                }
                k += 1;
            }
        }
        true
    }
}

// ---------------------------------------------------------------------------
// Rules
// ---------------------------------------------------------------------------
/// A rule: a selector, and what it declares. Its order is its number among all
/// rules.
pub struct SupplementalRule {
    pub selector: SimpleSelector,
    pub value: ContainIntrinsicOverride,
    pub order: u128,
}

/// What a rule says.
pub type RuleModel = (SelectorModel, ContainIntrinsicOverride);

/// What some rules say.
pub open spec fn rule_views(rules: Seq<SupplementalRule>) -> Seq<RuleModel> {
    rules.map(|i: int, r: SupplementalRule| (r.selector.model(), r.value))
}

/// Each rule's selector is wellformed, and its order is its number.
pub open spec fn rules_wf(rules: Seq<SupplementalRule>) -> bool {
    forall|i: int|
        0 <= i < rules.len() ==> (#[trigger] rules[i]).selector.wf() && rules[i].order == i
}

/// Whether an override says anything.
pub open spec fn says_something(v: ContainIntrinsicOverride) -> bool {
    v.width is Some || v.height is Some
}

/// The rules of the first `n` selectors of a list: those that are simple.
pub open spec fn rules_for(parts: Seq<Seq<char>>, value: ContainIntrinsicOverride, n: nat) -> Seq<
    RuleModel,
>
    decreases n,
{
    if n == 0 {
        Seq::empty()
    } else {
        let before = rules_for(parts, value, (n - 1) as nat);
        match selector_in(parts[n - 1]) {
            Some(m) => before.push((m, value)),
            None => before,
        }
    }
}

/// The first character of a text that is not white space.
pub open spec fn first_visible(s: Seq<char>) -> Option<char>
    decreases s.len(),
{
    if s.len() == 0 {
        None
    } else if text::is_white_space(s[0]) {
        first_visible(s.skip(1))
    } else {
        Some(s[0])
    }
}

/// The rules of a block with its selectors, given what its declarations come to:
/// none of an at-rule, nor where the block declares no intrinsic size.
pub open spec fn block_rules(
    selectors: Seq<char>,
    body: Seq<char>,
    value: ContainIntrinsicOverride,
) -> Seq<RuleModel> {
    let parts = scan::split(selectors, ',');
    if first_visible(selectors) == Some('@') || !scan::has_part(body, "contain-intrinsic"@)
        || !says_something(value) {
        Seq::empty()
    } else {
        rules_for(parts, value, parts.len())
    }
}

/// A block of a style sheet: its selectors, and what stands between its braces.
pub type Block = (Seq<char>, Seq<char>);

/// The blocks of a style sheet, each from an opening brace to the next closing
/// one, the selectors before it.
pub open spec fn sheet_blocks(css: Seq<char>) -> Seq<Block>
    decreases css.len(),
{
    match scan::first_index(css, '{') {
        None => Seq::empty(),
        Some(open) => {
            let after = css.skip((open + 1) as int);
            match scan::first_index(after, '}') {
                None => Seq::empty(),
                Some(close) => {
                    proof {
                        scan::lemma_first_index_fits(css, '{');
                        scan::lemma_first_index_fits(after, '}');
                    }
                    seq![(css.take(open as int), after.take(close as int))] + sheet_blocks(
                        after.skip((close + 1) as int),
                    )
                },
            }
        },
    }
}

/// The blocks of the first `n` of some style sheets.
pub open spec fn blocks_of(sheets: Seq<&str>, n: nat) -> Seq<Block>
    decreases n,
{
    if n == 0 {
        Seq::empty()
    } else {
        blocks_of(sheets, (n - 1) as nat) + sheet_blocks(sheets[n - 1]@)
    }
}

/// The rules of the first `n` of some blocks, given what the declarations of each
/// come to.
pub open spec fn rules_of(
    blocks: Seq<Block>,
    values: Seq<ContainIntrinsicOverride>,
    n: nat,
) -> Seq<RuleModel>
    decreases n,
{
    if n == 0 {
        Seq::empty()
    } else {
        rules_of(blocks, values, (n - 1) as nat) + block_rules(
            blocks[n - 1].0,
            blocks[n - 1].1,
            values[n - 1],
        )
    }
}

/// Whether the declarations of some blocks can come to some values.
pub open spec fn values_fit(blocks: Seq<Block>, values: Seq<ContainIntrinsicOverride>) -> bool {
    &&& values.len() == blocks.len()
    &&& forall|i: int| 0 <= i < blocks.len() ==> can_declare(blocks[i].1, #[trigger] values[i])
}

/// Whether some blocks can have the rules `rules`.
pub open spec fn can_have_rules(blocks: Seq<Block>, rules: Seq<RuleModel>) -> bool {
    exists|values: Seq<ContainIntrinsicOverride>| #[trigger]
        values_fit(blocks, values) && rules == rules_of(blocks, values, blocks.len())
}

proof fn lemma_rules_prefix(
    a: Seq<Block>,
    va: Seq<ContainIntrinsicOverride>,
    b: Seq<Block>,
    vb: Seq<ContainIntrinsicOverride>,
    n: nat,
)
    requires
        forall|i: int| 0 <= i < n ==> a[i] == b[i] && va[i] == vb[i],
    ensures
        rules_of(a, va, n) == rules_of(b, vb, n),
    decreases n,
{
    if n > 0 {
        lemma_rules_prefix(a, va, b, vb, (n - 1) as nat);
    }
}

proof fn lemma_rules_add(
    a: Seq<Block>,
    va: Seq<ContainIntrinsicOverride>,
    b: Seq<Block>,
    vb: Seq<ContainIntrinsicOverride>,
    n: nat,
)
    requires
        a.len() == va.len(),
        n <= b.len() == vb.len(),
    ensures
        rules_of(a + b, va + vb, a.len() + n) == rules_of(a, va, a.len()) + rules_of(b, vb, n),
    decreases n,
{
    if n == 0 {
        lemma_rules_prefix(a, va, a + b, va + vb, a.len());
        assert(rules_of(a, va, a.len()) + rules_of(b, vb, 0) =~= rules_of(a, va, a.len()));
    } else {
        lemma_rules_add(a, va, b, vb, (n - 1) as nat);
        assert((a.len() + n - 1) as nat == a.len() + (n - 1) as nat);
        assert(rules_of(a + b, va + vb, a.len() + n) =~= rules_of(a, va, a.len()) + rules_of(
            b,
            vb,
            n,
        ));
    }
}

/// The rules of two lists of blocks, one behind the other.
proof fn lemma_rules_of_both(
    a: Seq<Block>,
    ra: Seq<RuleModel>,
    b: Seq<Block>,
    rb: Seq<RuleModel>,
)
    requires
        can_have_rules(a, ra),
        can_have_rules(b, rb),
    ensures
        can_have_rules(a + b, ra + rb),
{
    let va = choose|va: Seq<ContainIntrinsicOverride>| #[trigger]
        values_fit(a, va) && ra == rules_of(a, va, a.len());
    let vb = choose|vb: Seq<ContainIntrinsicOverride>| #[trigger]
        values_fit(b, vb) && rb == rules_of(b, vb, b.len());
    lemma_rules_add(a, va, b, vb, b.len());
    let values = va + vb;
    assert forall|i: int| 0 <= i < (a + b).len() implies can_declare(
        (a + b)[i].1,
        #[trigger] values[i],
    ) by {
        if i < a.len() {
            assert(values[i] == va[i]);
        } else {
            assert(values[i] == vb[i - a.len()]);
        }
    }
    assert(values_fit(a + b, values));
}

proof fn lemma_rules_of_one(block: Block, value: ContainIntrinsicOverride)
    requires
        can_declare(block.1, value),
    ensures
        can_have_rules(seq![block], block_rules(block.0, block.1, value)),
{
    let values = seq![value];
    reveal_with_fuel(rules_of, 2);
    assert(rules_of(seq![block], values, 1) =~= block_rules(block.0, block.1, value));
    assert(values_fit(seq![block], values));
}

proof fn lemma_rules_of_none()
    ensures
        can_have_rules(Seq::empty(), Seq::empty()),
{
    let none = Seq::<ContainIntrinsicOverride>::empty();
    assert(values_fit(Seq::empty(), none));
    assert(rules_of(Seq::empty(), none, 0) =~= Seq::<RuleModel>::empty());
}

fn visible_start(s: &[char]) -> (r: Option<char>)
    ensures
        r == first_visible(s@),
{
    let mut i: usize = 0;
    assert(s@.skip(0) =~= s@);
    while i < s.len()
        invariant
            i <= s@.len(),
            first_visible(s@) == first_visible(s@.skip(i as int)),
        decreases s.len() - i,
    {
        if !s[i].is_whitespace() {
            return Some(s[i]);
        }
        assert(s@.skip(i as int).skip(1) =~= s@.skip(i + 1));
        i += 1;
    }
    None
}

/// Whether `after` is `before` with the rules that some blocks can have behind it.
pub open spec fn adds_rules(
    before: Seq<RuleModel>,
    blocks: Seq<Block>,
    after: Seq<RuleModel>,
) -> bool {
    exists|rules: Seq<RuleModel>| #[trigger]
        can_have_rules(blocks, rules) && after == before + rules
}

/// Adds the rules of a block with its selectors.
fn collect_block(selectors: &Vec<char>, body: &Vec<char>, rules: &mut Vec<SupplementalRule>)
    requires
        rules_wf(old(rules)@),
    ensures
        rules_wf(final(rules)@),
        adds_rules(
            rule_views(old(rules)@),
            seq![(selectors@, body@)],
            rule_views(final(rules)@),
        ),
{
    proof {
        lemma_can_declare(body@);
        lemma_rules_of_one((selectors@, body@), declared(body@));
    }
    let ghost none = rule_views(rules@) + Seq::<RuleModel>::empty();
    assert(none =~= rule_views(rules@));
    let marker = chars_of("contain-intrinsic");
    let at_rule = match visible_start(selectors.as_slice()) {
        Some(c) => c == '@',
        None => false,
    };
    if at_rule || !contains_part(body.as_slice(), marker.as_slice()) {
        return;
    }
    let value = parse_contain_intrinsic_declarations(body.as_slice());
    proof {
        lemma_rules_of_one((selectors@, body@), value);
    }
    if value.width.is_none() && value.height.is_none() {
        return;
    }
    let parts = split_chars(selectors.as_slice(), ',');
    let ghost all = scan::split(selectors@, ',');
    let ghost start = rule_views(rules@);
    let mut i: usize = 0;
    assert(start + rules_for(all, value, 0) =~= start);
    while i < parts.len()
        invariant
            i <= parts@.len(),
            scan::views(parts@) == all,
            rules_wf(rules@),
            rule_views(rules@) == start + rules_for(all, value, i as nat),
        decreases parts.len() - i,
    {
        assert(all[i as int] == parts@[i as int]@);
        if let Some(selector) = SimpleSelector::parse(parts[i].as_slice()) {
            let ghost before = rules@;
            let order: u128 = rules.len() as u128;
            rules.push(SupplementalRule { selector, value, order });
            assert(rule_views(rules@) =~= rule_views(before).push((selector.model(), value)));
            assert(rule_views(rules@) =~= start + rules_for(all, value, (i + 1) as nat));
            assert(rules_wf(rules@)) by {
                assert forall|k: int| 0 <= k < rules@.len() implies (
                #[trigger] rules@[k]).selector.wf() && rules@[k].order == k by {
                    if k < before.len() {
                        assert(rules@[k] == before[k]);
                    }
                }
            }
        }
        i += 1;
    }
    assert(all.len() == parts@.len());
}

proof fn lemma_adds_more(
    start: Seq<RuleModel>,
    a: Seq<Block>,
    mid: Seq<RuleModel>,
    b: Seq<Block>,
    end: Seq<RuleModel>,
)
    requires
        adds_rules(start, a, mid),
        adds_rules(mid, b, end),
    ensures
        adds_rules(start, a + b, end),
{
    let ra = choose|ra: Seq<RuleModel>| #[trigger] can_have_rules(a, ra) && mid == start + ra;
    let rb = choose|rb: Seq<RuleModel>| #[trigger] can_have_rules(b, rb) && end == mid + rb;
    lemma_rules_of_both(a, ra, b, rb);
    assert(end =~= start + (ra + rb));
}

/// Adds the rules of a style sheet.
pub fn collect_contain_intrinsic_rules(css: &[char], rules: &mut Vec<SupplementalRule>)
    requires
        rules_wf(old(rules)@),
    ensures
        rules_wf(final(rules)@),
        adds_rules(rule_views(old(rules)@), sheet_blocks(css@), rule_views(final(rules)@)),
{
    let count: usize = css.len();
    let ghost start = rule_views(rules@);
    let ghost mut done = Seq::<Block>::empty();
    let mut from: usize = 0;
    proof {
        lemma_rules_of_none();
        assert(start =~= start + Seq::<RuleModel>::empty());
        assert(css@.skip(0) =~= css@);
        assert(done + sheet_blocks(css@) =~= sheet_blocks(css@));
    }
    let mut more = true;
    while more
        invariant
            count == css@.len(),
            from <= css@.len(),
            rules_wf(rules@),
            adds_rules(start, done, rule_views(rules@)),
            more ==> done + sheet_blocks(css@.skip(from as int)) == sheet_blocks(css@),
            !more ==> done == sheet_blocks(css@),
        decreases css@.len() - from + if more { 1int } else { 0int },
    {
        let ghost rest = css@.skip(from as int);
        let ghost before = rule_views(rules@);
        let ghost known = done;
        assert(known + Seq::<Block>::empty() =~= known);
        match find_char(css, from, '{') {
            None => {
                more = false;
            },
            Some(open) => {
                let ghost after = rest.skip(open - from + 1);
                assert(after =~= css@.skip(open + 1));
                match find_char(css, open + 1, '}') {
                    None => {
                        more = false;
                    },
                    Some(close) => {
                        let selectors = sub_chars(css, from, open);
                        let body = sub_chars(css, open + 1, close);
                        assert(selectors@ =~= rest.take(open - from));
                        assert(body@ =~= after.take(close - open - 1));
                        assert(after.skip(close - open) =~= css@.skip(close + 1));
                        collect_block(&selectors, &body, rules);
                        proof {
                            let block = seq![(selectors@, body@)];
                            lemma_adds_more(start, known, before, block, rule_views(rules@));
                            done = known + block;
                            assert(done + sheet_blocks(css@.skip(close + 1)) =~= known
                                + sheet_blocks(rest));
                        }
                        from = close + 1;
                    },
                }
            },
        }
    }
}

// ---------------------------------------------------------------------------
// The cascade
// ---------------------------------------------------------------------------
/// A length that a rule declares, with the rule's weight and order.
#[derive(Clone, Copy, Debug, PartialEq, Eq, Structural)]
pub struct AxisCandidate {
    pub value: Bits,
    pub specificity: u128,
    pub order: u128,
}

/// Which of two candidates wins: the new one, unless the old one is heavier, or
/// as heavy and later.
pub open spec fn winner(old: Option<AxisCandidate>, new: AxisCandidate) -> AxisCandidate {
    match old {
        Some(o) => if o.specificity > new.specificity || (o.specificity == new.specificity
            && o.order > new.order) {
            o
        } else {
            new
        },
        None => new,
    }
}

/// Which of two candidates wins.
pub fn choose_axis(old: Option<AxisCandidate>, value: Bits, specificity: u128, order: u128) -> (r:
    Option<AxisCandidate>)
    ensures
        r == Some(winner(old, AxisCandidate { value, specificity, order })),
{
    let new = AxisCandidate { value, specificity, order };
    match old {
        Some(o) => if o.specificity > specificity {
            Some(o)
        } else if o.specificity == specificity && o.order > order {
            Some(o)
        } else {
            Some(new)
        },
        None => Some(new),
    }
}

/// The candidates that lead on each side.
#[derive(Clone, Copy, Debug, PartialEq, Eq, Structural)]
pub struct CascadedContainIntrinsic {
    pub width: Option<AxisCandidate>,
    pub height: Option<AxisCandidate>,
}

/// What leads on one side after a declaration of the given weight and order.
pub open spec fn led_by(
    old: Option<AxisCandidate>,
    value: Option<Bits>,
    specificity: u128,
    order: u128,
) -> Option<AxisCandidate> {
    match value {
        Some(value) => Some(winner(old, AxisCandidate { value, specificity, order })),
        None => old,
    }
}

impl CascadedContainIntrinsic {
    /// Takes a declaration of the given weight and order into account.
    pub fn apply(&mut self, value: ContainIntrinsicOverride, specificity: u128, order: u128)
        ensures
            final(self).width == led_by(old(self).width, value.width, specificity, order),
            final(self).height == led_by(old(self).height, value.height, specificity, order),
    {
        if let Some(width) = value.width {
            self.width = choose_axis(self.width, width, specificity, order);
        }
        if let Some(height) = value.height {
            self.height = choose_axis(self.height, height, specificity, order);
        }
    }

    /// The lengths that lead.
    pub fn finish(self) -> (r: ContainIntrinsicOverride)
        ensures
            r == led_values(self),
    {
        let width: Option<Bits> = match self.width {
            Some(c) => Some(c.value),
            None => None,
        };
        let height: Option<Bits> = match self.height {
            Some(c) => Some(c.value),
            None => None,
        };
        ContainIntrinsicOverride { width, height }
    }
}

/// The lengths that lead.
pub open spec fn led_values(c: CascadedContainIntrinsic) -> ContainIntrinsicOverride {
    ContainIntrinsicOverride {
        width: match c.width {
            Some(w) => Some(w.value),
            None => None,
        },
        height: match c.height {
            Some(h) => Some(h.value),
            None => None,
        },
    }
}

/// What leads for an element after the first `n` rules.
pub open spec fn led_upto(rules: Seq<RuleModel>, dom: &Dom, id: NodeId, n: nat) -> CascadedContainIntrinsic
    decreases n,
{
    if n == 0 {
        CascadedContainIntrinsic { width: None, height: None }
    } else {
        let before = led_upto(rules, dom, id, (n - 1) as nat);
        let rule = rules[n - 1];
        if selects(rule.0, dom, id) {
            CascadedContainIntrinsic {
                width: led_by(
                    before.width,
                    rule.1.width,
                    weight(rule.0) as u128,
                    (n - 1) as u128,
                ),
                height: led_by(
                    before.height,
                    rule.1.height,
                    weight(rule.0) as u128,
                    (n - 1) as u128,
                ),
            }
        } else {
            before
        }
    }
}

/// What the inline style of an element declares.
pub open spec fn inline_declared(dom: &Dom, id: NodeId) -> ContainIntrinsicOverride {
    match dom.plain_attr(id, "style"@) {
        Some(css) => if scan::has_part(css, "contain-intrinsic"@) {
            declared(css)
        } else {
            nothing()
        },
        None => nothing(),
    }
}

/// Whether `value` can be what the inline style of an element declares.
pub open spec fn can_inline(dom: &Dom, id: NodeId, value: ContainIntrinsicOverride) -> bool {
    match dom.plain_attr(id, "style"@) {
        Some(css) => if scan::has_part(css, "contain-intrinsic"@) {
            can_declare(css, value)
        } else {
            value == nothing()
        },
        None => value == nothing(),
    }
}

/// The override of an element, given what its inline style declares: that, and on
/// a side for which it declares nothing, what leads among the rules.
pub open spec fn override_of(
    rules: Seq<RuleModel>,
    dom: &Dom,
    id: NodeId,
    inline: ContainIntrinsicOverride,
) -> ContainIntrinsicOverride {
    let led = led_values(led_upto(rules, dom, id, rules.len()));
    ContainIntrinsicOverride {
        width: if inline.width is Some {
            inline.width
        } else {
            led.width
        },
        height: if inline.height is Some {
            inline.height
        } else {
            led.height
        },
    }
}

/// Whether `value` can be the override of an element.
pub open spec fn can_override(
    rules: Seq<RuleModel>,
    dom: &Dom,
    id: NodeId,
    value: ContainIntrinsicOverride,
) -> bool {
    exists|inline: ContainIntrinsicOverride| #[trigger]
        can_inline(dom, id, inline) && value == override_of(rules, dom, id, inline)
}

proof fn lemma_can_override(rules: Seq<RuleModel>, dom: &Dom, id: NodeId)
    ensures
        can_override(rules, dom, id, override_of(rules, dom, id, inline_declared(dom, id))),
{
    if let Some(css) = dom.plain_attr(id, "style"@) {
        lemma_can_declare(css);
    }
    assert(can_inline(dom, id, inline_declared(dom, id)));
}

/// Whether a candidate is a rule's, not an inline style's.
spec fn below_inline(c: Option<AxisCandidate>) -> bool {
    c matches Some(a) ==> a.specificity < u128::MAX
}

fn element_override(dom: &Dom, rules: &Vec<SupplementalRule>, id: NodeId, order: u128) -> (r:
    ContainIntrinsicOverride)
    requires
        dom.has(id),
        rules_wf(rules@),
    ensures
        can_override(rule_views(rules@), dom, id, r),
{
    let ghost all = rule_views(rules@);
    let mut cascaded = CascadedContainIntrinsic { width: None, height: None };
    let mut k: usize = 0;
    while k < rules.len()
        invariant
            dom.has(id),
            rules_wf(rules@),
            all == rule_views(rules@),
            k <= rules@.len(),
            cascaded == led_upto(all, dom, id, k as nat),
            below_inline(cascaded.width),
            below_inline(cascaded.height),
        decreases rules.len() - k,
    {
        let rule = &rules[k];
        assert(rules@[k as int].selector.wf() && rules@[k as int].order == k);
        assert(all[k as int] == (rule.selector.model(), rule.value));
        assert(rule.selector.classes@.len() == rule.selector.model().classes.len());
        let n: usize = rule.selector.classes.len();
        assert(rule.selector.specificity < u128::MAX);
        if rule.selector.matches(dom, id) {
            cascaded.apply(rule.value, rule.selector.specificity, rule.order);
        }
        k += 1;
    }
    let ghost mut inline = nothing();
    if let Some(css) = dom.plain_attribute(id, "style") {
        let chars = chars_of(css);
        let marker = chars_of("contain-intrinsic");
        if contains_part(chars.as_slice(), marker.as_slice()) {
            let value = parse_contain_intrinsic_declarations(chars.as_slice());
            cascaded.apply(value, u128::MAX, order);
            proof {
                inline = value;
            }
        }
    }
    assert(can_inline(dom, id, inline));
    cascaded.finish()
}

/// Whether a map holds the override of an element that was met, if it has one, and
/// nothing of any other node.
pub open spec fn holds_override(
    rules: Seq<RuleModel>,
    dom: &Dom,
    id: NodeId,
    met: bool,
    found: Map<NodeId, ContainIntrinsicOverride>,
) -> bool {
    exists|value: ContainIntrinsicOverride|
        {
            let shown = met && dom.kind_at(id) == NodeKind::Element && says_something(value);
            &&& #[trigger] can_override(rules, dom, id, value)
            &&& found.contains_key(id) <==> shown
            &&& shown ==> found[id] == value
        }
}

/// Whether a map holds the override of every element of a document that some rules
/// and the inline styles give one.
pub open spec fn holds_overrides(
    rules: Seq<RuleModel>,
    dom: &Dom,
    found: Map<NodeId, ContainIntrinsicOverride>,
) -> bool {
    forall|id: NodeId| #[trigger]
        holds_override(rules, dom, id, dom.is_within(id, dom.root()), found)
}

/// Whether a map holds the override of every element of a document that its
/// style sheets and inline styles give one.
pub open spec fn overrides_are(
    dom: &Dom,
    stylesheets: Seq<&str>,
    found: Map<NodeId, ContainIntrinsicOverride>,
) -> bool {
    exists|rules: Seq<RuleModel>| #[trigger]
        can_have_rules(blocks_of(stylesheets, stylesheets.len()), rules) && holds_overrides(
            rules,
            dom,
            found,
        )
}

/// Fills in the override of every element of a document from its style sheets
/// and inline styles, in place of what was there.
pub fn populate_contain_intrinsic_overrides(dom: &Dom, plane: &mut StylePlane, stylesheets: &[&str])
    requires
        dom.wf(),
    ensures
        final(plane).entries == old(plane).entries,
        final(plane).marker_styles == old(plane).marker_styles,
        overrides_are(dom, stylesheets@, final(plane).contain_intrinsic@),
{
    let mut rules: Vec<SupplementalRule> = Vec::new();
    let mut n: usize = 0;
    proof {
        lemma_rules_of_none();
        assert(rule_views(rules@) =~= Seq::<RuleModel>::empty());
    }
    while n < stylesheets.len()
        invariant
            n <= stylesheets@.len(),
            rules_wf(rules@),
            can_have_rules(blocks_of(stylesheets@, n as nat), rule_views(rules@)),
        decreases stylesheets.len() - n,
    {
        let chars = chars_of(stylesheets[n]);
        let ghost before = rule_views(rules@);
        collect_contain_intrinsic_rules(chars.as_slice(), &mut rules);
        proof {
            let blocks = sheet_blocks(stylesheets@[n as int]@);
            let added = choose|added: Seq<RuleModel>| #[trigger]
                can_have_rules(blocks, added) && rule_views(rules@) == before + added;
            lemma_rules_of_both(blocks_of(stylesheets@, n as nat), before, blocks, added);
        }
        n += 1;
    }
    let ghost all = rule_views(rules@);
    let mut found: NodeMap<ContainIntrinsicOverride> = NodeMap::new();
    let walk = dom.walk_with_stack(dom.document());
    let base: u128 = rules.len() as u128;
    let mut i: usize = 0;
    assert forall|id: NodeId| #[trigger]
        holds_override(all, dom, id, walk@.take(0).contains(id), found@) by {
        lemma_can_override(all, dom, id);
    }
    while i < walk.len()
        invariant
            dom.wf(),
            rules_wf(rules@),
            all == rule_views(rules@),
            base <= usize::MAX,
            i <= walk@.len(),
            walk@ == dom.stack_order(dom.root()),
            forall|id: NodeId| #[trigger]
                holds_override(all, dom, id, walk@.take(i as int).contains(id), found@),
        decreases walk.len() - i,
    {
        let id = walk[i];
        let ghost before = found@;
        let ghost mut value = override_of(all, dom, id, inline_declared(dom, id));
        proof {
            dom.walks_meet_exactly_the_subtree(id, dom.root());
            assert(walk@.contains(walk@[i as int]));
            lemma_can_override(all, dom, id);
        }
        if dom.kind(id) == NodeKind::Element {
            let given = element_override(dom, &rules, id, base + i as u128);
            proof {
                value = given;
            }
            if given.width.is_some() || given.height.is_some() {
                found.insert(id, given);
            }
        }
        proof {
            let a = walk@.take(i as int);
            let b = walk@.take(i + 1);
            assert forall|x: NodeId| #[trigger] holds_override(all, dom, x, b.contains(x), found@) by {
                assert(holds_override(all, dom, x, a.contains(x), before));
                assert(b.contains(x) <==> (a.contains(x) || x == id)) by {
                    if b.contains(x) {
                        let k = choose|k: int| 0 <= k < b.len() && b[k] == x;
                        if k < i {
                            assert(a[k] == x);
                        }
                    }
                    if a.contains(x) {
                        let k = choose|k: int| 0 <= k < a.len() && a[k] == x;
                        assert(b[k] == x);
                    }
                    assert(b[i as int] == id);
                }
                assert(can_override(all, dom, id, value));
            }
        }
        i += 1;
    }
    plane.contain_intrinsic = found;
    proof {
        assert(walk@.take(i as int) =~= walk@);
        assert forall|id: NodeId| #[trigger]
            holds_override(
                all,
                dom,
                id,
                dom.is_within(id, dom.root()),
                plane.contain_intrinsic@,
            ) by {
            assert(holds_override(all, dom, id, walk@.take(i as int).contains(id), found@));
            dom.walks_meet_exactly_the_subtree(id, dom.root());
        }
        assert(holds_overrides(all, dom, plane.contain_intrinsic@));
    }
}

// ---------------------------------------------------------------------------
// Laws
// ---------------------------------------------------------------------------
/// What the declarations of each of some blocks come to, as their tokens have them.
pub open spec fn values_of(blocks: Seq<Block>) -> Seq<ContainIntrinsicOverride> {
    blocks.map(|i: int, block: Block| declared(block.1))
}

/// Whether no value in some style sheets or in an inline style has an exponent.
pub open spec fn all_plain(dom: &Dom, stylesheets: Seq<&str>) -> bool {
    let blocks = blocks_of(stylesheets, stylesheets.len());
    &&& forall|i: int| 0 <= i < blocks.len() ==> is_plain((#[trigger] blocks[i]).1)
    &&& forall|id: NodeId|
        #[trigger] dom.plain_attr(id, "style"@) matches Some(css) ==> is_plain(css)
}

/// Where no value has an exponent, the style sheets and the inline styles give each
/// element one override, whoever reads them: that of the rules and declarations as
/// their tokens have them.
pub proof fn plain_texts_give_one_override(
    dom: &Dom,
    stylesheets: Seq<&str>,
    found: Map<NodeId, ContainIntrinsicOverride>,
    id: NodeId,
)
    requires
        all_plain(dom, stylesheets),
        overrides_are(dom, stylesheets, found),
    ensures
        ({
            let blocks = blocks_of(stylesheets, stylesheets.len());
            let rules = rules_of(blocks, values_of(blocks), blocks.len());
            let value = override_of(rules, dom, id, inline_declared(dom, id));
            let shown = dom.is_within(id, dom.root()) && dom.kind_at(id) == NodeKind::Element
                && says_something(value);
            &&& found.contains_key(id) <==> shown
            &&& shown ==> found[id] == value
        }),
{
    let blocks = blocks_of(stylesheets, stylesheets.len());
    let rules = choose|rules: Seq<RuleModel>| #[trigger]
        can_have_rules(blocks, rules) && holds_overrides(rules, dom, found);
    let values = choose|values: Seq<ContainIntrinsicOverride>| #[trigger]
        values_fit(blocks, values) && rules == rules_of(blocks, values, blocks.len());
    assert forall|i: int| 0 <= i < blocks.len() implies values[i] == values_of(blocks)[i] by {
        assert(is_plain(blocks[i].1));
        a_plain_block_comes_to_one_value(blocks[i].1, values[i]);
    }
    lemma_rules_prefix(blocks, values, blocks, values_of(blocks), blocks.len());
    assert(holds_override(rules, dom, id, dom.is_within(id, dom.root()), found));
    let value = choose|value: ContainIntrinsicOverride|
        {
            let shown = dom.is_within(id, dom.root()) && dom.kind_at(id) == NodeKind::Element
                && says_something(value);
            &&& #[trigger] can_override(rules, dom, id, value)
            &&& found.contains_key(id) <==> shown
            &&& shown ==> found[id] == value
        };
    let inline = choose|inline: ContainIntrinsicOverride| #[trigger]
        can_inline(dom, id, inline) && value == override_of(rules, dom, id, inline);
    if let Some(css) = dom.plain_attr(id, "style"@) {
        a_plain_block_comes_to_one_value(css, inline);
    }
}

/// Whether rule number `k` declares a width for an element.
pub open spec fn declares_width(rules: Seq<RuleModel>, dom: &Dom, id: NodeId, k: int) -> bool {
    0 <= k < rules.len() && selects(rules[k].0, dom, id) && rules[k].1.width is Some
}

/// Whether a rule stands before another in the cascade: it is lighter, or as
/// light and earlier.
pub open spec fn stands_before(rules: Seq<RuleModel>, j: int, k: int) -> bool {
    weight(rules[j].0) < weight(rules[k].0) || (weight(rules[j].0) == weight(rules[k].0) && j <= k)
}

/// The width that leads among the rules is that of the strongest rule which
/// declares one for the element: every other such rule is lighter, or as heavy
/// and earlier. None leads only where no rule declares one. (Rules are fewer,
/// and lists of classes shorter, than a `usize` counts.)
pub proof fn the_strongest_rule_leads_in_width(rules: Seq<RuleModel>, dom: &Dom, id: NodeId, n: nat)
    requires
        n <= rules.len() <= usize::MAX,
        forall|k: int|
            0 <= k < rules.len() ==> (#[trigger] rules[k]).0.classes.len() <= usize::MAX,
    ensures
        match led_upto(rules, dom, id, n).width {
            Some(c) => {
                let k = c.order as int;
                &&& 0 <= k < n
                &&& declares_width(rules, dom, id, k)
                &&& rules[k].1.width == Some(c.value)
                &&& c.specificity == weight(rules[k].0)
                &&& forall|j: int|
                    0 <= j < n && #[trigger] declares_width(rules, dom, id, j) ==> stands_before(
                        rules,
                        j,
                        k,
                    )
            },
            None => forall|j: int| 0 <= j < n ==> !#[trigger] declares_width(rules, dom, id, j),
        },
    decreases n,
{
    if n > 0 {
        the_strongest_rule_leads_in_width(rules, dom, id, (n - 1) as nat);
        let rule = rules[n - 1];
        assert(rule.0.classes.len() <= usize::MAX);
        assert(0 <= weight(rule.0) < u128::MAX);
        assert(declares_width(rules, dom, id, n - 1) <==> selects(rule.0, dom, id)
            && rule.1.width is Some);
    }
}

/// Whether rule number `k` declares a height for an element.
pub open spec fn declares_height(rules: Seq<RuleModel>, dom: &Dom, id: NodeId, k: int) -> bool {
    0 <= k < rules.len() && selects(rules[k].0, dom, id) && rules[k].1.height is Some
}

/// The height that leads among the rules is that of the strongest rule which
/// declares one for the element: every other such rule is lighter, or as heavy
/// and earlier. None leads only where no rule declares one. (Rules are fewer,
/// and lists of classes shorter, than a `usize` counts.)
pub proof fn the_strongest_rule_leads_in_height(rules: Seq<RuleModel>, dom: &Dom, id: NodeId, n: nat)
    requires
        n <= rules.len() <= usize::MAX,
        forall|k: int|
            0 <= k < rules.len() ==> (#[trigger] rules[k]).0.classes.len() <= usize::MAX,
    ensures
        match led_upto(rules, dom, id, n).height {
            Some(c) => {
                let k = c.order as int;
                &&& 0 <= k < n
                &&& declares_height(rules, dom, id, k)
                &&& rules[k].1.height == Some(c.value)
                &&& c.specificity == weight(rules[k].0)
                &&& forall|j: int|
                    0 <= j < n && #[trigger] declares_height(rules, dom, id, j) ==> stands_before(
                        rules,
                        j,
                        k,
                    )
            },
            None => forall|j: int| 0 <= j < n ==> !#[trigger] declares_height(rules, dom, id, j),
        },
    decreases n,
{
    if n > 0 {
        the_strongest_rule_leads_in_height(rules, dom, id, (n - 1) as nat);
        let rule = rules[n - 1];
        assert(rule.0.classes.len() <= usize::MAX);
        assert(0 <= weight(rule.0) < u128::MAX);
        assert(declares_height(rules, dom, id, n - 1) <==> selects(rule.0, dom, id)
            && rule.1.height is Some);
    }
}

// ---------------------------------------------------------------------------
// Laws of reading
// ---------------------------------------------------------------------------
/// A length in a value is a `px` dimension, whatever the case of its unit, that is
/// finite and not negative, or a plain zero; nothing else is one.
pub proof fn a_length_is_in_pixels_or_zero(t: TokenModel)
    ensures
        match t {
            TokenModel::Dimension { value, unit } => {
                let fits = text::lowered(unit) == "px"@ && float_bits::le(ZERO, value)
                    && float_bits::is_finite(value);
                &&& fits ==> px_of(t) == Some(value)
                &&& !fits ==> px_of(t) is None
            },
            TokenModel::Number(value) => {
                &&& float_bits::rank(value) == 0 ==> px_of(t) == Some(ZERO)
                &&& float_bits::rank(value) != 0 ==> px_of(t) is None
            },
            TokenModel::Other => px_of(t) is None,
        },
{
}

/// The lengths in a value are its tokens that are lengths, in their order.
pub proof fn the_lengths_in_a_value_stand_in_order(tokens: Seq<TokenModel>)
    ensures
        px_among(tokens) == tokens.filter(|t: TokenModel| px_of(t) is Some).map_values(
            |t: TokenModel| px_of(t)->0,
        ),
    decreases tokens.len(),
{
    let p = |t: TokenModel| px_of(t) is Some;
    let f = |t: TokenModel| px_of(t)->0;
    reveal(Seq::filter);
    if tokens.len() == 0 {
        assert(tokens.filter(p).map_values(f) =~= Seq::<Bits>::empty());
    } else {
        let front = tokens.drop_last();
        the_lengths_in_a_value_stand_in_order(front);
        if p(tokens.last()) {
            assert(front.filter(p).push(tokens.last()).map_values(f) =~= front.filter(
                p,
            ).map_values(f).push(f(tokens.last())));
        }
    }
}

/// A width or a height sets its own side to the first length in its value, or unsets it
/// where there is none, and leaves the other side. A size sets both sides, to its first
/// two lengths or to its one, and says nothing without one. No other name says anything.
pub proof fn a_declaration_sets_the_sides_that_it_names(
    before: ContainIntrinsicOverride,
    name: Seq<char>,
    lengths: Seq<Bits>,
)
    ensures
        ({
            let r = declared_after(before, name, lengths);
            let w = name == "contain-intrinsic-width"@;
            let h = name == "contain-intrinsic-height"@;
            let s = name == "contain-intrinsic-size"@;
            &&& w ==> r.height == before.height
            &&& w && lengths.len() == 0 ==> r.width is None
            &&& w && lengths.len() > 0 ==> r.width == Some(lengths[0])
            &&& h ==> r.width == before.width
            &&& h && lengths.len() == 0 ==> r.height is None
            &&& h && lengths.len() > 0 ==> r.height == Some(lengths[0])
            &&& s && lengths.len() == 0 ==> r == before
            &&& s && lengths.len() == 1 ==> r.width == Some(lengths[0]) && r.height == Some(
                lengths[0],
            )
            &&& s && lengths.len() >= 2 ==> r.width == Some(lengths[0]) && r.height == Some(
                lengths[1],
            )
            &&& !w && !h && !s ==> r == before
        }),
{
    reveal_strlit("contain-intrinsic-width");
    reveal_strlit("contain-intrinsic-height");
    reveal_strlit("contain-intrinsic-size");
    assert("contain-intrinsic-width"@.len() == 23);
    assert("contain-intrinsic-height"@.len() == 24);
    assert("contain-intrinsic-size"@.len() == 22);
}

/// A declaration is a name and a value with a colon between: its name counts without
/// the white space around it and whatever its case, and what has no colon says nothing.
pub proof fn a_declaration_has_its_name_before_a_colon(
    before: ContainIntrinsicOverride,
    name: Seq<char>,
    value: Seq<char>,
    lengths: Seq<Bits>,
)
    requires
        !name.contains(':'),
    ensures
        value_of(name + seq![':'] + value) == value,
        declaration_after(before, name + seq![':'] + value, lengths) == declared_after(
            before,
            text::lowered(text::trimmed(name)),
            lengths,
        ),
        declaration_after(before, name, lengths) == before,
{
    let decl = name + seq![':'] + value;
    scan::lemma_first_index_fits(decl, ':');
    scan::lemma_first_index_fits(name, ':');
    assert(decl[name.len() as int] == ':');
    assert(decl.contains(':'));
    let k = scan::first_index(decl, ':')->0;
    if k < name.len() {
        assert(name[k as int] == ':');
    }
    assert(k == name.len());
    assert(decl.take(k as int) =~= name);
    assert(decl.skip(k as int + 1) =~= value);
}

/// A style sheet is read block by block: what stands before an opening brace are the
/// selectors, and what stands from there up to the next closing one the declarations.
pub proof fn a_sheet_is_read_block_by_block(
    selectors: Seq<char>,
    body: Seq<char>,
    rest: Seq<char>,
)
    requires
        !selectors.contains('{'),
        !body.contains('}'),
    ensures
        sheet_blocks(selectors + seq!['{'] + body + seq!['}'] + rest) == seq![(selectors, body)]
            + sheet_blocks(rest),
        sheet_blocks(selectors).len() == 0,
{
    let css = selectors + seq!['{'] + body + seq!['}'] + rest;
    scan::lemma_first_index_fits(css, '{');
    scan::lemma_first_index_fits(selectors, '{');
    assert(css[selectors.len() as int] == '{');
    assert(css.contains('{'));
    let open = scan::first_index(css, '{')->0;
    if open < selectors.len() {
        assert(selectors[open as int] == '{');
    }
    assert(open == selectors.len());
    let after = css.skip(open as int + 1);
    assert(after =~= body + seq!['}'] + rest);
    scan::lemma_first_index_fits(after, '}');
    assert(after[body.len() as int] == '}');
    assert(after.contains('}'));
    let close = scan::first_index(after, '}')->0;
    if close < body.len() {
        assert(body[close as int] == '}');
    }
    assert(close == body.len());
    assert(css.take(open as int) =~= selectors);
    assert(after.take(close as int) =~= body);
    assert(after.skip(close as int + 1) =~= rest);
}

proof fn lemma_run_of_name(name: Seq<char>, rest: Seq<char>, named: bool)
    requires
        forall|i: int|
            0 <= i < name.len() ==> if named {
                in_name(#[trigger] name[i])
            } else {
                in_type(name[i])
            },
        rest.len() > 0 ==> !(if named {
            in_name(rest[0])
        } else {
            in_type(rest[0])
        }),
    ensures
        run_len(name + rest, named) == name.len(),
    decreases name.len(),
{
    let all = name + rest;
    if name.len() > 0 {
        let tail = name.skip(1);
        assert(all.skip(1) =~= tail + rest);
        assert(all[0] == name[0]);
        assert forall|i: int| 0 <= i < tail.len() implies if named {
            in_name(#[trigger] tail[i])
        } else {
            in_type(tail[i])
        } by {
            assert(tail[i] == name[i + 1]);
        }
        lemma_run_of_name(tail, rest, named);
    } else {
        assert(all =~= rest);
    }
}

/// The parts of a selector are read one by one: a full stop and a name add a class, and
/// a number sign and a name the id. A second id, a sign without a name, or anything else
/// makes it no simple selector. What a name holds is letters, digits, hyphens and
/// underscores, as many as there are.
pub proof fn a_selector_is_read_part_by_part(
    m: SelectorModel,
    name: Seq<char>,
    rest: Seq<char>,
    c: char,
)
    requires
        name.len() > 0,
        forall|i: int|
            0 <= i < name.len() ==> {
                let c = #[trigger] name[i];
                ('a' <= c <= 'z') || ('A' <= c <= 'Z') || ('0' <= c <= '9') || c == '-' || c == '_'
            },
        rest.len() > 0 ==> {
            let c = rest[0];
            !(('a' <= c <= 'z') || ('A' <= c <= 'Z') || ('0' <= c <= '9') || c == '-' || c == '_')
        },
        c != '.' && c != '#',
    ensures
        with_parts(m, Seq::empty()) == Some(m),
        with_parts(m, seq!['.'] + name + rest) == with_parts(
            SelectorModel { local: m.local, id: m.id, classes: m.classes.push(name) },
            rest,
        ),
        m.id is None ==> with_parts(m, seq!['#'] + name + rest) == with_parts(
            SelectorModel { local: m.local, id: Some(name), classes: m.classes },
            rest,
        ),
        m.id is Some ==> with_parts(m, seq!['#'] + name + rest) is None,
        with_parts(m, seq![c] + rest) is None,
        with_parts(m, seq!['.'] + rest) is None,
        with_parts(m, seq!['#'] + rest) is None,
{
    let dot = seq!['.'] + name + rest;
    let hash = seq!['#'] + name + rest;
    assert(dot.skip(1) =~= name + rest);
    assert(hash.skip(1) =~= name + rest);
    lemma_run_of_name(name, rest, true);
    assert((name + rest).take(name.len() as int) =~= name);
    assert((name + rest).skip(name.len() as int) =~= rest);
    let none = Seq::<char>::empty();
    lemma_run_of_name(none, rest, true);
    assert((seq!['.'] + rest).skip(1) =~= rest);
    assert((seq!['#'] + rest).skip(1) =~= rest);
    assert(none + rest =~= rest);
    assert((seq![c] + rest)[0] == c);
}

/// A selector begins with a star, with a type in any case, or with neither, and goes on
/// with classes and an id. An empty one is none, and neither is one with white space, a
/// combinator, an attribute or a pseudo-class in it.
pub proof fn a_selector_begins_with_its_type(raw: Seq<char>, name: Seq<char>, rest: Seq<char>)
    requires
        text::trimmed(raw) == name + rest,
        forall|i: int| 0 <= i < (name + rest).len() ==> !is_complex(#[trigger] (name + rest)[i]),
        forall|i: int|
            0 <= i < name.len() ==> {
                let c = #[trigger] name[i];
                ('a' <= c <= 'z') || ('A' <= c <= 'Z') || ('0' <= c <= '9') || c == '-'
            },
        name.len() > 0 ==> {
            let c = name[0];
            ('a' <= c <= 'z') || ('A' <= c <= 'Z') || c == '-'
        },
        rest.len() > 0 ==> {
            let c = rest[0];
            !(('a' <= c <= 'z') || ('A' <= c <= 'Z') || ('0' <= c <= '9') || c == '-')
        },
    ensures
        name.len() == 0 && rest.len() == 0 ==> selector_in(raw) is None,
        name.len() > 0 ==> selector_in(raw) == with_parts(
            SelectorModel {
                local: Some(text::lowered(name)),
                id: None,
                classes: Seq::empty(),
            },
            rest,
        ),
        name.len() == 0 && rest.len() > 0 && rest[0] == '*' ==> selector_in(raw) == with_parts(
            SelectorModel { local: None, id: None, classes: Seq::empty() },
            rest.skip(1),
        ),
        name.len() == 0 && rest.len() > 0 && rest[0] != '*' ==> selector_in(raw) == with_parts(
            SelectorModel { local: None, id: None, classes: Seq::empty() },
            rest,
        ),
{
    let s = name + rest;
    lemma_run_of_name(name, rest, false);
    assert(s.take(name.len() as int) =~= name);
    assert(s.skip(name.len() as int) =~= rest);
    if name.len() > 0 {
        assert(s[0] == name[0]);
    } else {
        assert(s =~= rest);
    }
}

/// Any of these characters in a selector makes it none that is simple.
pub proof fn a_complex_selector_is_left_out(raw: Seq<char>, i: int)
    requires
        0 <= i < text::trimmed(raw).len(),
        ({
            let c = text::trimmed(raw)[i];
            c == ' ' || c == '\t' || c == '\n' || c == '\r' || c == '>' || c == '+' || c == '~' || c
                == '[' || c == ':'
        }),
    ensures
        selector_in(raw) is None,
{
    assert(is_complex(text::trimmed(raw)[i]));
}

/// A type weighs one, each class ten and an id a hundred. A selector asks for the type
/// in any case, for the id as it is, and for each class to be a word of the element's
/// `class`.
pub proof fn a_selector_asks_for_what_it_names(m: SelectorModel, dom: &Dom, id: NodeId)
    ensures
        m.local is None && m.id is None ==> weight(m) == 10 * m.classes.len(),
        m.local is Some && m.id is None ==> weight(m) == 10 * m.classes.len() + 1,
        m.local is None && m.id is Some ==> weight(m) == 10 * m.classes.len() + 100,
        m.local is Some && m.id is Some ==> weight(m) == 10 * m.classes.len() + 101,
        selects(m, dom, id) <==> {
            &&& m.local matches Some(l) ==> (dom.local_at(id) matches Some(n) && text::lowered(n)
                == text::lowered(l))
            &&& m.id is Some ==> dom.plain_attr(id, "id"@) == m.id
            &&& forall|k: int|
                0 <= k < m.classes.len() ==> (dom.plain_attr(id, "class"@) matches Some(v)
                    && scan::holds_word(v, #[trigger] m.classes[k]))
        },
{
    if let Some(v) = dom.plain_attr(id, "class"@) {
        scan::words_stand_between_white_space(v);
        assert forall|k: int| 0 <= k < m.classes.len() implies (scan::words(v).contains(
            #[trigger] m.classes[k],
        ) <==> scan::holds_word(v, m.classes[k])) by {
            let all = scan::words(v);
            let class = m.classes[k];
            if all.contains(class) {
                let w = all.index_of(class);
                assert(scan::holds_word(v, all[w]));
            }
            if scan::holds_word(v, class) {
                let (i, j) = choose|i: int, j: int| #[trigger]
                    scan::is_word_at(v, i, j) && v.subrange(i, j) == class;
                assert(scan::is_word_at(v, i, j));
            }
        }
    } else {
        if m.classes.len() > 0 {
            let first = m.classes[0];
            assert(m.classes[0] == first);
        }
    }
}

/// What an element's own style declares goes before every rule, side by side; a side
/// that it does not declare is what leads among the rules.
pub proof fn an_inline_style_goes_before_the_rules(
    rules: Seq<RuleModel>,
    dom: &Dom,
    id: NodeId,
    inline: ContainIntrinsicOverride,
)
    ensures
        inline.width is Some ==> override_of(rules, dom, id, inline).width == inline.width,
        inline.height is Some ==> override_of(rules, dom, id, inline).height == inline.height,
        inline.width is None ==> override_of(rules, dom, id, inline).width == override_of(
            rules,
            dom,
            id,
            nothing(),
        ).width,
        inline.height is None ==> override_of(rules, dom, id, inline).height == override_of(
            rules,
            dom,
            id,
            nothing(),
        ).height,
        dom.plain_attr(id, "style"@) is None ==> inline_declared(dom, id).width is None
            && inline_declared(dom, id).height is None,
{
}

/// A block gives a rule for each of its simple selectors, in their order, with what it
/// declares; none where its selectors begin with an `@`, and none where it declares no
/// intrinsic size.
pub proof fn a_block_gives_a_rule_for_each_simple_selector(
    selectors: Seq<char>,
    body: Seq<char>,
    value: ContainIntrinsicOverride,
)
    ensures
        ({
            let parts = scan::split(selectors, ',');
            let counts = first_visible(selectors) != Some('@') && scan::has_part(
                body,
                "contain-intrinsic"@,
            ) && (value.width is Some || value.height is Some);
            &&& !counts ==> block_rules(selectors, body, value).len() == 0
            &&& counts ==> block_rules(selectors, body, value) == parts.filter(
                |p: Seq<char>| selector_in(p) is Some,
            ).map_values(|p: Seq<char>| (selector_in(p)->0, value))
        }),
{
    let parts = scan::split(selectors, ',');
    lemma_rules_for(parts, value, parts.len());
    assert(parts.take(parts.len() as int) =~= parts);
}

proof fn lemma_rules_for(parts: Seq<Seq<char>>, value: ContainIntrinsicOverride, n: nat)
    requires
        n <= parts.len(),
    ensures
        rules_for(parts, value, n) == parts.take(n as int).filter(
            |p: Seq<char>| selector_in(p) is Some,
        ).map_values(|p: Seq<char>| (selector_in(p)->0, value)),
    decreases n,
{
    let p = |p: Seq<char>| selector_in(p) is Some;
    let f = |p: Seq<char>| (selector_in(p)->0, value);
    let front = parts.take(n as int);
    reveal(Seq::filter);
    if n == 0 {
        assert(front.filter(p).map_values(f) =~= Seq::<RuleModel>::empty());
    } else {
        lemma_rules_for(parts, value, (n - 1) as nat);
        assert(front.drop_last() =~= parts.take(n - 1));
        assert(front.last() == parts[n - 1]);
        let before = parts.take(n - 1).filter(p);
        if p(parts[n - 1]) {
            assert(before.push(parts[n - 1]).map_values(f) =~= before.map_values(f).push(
                f(parts[n - 1]),
            ));
        }
    }
}

} // verus!
