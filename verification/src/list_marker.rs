//! The text of a list item's marker: bullets, and the counters in decimal,
//! alphabetic and roman notation with HTML's numbering of items.
use vstd::prelude::*;
use crate::dom::{Dom, NodeId};
use crate::style_plane::{ListStyleType, StylePlane};
use crate::text;
use crate::text::{append_chars, chars_of, int_to_string, parse_i64, str_eq, trim};

verus! {

/// How a list item's marker is rendered.
#[derive(Clone, Copy, Debug, PartialEq, Eq, Structural)]
pub enum MarkerKind {
    /// A bullet, which is this glyph.
    Bullet(char),
    Decimal,
    LowerAlpha,
    UpperAlpha,
    LowerRoman,
    UpperRoman,
}

/// The kind of marker that a counter style's name stands for. An unknown name
/// stands for the disc.
pub open spec fn named_marker(name: Seq<char>) -> MarkerKind {
    if name == "disc"@ {
        MarkerKind::Bullet('\u{2022}')
    } else if name == "circle"@ {
        MarkerKind::Bullet('\u{25E6}')
    } else if name == "square"@ {
        MarkerKind::Bullet('\u{25AA}')
    } else if name == "decimal"@ {
        MarkerKind::Decimal
    } else if name == "lower-alpha"@ || name == "lower-latin"@ {
        MarkerKind::LowerAlpha
    } else if name == "upper-alpha"@ || name == "upper-latin"@ {
        MarkerKind::UpperAlpha
    } else if name == "lower-roman"@ {
        MarkerKind::LowerRoman
    } else if name == "upper-roman"@ {
        MarkerKind::UpperRoman
    } else {
        MarkerKind::Bullet('\u{2022}')
    }
}

/// The kind of marker of an element: `None` where the list style is `none` or
/// no cascade has run, the disc for a counter style without a name.
pub open spec fn marker_of(styles: &StylePlane, id: NodeId) -> Option<MarkerKind> {
    match styles.primary_at(id) {
        None => None,
        Some(s) => match s.list_style_type {
            ListStyleType::NoMarker => None,
            ListStyleType::Name(name) => Some(named_marker(name@)),
            ListStyleType::Anonymous => Some(MarkerKind::Bullet('\u{2022}')),
        },
    }
}

fn kind_of_name(n: &str) -> (r: MarkerKind)
    ensures
        r == named_marker(n@),
{
    if str_eq(n, "disc") {
        MarkerKind::Bullet('\u{2022}')
    } else if str_eq(n, "circle") {
        MarkerKind::Bullet('\u{25E6}')
    } else if str_eq(n, "square") {
        MarkerKind::Bullet('\u{25AA}')
    } else if str_eq(n, "decimal") {
        MarkerKind::Decimal
    } else if str_eq(n, "lower-alpha") || str_eq(n, "lower-latin") {
        MarkerKind::LowerAlpha
    } else if str_eq(n, "upper-alpha") || str_eq(n, "upper-latin") {
        MarkerKind::UpperAlpha
    } else if str_eq(n, "lower-roman") {
        MarkerKind::LowerRoman
    } else if str_eq(n, "upper-roman") {
        MarkerKind::UpperRoman
    } else {
        MarkerKind::Bullet('\u{2022}')
    }
}

/// The kind of marker of an element.
pub fn marker_kind(styles: &StylePlane, id: NodeId) -> (r: Option<MarkerKind>)
    ensures
        r == marker_of(styles, id),
{
    match styles.primary(id) {
        None => None,
        Some(s) => match &s.list_style_type {
            ListStyleType::NoMarker => None,
            ListStyleType::Name(name) => Some(kind_of_name(name.as_str())),
            ListStyleType::Anonymous => Some(MarkerKind::Bullet('\u{2022}')),
        },
    }
}

// ---------------------------------------------------------------------------
// Alphabetic counters
// ---------------------------------------------------------------------------
/// The letter number `k` of the alphabet, counted from zero.
pub open spec fn letter(k: nat, upper: bool) -> char {
    if upper {
        ('A' as nat + k) as char
    } else {
        ('a' as nat + k) as char
    }
}

/// A number in bijective base 26: `a` to `z`, then `aa`, `ab` and so on. Zero
/// has no letters.
pub open spec fn alpha(n: nat, upper: bool) -> Seq<char>
    decreases n,
{
    if n == 0 {
        Seq::empty()
    } else {
        alpha(((n - 1) / 26) as nat, upper).push(letter(((n - 1) % 26) as nat, upper))
    }
}

/// The number that a row of letters stands for in bijective base 26.
pub open spec fn alpha_value(s: Seq<char>, upper: bool) -> int
    decreases s.len(),
{
    if s.len() == 0 {
        0
    } else {
        alpha_value(s.drop_last(), upper) * 26 + (s.last() as int - letter(0, upper) as int) + 1
    }
}

fn push_alpha(s: &mut String, n: usize, upper: bool)
    ensures
        final(s)@ == old(s)@ + alpha(n as nat, upper),
    decreases n,
{
    if n > 0 {
        push_alpha(s, (n - 1) / 26, upper);
        let k: u8 = ((n - 1) % 26) as u8;
        let c = if upper {
            (65u8 + k) as char
        } else {
            (97u8 + k) as char
        };
        s.push(c);
    }
    assert(s@ =~= old(s)@ + alpha(n as nat, upper));
}

/// The alphabetic counter: `a` for 1, `z` for 26, `aa` for 27.
pub fn alpha_marker(n: usize, upper: bool) -> (r: String)
    ensures
        r@ == alpha(n as nat, upper),
{
    let mut s: String = String::new();
    push_alpha(&mut s, n, upper);
    assert(s@ =~= alpha(n as nat, upper));
    s
}

/// An alphabetic counter reads back as its number, so no two numbers share
/// one.
pub proof fn alpha_reads_back(n: nat, upper: bool)
    ensures
        alpha_value(alpha(n, upper), upper) == n,
    decreases n,
{
    if n > 0 {
        let q = ((n - 1) / 26) as nat;
        alpha_reads_back(q, upper);
        assert(alpha(n, upper).drop_last() =~= alpha(q, upper));
    }
}

// ---------------------------------------------------------------------------
// Roman counters
// ---------------------------------------------------------------------------
/// One decimal digit in roman notation, from the signs for one, five and ten.
#[verifier::opaque]
pub open spec fn roman_digit(d: int, one: char, five: char, ten: char) -> Seq<char> {
    if d == 1 {
        seq![one]
    } else if d == 2 {
        seq![one, one]
    } else if d == 3 {
        seq![one, one, one]
    } else if d == 4 {
        seq![one, five]
    } else if d == 5 {
        seq![five]
    } else if d == 6 {
        seq![five, one]
    } else if d == 7 {
        seq![five, one, one]
    } else if d == 8 {
        seq![five, one, one, one]
    } else if d == 9 {
        seq![one, ten]
    } else {
        Seq::empty()
    }
}

/// The roman sign for 1, 5, 10, 50, 100, 500 or 1000, by its place.
pub open spec fn roman_sign(place: int, upper: bool) -> char {
    if place == 0 {
        if upper { 'I' } else { 'i' }
    } else if place == 1 {
        if upper { 'V' } else { 'v' }
    } else if place == 2 {
        if upper { 'X' } else { 'x' }
    } else if place == 3 {
        if upper { 'L' } else { 'l' }
    } else if place == 4 {
        if upper { 'C' } else { 'c' }
    } else if place == 5 {
        if upper { 'D' } else { 'd' }
    } else {
        if upper { 'M' } else { 'm' }
    }
}

/// A number from 1 to 3999 in roman notation; any other in decimal.
pub open spec fn roman(n: nat, upper: bool) -> Seq<char> {
    if n == 0 || n >= 4000 {
        text::decimal(n)
    } else {
        roman_digit(n as int / 1000, roman_sign(6, upper), roman_sign(6, upper), roman_sign(6, upper))
            + roman_digit(
            n as int / 100 % 10,
            roman_sign(4, upper),
            roman_sign(5, upper),
            roman_sign(6, upper),
        ) + roman_digit(
            n as int / 10 % 10,
            roman_sign(2, upper),
            roman_sign(3, upper),
            roman_sign(4, upper),
        ) + roman_digit(
            n as int % 10,
            roman_sign(0, upper),
            roman_sign(1, upper),
            roman_sign(2, upper),
        )
    }
}

/// What a roman sign is worth.
pub open spec fn sign_value(c: char) -> int {
    if c == 'i' || c == 'I' {
        1
    } else if c == 'v' || c == 'V' {
        5
    } else if c == 'x' || c == 'X' {
        10
    } else if c == 'l' || c == 'L' {
        50
    } else if c == 'c' || c == 'C' {
        100
    } else if c == 'd' || c == 'D' {
        500
    } else if c == 'm' || c == 'M' {
        1000
    } else {
        0
    }
}

/// The number that a row of roman signs stands for: a sign before a greater
/// one counts against the rest.
pub open spec fn roman_value(s: Seq<char>) -> int
    decreases s.len(),
{
    if s.len() == 0 {
        0
    } else if s.len() >= 2 && sign_value(s[0]) < sign_value(s[1]) {
        roman_value(s.skip(1)) - sign_value(s[0])
    } else {
        roman_value(s.skip(1)) + sign_value(s[0])
    }
}

fn push_roman_digit(s: &mut String, d: usize, one: char, five: char, ten: char)
    requires
        d < 10,
    ensures
        final(s)@ == old(s)@ + roman_digit(d as int, one, five, ten),
{
    proof {
        reveal(roman_digit);
    }
    if d == 4 {
        s.push(one);
        s.push(five);
    } else if d == 9 {
        s.push(one);
        s.push(ten);
    } else {
        if d >= 5 {
            s.push(five);
        }
        let units: usize = if d >= 5 { d - 5 } else { d };
        if units >= 1 {
            s.push(one);
        }
        if units >= 2 {
            s.push(one);
        }
        if units >= 3 {
            s.push(one);
        }
    }
    assert(s@ =~= old(s)@ + roman_digit(d as int, one, five, ten));
}

/// The roman counter; 0 and the numbers from 4000 on stand in decimal.
pub fn roman_marker(n: usize, upper: bool) -> (r: String)
    ensures
        r@ == roman(n as nat, upper),
{
    if n == 0 || n >= 4000 {
        return int_to_string(n as i128);
    }
    let mut s: String = String::new();
    if upper {
        push_roman_digit(&mut s, n / 1000, 'M', 'M', 'M');
        push_roman_digit(&mut s, n / 100 % 10, 'C', 'D', 'M');
        push_roman_digit(&mut s, n / 10 % 10, 'X', 'L', 'C');
        push_roman_digit(&mut s, n % 10, 'I', 'V', 'X');
    } else {
        push_roman_digit(&mut s, n / 1000, 'm', 'm', 'm');
        push_roman_digit(&mut s, n / 100 % 10, 'c', 'd', 'm');
        push_roman_digit(&mut s, n / 10 % 10, 'x', 'l', 'c');
        push_roman_digit(&mut s, n % 10, 'i', 'v', 'x');
    }
    assert(s@ =~= roman(n as nat, upper));
    s
}

proof fn lemma_roman_sign_front(c: char, rest: Seq<char>)
    ensures
        roman_value(seq![c] + rest) == if rest.len() > 0 && sign_value(c) < sign_value(rest[0]) {
            roman_value(rest) - sign_value(c)
        } else {
            roman_value(rest) + sign_value(c)
        },
{
    assert((seq![c] + rest).skip(1) =~= rest);
    if rest.len() > 0 {
        assert((seq![c] + rest)[1] == rest[0]);
    }
}

proof fn lemma_roman_digit_front(d: int, one: char, five: char, ten: char, rest: Seq<char>)
    requires
        0 <= d < 10,
        sign_value(one) > 0,
        sign_value(five) == 5 * sign_value(one),
        sign_value(ten) == 10 * sign_value(one),
        rest.len() > 0 ==> sign_value(rest[0]) < sign_value(one),
    ensures
        roman_value(roman_digit(d, one, five, ten) + rest) == d * sign_value(one) + roman_value(
            rest,
        ),
        (roman_digit(d, one, five, ten) + rest).len() > 0 ==> sign_value(
            (roman_digit(d, one, five, ten) + rest)[0],
        ) <= sign_value(five),
{
    reveal(roman_digit);
    let r1 = seq![one] + rest;
    let r2 = seq![one] + r1;
    let r3 = seq![one] + r2;
    lemma_roman_sign_front(one, rest);
    lemma_roman_sign_front(one, r1);
    lemma_roman_sign_front(one, r2);
    let f0 = seq![five] + rest;
    lemma_roman_sign_front(five, rest);
    lemma_roman_sign_front(five, r1);
    lemma_roman_sign_front(five, r2);
    lemma_roman_sign_front(five, r3);
    lemma_roman_sign_front(one, f0);
    let t0 = seq![ten] + rest;
    lemma_roman_sign_front(ten, rest);
    lemma_roman_sign_front(one, t0);
    let whole = roman_digit(d, one, five, ten) + rest;
    let v = sign_value(one);
    if d == 0 {
        assert(whole =~= rest);
        assert(d * v == 0 * v);
    } else if d == 1 {
        assert(whole =~= r1);
        assert(d * v == 1 * v);
    } else if d == 2 {
        assert(whole =~= r2);
        assert(d * v == 2 * v);
    } else if d == 3 {
        assert(whole =~= r3);
        assert(d * v == 3 * v);
    } else if d == 4 {
        assert(whole =~= seq![one] + f0);
        assert(d * v == 4 * v);
    } else if d == 5 {
        assert(whole =~= f0);
        assert(d * v == 5 * v);
    } else if d == 6 {
        assert(whole =~= seq![five] + r1);
        assert(d * v == 6 * v);
    } else if d == 7 {
        assert(whole =~= seq![five] + r2);
        assert(d * v == 7 * v);
    } else if d == 8 {
        assert(whole =~= seq![five] + r3);
        assert(d * v == 8 * v);
    } else {
        assert(d == 9);
        assert(whole =~= seq![one] + t0);
        assert(d * v == 9 * v);
    }
}

proof fn lemma_roman_thousands_front(d: int, m: char, rest: Seq<char>)
    requires
        0 <= d <= 3,
        sign_value(m) == 1000,
        rest.len() > 0 ==> sign_value(rest[0]) <= 1000,
    ensures
        roman_value(roman_digit(d, m, m, m) + rest) == d * 1000 + roman_value(rest),
{
    reveal(roman_digit);
    let r1 = seq![m] + rest;
    let r2 = seq![m] + r1;
    lemma_roman_sign_front(m, rest);
    lemma_roman_sign_front(m, r1);
    lemma_roman_sign_front(m, r2);
    let whole = roman_digit(d, m, m, m) + rest;
    if d == 0 {
        assert(whole =~= rest);
    } else if d == 1 {
        assert(whole =~= r1);
    } else if d == 2 {
        assert(whole =~= r2);
    } else {
        assert(whole =~= seq![m] + r2);
    }
}

proof fn lemma_roman_parts(
    th: int,
    h: int,
    t: int,
    u: int,
    i: char,
    v: char,
    x: char,
    l: char,
    c: char,
    d: char,
    m: char,
)
    requires
        0 <= th <= 3,
        0 <= h < 10,
        0 <= t < 10,
        0 <= u < 10,
        sign_value(i) == 1,
        sign_value(v) == 5,
        sign_value(x) == 10,
        sign_value(l) == 50,
        sign_value(c) == 100,
        sign_value(d) == 500,
        sign_value(m) == 1000,
    ensures
        roman_value(
            roman_digit(th, m, m, m) + roman_digit(h, c, d, m) + roman_digit(t, x, l, c)
                + roman_digit(u, i, v, x),
        ) == th * 1000 + h * 100 + t * 10 + u,
{
    let empty = Seq::<char>::empty();
    let r1 = roman_digit(u, i, v, x) + empty;
    let r2 = roman_digit(t, x, l, c) + r1;
    let r3 = roman_digit(h, c, d, m) + r2;
    lemma_roman_digit_front(u, i, v, x, empty);
    lemma_roman_digit_front(t, x, l, c, r1);
    lemma_roman_digit_front(h, c, d, m, r2);
    lemma_roman_thousands_front(th, m, r3);
    assert(roman_digit(th, m, m, m) + roman_digit(h, c, d, m) + roman_digit(t, x, l, c)
        + roman_digit(u, i, v, x) =~= roman_digit(th, m, m, m) + r3);
}

/// A roman counter reads back as its number.
#[verifier::rlimit(60)]
#[verifier::spinoff_prover]
pub proof fn roman_reads_back(n: nat, upper: bool)
    requires
        1 <= n < 4000,
    ensures
        roman_value(roman(n, upper)) == n,
{
    let k = n as int;
    if upper {
        lemma_roman_parts(
            k / 1000,
            k / 100 % 10,
            k / 10 % 10,
            k % 10,
            'I',
            'V',
            'X',
            'L',
            'C',
            'D',
            'M',
        );
    } else {
        lemma_roman_parts(
            k / 1000,
            k / 100 % 10,
            k / 10 % 10,
            k % 10,
            'i',
            'v',
            'x',
            'l',
            'c',
            'd',
            'm',
        );
    }
}

// ---------------------------------------------------------------------------
// The ordinal of a list item
// ---------------------------------------------------------------------------
/// Whether `id` is a list item.
pub open spec fn is_item(dom: &Dom, id: NodeId) -> bool {
    dom.is_named(id, "li"@)
}

/// An attribute's value read as an integer, white space at its ends aside.
pub open spec fn int_attr(dom: &Dom, id: NodeId, name: Seq<char>) -> Option<int> {
    match dom.plain_attr(id, name) {
        Some(v) => text::parsed_int(text::trimmed(v), i64::MIN as int, i64::MAX as int),
        None => None,
    }
}

/// How many of the first `k` children of `list` are list items.
pub open spec fn items_before(dom: &Dom, list: NodeId, k: nat) -> nat
    decreases k,
{
    if k == 0 {
        0
    } else {
        items_before(dom, list, (k - 1) as nat) + if is_item(
            dom,
            dom.children_at(list)[k - 1],
        ) {
            1nat
        } else {
            0nat
        }
    }
}

/// Whether a list counts down.
pub open spec fn is_reversed(dom: &Dom, list: NodeId) -> bool {
    dom.plain_attr(list, "reversed"@) is Some
}

/// Where a list's counting starts: at its `start` attribute, else at one, or at
/// the number of its items where it counts down.
pub open spec fn first_ordinal(dom: &Dom, list: NodeId) -> int {
    match int_attr(dom, list, "start"@) {
        Some(v) => v,
        None => if is_reversed(dom, list) {
            items_before(dom, list, dom.children_at(list).len()) as int
        } else {
            1
        },
    }
}

/// The ordinal of the child number `k` of `list`, if it is an item: its `value`
/// attribute, else what the items before it count up (or down) to.
pub open spec fn ordinal_at(dom: &Dom, list: NodeId, k: nat) -> int
    decreases k, 1nat,
{
    match int_attr(dom, dom.children_at(list)[k as int], "value"@) {
        Some(v) => v,
        None => counted_to(dom, list, k),
    }
}

/// What the first `k` children of `list` count to: each item sets the count to
/// one step past its own ordinal.
pub open spec fn counted_to(dom: &Dom, list: NodeId, k: nat) -> int
    decreases k, 0nat,
{
    if k == 0 {
        first_ordinal(dom, list)
    } else if is_item(dom, dom.children_at(list)[k - 1]) {
        ordinal_at(dom, list, (k - 1) as nat) + if is_reversed(dom, list) {
            -1int
        } else {
            1int
        }
    } else {
        counted_to(dom, list, (k - 1) as nat)
    }
}

/// The text of a counter that stands at `ordinal`: alphabetic and roman
/// notation for the ordinals from one on, else decimal.
pub open spec fn counter_text(kind: MarkerKind, ordinal: int) -> Seq<char> {
    if 1 <= ordinal <= usize::MAX {
        match kind {
            MarkerKind::LowerAlpha => alpha(ordinal as nat, false),
            MarkerKind::UpperAlpha => alpha(ordinal as nat, true),
            MarkerKind::LowerRoman => roman(ordinal as nat, false),
            MarkerKind::UpperRoman => roman(ordinal as nat, true),
            _ => text::int_text(ordinal),
        }
    } else {
        text::int_text(ordinal)
    }
}

/// The marker of `id`: `None` where it is no list item or has no marker, the
/// glyph of a bullet, or the counter and a full stop.
pub open spec fn marker_text(dom: &Dom, styles: &StylePlane, id: NodeId) -> Option<Seq<char>> {
    if !is_item(dom, id) {
        None
    } else {
        match marker_of(styles, id) {
            None => None,
            Some(MarkerKind::Bullet(glyph)) => Some(seq![glyph]),
            Some(kind) => match dom.parent_at(id) {
                None => None,
                Some(list) => Some(
                    counter_text(
                        kind,
                        ordinal_at(dom, list, dom.children_at(list).index_of(id) as nat),
                    ).push('.'),
                ),
            },
        }
    }
}

fn read_int_attr(dom: &Dom, id: NodeId, name: &str) -> (r: Option<i64>)
    requires
        dom.has(id),
    ensures
        match r {
            Some(v) => int_attr(dom, id, name@) == Some(v as int),
            None => int_attr(dom, id, name@) is None,
        },
{
    match dom.plain_attribute(id, name) {
        Some(v) => {
            let chars = chars_of(v);
            parse_i64(trim(chars.as_slice()).as_slice())
        },
        None => None,
    }
}

fn count_items(dom: &Dom, list: NodeId) -> (r: usize)
    requires
        dom.wf(),
        dom.has(list),
    ensures
        r == items_before(dom, list, dom.children_at(list).len()),
{
    let children = dom.dom_children(list);
    let mut count: usize = 0;
    let mut k: usize = 0;
    while k < children.len()
        invariant
            dom.wf(),
            dom.has(list),
            children@ == dom.children_at(list),
            k <= children@.len(),
            count <= k,
            count == items_before(dom, list, k as nat),
        decreases children.len() - k,
    {
        assert(dom.has(dom.children_at(list)[k as int]));
        if dom.named(children[k], "li") {
            count += 1;
        }
        k += 1;
    }
    count
}

/// The ordinal of the list item `id` of `list`.
fn ordinal_of(dom: &Dom, list: NodeId, id: NodeId) -> (r: i128)
    requires
        dom.wf(),
        dom.has(id),
        dom.parent_at(id) == Some(list),
        is_item(dom, id),
    ensures
        r == ordinal_at(dom, list, dom.children_at(list).index_of(id) as nat),
        -0x1_0000_0000_0000_0000_0000 < r < 0x1_0000_0000_0000_0000_0000,
{
    assert(dom.has(list) && dom.children_at(list).contains(id));
    let reversed = dom.plain_attribute(list, "reversed").is_some();
    let step: i128 = if reversed { -1 } else { 1 };
    let start: i128 = match read_int_attr(dom, list, "start") {
        Some(v) => v as i128,
        None => if reversed {
            count_items(dom, list) as i128
        } else {
            1
        },
    };
    let children = dom.dom_children(list);
    let ghost at = dom.children_at(list).index_of(id);
    let mut counter: i128 = start;
    let mut k: usize = 0;
    while k < children.len()
        invariant
            dom.wf(),
            dom.has(list),
            children@ == dom.children_at(list),
            0 <= at < children@.len(),
            children@[at] == id,
            is_item(dom, id),
            at == dom.children_at(list).index_of(id),
            k <= at,
            step == (if is_reversed(dom, list) { -1int } else { 1int }),
            counter == counted_to(dom, list, k as nat),
            -0x1_0000_0000_0000_0000_0000 < counter - k,
            counter + k < 0x1_0000_0000_0000_0000_0000,
            -0x1_0000_0000_0000_0000 - k <= counter <= 0x1_0000_0000_0000_0000 + k,
        decreases children.len() - k,
    {
        assert(dom.has(dom.children_at(list)[k as int]));
        let sib = children[k];
        if dom.named(sib, "li") {
            let value: i128 = match read_int_attr(dom, sib, "value") {
                Some(v) => v as i128,
                None => counter,
            };
            assert(value == ordinal_at(dom, list, k as nat));
            if sib == id {
                assert(dom.children_at(list).no_duplicates());
                assert(k == at);
                return value;
            }
            counter = value + step;
        }
        assert(k != at);
        k += 1;
    }
    assert(false);
    counter
}

/// The marker of the list item `id`: a bullet, or its counter and a full stop.
/// `None` for what is no list item and for `list-style-type: none`.
pub fn list_marker_text(dom: &Dom, styles: &StylePlane, id: NodeId) -> (r: Option<String>)
    requires
        dom.wf(),
        dom.has(id),
    ensures
        match r {
            Some(s) => marker_text(dom, styles, id) == Some(s@),
            None => marker_text(dom, styles, id) is None,
        },
{
    if !dom.named(id, "li") {
        return None;
    }
    let kind = match marker_kind(styles, id) {
        Some(kind) => kind,
        None => return None,
    };
    if let MarkerKind::Bullet(glyph) = kind {
        let mut s: String = String::new();
        s.push(glyph);
        assert(s@ =~= seq![glyph]);
        return Some(s);
    }
    let list = match dom.parent(id) {
        Some(list) => list,
        None => return None,
    };
    let ordinal: i128 = ordinal_of(dom, list, id);
    let mut body = if 1 <= ordinal && ordinal <= usize::MAX as i128 {
        let n: usize = ordinal as usize;
        match kind {
            MarkerKind::LowerAlpha => alpha_marker(n, false),
            MarkerKind::UpperAlpha => alpha_marker(n, true),
            MarkerKind::LowerRoman => roman_marker(n, false),
            MarkerKind::UpperRoman => roman_marker(n, true),
            _ => int_to_string(ordinal),
        }
    } else {
        int_to_string(ordinal)
    };
    body.push('.');
    Some(body)
}

// ---------------------------------------------------------------------------
// Laws
// ---------------------------------------------------------------------------
/// An alphabetic counter is of the letters of the alphabet, in the case asked for,
/// and has some from one on.
pub proof fn alpha_is_of_letters(n: nat, upper: bool)
    ensures
        n > 0 ==> alpha(n, upper).len() > 0,
        forall|i: int|
            0 <= i < alpha(n, upper).len() ==> {
                let c = #[trigger] alpha(n, upper)[i];
                if upper {
                    'A' <= c <= 'Z'
                } else {
                    'a' <= c <= 'z'
                }
            },
    decreases n,
{
    if n > 0 {
        let q = ((n - 1) / 26) as nat;
        let k = ((n - 1) % 26) as nat;
        alpha_is_of_letters(q, upper);
        let all = alpha(n, upper);
        let before = alpha(q, upper);
        assert(all == before.push(letter(k, upper)));
        assert(k < 26);
        assert forall|i: int| 0 <= i < all.len() implies {
            let c = #[trigger] all[i];
            if upper {
                'A' <= c <= 'Z'
            } else {
                'a' <= c <= 'z'
            }
        } by {
            if i < before.len() {
                assert(all[i] == before[i]);
            }
        }
    }
}

/// One digit takes as few roman signs as it can: four and nine take two, any other
/// a sign for five where it has one and a sign for each one beyond.
pub open spec fn roman_digit_len(d: int) -> int {
    if d % 5 == 4 {
        2
    } else {
        d / 5 + d % 5
    }
}

/// A roman counter is of roman signs in the case asked for, and as short as one is
/// that subtracts for four and nine. Zero and what is beyond 3999 is in decimal.
pub proof fn roman_is_short(n: nat, upper: bool)
    ensures
        n == 0 || n >= 4000 ==> roman(n, upper) == text::decimal(n),
        1 <= n < 4000 ==> {
            &&& roman(n, upper).len() == roman_digit_len(n as int / 1000) + roman_digit_len(
                n as int / 100 % 10,
            ) + roman_digit_len(n as int / 10 % 10) + roman_digit_len(n as int % 10)
            &&& forall|i: int|
                0 <= i < roman(n, upper).len() ==> {
                    let c = #[trigger] roman(n, upper)[i];
                    if upper {
                        'A' <= c <= 'Z'
                    } else {
                        'a' <= c <= 'z'
                    }
                }
        },
{
    if 1 <= n < 4000 {
        let k = n as int;
        let s = |place: int| roman_sign(place, upper);
        lemma_roman_digit_signs(k / 1000, s(6), s(6), s(6), upper);
        lemma_roman_digit_signs(k / 100 % 10, s(4), s(5), s(6), upper);
        lemma_roman_digit_signs(k / 10 % 10, s(2), s(3), s(4), upper);
        lemma_roman_digit_signs(k % 10, s(0), s(1), s(2), upper);
    }
}

proof fn lemma_roman_digit_signs(d: int, one: char, five: char, ten: char, upper: bool)
    requires
        0 <= d < 10,
        upper ==> 'A' <= one <= 'Z' && 'A' <= five <= 'Z' && 'A' <= ten <= 'Z',
        !upper ==> 'a' <= one <= 'z' && 'a' <= five <= 'z' && 'a' <= ten <= 'z',
    ensures
        roman_digit(d, one, five, ten).len() == roman_digit_len(d),
        forall|i: int|
            0 <= i < roman_digit(d, one, five, ten).len() ==> {
                let c = #[trigger] roman_digit(d, one, five, ten)[i];
                if upper {
                    'A' <= c <= 'Z'
                } else {
                    'a' <= c <= 'z'
                }
            },
{
    reveal(roman_digit);
}

proof fn lemma_counter_names()
    ensures
        "disc"@.len() == 4,
        "circle"@.len() == 6,
        "square"@.len() == 6,
        "circle"@[0] == 'c',
        "square"@[0] == 's',
        "decimal"@.len() == 7,
        "lower-alpha"@.len() == 11,
        "lower-latin"@.len() == 11,
        "lower-roman"@.len() == 11,
        "upper-alpha"@.len() == 11,
        "upper-latin"@.len() == 11,
        "upper-roman"@.len() == 11,
        "lower-alpha"@[0] == 'l' && "lower-alpha"@[6] == 'a',
        "lower-latin"@[0] == 'l' && "lower-latin"@[6] == 'l',
        "lower-roman"@[0] == 'l' && "lower-roman"@[6] == 'r',
        "upper-alpha"@[0] == 'u' && "upper-alpha"@[6] == 'a',
        "upper-latin"@[0] == 'u' && "upper-latin"@[6] == 'l',
        "upper-roman"@[0] == 'u' && "upper-roman"@[6] == 'r',
{
    reveal_strlit("disc");
    reveal_strlit("circle");
    reveal_strlit("square");
    reveal_strlit("decimal");
    reveal_strlit("lower-alpha");
    reveal_strlit("lower-latin");
    reveal_strlit("lower-roman");
    reveal_strlit("upper-alpha");
    reveal_strlit("upper-latin");
    reveal_strlit("upper-roman");
}

/// Only a styled `<li>` has a marker, and none where its list style is `none`. Its
/// list style says which: a disc, a circle or a square, or its ordinal in decimal,
/// letters or roman signs and a full stop. A list style that is not known is a
/// disc. Letters and roman signs count from one on; other ordinals are decimal.
pub proof fn a_marker_is_what_the_list_style_names(dom: &Dom, styles: &StylePlane, id: NodeId)
    ensures
        !dom.is_named(id, "li"@) ==> marker_text(dom, styles, id) is None,
        styles.primary_at(id) is None ==> marker_text(dom, styles, id) is None,
        dom.is_named(id, "li"@) ==> (styles.primary_at(id) matches Some(s) ==> {
            let shown = marker_text(dom, styles, id);
            match s.list_style_type {
                ListStyleType::NoMarker => shown is None,
                ListStyleType::Anonymous => shown == Some(seq!['\u{2022}']),
                ListStyleType::Name(name) => {
                    let list = dom.parent_at(id)->0;
                    let n = ordinal_at(dom, list, dom.children_at(list).index_of(id) as nat);
                    let counts = name@ == "decimal"@ || name@ == "lower-alpha"@ || name@
                        == "lower-latin"@ || name@ == "upper-alpha"@ || name@ == "upper-latin"@
                        || name@ == "lower-roman"@ || name@ == "upper-roman"@;
                    let fits = 1 <= n <= usize::MAX;
                    &&& name@ == "circle"@ ==> shown == Some(seq!['\u{25E6}'])
                    &&& name@ == "square"@ ==> shown == Some(seq!['\u{25AA}'])
                    &&& !counts && name@ != "circle"@ && name@ != "square"@ ==> shown == Some(
                        seq!['\u{2022}'],
                    )
                    &&& counts && dom.parent_at(id) is None ==> shown is None
                    &&& dom.parent_at(id) is Some ==> {
                        &&& name@ == "decimal"@ || (counts && !fits) ==> shown == Some(
                            text::int_text(n).push('.'),
                        )
                        &&& fits && (name@ == "lower-alpha"@ || name@ == "lower-latin"@) ==> shown
                            == Some(alpha(n as nat, false).push('.'))
                        &&& fits && (name@ == "upper-alpha"@ || name@ == "upper-latin"@) ==> shown
                            == Some(alpha(n as nat, true).push('.'))
                        &&& fits && name@ == "lower-roman"@ ==> shown == Some(
                            roman(n as nat, false).push('.'),
                        )
                        &&& fits && name@ == "upper-roman"@ ==> shown == Some(
                            roman(n as nat, true).push('.'),
                        )
                    }
                },
            }
        }),
{
    lemma_counter_names();
}

/// How many items a list has is how many of its children are `<li>` elements.
pub proof fn the_items_of_a_list_are_counted(dom: &Dom, list: NodeId, k: nat)
    requires
        k <= dom.children_at(list).len(),
    ensures
        items_before(dom, list, k) == dom.children_at(list).take(k as int).filter(
            |c: NodeId| dom.is_named(c, "li"@),
        ).len(),
    decreases k,
{
    let p = |c: NodeId| dom.is_named(c, "li"@);
    let front = dom.children_at(list).take(k as int);
    reveal(Seq::filter);
    if k > 0 {
        the_items_of_a_list_are_counted(dom, list, (k - 1) as nat);
        assert(front.drop_last() =~= dom.children_at(list).take(k - 1));
        assert(front.last() == dom.children_at(list)[k - 1]);
    }
}

/// An item that has a `value` has that ordinal. Any other goes one step on from the
/// item before it: one up, or one down in a reversed list. The first item has the
/// ordinal that the list's `start` says, else one, or in a reversed list as many as
/// it has items.
pub proof fn an_item_counts_on_from_the_one_before(
    dom: &Dom,
    list: NodeId,
    before: Option<int>,
    k: int,
)
    requires
        0 <= k < dom.children_at(list).len(),
        dom.is_named(dom.children_at(list)[k], "li"@),
        match before {
            Some(j) => {
                &&& 0 <= j < k
                &&& dom.is_named(dom.children_at(list)[j], "li"@)
                &&& forall|m: int|
                    j < m < k ==> !dom.is_named(#[trigger] dom.children_at(list)[m], "li"@)
            },
            None => forall|m: int|
                0 <= m < k ==> !dom.is_named(#[trigger] dom.children_at(list)[m], "li"@),
        },
    ensures
        ({
            let n = ordinal_at(dom, list, k as nat);
            let back = dom.plain_attr(list, "reversed"@) is Some;
            match int_attr(dom, dom.children_at(list)[k], "value"@) {
                Some(v) => n == v,
                None => match before {
                    Some(j) => n == ordinal_at(dom, list, j as nat) + (if back {
                        -1int
                    } else {
                        1int
                    }),
                    None => match int_attr(dom, list, "start"@) {
                        Some(v) => n == v,
                        None => n == (if back {
                            dom.children_at(list).filter(
                                |c: NodeId| dom.is_named(c, "li"@),
                            ).len() as int
                        } else {
                            1
                        }),
                    },
                },
            }
        }),
{
    let all = dom.children_at(list);
    the_items_of_a_list_are_counted(dom, list, all.len());
    assert(all.take(all.len() as int) =~= all);
    lemma_counted_past(
        dom,
        list,
        match before {
            Some(j) => j + 1,
            None => 0,
        },
        k,
    );
}

proof fn lemma_counted_past(dom: &Dom, list: NodeId, from: int, k: int)
    requires
        0 <= from <= k <= dom.children_at(list).len(),
        forall|m: int| from <= m < k ==> !dom.is_named(#[trigger] dom.children_at(list)[m], "li"@),
    ensures
        counted_to(dom, list, k as nat) == counted_to(dom, list, from as nat),
    decreases k - from,
{
    if from < k {
        lemma_counted_past(dom, list, from, k - 1);
        assert(!dom.is_named(dom.children_at(list)[k - 1], "li"@));
    }
}

} // verus!
