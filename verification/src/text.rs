//! Strings as sequences of characters: comparison, trimming, numbers and
//! byte lengths, each with an exact contract.
use vstd::prelude::*;
use vstd::string::*;
use vstd::utf8::*;

verus! {

// ---------------------------------------------------------------------------
// std's string and character functions
// ---------------------------------------------------------------------------
/// Whether a character has the Unicode `White_Space` property.
pub open spec fn is_white_space(c: char) -> bool {
    ||| '\u{9}' <= c <= '\u{d}'
    ||| c == ' ' || c == '\u{85}' || c == '\u{a0}' || c == '\u{1680}'
    ||| '\u{2000}' <= c <= '\u{200a}'
    ||| c == '\u{2028}' || c == '\u{2029}' || c == '\u{202f}' || c == '\u{205f}' || c
        == '\u{3000}'
}

/// `char::is_whitespace` tells whether the character has the Unicode
/// `White_Space` property.
pub assume_specification[ char::is_whitespace ](c: char) -> (r: bool)
    ensures
        r == is_white_space(c),
;

/// `String::push` appends one character to the end of the string.
pub assume_specification[ String::push ](s: &mut String, c: char)
    ensures
        final(s)@ == old(s)@.push(c),
;

// ---------------------------------------------------------------------------
// Comparison and conversion
// ---------------------------------------------------------------------------
/// Whether two strings hold the same characters.
pub fn str_eq(a: &str, b: &str) -> (r: bool)
    ensures
        r == (a@ == b@),
{
    let x = a.as_bytes();
    let y = b.as_bytes();
    if x.len() != y.len() {
        return false;
    }
    let mut i: usize = 0;
    while i < x.len()
        invariant
            i <= x.len(),
            x.len() == y.len(),
            x@ == encode_utf8(a@),
            y@ == encode_utf8(b@),
            forall|k: int| 0 <= k < i ==> x@[k] == y@[k],
        decreases x.len() - i,
    {
        if x[i] != y[i] {
            return false;
        }
        i += 1;
    }
    proof {
        assert(x@ =~= y@);
        encode_utf8_decode_utf8(a@);
        encode_utf8_decode_utf8(b@);
    }
    true
}

/// The characters of a string.
pub fn chars_of(s: &str) -> (r: Vec<char>)
    ensures
        r@ == s@,
{
    let mut v: Vec<char> = Vec::new();
    for c in it: s.chars()
        invariant
            v@ == s@.take(it.index()),
            it.seq() == s@,
    {
        v.push(c);
        assert(v@ =~= s@.take(it.index() + 1));
    }
    assert(s@.take(s@.len() as int) =~= s@);
    v
}

/// Appends the given characters to a string.
pub fn append_chars(s: &mut String, chars: &[char])
    ensures
        final(s)@ == old(s)@ + chars@,
{
    for i in 0..chars.len()
        invariant
            s@ == old(s)@ + chars@.take(i as int),
    {
        s.push(chars[i]);
        assert(s@ =~= old(s)@ + chars@.take(i + 1));
    }
    assert(chars@.take(chars@.len() as int) =~= chars@);
}

/// The string that holds the given characters.
pub fn string_of(chars: &[char]) -> (r: String)
    ensures
        r@ == chars@,
{
    let mut s: String = String::new();
    append_chars(&mut s, chars);
    assert(s@ =~= chars@);
    s
}

/// Whether two character slices are equal.
pub fn chars_eq(a: &[char], b: &[char]) -> (r: bool)
    ensures
        r == (a@ == b@),
{
    if a.len() != b.len() {
        return false;
    }
    let mut i: usize = 0;
    while i < a.len()
        invariant
            i <= a.len(),
            a.len() == b.len(),
            forall|k: int| 0 <= k < i ==> a@[k] == b@[k],
        decreases a.len() - i,
    {
        if a[i] != b[i] {
            return false;
        }
        i += 1;
    }
    assert(a@ =~= b@);
    true
}

/// The part of a character slice between two positions.
pub fn sub_chars(chars: &[char], lo: usize, hi: usize) -> (r: Vec<char>)
    requires
        lo <= hi <= chars@.len(),
    ensures
        r@ == chars@.subrange(lo as int, hi as int),
{
    let mut v: Vec<char> = Vec::new();
    let mut i: usize = lo;
    while i < hi
        invariant
            lo <= i <= hi <= chars@.len(),
            v@ == chars@.subrange(lo as int, i as int),
        decreases hi - i,
    {
        v.push(chars[i]);
        i += 1;
        assert(v@ =~= chars@.subrange(lo as int, i as int));
    }
    v
}

// ---------------------------------------------------------------------------
// Trimming
// ---------------------------------------------------------------------------
/// A text without the white space at its two ends.
pub open spec fn trimmed(s: Seq<char>) -> Seq<char>
    decreases s.len(),
{
    if s.len() == 0 {
        s
    } else if is_white_space(s[0]) {
        trimmed(s.skip(1))
    } else if is_white_space(s.last()) {
        trimmed(s.drop_last())
    } else {
        s
    }
}

/// `s` without the white space at its two ends.
pub fn trim(s: &[char]) -> (r: Vec<char>)
    ensures
        r@ == trimmed(s@),
{
    let mut lo: usize = 0;
    let mut hi: usize = s.len();
    assert(s@.subrange(0, s@.len() as int) =~= s@);
    while lo < hi && s[lo].is_whitespace()
        invariant
            lo <= hi <= s@.len(),
            trimmed(s@) == trimmed(s@.subrange(lo as int, hi as int)),
        decreases hi - lo,
    {
        assert(s@.subrange(lo as int, hi as int).skip(1) =~= s@.subrange(lo + 1, hi as int));
        lo += 1;
    }
    while lo < hi && s[hi - 1].is_whitespace()
        invariant
            lo <= hi <= s@.len(),
            trimmed(s@) == trimmed(s@.subrange(lo as int, hi as int)),
            lo < hi ==> !is_white_space(s@[lo as int]),
        decreases hi - lo,
    {
        assert(s@.subrange(lo as int, hi as int).drop_last() =~= s@.subrange(lo as int, hi - 1));
        hi -= 1;
    }
    sub_chars(s, lo, hi)
}

// ---------------------------------------------------------------------------
// Numbers
// ---------------------------------------------------------------------------
/// Whether a character is one of the ten ASCII digits.
pub open spec fn is_digit(c: char) -> bool {
    '0' <= c <= '9'
}

/// The number that a row of decimal digits denotes.
pub open spec fn digits_value(s: Seq<char>) -> nat
    decreases s.len(),
{
    if s.len() == 0 {
        0
    } else {
        digits_value(s.drop_last()) * 10 + (s.last() as nat - '0' as nat) as nat
    }
}

/// Whether a text is one or more decimal digits.
pub open spec fn is_number(s: Seq<char>) -> bool {
    s.len() > 0 && forall|i: int| 0 <= i < s.len() ==> is_digit(#[trigger] s[i])
}

/// The number that a text denotes: an optional sign, then one or more decimal
/// digits, with the value in `min..=max`. A leading minus sign is part of a
/// number only where `min` is negative.
pub open spec fn parsed_int(s: Seq<char>, min: int, max: int) -> Option<int> {
    let signed = s.len() > 0 && (s[0] == '+' || (s[0] == '-' && min < 0));
    let body = if signed { s.skip(1) } else { s };
    let value = if signed && s[0] == '-' {
        -(digits_value(body) as int)
    } else {
        digits_value(body) as int
    };
    if is_number(body) && min <= value <= max {
        Some(value)
    } else {
        None
    }
}

/// The value of the digits of `s` from `from` on, or `None` where they are no
/// digits, there is none, or the value is above `limit`.
fn parse_digits(s: &[char], from: usize, limit: u64) -> (r: Option<u64>)
    requires
        from <= s@.len(),
    ensures
        r == (if is_number(s@.skip(from as int)) && digits_value(s@.skip(from as int)) <= limit {
            Some(digits_value(s@.skip(from as int)) as u64)
        } else {
            None
        }),
{
    let ghost body = s@.skip(from as int);
    if from == s.len() {
        return None;
    }
    let mut i: usize = from;
    let mut acc: u128 = 0;
    let mut over = false;
    while i < s.len()
        invariant
            from <= i <= s@.len(),
            from < s@.len(),
            body == s@.skip(from as int),
            forall|k: int| 0 <= k < i - from ==> is_digit(#[trigger] body[k]),
            over == (digits_value(body.take(i - from)) > limit),
            !over ==> acc == digits_value(body.take(i - from)),
            acc <= 0xffff_ffff_ffff_ffff_ffff,
        decreases s.len() - i,
    {
        let c = s[i];
        assert(body[i - from] == c);
        if !('0' <= c && c <= '9') {
            return None;
        }
        assert(body.take(i - from + 1).drop_last() =~= body.take(i - from));
        assert(body.take(i - from + 1).last() == c);
        if !over {
            acc = acc * 10 + (c as u32 - '0' as u32) as u128;
            if acc > limit as u128 {
                over = true;
                acc = 0;
            }
        }
        i += 1;
    }
    assert(body.take(i - from) =~= body);
    if over {
        None
    } else {
        Some(acc as u64)
    }
}

/// Reads a signed decimal number, as `i64` is parsed: an optional sign, then
/// digits only.
pub fn parse_i64(s: &[char]) -> (r: Option<i64>)
    ensures
        r == (match parsed_int(s@, i64::MIN as int, i64::MAX as int) {
            Some(v) => Some(v as i64),
            None => None,
        }),
{
    if s.len() > 0 && s[0] == '-' {
        match parse_digits(s, 1, 0x8000_0000_0000_0000) {
            Some(v) => Some((0 - v as i128) as i64),
            None => None,
        }
    } else if s.len() > 0 && s[0] == '+' {
        match parse_digits(s, 1, 0x7fff_ffff_ffff_ffff) {
            Some(v) => Some(v as i64),
            None => None,
        }
    } else {
        assert(s@.skip(0) =~= s@);
        match parse_digits(s, 0, 0x7fff_ffff_ffff_ffff) {
            Some(v) => Some(v as i64),
            None => None,
        }
    }
}

/// Reads an unsigned decimal number, as `u64` is parsed: an optional plus
/// sign, then digits only.
pub fn parse_u64(s: &[char]) -> (r: Option<u64>)
    ensures
        r == (match parsed_int(s@, 0, u64::MAX as int) {
            Some(v) => Some(v as u64),
            None => None,
        }),
{
    if s.len() > 0 && s[0] == '+' {
        parse_digits(s, 1, u64::MAX)
    } else {
        assert(s@.skip(0) =~= s@);
        parse_digits(s, 0, u64::MAX)
    }
}

/// The decimal digits of a number, without leading zeros.
pub open spec fn decimal(n: nat) -> Seq<char>
    decreases n,
{
    if n < 10 {
        seq![('0' as nat + n) as char]
    } else {
        decimal(n / 10).push(('0' as nat + n % 10) as char)
    }
}

/// An integer in decimal, with a minus sign where it is negative.
pub open spec fn int_text(i: int) -> Seq<char> {
    if i < 0 {
        seq!['-'] + decimal((-i) as nat)
    } else {
        decimal(i as nat)
    }
}

/// The digit character for a number below ten.
fn digit_char(d: u8) -> (c: char)
    requires
        d < 10,
    ensures
        c == ('0' as nat + d as nat) as char,
{
    (48u8 + d) as char
}

fn push_decimal(s: &mut String, n: u128)
    ensures
        final(s)@ == old(s)@ + decimal(n as nat),
    decreases n,
{
    if n < 10 {
        s.push(digit_char(n as u8));
        assert(s@ =~= old(s)@ + decimal(n as nat));
    } else {
        push_decimal(s, n / 10);
        s.push(digit_char((n % 10) as u8));
        assert(s@ =~= old(s)@ + decimal(n as nat));
    }
}

/// An integer in decimal.
pub fn int_to_string(i: i128) -> (r: String)
    requires
        i > i128::MIN,
    ensures
        r@ == int_text(i as int),
{
    let mut s: String = String::new();
    if i < 0 {
        s.push('-');
        push_decimal(&mut s, (0 - i) as u128);
    } else {
        push_decimal(&mut s, i as u128);
    }
    assert(s@ =~= int_text(i as int));
    s
}

// ---------------------------------------------------------------------------
// Bytes
// ---------------------------------------------------------------------------
/// How many bytes a text takes in UTF-8.
pub open spec fn byte_len(s: Seq<char>) -> nat {
    encode_utf8(s).len()
}

/// The bytes of two texts in a row.
pub proof fn lemma_encode_add(a: Seq<char>, b: Seq<char>)
    ensures
        encode_utf8(a + b) == encode_utf8(a) + encode_utf8(b),
    decreases a.len(),
{
    if a.len() == 0 {
        assert(a + b =~= b);
        assert(encode_utf8(a) + encode_utf8(b) =~= encode_utf8(b));
    } else {
        assert((a + b).drop_first() =~= a.drop_first() + b);
        lemma_encode_add(a.drop_first(), b);
        assert(encode_utf8(a + b) =~= encode_utf8(a) + encode_utf8(b));
    }
}

/// How many bytes a character takes in UTF-8.
pub fn char_width(c: char) -> (r: usize)
    ensures
        r == byte_len(seq![c]),
        1 <= r <= 4,
{
    let u: u32 = c as u32;
    proof {
        reveal_with_fuel(encode_utf8, 2);
        assert(seq![c].drop_first() =~= Seq::<char>::empty());
    }
    if u <= 0x7f {
        1
    } else if u <= 0x7ff {
        2
    } else if u <= 0xffff {
        3
    } else {
        4
    }
}

/// The part of a text between two byte offsets: what they enclose where both
/// stand between characters, else `None`.
pub open spec fn byte_slice(s: Seq<char>, start: int, end: int) -> Option<Seq<char>> {
    let bytes = encode_utf8(s);
    if 0 <= start <= end <= bytes.len() && is_char_boundary(bytes, start) && is_char_boundary(
        bytes,
        end,
    ) {
        Some(decode_utf8(bytes.subrange(start, end)))
    } else {
        None
    }
}

/// The part of a string between two byte offsets, `None` where one of them is
/// out of the string or inside a character.
pub fn slice_bytes(s: &str, start: usize, end: usize) -> (r: Option<&str>)
    ensures
        match r {
            Some(t) => byte_slice(s@, start as int, end as int) == Some(t@),
            None => byte_slice(s@, start as int, end as int) is None,
        },
{
    let len: usize = s.as_bytes().len();
    let ghost bytes = encode_utf8(s@);
    proof {
        encode_utf8_valid_utf8(s@);
    }
    if start > end || end > len || !s.is_char_boundary(start) || !s.is_char_boundary(end) {
        return None;
    }
    let (_, tail) = s.split_at(start);
    proof {
        encode_utf8_valid_utf8(tail@);
        let tb = encode_utf8(tail@);
        assert(tb =~= bytes.subrange(start as int, bytes.len() as int));
        if end < len {
            is_char_boundary_iff_not_is_continuation_byte(bytes, end as int);
            assert(tb[end - start] == bytes[end as int]);
            is_char_boundary_iff_not_is_continuation_byte(tb, end - start);
        } else {
            is_char_boundary_start_end_of_seq(tb);
        }
    }
    let (mid, _) = tail.split_at(end - start);
    proof {
        assert(encode_utf8(mid@) =~= bytes.subrange(start as int, end as int));
        encode_utf8_decode_utf8(mid@);
    }
    Some(mid)
}

// ---------------------------------------------------------------------------
// Case
// ---------------------------------------------------------------------------
/// A character in lower case, where it is an ASCII letter.
pub open spec fn ascii_lower(c: char) -> char {
    if 'A' <= c <= 'Z' {
        (c as nat + 32) as char
    } else {
        c
    }
}

/// A text with its ASCII letters in lower case.
pub open spec fn lowered(s: Seq<char>) -> Seq<char> {
    s.map(|i: int, c: char| ascii_lower(c))
}

/// A character in lower case, where it is an ASCII letter.
pub fn lower_char(c: char) -> (r: char)
    ensures
        r == ascii_lower(c),
{
    if 'A' <= c && c <= 'Z' {
        ((c as u8) + 32u8) as char
    } else {
        c
    }
}

/// A text with its ASCII letters in lower case.
pub fn lower_chars(s: &[char]) -> (r: Vec<char>)
    ensures
        r@ == lowered(s@),
{
    let mut v: Vec<char> = Vec::new();
    let mut i: usize = 0;
    while i < s.len()
        invariant
            i <= s@.len(),
            v@ == lowered(s@).take(i as int),
        decreases s.len() - i,
    {
        v.push(lower_char(s[i]));
        i += 1;
        assert(v@ =~= lowered(s@).take(i as int));
    }
    assert(lowered(s@).take(i as int) =~= lowered(s@));
    v
}

/// The characters of a string slice that may be missing.
pub open spec fn view_of(s: Option<&str>) -> Option<Seq<char>> {
    match s {
        Some(t) => Some(t@),
        None => None,
    }
}

/// The characters of a string that may be missing.
pub open spec fn text_of(s: Option<String>) -> Option<Seq<char>> {
    match s {
        Some(t) => Some(t@),
        None => None,
    }
}

// ---------------------------------------------------------------------------
// Laws
// ---------------------------------------------------------------------------
/// Whether `t` is what stands in `s` from one place up to another, with nothing but
/// white space before and after.
pub open spec fn is_cut_out(t: Seq<char>, s: Seq<char>, i: int, j: int) -> bool {
    &&& 0 <= i <= j <= s.len()
    &&& t == s.subrange(i, j)
    &&& forall|k: int| 0 <= k < i ==> is_white_space(#[trigger] s[k])
    &&& forall|k: int| j <= k < s.len() ==> is_white_space(#[trigger] s[k])
}

proof fn lemma_cut_out_after(s: Seq<char>, t: Seq<char>, i: int, j: int)
    requires
        s.len() > 0,
        is_white_space(s[0]),
        is_cut_out(t, s.skip(1), i, j),
    ensures
        is_cut_out(t, s, i + 1, j + 1),
{
    let rest = s.skip(1);
    assert(s.subrange(i + 1, j + 1) =~= rest.subrange(i, j));
    assert forall|k: int| 0 <= k < i + 1 implies is_white_space(#[trigger] s[k]) by {
        if k > 0 {
            assert(s[k] == rest[k - 1]);
        }
    }
    assert forall|k: int| j + 1 <= k < s.len() implies is_white_space(#[trigger] s[k]) by {
        assert(s[k] == rest[k - 1]);
    }
}

proof fn lemma_cut_out_before(s: Seq<char>, t: Seq<char>, i: int, j: int)
    requires
        s.len() > 0,
        is_white_space(s.last()),
        is_cut_out(t, s.drop_last(), i, j),
    ensures
        is_cut_out(t, s, i, j),
{
    let rest = s.drop_last();
    assert(s.subrange(i, j) =~= rest.subrange(i, j));
    assert forall|k: int| 0 <= k < i implies is_white_space(#[trigger] s[k]) by {
        assert(s[k] == rest[k]);
    }
    assert forall|k: int| j <= k < s.len() implies is_white_space(#[trigger] s[k]) by {
        if k < rest.len() {
            assert(s[k] == rest[k]);
        }
    }
}

proof fn lemma_trimmed_at(s: Seq<char>) -> (r: (int, int))
    ensures
        is_cut_out(trimmed(s), s, r.0, r.1),
    decreases s.len(),
{
    let t = trimmed(s);
    if s.len() == 0 {
        assert(t =~= s.subrange(0, 0));
        (0, 0)
    } else if is_white_space(s[0]) {
        let (i, j) = lemma_trimmed_at(s.skip(1));
        lemma_cut_out_after(s, t, i, j);
        (i + 1, j + 1)
    } else if is_white_space(s.last()) {
        let (i, j) = lemma_trimmed_at(s.drop_last());
        lemma_cut_out_before(s, t, i, j);
        (i, j)
    } else {
        assert(t =~= s.subrange(0, s.len() as int));
        (0, s.len() as int)
    }
}

proof fn lemma_trimmed_ends(s: Seq<char>)
    ensures
        trimmed(s).len() > 0 ==> !is_white_space(trimmed(s)[0]) && !is_white_space(
            trimmed(s).last(),
        ),
    decreases s.len(),
{
    if s.len() > 0 {
        if is_white_space(s[0]) {
            lemma_trimmed_ends(s.skip(1));
        } else if is_white_space(s.last()) {
            lemma_trimmed_ends(s.drop_last());
        }
    }
}

/// Trimming takes white space from both ends, all of it and nothing else.
pub proof fn trimming_takes_white_space_from_the_ends(s: Seq<char>)
    ensures
        exists|i: int, j: int| #[trigger] is_cut_out(trimmed(s), s, i, j),
        trimmed(s).len() > 0 ==> !is_white_space(trimmed(s)[0]) && !is_white_space(
            trimmed(s).last(),
        ),
{
    let (i, j) = lemma_trimmed_at(s);
    lemma_trimmed_ends(s);
}

proof fn lemma_decimal_reads_back(n: nat)
    ensures
        is_number(decimal(n)),
        digits_value(decimal(n)) == n,
        n >= 10 ==> decimal(n)[0] != '0',
        n > 0 ==> decimal(n)[0] != '0',
        n < 10 ==> decimal(n).len() == 1,
    decreases n,
{
    reveal_with_fuel(digits_value, 2);
    let all = decimal(n);
    if n < 10 {
        assert(all.drop_last() =~= Seq::<char>::empty());
    } else {
        lemma_decimal_reads_back(n / 10);
        let front = decimal(n / 10);
        let d = ('0' as nat + n % 10) as char;
        assert(all == front.push(d));
        assert(all.drop_last() =~= front);
        assert(is_digit(d));
        assert forall|i: int| 0 <= i < all.len() implies is_digit(#[trigger] all[i]) by {
            if i < front.len() {
                assert(all[i] == front[i]);
            }
        }
        assert(all[0] == front[0]);
    }
}

/// A number written in decimal reads back as itself, and is written without leading
/// zeros.
pub proof fn a_written_number_reads_back(i: int, min: int, max: int)
    requires
        min <= i <= max,
        min < 0,
    ensures
        parsed_int(int_text(i), min, max) == Some(i),
        i > 0 ==> int_text(i)[0] != '0',
        i == 0 ==> int_text(i) == seq!['0'],
        i < 0 ==> int_text(i)[0] == '-' && int_text(i)[1] != '0',
{
    let n = if i < 0 {
        (-i) as nat
    } else {
        i as nat
    };
    lemma_decimal_reads_back(n);
    let t = int_text(i);
    let d = decimal(n);
    assert(is_digit(d[0]));
    if i < 0 {
        assert(t.skip(1) =~= d);
        assert(t[1] == d[0]);
    }
}

/// Lower case changes the ASCII capitals and nothing else, each to its small letter.
pub proof fn lower_case_changes_capitals_only(s: Seq<char>, i: int)
    requires
        0 <= i < s.len(),
    ensures
        lowered(s).len() == s.len(),
        !('A' <= s[i] <= 'Z') ==> lowered(s)[i] == s[i],
        'A' <= s[i] <= 'Z' ==> 'a' <= lowered(s)[i] <= 'z' && lowered(s)[i] as int - 'a' as int
            == s[i] as int - 'A' as int,
        lowered(lowered(s)) == lowered(s),
{
    assert(lowered(lowered(s)) =~= lowered(s));
}

} // verus!
