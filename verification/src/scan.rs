//! Scanning text: finding, splitting and testing runs of characters.
use vstd::prelude::*;
use crate::text::{chars_eq, sub_chars};

verus! {

/// Where something first occurs in a sequence.
pub open spec fn first_index<A>(s: Seq<A>, x: A) -> Option<nat>
    decreases s.len(),
{
    if s.len() == 0 {
        None
    } else if s[0] == x {
        Some(0nat)
    } else {
        match first_index(s.skip(1), x) {
            Some(k) => Some(k + 1),
            None => None,
        }
    }
}

/// What occurs, occurs within the sequence, and not before its place.
pub proof fn lemma_first_index_fits<A>(s: Seq<A>, x: A)
    ensures
        match first_index(s, x) {
            Some(k) => {
                &&& k < s.len()
                &&& s[k as int] == x
                &&& forall|j: int| 0 <= j < k ==> #[trigger] s[j] != x
            },
            None => !s.contains(x),
        },
    decreases s.len(),
{
    if s.len() > 0 && s[0] != x {
        let rest = s.skip(1);
        lemma_first_index_fits(rest, x);
        match first_index(rest, x) {
            Some(k) => {
                assert forall|j: int| 0 <= j < k + 1 implies #[trigger] s[j] != x by {
                    if j > 0 {
                        assert(rest[j - 1] == s[j]);
                    }
                }
            },
            None => {
                if s.contains(x) {
                    let j = choose|j: int| 0 <= j < s.len() && s[j] == x;
                    assert(rest[j - 1] == x);
                }
            },
        }
    }
}

/// Where a character first occurs in a text from `from` on.
pub fn find_char(s: &[char], from: usize, c: char) -> (r: Option<usize>)
    requires
        from <= s@.len(),
    ensures
        match r {
            Some(i) => from <= i < s@.len() && s@[i as int] == c && first_index(
                s@.skip(from as int),
                c,
            ) == Some((i - from) as nat),
            None => first_index(s@.skip(from as int), c) is None,
        },
{
    let mut i: usize = from;
    while i < s.len()
        invariant
            from <= i <= s@.len(),
            first_index(s@.skip(from as int), c) == (match first_index(s@.skip(i as int), c) {
                Some(k) => Some((k + (i - from)) as nat),
                None => None,
            }),
        decreases s.len() - i,
    {
        if s[i] == c {
            return Some(i);
        }
        assert(s@.skip(i as int).skip(1) =~= s@.skip(i + 1));
        i += 1;
    }
    None
}

/// The parts of a text between the occurrences of a character.
pub open spec fn split(s: Seq<char>, c: char) -> Seq<Seq<char>>
    decreases s.len(),
{
    match first_index(s, c) {
        None => seq![s],
        Some(k) => {
            proof {
                lemma_first_index_fits(s, c);
            }
            seq![s.take(k as int)] + split(s.skip((k + 1) as int), c)
        },
    }
}

/// The views of some texts.
pub open spec fn views(v: Seq<Vec<char>>) -> Seq<Seq<char>> {
    v.map(|i: int, t: Vec<char>| t@)
}

/// The parts of a text between the occurrences of a character.
pub fn split_chars(s: &[char], c: char) -> (r: Vec<Vec<char>>)
    ensures
        views(r@) == split(s@, c),
{
    let mut out: Vec<Vec<char>> = Vec::new();
    let mut from: usize = 0;
    let count: usize = s.len();
    assert(s@.skip(0) =~= s@);
    assert(views(out@) + split(s@.skip(0), c) =~= split(s@, c));
    let mut more = true;
    while more
        invariant
            from <= s@.len(),
            count == s@.len(),
            more ==> views(out@) + split(s@.skip(from as int), c) == split(s@, c),
            !more ==> views(out@) == split(s@, c),
        decreases s@.len() - from + if more { 1int } else { 0int },
    {
        let ghost before = out@;
        let ghost rest = s@.skip(from as int);
        match find_char(s, from, c) {
            Some(i) => {
                let part = sub_chars(s, from, i);
                assert(part@ =~= rest.take(i - from));
                out.push(part);
                assert(rest.skip(i - from + 1) =~= s@.skip(i + 1));
                assert(views(out@) =~= views(before).push(part@));
                assert(views(out@) + split(s@.skip(i + 1), c) =~= views(before) + split(rest, c));
                from = i + 1;
            },
            None => {
                let part = sub_chars(s, from, s.len());
                assert(part@ =~= rest);
                out.push(part);
                assert(views(out@) =~= views(before).push(part@));
                assert(views(out@) =~= views(before) + split(rest, c));
                more = false;
            },
        }
    }
    out
}

/// Whether `part` occurs in `s`.
pub open spec fn has_part(s: Seq<char>, part: Seq<char>) -> bool {
    exists|i: int|
        0 <= i && i + part.len() <= s.len() && #[trigger] s.subrange(i, i + part.len()) == part
}

/// Whether `part` occurs in `s`.
pub fn contains_part(s: &[char], part: &[char]) -> (r: bool)
    ensures
        r == has_part(s@, part@),
{
    let n: usize = part.len();
    let mut i: usize = 0;
    while i <= s.len() && n <= s.len() - i
        invariant
            n == part@.len(),
            i <= s@.len() + 1,
            forall|j: int|
                0 <= j < i && j + n <= s@.len() ==> #[trigger] s@.subrange(j, j + n) != part@,
        decreases s@.len() + 1 - i,
    {
        let window = sub_chars(s, i, i + n);
        if chars_eq(window.as_slice(), part) {
            assert(s@.subrange(i as int, i + n) == part@);
            return true;
        }
        if i == s.len() {
            assert(n == 0);
            assert(window@ =~= part@);
            return true;
        }
        i += 1;
    }
    false
}

/// Whether a character is ASCII white space.
pub open spec fn is_ascii_space(c: char) -> bool {
    c == ' ' || c == '\t' || c == '\n' || c == '\u{c}' || c == '\r'
}

/// Whether a character is ASCII white space.
pub fn ascii_space(c: char) -> (r: bool)
    ensures
        r == is_ascii_space(c),
{
    c == ' ' || c == '\t' || c == '\n' || c == '\u{c}' || c == '\r'
}

/// The length of the run of characters at the start of a text that are not
/// ASCII white space.
pub open spec fn word_len(s: Seq<char>) -> nat
    decreases s.len(),
{
    if s.len() == 0 || is_ascii_space(s[0]) {
        0
    } else {
        1 + word_len(s.skip(1))
    }
}

/// A word is part of the text it begins.
pub proof fn lemma_word_len_fits(s: Seq<char>)
    ensures
        word_len(s) <= s.len(),
    decreases s.len(),
{
    if s.len() > 0 && !is_ascii_space(s[0]) {
        lemma_word_len_fits(s.skip(1));
    }
}

/// The words of a text: its runs of characters that are not ASCII white space.
pub open spec fn words(s: Seq<char>) -> Seq<Seq<char>>
    decreases s.len(),
{
    if s.len() == 0 {
        Seq::empty()
    } else if is_ascii_space(s[0]) {
        words(s.skip(1))
    } else {
        proof {
            lemma_word_len_fits(s.skip(1));
        }
        let n = word_len(s.skip(1)) + 1;
        seq![s.take(n as int)] + words(s.skip(n as int))
    }
}

/// The words of a text.
pub fn split_words(s: &[char]) -> (r: Vec<Vec<char>>)
    ensures
        views(r@) == words(s@),
{
    let mut out: Vec<Vec<char>> = Vec::new();
    let mut from: usize = 0;
    assert(s@.skip(0) =~= s@);
    assert(views(out@) + words(s@.skip(0)) =~= words(s@));
    while from < s.len()
        invariant
            from <= s@.len(),
            views(out@) + words(s@.skip(from as int)) == words(s@),
        decreases s@.len() - from,
    {
        let ghost rest = s@.skip(from as int);
        if ascii_space(s[from]) {
            assert(rest.skip(1) =~= s@.skip(from + 1));
            from += 1;
        } else {
            let mut end: usize = from + 1;
            assert(rest.skip(1) =~= s@.skip(from + 1));
            while end < s.len() && !ascii_space(s[end])
                invariant
                    from < end <= s@.len(),
                    word_len(s@.skip(from + 1)) == (end - from - 1) + word_len(
                        s@.skip(end as int),
                    ),
                decreases s@.len() - end,
            {
                assert(s@.skip(end as int).skip(1) =~= s@.skip(end + 1));
                end += 1;
            }
            let part = sub_chars(s, from, end);
            let ghost before = out@;
            assert(part@ =~= rest.take(end - from));
            assert(rest.skip(end - from) =~= s@.skip(end as int));
            out.push(part);
            assert(views(out@) =~= views(before).push(part@));
            assert(views(out@) + words(s@.skip(end as int)) =~= views(before) + words(rest));
            from = end;
        }
    }
    assert(views(out@) =~= views(out@) + words(s@.skip(from as int)));
    out
}

/// Whether a word is among some texts.
pub fn has_word(list: &Vec<Vec<char>>, word: &[char]) -> (r: bool)
    ensures
        r == views(list@).contains(word@),
{
    let mut i: usize = 0;
    while i < list.len()
        invariant
            i <= list@.len(),
            forall|k: int| 0 <= k < i ==> (#[trigger] list@[k])@ != word@,
        decreases list.len() - i,
    {
        if chars_eq(list[i].as_slice(), word) {
            assert(views(list@)[i as int] == word@);
            return true;
        }
        i += 1;
    }
    proof {
        if views(list@).contains(word@) {
            let k = choose|k: int| 0 <= k < views(list@).len() && views(list@)[k] == word@;
            assert(list@[k]@ == word@);
        }
    }
    false
}

/// Where a part first occurs in a text.
pub open spec fn part_index(s: Seq<char>, part: Seq<char>) -> Option<nat>
    decreases s.len(),
{
    if s.len() < part.len() {
        None
    } else if s.take(part.len() as int) == part {
        Some(0nat)
    } else if s.len() == 0 {
        None
    } else {
        match part_index(s.skip(1), part) {
            Some(k) => Some(k + 1),
            None => None,
        }
    }
}

/// A part that occurs, occurs within the text.
pub proof fn lemma_part_index_fits(s: Seq<char>, part: Seq<char>)
    ensures
        part_index(s, part) matches Some(k) ==> k + part.len() <= s.len(),
    decreases s.len(),
{
    if s.len() >= part.len() && s.take(part.len() as int) != part && s.len() > 0 {
        lemma_part_index_fits(s.skip(1), part);
    }
}

/// Where a part first occurs in a text from `from` on.
pub fn find_part(s: &[char], from: usize, part: &[char]) -> (r: Option<usize>)
    requires
        from <= s@.len(),
        part@.len() > 0,
    ensures
        match r {
            Some(i) => from <= i && i + part@.len() <= s@.len() && part_index(
                s@.skip(from as int),
                part@,
            ) == Some((i - from) as nat),
            None => part_index(s@.skip(from as int), part@) is None,
        },
{
    let n: usize = part.len();
    let mut i: usize = from;
    while i < s.len() && n <= s.len() - i
        invariant
            n == part@.len(),
            n > 0,
            from <= i <= s@.len(),
            part_index(s@.skip(from as int), part@) == (match part_index(
                s@.skip(i as int),
                part@,
            ) {
                Some(k) => Some((k + (i - from)) as nat),
                None => None,
            }),
        decreases s.len() - i,
    {
        let window = sub_chars(s, i, i + n);
        assert(window@ =~= s@.skip(i as int).take(n as int));
        if chars_eq(window.as_slice(), part) {
            return Some(i);
        }
        assert(s@.skip(i as int).skip(1) =~= s@.skip(i + 1));
        i += 1;
    }
    None
}

/// Whether a text begins with another.
pub open spec fn begins_with(s: Seq<char>, head: Seq<char>) -> bool {
    head.len() <= s.len() && s.take(head.len() as int) == head
}

/// Whether a text begins with another.
pub fn starts_with(s: &[char], head: &[char]) -> (r: bool)
    ensures
        r == begins_with(s@, head@),
{
    if head.len() > s.len() {
        return false;
    }
    let front = sub_chars(s, 0, head.len());
    assert(front@ =~= s@.take(head@.len() as int));
    chars_eq(front.as_slice(), head)
}

// ---------------------------------------------------------------------------
// Laws
// ---------------------------------------------------------------------------
/// Whether what stands in a text from one place up to another is a word: it is not
/// empty, holds no white space, and has white space or an end on each side.
pub open spec fn is_word_at(s: Seq<char>, i: int, j: int) -> bool {
    &&& 0 <= i < j <= s.len()
    &&& forall|k: int| i <= k < j ==> !is_ascii_space(#[trigger] s[k])
    &&& i == 0 || is_ascii_space(s[i - 1])
    &&& j == s.len() || is_ascii_space(s[j])
}

/// Whether a text holds a word.
pub open spec fn holds_word(s: Seq<char>, word: Seq<char>) -> bool {
    exists|i: int, j: int| #[trigger] is_word_at(s, i, j) && s.subrange(i, j) == word
}

proof fn lemma_word_runs(s: Seq<char>)
    ensures
        word_len(s) <= s.len(),
        forall|k: int| 0 <= k < word_len(s) ==> !is_ascii_space(#[trigger] s[k]),
        word_len(s) < s.len() ==> is_ascii_space(s[word_len(s) as int]),
    decreases s.len(),
{
    if s.len() > 0 && !is_ascii_space(s[0]) {
        let rest = s.skip(1);
        lemma_word_runs(rest);
        assert forall|k: int| 0 <= k < word_len(s) implies !is_ascii_space(#[trigger] s[k]) by {
            if k > 0 {
                assert(s[k] == rest[k - 1]);
            }
        }
        if word_len(s) < s.len() {
            assert(s[word_len(s) as int] == rest[word_len(rest) as int]);
        }
    }
}

/// The words of a text are what stands between white space: each of them does, and
/// whatever does is one.
pub proof fn words_stand_between_white_space(s: Seq<char>)
    ensures
        forall|w: int| 0 <= w < words(s).len() ==> holds_word(s, #[trigger] words(s)[w]),
        forall|i: int, j: int| #[trigger]
            is_word_at(s, i, j) ==> words(s).contains(s.subrange(i, j)),
    decreases s.len(),
{
    let all = words(s);
    if s.len() > 0 {
        let n = if is_ascii_space(s[0]) {
            1
        } else {
            word_len(s)
        };
        lemma_word_runs(s);
        let rest = s.skip(n as int);
        words_stand_between_white_space(rest);
        let more = words(rest);
        let first = s.take(n as int);
        assert(all =~= if is_ascii_space(s[0]) {
            more
        } else {
            seq![first] + more
        });
        assert forall|w: int| 0 <= w < all.len() implies holds_word(s, #[trigger] all[w]) by {
            let v = if is_ascii_space(s[0]) {
                w
            } else {
                w - 1
            };
            if v < 0 {
                assert(is_word_at(s, 0, n as int));
                assert(s.subrange(0, n as int) =~= all[w]);
            } else {
                assert(all[w] == more[v]);
                let (i, j) = choose|i: int, j: int| #[trigger]
                    is_word_at(rest, i, j) && rest.subrange(i, j) == more[v];
                lemma_word_shifts(s, n as int, i, j);
            }
        }
        assert forall|i: int, j: int| #[trigger] is_word_at(s, i, j) implies all.contains(
            s.subrange(i, j),
        ) by {
            if i >= n {
                assert(is_word_at(rest, i - n, j - n)) by {
                    assert forall|k: int| i - n <= k < j - n implies !is_ascii_space(
                        #[trigger] rest[k],
                    ) by {
                        assert(rest[k] == s[k + n]);
                    }
                }
                assert(rest.subrange(i - n, j - n) =~= s.subrange(i, j));
                let v = more.index_of(s.subrange(i, j));
                if is_ascii_space(s[0]) {
                    assert(all[v] == s.subrange(i, j));
                } else {
                    assert(all[v + 1] == s.subrange(i, j));
                }
            } else {
                assert(!is_ascii_space(s[i]));
                if i > 0 {
                    assert(is_ascii_space(s[i - 1]));
                }
                assert(i == 0);
                if j < n {
                    assert(is_ascii_space(s[j]));
                }
                if j > n {
                    assert(!is_ascii_space(s[n as int]));
                }
                assert(s.subrange(i, j) =~= first);
                assert(all[0] == first);
            }
        }
    }
}

proof fn lemma_word_shifts(s: Seq<char>, n: int, i: int, j: int)
    requires
        0 < n <= s.len(),
        is_word_at(s.skip(n), i, j),
        n == s.len() || is_ascii_space(s[n]) || is_ascii_space(s[n - 1]),
    ensures
        is_word_at(s, i + n, j + n),
        s.subrange(i + n, j + n) == s.skip(n).subrange(i, j),
{
    let rest = s.skip(n);
    assert(s.subrange(i + n, j + n) =~= rest.subrange(i, j));
    assert forall|k: int| i + n <= k < j + n implies !is_ascii_space(#[trigger] s[k]) by {
        assert(s[k] == rest[k - n]);
    }
    assert(!is_ascii_space(s[i + n]));
    if i > 0 {
        assert(s[i + n - 1] == rest[i - 1]);
    }
    if j < rest.len() {
        assert(s[j + n] == rest[j]);
    }
}

/// The parts of a text between the occurrences of a character hold none of it, and
/// with one between each two of them they are the text.
pub proof fn the_parts_of_a_text_make_it_up(s: Seq<char>, c: char)
    ensures
        split(s, c).len() > 0,
        forall|i: int| 0 <= i < split(s, c).len() ==> !(#[trigger] split(s, c)[i]).contains(c),
        split(s, c).map_values(|p: Seq<char>| seq![c] + p).flatten() == seq![c] + s,
    decreases s.len(),
{
    let f = |p: Seq<char>| seq![c] + p;
    let all = split(s, c);
    lemma_first_index_fits(s, c);
    match first_index(s, c) {
        None => {
            assert(all =~= seq![s]);
            assert(all.map_values(f) =~= seq![seq![c] + s]);
            all.map_values(f).lemma_flatten_one_element();
        },
        Some(k) => {
            let head = s.take(k as int);
            let rest = s.skip((k + 1) as int);
            the_parts_of_a_text_make_it_up(rest, c);
            let more = split(rest, c);
            assert(all =~= seq![head] + more);
            assert forall|i: int| 0 <= i < all.len() implies !(#[trigger] all[i]).contains(c) by {
                if i == 0 {
                    if head.contains(c) {
                        let j = head.index_of(c);
                        assert(s[j] == c);
                    }
                } else {
                    assert(all[i] == more[i - 1]);
                }
            }
            assert(all.map_values(f).first() == seq![c] + head);
            assert(all.map_values(f).drop_first() =~= more.map_values(f));
            assert((seq![c] + head) + (seq![c] + rest) =~= seq![c] + s);
        },
    }
}

/// A part is found where it first occurs in a text, and not at all where it does not
/// occur.
pub proof fn a_part_is_found_where_it_first_occurs(s: Seq<char>, part: Seq<char>)
    ensures
        match part_index(s, part) {
            Some(c) => {
                &&& c + part.len() <= s.len()
                &&& s.subrange(c as int, c as int + part.len()) == part
                &&& forall|k: int|
                    0 <= k < c && k + part.len() <= s.len() ==> #[trigger] s.subrange(
                        k,
                        k + part.len(),
                    ) != part
            },
            None => forall|k: int|
                0 <= k && k + part.len() <= s.len() ==> #[trigger] s.subrange(k, k + part.len())
                    != part,
        },
    decreases s.len(),
{
    let n = part.len() as int;
    if s.len() >= n {
        assert(s.subrange(0, n) =~= s.take(n));
        if s.take(n) != part && s.len() > 0 {
            let rest = s.skip(1);
            a_part_is_found_where_it_first_occurs(rest, part);
            assert forall|k: int| 0 < k && k + n <= s.len() implies (#[trigger] s.subrange(k, k + n))
                == rest.subrange(k - 1, k - 1 + n) by {
                assert(s.subrange(k, k + n) =~= rest.subrange(k - 1, k - 1 + n));
            }
            if let Some(c) = part_index(rest, part) {
                assert(s.subrange(c as int + 1, c as int + 1 + n) == rest.subrange(c as int, c + n));
            }
        }
    }
}

/// What is white space in an attribute is a space, a tab, a line feed, a form feed
/// or a carriage return, and nothing else.
pub proof fn white_space_is_one_of_five(c: char)
    ensures
        is_ascii_space(c) <==> c as u32 == 0x20 || c as u32 == 0x9 || c as u32 == 0xa || c as u32
            == 0xc || c as u32 == 0xd,
{
}

/// A text begins with another where it has each of its characters at its place.
pub proof fn a_text_begins_with_its_head(s: Seq<char>, head: Seq<char>)
    ensures
        begins_with(s, head) <==> head.len() <= s.len() && forall|i: int|
            0 <= i < head.len() ==> #[trigger] s[i] == head[i],
        begins_with(head + s, head),
{
    assert((head + s).take(head.len() as int) =~= head);
    if begins_with(s, head) {
        assert forall|i: int| 0 <= i < head.len() implies #[trigger] s[i] == head[i] by {
            assert(s.take(head.len() as int)[i] == s[i]);
        }
    }
    if head.len() <= s.len() && forall|i: int| 0 <= i < head.len() ==> #[trigger] s[i] == head[i] {
        assert(s.take(head.len() as int) =~= head);
    }
}

} // verus!
