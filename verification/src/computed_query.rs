//! The answer to a query for one computed value of an element, as CSS text.
use vstd::prelude::*;
use vstd::string::*;
use crate::dom::NodeId;
use crate::scan;
use crate::style_plane::StylePlane;
use crate::text;
use crate::text::str_eq;

verus! {

/// The longhands that a query answers, in the order in which a style keeps their
/// texts.
pub open spec fn longhands() -> Seq<Seq<char>> {
    seq![
        "color"@,
        "background-color"@,
        "display"@,
        "visibility"@,
        "opacity"@,
        "position"@,
        "left"@,
        "right"@,
        "top"@,
        "bottom"@,
        "transform"@,
        "overflow-x"@,
        "overflow-y"@,
        "font-size"@,
        "font-family"@,
        "font-weight"@,
        "font-style"@,
        "line-height"@,
        "text-align"@,
        "white-space-collapse"@,
        "width"@,
        "height"@,
        "margin-top"@,
        "margin-right"@,
        "margin-bottom"@,
        "margin-left"@,
        "padding-top"@,
        "padding-right"@,
        "padding-bottom"@,
        "padding-left"@,
    ]
}

/// The texts of some names.
pub open spec fn names(v: Seq<&'static str>) -> Seq<Seq<char>> {
    v.map(|i: int, s: &'static str| s@)
}

/// The longhands that a query answers.
pub fn longhand_names() -> (r: Vec<&'static str>)
    ensures
        names(r@) == longhands(),
{
    let r: Vec<&'static str> = vec![
        "color",
        "background-color",
        "display",
        "visibility",
        "opacity",
        "position",
        "left",
        "right",
        "top",
        "bottom",
        "transform",
        "overflow-x",
        "overflow-y",
        "font-size",
        "font-family",
        "font-weight",
        "font-style",
        "line-height",
        "text-align",
        "white-space-collapse",
        "width",
        "height",
        "margin-top",
        "margin-right",
        "margin-bottom",
        "margin-left",
        "padding-top",
        "padding-right",
        "padding-bottom",
        "padding-left",
    ];
    assert(names(r@) =~= longhands());
    r
}

/// The computed value of a property: the text that the element's style keeps for
/// it. `None` where the element was not styled, and for a property that is not
/// answered.
pub open spec fn computed_value(styles: &StylePlane, node: NodeId, property: Seq<char>) -> Option<
    Seq<char>,
> {
    match (styles.primary_at(node), scan::first_index(longhands(), property)) {
        (Some(s), Some(i)) => Some(s.longhands@[i as int]@),
        _ => None,
    }
}

fn find_name(list: &Vec<&'static str>, property: &str) -> (r: Option<usize>)
    ensures
        scan::first_index(names(list@), property@) == (match r {
            Some(i) => Some(i as nat),
            None => None,
        }),
        r matches Some(i) ==> i < list@.len(),
{
    let mut i: usize = 0;
    let ghost all = names(list@);
    assert(all.skip(0) =~= all);
    while i < list.len()
        invariant
            i <= list@.len(),
            all == names(list@),
            scan::first_index(all, property@) == (match scan::first_index(all.skip(i as int), property@) {
                Some(k) => Some(k + i as nat),
                None => None,
            }),
        decreases list.len() - i,
    {
        assert(all.skip(i as int)[0] == list@[i as int]@);
        if str_eq(list[i], property) {
            return Some(i);
        }
        assert(all.skip(i as int).skip(1) =~= all.skip(i + 1));
        i += 1;
    }
    assert(all.skip(i as int).len() == 0);
    None
}

/// The computed value of a property of an element, as CSS text.
pub fn computed_value_string(styles: &StylePlane, node: NodeId, property: &str) -> (r: Option<
    String,
>)
    ensures
        text::text_of(r) == computed_value(styles, node, property@),
        r is Some <==> styles.primary_at(node) is Some && longhands().contains(property@),
{
    let style = match styles.primary(node) {
        Some(s) => s,
        None => return None,
    };
    let list = longhand_names();
    proof {
        scan::lemma_first_index_fits(longhands(), property@);
    }
    match find_name(&list, property) {
        Some(i) => Some(style.longhands[i].as_str().to_owned()),
        None => None,
    }
}

/// Whether a style keeps the text of a property at a place, by what a query
/// answers.
pub open spec fn is_kept_at(
    styles: &StylePlane,
    node: NodeId,
    property: Seq<char>,
    i: int,
) -> bool {
    match styles.primary_at(node) {
        Some(s) => computed_value(styles, node, property) == Some(s.longhands@[i]@),
        None => computed_value(styles, node, property) is None,
    }
}

/// A query of a property answers with the text that the style keeps for it, and of
/// no other property.
pub proof fn a_query_answers_with_the_text_of_its_property(styles: &StylePlane, node: NodeId)
    ensures
        is_kept_at(styles, node, "color"@, 0),
        is_kept_at(styles, node, "background-color"@, 1),
        is_kept_at(styles, node, "display"@, 2),
        is_kept_at(styles, node, "visibility"@, 3),
        is_kept_at(styles, node, "opacity"@, 4),
        is_kept_at(styles, node, "position"@, 5),
        is_kept_at(styles, node, "left"@, 6),
        is_kept_at(styles, node, "right"@, 7),
        is_kept_at(styles, node, "top"@, 8),
        is_kept_at(styles, node, "bottom"@, 9),
        is_kept_at(styles, node, "transform"@, 10),
        is_kept_at(styles, node, "overflow-x"@, 11),
        is_kept_at(styles, node, "overflow-y"@, 12),
        is_kept_at(styles, node, "font-size"@, 13),
        is_kept_at(styles, node, "font-family"@, 14),
        is_kept_at(styles, node, "font-weight"@, 15),
        is_kept_at(styles, node, "font-style"@, 16),
        is_kept_at(styles, node, "line-height"@, 17),
        is_kept_at(styles, node, "text-align"@, 18),
        is_kept_at(styles, node, "white-space-collapse"@, 19),
        is_kept_at(styles, node, "width"@, 20),
        is_kept_at(styles, node, "height"@, 21),
        is_kept_at(styles, node, "margin-top"@, 22),
        is_kept_at(styles, node, "margin-right"@, 23),
        is_kept_at(styles, node, "margin-bottom"@, 24),
        is_kept_at(styles, node, "margin-left"@, 25),
        is_kept_at(styles, node, "padding-top"@, 26),
        is_kept_at(styles, node, "padding-right"@, 27),
        is_kept_at(styles, node, "padding-bottom"@, 28),
        is_kept_at(styles, node, "padding-left"@, 29),
{
    lemma_longhands_differ();
    lemma_kept_at(styles, node, 0);
    lemma_kept_at(styles, node, 1);
    lemma_kept_at(styles, node, 2);
    lemma_kept_at(styles, node, 3);
    lemma_kept_at(styles, node, 4);
    lemma_kept_at(styles, node, 5);
    lemma_kept_at(styles, node, 6);
    lemma_kept_at(styles, node, 7);
    lemma_kept_at(styles, node, 8);
    lemma_kept_at(styles, node, 9);
    lemma_kept_at(styles, node, 10);
    lemma_kept_at(styles, node, 11);
    lemma_kept_at(styles, node, 12);
    lemma_kept_at(styles, node, 13);
    lemma_kept_at(styles, node, 14);
    lemma_kept_at(styles, node, 15);
    lemma_kept_at(styles, node, 16);
    lemma_kept_at(styles, node, 17);
    lemma_kept_at(styles, node, 18);
    lemma_kept_at(styles, node, 19);
    lemma_kept_at(styles, node, 20);
    lemma_kept_at(styles, node, 21);
    lemma_kept_at(styles, node, 22);
    lemma_kept_at(styles, node, 23);
    lemma_kept_at(styles, node, 24);
    lemma_kept_at(styles, node, 25);
    lemma_kept_at(styles, node, 26);
    lemma_kept_at(styles, node, 27);
    lemma_kept_at(styles, node, 28);
    lemma_kept_at(styles, node, 29);
}

proof fn lemma_kept_at(styles: &StylePlane, node: NodeId, i: int)
    requires
        longhands().no_duplicates(),
        0 <= i < longhands().len(),
    ensures
        is_kept_at(styles, node, longhands()[i], i),
{
    let l = longhands();
    scan::lemma_first_index_fits(l, l[i]);
    lemma_first_index_found(l, i);
}

proof fn lemma_first_index_found(s: Seq<Seq<char>>, i: int)
    requires
        s.no_duplicates(),
        0 <= i < s.len(),
    ensures
        scan::first_index(s, s[i]) == Some(i as nat),
    decreases i,
{
    if i > 0 {
        assert(s[0] != s[i]);
        assert(s.skip(1)[i - 1] == s[i]);
        assert(s.skip(1).no_duplicates());
        lemma_first_index_found(s.skip(1), i - 1);
    }
}

/// The place of the longhand whose name has a length, a first letter and a last
/// one.
spec fn place(len: nat, a: char, b: char) -> int {
    if len == 5 && a == 'c' && b == 'r' {
        0
    } else if len == 16 && a == 'b' && b == 'r' {
        1
    } else if len == 7 && a == 'd' && b == 'y' {
        2
    } else if len == 10 && a == 'v' && b == 'y' {
        3
    } else if len == 7 && a == 'o' && b == 'y' {
        4
    } else if len == 8 && a == 'p' && b == 'n' {
        5
    } else if len == 4 && a == 'l' && b == 't' {
        6
    } else if len == 5 && a == 'r' && b == 't' {
        7
    } else if len == 3 && a == 't' && b == 'p' {
        8
    } else if len == 6 && a == 'b' && b == 'm' {
        9
    } else if len == 9 && a == 't' && b == 'm' {
        10
    } else if len == 10 && a == 'o' && b == 'x' {
        11
    } else if len == 10 && a == 'o' && b == 'y' {
        12
    } else if len == 9 && a == 'f' && b == 'e' {
        13
    } else if len == 11 && a == 'f' && b == 'y' {
        14
    } else if len == 11 && a == 'f' && b == 't' {
        15
    } else if len == 10 && a == 'f' && b == 'e' {
        16
    } else if len == 11 && a == 'l' && b == 't' {
        17
    } else if len == 10 && a == 't' && b == 'n' {
        18
    } else if len == 20 && a == 'w' && b == 'e' {
        19
    } else if len == 5 && a == 'w' && b == 'h' {
        20
    } else if len == 6 && a == 'h' && b == 't' {
        21
    } else if len == 10 && a == 'm' && b == 'p' {
        22
    } else if len == 12 && a == 'm' && b == 't' {
        23
    } else if len == 13 && a == 'm' && b == 'm' {
        24
    } else if len == 11 && a == 'm' && b == 't' {
        25
    } else if len == 11 && a == 'p' && b == 'p' {
        26
    } else if len == 13 && a == 'p' && b == 't' {
        27
    } else if len == 14 && a == 'p' && b == 'm' {
        28
    } else if len == 12 && a == 'p' && b == 't' {
        29
    } else {
        30
    }
}

/// The place of a longhand by its name.
spec fn place_of(name: Seq<char>) -> int {
    place(name.len(), name[0], name[name.len() - 1])
}

proof fn lemma_longhands_differ()
    ensures
        longhands().no_duplicates(),
{
    reveal_strlit("color");
    reveal_strlit("background-color");
    reveal_strlit("display");
    reveal_strlit("visibility");
    reveal_strlit("opacity");
    reveal_strlit("position");
    reveal_strlit("left");
    reveal_strlit("right");
    reveal_strlit("top");
    reveal_strlit("bottom");
    reveal_strlit("transform");
    reveal_strlit("overflow-x");
    reveal_strlit("overflow-y");
    reveal_strlit("font-size");
    reveal_strlit("font-family");
    reveal_strlit("font-weight");
    reveal_strlit("font-style");
    reveal_strlit("line-height");
    reveal_strlit("text-align");
    reveal_strlit("white-space-collapse");
    reveal_strlit("width");
    reveal_strlit("height");
    reveal_strlit("margin-top");
    reveal_strlit("margin-right");
    reveal_strlit("margin-bottom");
    reveal_strlit("margin-left");
    reveal_strlit("padding-top");
    reveal_strlit("padding-right");
    reveal_strlit("padding-bottom");
    reveal_strlit("padding-left");
    assert(place_of("color"@) == 0);
    assert(place_of("background-color"@) == 1);
    assert(place_of("display"@) == 2);
    assert(place_of("visibility"@) == 3);
    assert(place_of("opacity"@) == 4);
    assert(place_of("position"@) == 5);
    assert(place_of("left"@) == 6);
    assert(place_of("right"@) == 7);
    assert(place_of("top"@) == 8);
    assert(place_of("bottom"@) == 9);
    assert(place_of("transform"@) == 10);
    assert(place_of("overflow-x"@) == 11);
    assert(place_of("overflow-y"@) == 12);
    assert(place_of("font-size"@) == 13);
    assert(place_of("font-family"@) == 14);
    assert(place_of("font-weight"@) == 15);
    assert(place_of("font-style"@) == 16);
    assert(place_of("line-height"@) == 17);
    assert(place_of("text-align"@) == 18);
    assert(place_of("white-space-collapse"@) == 19);
    assert(place_of("width"@) == 20);
    assert(place_of("height"@) == 21);
    assert(place_of("margin-top"@) == 22);
    assert(place_of("margin-right"@) == 23);
    assert(place_of("margin-bottom"@) == 24);
    assert(place_of("margin-left"@) == 25);
    assert(place_of("padding-top"@) == 26);
    assert(place_of("padding-right"@) == 27);
    assert(place_of("padding-bottom"@) == 28);
    assert(place_of("padding-left"@) == 29);
    let l = longhands();
    assert forall|i: int, j: int| 0 <= i < l.len() && 0 <= j < l.len() && i != j implies l[i]
        != l[j] by {
        assert(place_of(l[i]) == i);
        assert(place_of(l[j]) == j);
    }
}

/// An element with the initial style answers each query with the property's initial
/// value.
pub proof fn an_initial_style_answers_with_initial_values(
    styles: &StylePlane,
    node: NodeId,
    s: crate::style_plane::ComputedStyle,
)
    requires
        styles.primary_at(node) == Some(s),
        crate::style_plane::texts_of(s.longhands@) == crate::style_plane::initial_longhands(),
    ensures
        computed_value(styles, node, "color"@) == Some("rgb(0, 0, 0)"@),
        computed_value(styles, node, "background-color"@) == Some("rgba(0, 0, 0, 0)"@),
        computed_value(styles, node, "display"@) == Some("inline"@),
        computed_value(styles, node, "visibility"@) == Some("visible"@),
        computed_value(styles, node, "opacity"@) == Some("1"@),
        computed_value(styles, node, "position"@) == Some("static"@),
        computed_value(styles, node, "left"@) == Some("auto"@),
        computed_value(styles, node, "right"@) == Some("auto"@),
        computed_value(styles, node, "top"@) == Some("auto"@),
        computed_value(styles, node, "bottom"@) == Some("auto"@),
        computed_value(styles, node, "transform"@) == Some("none"@),
        computed_value(styles, node, "overflow-x"@) == Some("visible"@),
        computed_value(styles, node, "overflow-y"@) == Some("visible"@),
        computed_value(styles, node, "font-size"@) == Some("16px"@),
        computed_value(styles, node, "font-family"@) == Some("serif"@),
        computed_value(styles, node, "font-weight"@) == Some("400"@),
        computed_value(styles, node, "font-style"@) == Some("normal"@),
        computed_value(styles, node, "line-height"@) == Some("normal"@),
        computed_value(styles, node, "text-align"@) == Some("start"@),
        computed_value(styles, node, "white-space-collapse"@) == Some("collapse"@),
        computed_value(styles, node, "width"@) == Some("auto"@),
        computed_value(styles, node, "height"@) == Some("auto"@),
        computed_value(styles, node, "margin-top"@) == Some("0px"@),
        computed_value(styles, node, "margin-right"@) == Some("0px"@),
        computed_value(styles, node, "margin-bottom"@) == Some("0px"@),
        computed_value(styles, node, "margin-left"@) == Some("0px"@),
        computed_value(styles, node, "padding-top"@) == Some("0px"@),
        computed_value(styles, node, "padding-right"@) == Some("0px"@),
        computed_value(styles, node, "padding-bottom"@) == Some("0px"@),
        computed_value(styles, node, "padding-left"@) == Some("0px"@),
{
    a_query_answers_with_the_text_of_its_property(styles, node);
    assert(crate::style_plane::texts_of(s.longhands@)[0] == s.longhands@[0]@);
    assert(crate::style_plane::texts_of(s.longhands@)[1] == s.longhands@[1]@);
    assert(crate::style_plane::texts_of(s.longhands@)[2] == s.longhands@[2]@);
    assert(crate::style_plane::texts_of(s.longhands@)[3] == s.longhands@[3]@);
    assert(crate::style_plane::texts_of(s.longhands@)[4] == s.longhands@[4]@);
    assert(crate::style_plane::texts_of(s.longhands@)[5] == s.longhands@[5]@);
    assert(crate::style_plane::texts_of(s.longhands@)[6] == s.longhands@[6]@);
    assert(crate::style_plane::texts_of(s.longhands@)[7] == s.longhands@[7]@);
    assert(crate::style_plane::texts_of(s.longhands@)[8] == s.longhands@[8]@);
    assert(crate::style_plane::texts_of(s.longhands@)[9] == s.longhands@[9]@);
    assert(crate::style_plane::texts_of(s.longhands@)[10] == s.longhands@[10]@);
    assert(crate::style_plane::texts_of(s.longhands@)[11] == s.longhands@[11]@);
    assert(crate::style_plane::texts_of(s.longhands@)[12] == s.longhands@[12]@);
    assert(crate::style_plane::texts_of(s.longhands@)[13] == s.longhands@[13]@);
    assert(crate::style_plane::texts_of(s.longhands@)[14] == s.longhands@[14]@);
    assert(crate::style_plane::texts_of(s.longhands@)[15] == s.longhands@[15]@);
    assert(crate::style_plane::texts_of(s.longhands@)[16] == s.longhands@[16]@);
    assert(crate::style_plane::texts_of(s.longhands@)[17] == s.longhands@[17]@);
    assert(crate::style_plane::texts_of(s.longhands@)[18] == s.longhands@[18]@);
    assert(crate::style_plane::texts_of(s.longhands@)[19] == s.longhands@[19]@);
    assert(crate::style_plane::texts_of(s.longhands@)[20] == s.longhands@[20]@);
    assert(crate::style_plane::texts_of(s.longhands@)[21] == s.longhands@[21]@);
    assert(crate::style_plane::texts_of(s.longhands@)[22] == s.longhands@[22]@);
    assert(crate::style_plane::texts_of(s.longhands@)[23] == s.longhands@[23]@);
    assert(crate::style_plane::texts_of(s.longhands@)[24] == s.longhands@[24]@);
    assert(crate::style_plane::texts_of(s.longhands@)[25] == s.longhands@[25]@);
    assert(crate::style_plane::texts_of(s.longhands@)[26] == s.longhands@[26]@);
    assert(crate::style_plane::texts_of(s.longhands@)[27] == s.longhands@[27]@);
    assert(crate::style_plane::texts_of(s.longhands@)[28] == s.longhands@[28]@);
    assert(crate::style_plane::texts_of(s.longhands@)[29] == s.longhands@[29]@);
}

} // verus!
