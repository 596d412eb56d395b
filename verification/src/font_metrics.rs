//! The metrics of the font that an element's text is set in, which the lengths
//! relative to a font go by.
use rustc_hash::FxHashMap;
use vstd::prelude::*;
use vstd::string::*;
use crate::float_bits::Bits;
use crate::style_plane::{FontFamily, GenericFont};
use crate::text;
use crate::text::int_to_string;

verus! {

/// Metrics of a font as parts of its em.
#[derive(Clone, Copy, Debug, PartialEq, Eq)]
pub struct PerEm {
    pub x_height: Option<Bits>,
    pub cap_height: Option<Bits>,
    pub zero_advance: Option<Bits>,
    pub ic_width: Option<Bits>,
    pub ascent: Bits,
}

/// The generic families that fonts are looked up by.
#[derive(Clone, Copy, Debug, PartialEq, Eq, Structural)]
pub enum GenericFamily {
    Serif,
    SansSerif,
    Monospace,
    Cursive,
    Fantasy,
}

/// A family that a font is looked up by.
pub enum Family {
    Named(String),
    Generic(GenericFamily),
}

/// What a font is looked up by.
pub struct FontRequest {
    pub families: Vec<Family>,
    pub weight: Bits,
    pub italic: bool,
}

// ---------------------------------------------------------------------------
// Families
// ---------------------------------------------------------------------------
/// The generic family that a CSS one is looked up by: those without a font of
/// their own are sans serif.
pub open spec fn generic_of(g: GenericFont) -> GenericFamily {
    match g {
        GenericFont::Serif => GenericFamily::Serif,
        GenericFont::SansSerif => GenericFamily::SansSerif,
        GenericFont::Monospace => GenericFamily::Monospace,
        GenericFont::Cursive => GenericFamily::Cursive,
        GenericFont::Fantasy => GenericFamily::Fantasy,
        _ => GenericFamily::SansSerif,
    }
}

/// The generic family that a CSS one is looked up by.
pub fn map_generic(g: GenericFont) -> (r: GenericFamily)
    ensures
        r == generic_of(g),
{
    match g {
        GenericFont::Serif => GenericFamily::Serif,
        GenericFont::SansSerif => GenericFamily::SansSerif,
        GenericFont::Monospace => GenericFamily::Monospace,
        GenericFont::Cursive => GenericFamily::Cursive,
        GenericFont::Fantasy => GenericFamily::Fantasy,
        _ => GenericFamily::SansSerif,
    }
}

/// The name of a generic family.
pub open spec fn name_of_generic(g: GenericFamily) -> Seq<char> {
    match g {
        GenericFamily::Serif => "serif"@,
        GenericFamily::Monospace => "monospace"@,
        GenericFamily::Cursive => "cursive"@,
        GenericFamily::Fantasy => "fantasy"@,
        GenericFamily::SansSerif => "sans-serif"@,
    }
}

/// The name of a generic family.
pub fn generic_name(g: GenericFamily) -> (r: &'static str)
    ensures
        r@ == name_of_generic(g),
{
    match g {
        GenericFamily::Serif => "serif",
        GenericFamily::Monospace => "monospace",
        GenericFamily::Cursive => "cursive",
        GenericFamily::Fantasy => "fantasy",
        GenericFamily::SansSerif => "sans-serif",
    }
}

/// A family, by its name's characters.
pub enum FamilyModel {
    Named(Seq<char>),
    Generic(GenericFamily),
}

impl View for Family {
    type V = FamilyModel;

    open spec fn view(&self) -> FamilyModel {
        match self {
            Family::Named(n) => FamilyModel::Named(n@),
            Family::Generic(g) => FamilyModel::Generic(*g),
        }
    }
}

/// The family that one of `font-family` is looked up by.
pub open spec fn family_of(f: FontFamily) -> FamilyModel {
    match f {
        FontFamily::Named(n) => FamilyModel::Named(n@),
        FontFamily::Generic(g) => FamilyModel::Generic(generic_of(g)),
    }
}

/// Whether a request is for a font of some families, a weight and a slope.
pub open spec fn asks_for(
    request: FontRequest,
    families: Seq<FontFamily>,
    weight: Bits,
    italic: bool,
) -> bool {
    &&& request.families@.len() == families.len()
    &&& forall|i: int|
        0 <= i < families.len() ==> (#[trigger] request.families@[i])@ == family_of(families[i])
    &&& request.weight == weight
    &&& request.italic == italic
}

/// The text of a family in the key of a request.
pub open spec fn family_text(f: FamilyModel) -> Seq<char> {
    match f {
        FamilyModel::Named(n) => n,
        FamilyModel::Generic(g) => name_of_generic(g),
    }
}

/// The first `n` families in the key of a request, each with a bar behind it.
pub open spec fn families_text(families: Seq<FontFamily>, n: nat) -> Seq<char>
    decreases n,
{
    if n == 0 {
        Seq::empty()
    } else {
        families_text(families, (n - 1) as nat) + family_text(family_of(families[n - 1])).push('|')
    }
}

/// The key that the metrics of a request are kept under.
pub open spec fn request_key(families: Seq<FontFamily>, weight: Bits, italic: bool) -> Seq<char> {
    families_text(families, families.len()) + text::int_text(weight as int).push(':').push(
        if italic {
            '1'
        } else {
            '0'
        },
    )
}

fn request_for(families: &Vec<FontFamily>, weight: Bits, italic: bool) -> (r: FontRequest)
    ensures
        asks_for(r, families@, weight, italic),
{
    let mut out: Vec<Family> = Vec::new();
    let mut i: usize = 0;
    while i < families.len()
        invariant
            i <= families@.len(),
            out@.len() == i,
            forall|j: int| 0 <= j < i ==> (#[trigger] out@[j])@ == family_of(families@[j]),
        decreases families.len() - i,
    {
        let family = match &families[i] {
            FontFamily::Named(n) => Family::Named(n.as_str().to_owned()),
            FontFamily::Generic(g) => Family::Generic(map_generic(*g)),
        };
        out.push(family);
        i += 1;
    }
    FontRequest { families: out, weight, italic }
}

fn key_for(families: &Vec<FontFamily>, weight: Bits, italic: bool) -> (r: String)
    ensures
        r@ == request_key(families@, weight, italic),
{
    let mut key: String = String::new();
    let mut i: usize = 0;
    while i < families.len()
        invariant
            i <= families@.len(),
            key@ == families_text(families@, i as nat),
        decreases families.len() - i,
    {
        let ghost before = key@;
        match &families[i] {
            FontFamily::Named(n) => {
                key.append(n.as_str());
            },
            FontFamily::Generic(g) => {
                key.append(generic_name(map_generic(*g)));
            },
        }
        key.push('|');
        assert(key@ =~= families_text(families@, (i + 1) as nat));
        i += 1;
    }
    let ghost named = key@;
    let number = int_to_string(weight as i128);
    key.append(number.as_str());
    key.push(':');
    key.push(
        if italic {
            '1'
        } else {
            '0'
        },
    );
    assert(key@ =~= request_key(families@, weight, italic));
    key
}

// ---------------------------------------------------------------------------
// The cache
// ---------------------------------------------------------------------------
/// The metrics that a map holds, by the texts of its keys.
pub uninterp spec fn metrics_held(m: FxHashMap<String, Option<PerEm>>) -> Map<
    Seq<char>,
    Option<PerEm>,
>;

/// `FxHashMap::default` makes an empty map.
#[verifier::external_body]
fn metrics_default() -> (r: FxHashMap<String, Option<PerEm>>)
    ensures
        forall|k: Seq<char>| !metrics_held(r).contains_key(k),
{
    FxHashMap::default()
}

/// `FxHashMap::get` finds what is stored under a key.
#[verifier::external_body]
fn metrics_get(m: &FxHashMap<String, Option<PerEm>>, k: &str) -> (r: Option<Option<PerEm>>)
    ensures
        r == (if metrics_held(*m).contains_key(k@) {
            Some(metrics_held(*m)[k@])
        } else {
            None
        }),
{
    m.get(k).copied()
}

/// `FxHashMap::insert` stores a value under a key, in place of the one before.
#[verifier::external_body]
fn metrics_insert(m: &mut FxHashMap<String, Option<PerEm>>, k: String, v: Option<PerEm>)
    ensures
        metrics_held(*final(m)) == metrics_held(*old(m)).insert(k@, v),
{
    m.insert(k, v);
}

/// Whether `r` is what a lookup of a key gives, and `after` what it leaves: what
/// is held stays, and what is found is kept.
pub open spec fn looked_up(
    held: Map<Seq<char>, Option<PerEm>>,
    key: Seq<char>,
    r: Option<PerEm>,
    after: Map<Seq<char>, Option<PerEm>>,
) -> bool {
    if held.contains_key(key) {
        r == held[key] && after == held
    } else {
        after == held.insert(key, r)
    }
}

/// A font is looked up once: a second lookup of a key gives what the first gave,
/// whatever was looked up in between.
pub proof fn a_lookup_is_remembered(
    held: Map<Seq<char>, Option<PerEm>>,
    key: Seq<char>,
    first: Option<PerEm>,
    then: Map<Seq<char>, Option<PerEm>>,
    other: Seq<char>,
    between: Option<PerEm>,
    later: Map<Seq<char>, Option<PerEm>>,
    second: Option<PerEm>,
    end: Map<Seq<char>, Option<PerEm>>,
)
    requires
        looked_up(held, key, first, then),
        looked_up(then, other, between, later),
        looked_up(later, key, second, end),
    ensures
        second == first,
        end == later,
{
}

/// Looks fonts up, and keeps the metrics of those that it has looked up.
pub struct FontResolver {
    pub cache: FxHashMap<String, Option<PerEm>>,
}

impl FontResolver {
    /// A resolver that has looked nothing up.
    pub fn new() -> (r: FontResolver)
        ensures
            forall|k: Seq<char>| !metrics_held(r.cache).contains_key(k),
    {
        FontResolver { cache: metrics_default() }
    }

    /// The metrics of the font of some families, a weight and a slope. A font is
    /// looked up once: `query` is asked only where no request with the same key
    /// came before, and its answer, a font that is not there included, is kept.
    pub fn per_em<Q: Fn(&FontRequest) -> Option<PerEm>>(
        &mut self,
        families: &Vec<FontFamily>,
        weight: Bits,
        italic: bool,
        query: &Q,
    ) -> (r: Option<PerEm>)
        requires
            forall|q: &FontRequest| #[trigger] call_requires(*query, (q,)),
        ensures
            looked_up(
                metrics_held(old(self).cache),
                request_key(families@, weight, italic),
                r,
                metrics_held(final(self).cache),
            ),
            !metrics_held(old(self).cache).contains_key(request_key(families@, weight, italic))
                ==> exists|q: &FontRequest|
                asks_for(*q, families@, weight, italic) && #[trigger] call_ensures(
                    *query,
                    (q,),
                    r,
                ),
    {
        let key = key_for(families, weight, italic);
        if let Some(known) = metrics_get(&self.cache, key.as_str()) {
            return known;
        }
        let request = request_for(families, weight, italic);
        let answer = query(&request);
        assert(asks_for(*(&request), families@, weight, italic) && call_ensures(
            *query,
            (&request,),
            answer,
        ));
        metrics_insert(&mut self.cache, key, answer);
        answer
    }
}

/// A font is asked for by the families of an element in their order: by name, or
/// by the generic family of the same name; a generic family without a font of its
/// own stands for sans serif.
pub proof fn a_font_is_asked_for_by_the_families_in_order(
    request: FontRequest,
    families: Seq<FontFamily>,
    weight: Bits,
    italic: bool,
    i: int,
)
    requires
        asks_for(request, families, weight, italic),
        0 <= i < families.len(),
    ensures
        request.weight == weight && request.italic == italic,
        request.families@.len() == families.len(),
        request.families@[i] is Named <==> families[i] is Named,
        families[i] matches FontFamily::Named(n) ==> (request.families@[i] matches Family::Named(m)
            && m@ == n@),
        families[i] matches FontFamily::Generic(g) ==> (request.families@[i] matches Family::Generic(
            f,
        ) && {
            &&& f is Serif <==> g is Serif
            &&& f is Monospace <==> g is Monospace
            &&& f is Cursive <==> g is Cursive
            &&& f is Fantasy <==> g is Fantasy
            &&& f is SansSerif <==> g is SansSerif || g is Unnamed || g is SystemUi
        }),
{
    assert(request.families@[i]@ == family_of(families[i]));
}

/// The name of each generic family reads as the family, and no two read the same.
pub proof fn generic_families_have_names_of_their_own(a: GenericFamily, b: GenericFamily)
    ensures
        name_of_generic(a) == name_of_generic(b) ==> a == b,
        name_of_generic(a) == "serif"@ <==> a is Serif,
        name_of_generic(a) == "sans-serif"@ <==> a is SansSerif,
        name_of_generic(a) == "monospace"@ <==> a is Monospace,
        name_of_generic(a) == "cursive"@ <==> a is Cursive,
        name_of_generic(a) == "fantasy"@ <==> a is Fantasy,
{
    reveal_strlit("serif");
    reveal_strlit("sans-serif");
    reveal_strlit("monospace");
    reveal_strlit("cursive");
    reveal_strlit("fantasy");
    assert("serif"@.len() == 5 && "sans-serif"@.len() == 10 && "monospace"@.len() == 9);
    assert("cursive"@[0] == 'c' && "fantasy"@[0] == 'f');
    assert("cursive"@.len() == 7 && "fantasy"@.len() == 7);
}

/// The metrics of one list of families are kept apart by weight and slope.
pub proof fn weights_and_slopes_are_kept_apart(
    families: Seq<FontFamily>,
    weight: Bits,
    italic: bool,
    other_weight: Bits,
    other_italic: bool,
)
    ensures
        request_key(families, weight, italic) == request_key(families, other_weight, other_italic)
            ==> weight == other_weight && italic == other_italic,
{
    let a = request_key(families, weight, italic);
    let b = request_key(families, other_weight, other_italic);
    if a == b {
        let head = families_text(families, families.len());
        let v = text::int_text(weight as int);
        let w = text::int_text(other_weight as int);
        assert(a.last() == if italic {
            '1'
        } else {
            '0'
        });
        assert(b.last() == if other_italic {
            '1'
        } else {
            '0'
        });
        assert(a.subrange(head.len() as int, a.len() - 2) =~= v);
        assert(b.subrange(head.len() as int, b.len() - 2) =~= w);
        text::a_written_number_reads_back(weight as int, -1, u32::MAX as int);
        text::a_written_number_reads_back(other_weight as int, -1, u32::MAX as int);
    }
}

/// The families in a key stand in their order, each by its name with a bar behind
/// it.
pub proof fn a_key_names_the_families_in_order(families: Seq<FontFamily>, n: nat)
    requires
        n <= families.len(),
    ensures
        families_text(families, n) == Seq::new(
            n,
            |i: int|
                (match families[i] {
                    FontFamily::Named(name) => name@,
                    FontFamily::Generic(GenericFont::Serif) => "serif"@,
                    FontFamily::Generic(GenericFont::Monospace) => "monospace"@,
                    FontFamily::Generic(GenericFont::Cursive) => "cursive"@,
                    FontFamily::Generic(GenericFont::Fantasy) => "fantasy"@,
                    FontFamily::Generic(_) => "sans-serif"@,
                }) + seq!['|'],
        ).flatten(),
    decreases n,
{
    let f = |i: int|
        (match families[i] {
            FontFamily::Named(name) => name@,
            FontFamily::Generic(GenericFont::Serif) => "serif"@,
            FontFamily::Generic(GenericFont::Monospace) => "monospace"@,
            FontFamily::Generic(GenericFont::Cursive) => "cursive"@,
            FontFamily::Generic(GenericFont::Fantasy) => "fantasy"@,
            FontFamily::Generic(_) => "sans-serif"@,
        }) + seq!['|'];
    if n == 0 {
        assert(Seq::new(0, f) =~= Seq::<Seq<char>>::empty());
    } else {
        a_key_names_the_families_in_order(families, (n - 1) as nat);
        let before = Seq::new((n - 1) as nat, f);
        assert(Seq::new(n, f) =~= before.push(f(n - 1)));
        before.lemma_flatten_push(f(n - 1));
        assert(family_text(family_of(families[n - 1])).push('|') =~= f(n - 1));
    }
}

} // verus!
