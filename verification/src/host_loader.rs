//! What a document refers to: where its resources stand on disk, and the style
//! sheets that it holds or links.
use std::path::PathBuf;
use vstd::prelude::*;
use vstd::string::*;
use vstd::utf8::*;
use crate::dom::{Dom, NodeId};
use crate::image_decode::ImageLoader;
use crate::scan;
use crate::scan::{find_char, find_part, starts_with};
use crate::text;
use crate::text::{append_chars, chars_eq, chars_of, lower_chars, string_of, sub_chars, trim};

verus! {

// ---------------------------------------------------------------------------
// Outside calls
// ---------------------------------------------------------------------------
/// `String::from_utf8` makes a string of the bytes where they are UTF-8, and
/// fails where they are not.
#[verifier::external_body]
fn utf8_string(bytes: Vec<u8>) -> (r: Option<String>)
    ensures
        match r {
            Some(s) => valid_utf8(bytes@) && s@ == decode_utf8(bytes@),
            None => !valid_utf8(bytes@),
        },
{
    String::from_utf8(bytes).ok()
}

/// A path of the system.
#[verifier::external_type_specification]
#[verifier::external_body]
pub struct ExPathBuf(std::path::PathBuf);

/// The text of a path, `None` where it is no Unicode text.
pub uninterp spec fn path_text(path: std::path::PathBuf) -> Option<Seq<char>>;

/// `PathBuf::from` makes a path of a text.
#[verifier::external_body]
fn path_of(text: &str) -> (r: PathBuf)
    ensures
        path_text(r) == Some(text@),
{
    PathBuf::from(text)
}

/// Whether `r` can be the path of a `file:` URL. The URL of a plain path leads to
/// that path, which some systems write behind a scheme; what other characters stand
/// for, and which URLs have a path at all, differs from system to system.
pub open spec fn can_be_file(url: Seq<char>, r: Option<PathBuf>) -> bool {
    let path = url.skip(7);
    scan::begins_with(url, "file://"@) && is_plain_path(path) ==> match r {
        Some(p) => path_text(p) == Some(path) || path_text(p) == Some("file:"@ + path),
        None => true,
    }
}

/// `url::Url::parse` and `to_file_path` turn a `file:` URL into a path. Letters,
/// digits, hyphens and underscores stand in the path as they do in the URL. Which
/// URLs have a path differs from system to system, and is not said.
#[verifier::external_body]
pub(crate) fn file_url_path(url: &str) -> (r: Option<PathBuf>)
    ensures
        can_be_file(url@, r),
{
    url::Url::parse(url).ok()?.to_file_path().ok()
}

/// Whether a text is a `file:` URL that ends in a slash.
pub open spec fn is_directory_url(u: Seq<char>) -> bool {
    scan::begins_with(u, "file://"@) && u.last() == '/'
}

/// Whether a path is absolute on some system: it begins with a separator, or
/// has a colon as one with a drive has.
pub open spec fn may_be_absolute(path: Seq<char>) -> bool {
    path.len() > 0 && (path[0] == '/' || path[0] == '\\' || path.contains(':'))
}

/// Whether a path begins at the root and goes down by plain names: of ASCII
/// letters, digits, hyphens and underscores, with one slash before each.
pub open spec fn is_plain_path(path: Seq<char>) -> bool {
    &&& path.len() > 0
    &&& path[0] == '/'
    &&& forall|i: int|
        0 <= i < path.len() ==> {
            let c = #[trigger] path[i];
            ('a' <= c <= 'z') || ('A' <= c <= 'Z') || ('0' <= c <= '9') || c == '-' || c == '_'
                || c == '/'
        }
    &&& forall|i: int| 0 < i < path.len() && #[trigger] path[i] == '/' ==> path[i - 1] != '/'
}

/// The `file:` URL of a directory at a plain path.
pub open spec fn plain_directory_url(path: Seq<char>) -> Seq<char> {
    if path.last() == '/' {
        "file://"@ + path
    } else {
        "file://"@ + path + "/"@
    }
}

/// Whether `r` can be the `file:` URL of a directory: none of a path that no
/// system takes for absolute; else it ends in a slash, and is the path itself
/// where that is plain.
pub open spec fn can_be_url_of(path: Seq<char>, r: Option<String>) -> bool {
    r matches Some(u) ==> {
        &&& may_be_absolute(path)
        &&& is_directory_url(u@)
        &&& is_plain_path(path) ==> u@ == plain_directory_url(path)
    }
}

/// `url::Url::from_directory_path` turns an absolute path into a `file:` URL
/// that ends in a slash, and fails on any other path. Letters, digits, hyphens
/// and underscores stand in the URL as they do in the path. Which paths are
/// absolute differs from system to system, as does what stands for other
/// characters, and neither is said.
#[verifier::external_body]
pub(crate) fn directory_url(path: &str) -> (r: Option<String>)
    ensures
        can_be_url_of(path@, r),
{
    url::Url::from_directory_path(path).ok().map(|u| u.to_string())
}

/// A URL in its normal form, `None` for what is no URL.
pub uninterp spec fn normal_url(url: Seq<char>) -> Option<Seq<char>>;

/// `url::Url::parse` reads a URL as the URL standard has it, and writes it in
/// its normal form. The result is named, not spelled out; the placeholder for a
/// missing URL is in its normal form already.
#[verifier::external_body]
fn parse_url(url: &str) -> (r: Option<String>)
    ensures
        normal_url(url@) == (match r {
            Some(u) => Some(u@),
            None => None,
        }),
        url@ == "about:internal-stylesheet"@ ==> text::text_of(r) == Some(url@),
{
    url::Url::parse(url).ok().map(|u| u.to_string())
}

// ---------------------------------------------------------------------------
// Resolving
// ---------------------------------------------------------------------------
/// Resolves the URLs of a document to files. `base_dir` is the document's own
/// directory, which relative URLs resolve against; `tests_root` is the one that
/// URLs with a leading slash resolve against.
#[derive(Clone, Debug)]
pub struct ResourceResolver {
    pub base_dir: Option<String>,
    pub tests_root: Option<String>,
}

/// Where a URL leads.
pub enum UrlTarget {
    /// To no file: it is empty, remote or a `data:` URI.
    Nowhere,
    /// To the file that a `file:` URL names.
    FileUrl(Seq<char>),
    /// To a path under the root.
    UnderRoot(Seq<char>),
    /// To a path under the document's directory.
    UnderBase(Seq<char>),
}

/// The part of a URL before its query and fragment.
pub open spec fn without_query(url: Seq<char>) -> Seq<char>
    decreases url.len(),
{
    if url.len() == 0 || url[0] == '#' || url[0] == '?' {
        Seq::empty()
    } else {
        seq![url[0]] + without_query(url.skip(1))
    }
}

/// Where a URL leads, its query, its fragment and white space at its ends
/// aside.
pub open spec fn target_of(url: Seq<char>) -> UrlTarget {
    let u = text::trimmed(without_query(url));
    if u.len() == 0 || scan::begins_with(u, "http://"@) || scan::begins_with(u, "https://"@)
        || scan::begins_with(u, "//"@) || scan::begins_with(u, "data:"@) {
        UrlTarget::Nowhere
    } else if scan::begins_with(u, "file:"@) {
        UrlTarget::FileUrl(u)
    } else if u[0] == '/' {
        UrlTarget::UnderRoot(u.skip(1))
    } else {
        UrlTarget::UnderBase(u)
    }
}

/// A path under a directory: the two with a slash between, where the directory
/// does not end in one already.
pub open spec fn path_under(dir: Seq<char>, rest: Seq<char>) -> Seq<char> {
    if dir.len() == 0 || dir.last() == '/' {
        dir + rest
    } else {
        dir.push('/') + rest
    }
}

/// Whether a path has the given text; none where there is no text.
pub open spec fn has_text(path: Option<PathBuf>, text: Option<Seq<char>>) -> bool {
    match path {
        Some(p) => text is Some && path_text(p) == text,
        None => text is None,
    }
}

impl ResourceResolver {
    /// The path under a directory that a URL resolves to. A `file:` URL does not
    /// resolve against one.
    pub open spec fn resolved(&self, target: UrlTarget) -> Option<Seq<char>> {
        match target {
            UrlTarget::Nowhere => None,
            UrlTarget::FileUrl(_) => None,
            UrlTarget::UnderRoot(rest) => match self.tests_root {
                Some(root) => Some(path_under(root@, rest)),
                None => None,
            },
            UrlTarget::UnderBase(rest) => match self.base_dir {
                Some(base) => Some(path_under(base@, rest)),
                None => None,
            },
        }
    }

    /// Whether `r` can be the path that a URL resolves to: for a `file:` URL a path
    /// that it is turned into, else the one under a directory.
    pub open(crate) spec fn can_resolve(&self, url: Seq<char>, r: Option<PathBuf>) -> bool {
        match target_of(url) {
            UrlTarget::FileUrl(u) => is_path_of(u, r) && can_be_file(u, r),
            target => has_text(r, self.resolved(target)),
        }
    }
}

/// Whether `r` is a path that a `file:` URL is turned into.
pub open(crate) spec fn is_path_of(url: Seq<char>, r: Option<PathBuf>) -> bool {
    exists|text: &str| text@ == url && #[trigger] call_ensures(file_url_path, (text,), r)
}

/// Whether `r` is a `file:` URL that the path of a directory is turned into.
pub open(crate) spec fn is_url_of(path: Seq<char>, r: Option<String>) -> bool {
    exists|text: &str| text@ == path && #[trigger] call_ensures(directory_url, (text,), r)
}

/// Where a URL leads, with the text that matters.
pub enum Target {
    Nowhere,
    FileUrl(Vec<char>),
    UnderRoot(Vec<char>),
    UnderBase(Vec<char>),
}

impl View for Target {
    type V = UrlTarget;

    open spec fn view(&self) -> UrlTarget {
        match self {
            Target::Nowhere => UrlTarget::Nowhere,
            Target::FileUrl(t) => UrlTarget::FileUrl(t@),
            Target::UnderRoot(t) => UrlTarget::UnderRoot(t@),
            Target::UnderBase(t) => UrlTarget::UnderBase(t@),
        }
    }
}

fn cut_query(url: &[char]) -> (r: Vec<char>)
    ensures
        r@ == without_query(url@),
{
    let mut out: Vec<char> = Vec::new();
    let mut i: usize = 0;
    assert(url@.skip(0) =~= url@);
    assert(out@ + without_query(url@) =~= without_query(url@));
    while i < url.len() && url[i] != '#' && url[i] != '?'
        invariant
            i <= url@.len(),
            out@ + without_query(url@.skip(i as int)) == without_query(url@),
        decreases url.len() - i,
    {
        let ghost before = out@;
        let ghost rest = url@.skip(i as int);
        out.push(url[i]);
        assert(rest.skip(1) =~= url@.skip(i + 1));
        assert(out@ + without_query(rest.skip(1)) =~= before + without_query(rest));
        i += 1;
    }
    assert(out@ =~= out@ + without_query(url@.skip(i as int)));
    out
}

/// Where a URL leads.
pub fn classify_url(url: &str) -> (r: Target)
    ensures
        r@ == target_of(url@),
{
    let chars = chars_of(url);
    let cut = cut_query(chars.as_slice());
    let u = trim(cut.as_slice());
    if u.len() == 0 || starts_with(u.as_slice(), chars_of("http://").as_slice()) || starts_with(
        u.as_slice(),
        chars_of("https://").as_slice(),
    ) || starts_with(u.as_slice(), chars_of("//").as_slice()) || starts_with(
        u.as_slice(),
        chars_of("data:").as_slice(),
    ) {
        Target::Nowhere
    } else if starts_with(u.as_slice(), chars_of("file:").as_slice()) {
        Target::FileUrl(u)
    } else if u[0] == '/' {
        let rest = sub_chars(u.as_slice(), 1, u.len());
        assert(rest@ =~= u@.skip(1));
        Target::UnderRoot(rest)
    } else {
        Target::UnderBase(u)
    }
}

/// A path under a directory.
pub fn join_path(dir: &str, rest: &[char]) -> (r: String)
    ensures
        r@ == path_under(dir@, rest@),
{
    let chars = chars_of(dir);
    let mut s: String = string_of(chars.as_slice());
    if chars.len() > 0 && chars[chars.len() - 1] != '/' {
        s.push('/');
    }
    append_chars(&mut s, rest);
    s
}

impl ResourceResolver {
    /// A resolver for a document in a directory.
    pub fn at(base_dir: String) -> (r: ResourceResolver)
        ensures
            r.base_dir == Some(base_dir),
            r.tests_root is None,
    {
        ResourceResolver { base_dir: Some(base_dir), tests_root: None }
    }

    /// A resolver without directories, which resolves `file:` URLs only.
    pub fn rootless() -> (r: ResourceResolver)
        ensures
            r.base_dir is None,
            r.tests_root is None,
    {
        ResourceResolver { base_dir: None, tests_root: None }
    }

    /// The path of the document's directory: its canonical path where that is
    /// known, else the one that it was given by.
    pub open spec fn base_of(&self, canonical: Option<&str>) -> Option<Seq<char>> {
        match self.base_dir {
            Some(base) => Some(
                match canonical {
                    Some(path) => path@,
                    None => base@,
                },
            ),
            None => None,
        }
    }

    /// The path of the document's directory: its canonical path where that is
    /// known, else the one that it was given by.
    pub fn base_path<'a>(&'a self, canonical: Option<&'a str>) -> (r: Option<&'a str>)
        ensures
            self.base_of(canonical) == (match r {
                Some(p) => Some(p@),
                None => None,
            }),
    {
        match &self.base_dir {
            Some(base) => match canonical {
                Some(path) => Some(path),
                None => Some(base.as_str()),
            },
            None => None,
        }
    }

    /// The URL of the document's directory, from its canonical path where that
    /// is known. `None` where there is no directory, or where its path is not
    /// absolute, which rests with the system.
    pub fn base_url(&self, canonical: Option<&str>) -> (r: Option<String>)
        ensures
            match self.base_of(canonical) {
                Some(path) => is_url_of(path, r) && can_be_url_of(path, r),
                None => r is None,
            },
    {
        match self.base_path(canonical) {
            Some(path) => {
                let url = directory_url(path);
                assert(call_ensures(directory_url, (path,), url));
                url
            },
            None => None,
        }
    }

    /// The path that a URL resolves to, where a `file:` URL is at `file_path`.
    pub fn resolve_to(&self, target: Target, file_path: Option<PathBuf>) -> (r: Option<PathBuf>)
        ensures
            if target@ is FileUrl {
                r == file_path
            } else {
                has_text(r, self.resolved(target@))
            },
    {
        match target {
            Target::Nowhere => None,
            Target::FileUrl(_) => file_path,
            Target::UnderRoot(rest) => match &self.tests_root {
                Some(root) => Some(path_of(join_path(root.as_str(), rest.as_slice()).as_str())),
                None => None,
            },
            Target::UnderBase(rest) => match &self.base_dir {
                Some(base) => Some(path_of(join_path(base.as_str(), rest.as_slice()).as_str())),
                None => None,
            },
        }
    }

    /// The path that a URL resolves to: `None` where it is empty, remote, a
    /// `data:` URI, or under a directory that the resolver does not have. Which
    /// `file:` URLs have a path rests with the system.
    pub fn resolve(&self, url: &str) -> (r: Option<PathBuf>)
        ensures
            self.can_resolve(url@, r),
            !(target_of(url@) is FileUrl) ==> has_text(r, self.resolved(target_of(url@))),
            target_of(url@) matches UrlTarget::FileUrl(u) ==> can_be_file(u, r),
    {
        let target = classify_url(url);
        let file_path = match &target {
            Target::FileUrl(u) => {
                let s = string_of(u.as_slice());
                let file = s.as_str();
                let path = file_url_path(file);
                let ghost found = path;
                assert(call_ensures(file_url_path, (file,), found));
                path
            },
            _ => None,
        };
        self.resolve_to(target, file_path)
    }

    /// The query and the fragment of a URL, a `file:` URL too, never change the path
    /// that it resolves to.
    pub proof fn a_query_or_fragment_changes_nothing(
        &self,
        url: Seq<char>,
        rest: Seq<char>,
        r: Option<PathBuf>,
    )
        requires
            !url.contains('#'),
            !url.contains('?'),
        ensures
            self.can_resolve(url + seq!['?'] + rest, r) == self.can_resolve(url, r),
            self.can_resolve(url + seq!['#'] + rest, r) == self.can_resolve(url, r),
    {
        lemma_cut_at(url, seq!['?'] + rest);
        lemma_cut_at(url, seq!['#'] + rest);
        lemma_cut_at(url, Seq::empty());
        assert(url + seq!['?'] + rest =~= url + (seq!['?'] + rest));
        assert(url + seq!['#'] + rest =~= url + (seq!['#'] + rest));
        assert(url + Seq::<char>::empty() =~= url);
    }
}

proof fn lemma_cut_at(url: Seq<char>, rest: Seq<char>)
    requires
        !url.contains('#'),
        !url.contains('?'),
        rest.len() == 0 || rest[0] == '#' || rest[0] == '?',
    ensures
        without_query(url + rest) == url,
    decreases url.len(),
{
    let all = url + rest;
    if url.len() == 0 {
        assert(all =~= rest);
    } else {
        let tail = url.skip(1);
        assert(url.contains(url[0]));
        assert(!tail.contains('#')) by {
            if tail.contains('#') {
                let k = choose|k: int| 0 <= k < tail.len() && tail[k] == '#';
                assert(url[k + 1] == '#');
            }
        }
        assert(!tail.contains('?')) by {
            if tail.contains('?') {
                let k = choose|k: int| 0 <= k < tail.len() && tail[k] == '?';
                assert(url[k + 1] == '?');
            }
        }
        lemma_cut_at(tail, rest);
        assert(all.skip(1) =~= tail + rest);
        assert(seq![url[0]] + tail =~= url);
    }
}

/// Where relative URLs in style sheets resolve against: the document's URL in
/// its normal form, or a placeholder that nothing resolves against.
pub open spec fn sheet_base(base_url: Option<Seq<char>>) -> Seq<char> {
    match base_url {
        Some(b) => match normal_url(b) {
            Some(u) => u,
            None => "about:internal-stylesheet"@,
        },
        None => "about:internal-stylesheet"@,
    }
}

/// A URL that was read, or the placeholder.
pub fn url_or_placeholder(parsed: Option<String>) -> (r: String)
    ensures
        r@ == (match parsed {
            Some(u) => u@,
            None => "about:internal-stylesheet"@,
        }),
{
    match parsed {
        Some(u) => u,
        None => "about:internal-stylesheet".to_owned(),
    }
}

/// Where relative URLs in style sheets resolve against.
pub fn make_url_data(base_url: Option<&str>) -> (r: String)
    ensures
        r@ == sheet_base(text::view_of(base_url)),
{
    let parsed = match base_url {
        Some(b) => parse_url(b),
        None => None,
    };
    url_or_placeholder(parsed)
}

/// A URL to read for where relative URLs in style sheets resolve against: the
/// document's where it can be read, else the placeholder.
pub fn base_for<'a>(base_url: Option<&'a str>) -> (r: &'a str)
    ensures
        normal_url(r@) == Some(sheet_base(text::view_of(base_url))),
        r@ == (match base_url {
            Some(b) if normal_url(b@) is Some => b@,
            _ => "about:internal-stylesheet"@,
        }),
{
    if let Some(b) = base_url {
        if parse_url(b).is_some() {
            return b;
        }
    }
    let placeholder = "about:internal-stylesheet";
    let _ = parse_url(placeholder);
    placeholder
}

/// A resolver by which a host loads images from disk.
pub struct LocalFileImageLoader {
    pub resolver: ResourceResolver,
}

impl LocalFileImageLoader {
    /// A loader of what the resolver resolves.
    pub fn new(resolver: ResourceResolver) -> (r: LocalFileImageLoader)
        ensures
            r.resolver == resolver,
    {
        LocalFileImageLoader { resolver }
    }
}

// ---------------------------------------------------------------------------
// Inline style sheets
// ---------------------------------------------------------------------------
/// The texts of some strings.
pub open spec fn texts(v: Seq<String>) -> Seq<Seq<char>> {
    v.map(|i: int, s: String| s@)
}

/// The character data of the first `k` children of a node in a row.
pub open spec fn children_text(dom: &Dom, id: NodeId, k: nat) -> Seq<char>
    decreases k,
{
    if k == 0 {
        Seq::empty()
    } else {
        let before = children_text(dom, id, (k - 1) as nat);
        match dom.text_at(dom.children_at(id)[k - 1]) {
            Some(t) => before + t,
            None => before,
        }
    }
}

/// The style sheet that a node holds: the text of a `<style>` element, where it
/// is not blank.
pub open spec fn style_text(dom: &Dom, id: NodeId) -> Option<Seq<char>> {
    let css = children_text(dom, id, dom.children_at(id).len());
    if dom.is_named(id, "style"@) && text::trimmed(css).len() > 0 {
        Some(css)
    } else {
        None
    }
}

/// The style sheets that the first `n` of some nodes hold.
pub open spec fn sheets_of(dom: &Dom, nodes: Seq<NodeId>, n: nat) -> Seq<Seq<char>>
    decreases n,
{
    if n == 0 {
        Seq::empty()
    } else {
        let before = sheets_of(dom, nodes, (n - 1) as nat);
        match style_text(dom, nodes[n - 1]) {
            Some(css) => before.push(css),
            None => before,
        }
    }
}

fn text_of_children(dom: &Dom, id: NodeId) -> (r: String)
    requires
        dom.wf(),
        dom.has(id),
    ensures
        r@ == children_text(dom, id, dom.children_at(id).len()),
{
    let children = dom.dom_children(id);
    let mut css: String = String::new();
    let mut k: usize = 0;
    while k < children.len()
        invariant
            dom.wf(),
            dom.has(id),
            children@ == dom.children_at(id),
            k <= children@.len(),
            css@ == children_text(dom, id, k as nat),
        decreases children.len() - k,
    {
        assert(dom.has(dom.children_at(id)[k as int]));
        if let Some(t) = dom.text(children[k]) {
            css.append(t);
        }
        k += 1;
    }
    css
}

/// The text of every `<style>` element that is not blank, in document order.
pub fn inline_stylesheets(dom: &Dom) -> (r: Vec<String>)
    requires
        dom.wf(),
    ensures
        texts(r@) == sheets_of(dom, dom.order(dom.root()), dom.order(dom.root()).len()),
{
    let order = dom.document_order(dom.document());
    proof {
        dom.lemma_order_visits(dom.root());
    }
    let mut sheets: Vec<String> = Vec::new();
    let mut i: usize = 0;
    assert(texts(sheets@) =~= Seq::<Seq<char>>::empty());
    while i < order.len()
        invariant
            dom.wf(),
            order@ == dom.order(dom.root()),
            forall|x: NodeId| #[trigger]
                dom.order(dom.root()).contains(x) ==> dom.is_within(x, dom.root()),
            i <= order@.len(),
            texts(sheets@) == sheets_of(dom, order@, i as nat),
        decreases order.len() - i,
    {
        let id = order[i];
        assert(order@.contains(order@[i as int]));
        if dom.named(id, "style") {
            let css = text_of_children(dom, id);
            let chars = chars_of(css.as_str());
            if trim(chars.as_slice()).len() > 0 {
                let ghost before = sheets@;
                sheets.push(css);
                assert(texts(sheets@) =~= texts(before).push(css@));
            }
        }
        i += 1;
    }
    sheets
}

/// The `<style>` blocks of a source text from character `from` on: what stands
/// between the end of each opening tag and the closing tag after it, whatever
/// the case of the tags.
pub open spec fn blocks_from(html: Seq<char>, from: nat) -> Seq<Seq<char>>
    decreases html.len() - from,
{
    let low = text::lowered(html);
    if from > html.len() {
        Seq::empty()
    } else {
        match scan::part_index(low.skip(from as int), "<style"@) {
            None => Seq::empty(),
            Some(o) => {
                let open = from + o;
                match scan::first_index(low.skip(open as int), '>') {
                    None => Seq::empty(),
                    Some(g) => {
                        let start = open + g + 1;
                        match scan::part_index(low.skip(start as int), "</style>"@) {
                            None => Seq::empty(),
                            Some(c) => {
                                let close = start + c;
                                proof {
                                    reveal_strlit("</style>");
                                    scan::lemma_part_index_fits(low.skip(from as int), "<style"@);
                                    scan::lemma_first_index_fits(low.skip(open as int), '>');
                                    scan::lemma_part_index_fits(
                                        low.skip(start as int),
                                        "</style>"@,
                                    );
                                }
                                seq![html.subrange(start as int, close as int)] + blocks_from(
                                    html,
                                    close + 8,
                                )
                            },
                        }
                    },
                }
            },
        }
    }
}

/// The text of every `<style>` block of a source text. It does not need the
/// source to parse.
pub fn inline_stylesheets_from_source(html: &str) -> (r: Vec<String>)
    ensures
        texts(r@) == blocks_from(html@, 0),
{
    let chars = chars_of(html);
    let low = lower_chars(chars.as_slice());
    let count: usize = low.len();
    let open_tag = chars_of("<style");
    let close_tag = chars_of("</style>");
    proof {
        reveal_strlit("<style");
        reveal_strlit("</style>");
    }
    let mut out: Vec<String> = Vec::new();
    let mut from: usize = 0;
    let mut more = true;
    assert(texts(out@) + blocks_from(html@, 0) =~= blocks_from(html@, 0));
    while more
        invariant
            chars@ == html@,
            low@ == text::lowered(html@),
            count == html@.len(),
            low@.len() == count,
            open_tag@ == "<style"@,
            open_tag@.len() == 6,
            close_tag@ == "</style>"@,
            close_tag@.len() == 8,
            from <= count,
            more ==> texts(out@) + blocks_from(html@, from as nat) == blocks_from(html@, 0),
            !more ==> texts(out@) == blocks_from(html@, 0),
        decreases count - from + if more { 1int } else { 0int },
    {
        let ghost before = texts(out@);
        assert(before + Seq::<Seq<char>>::empty() =~= before);
        match find_part(low.as_slice(), from, open_tag.as_slice()) {
            None => {
                more = false;
            },
            Some(open) => match find_char(low.as_slice(), open, '>') {
                None => {
                    more = false;
                },
                Some(gt) => {
                    let start: usize = gt + 1;
                    match find_part(low.as_slice(), start, close_tag.as_slice()) {
                        None => {
                            more = false;
                        },
                        Some(close) => {
                            let body = sub_chars(chars.as_slice(), start, close);
                            let s = string_of(body.as_slice());
                            let ghost list = out@;
                            out.push(s);
                            assert(texts(out@) =~= texts(list).push(s@));
                            assert(texts(out@) + blocks_from(html@, (close + 8) as nat) =~= before
                                + blocks_from(html@, from as nat));
                            from = close + 8;
                        },
                    }
                },
            },
        }
    }
    out
}

// ---------------------------------------------------------------------------
// Linked style sheets
// ---------------------------------------------------------------------------
/// Where the style sheet that an element links stands: the `href` of a `<link>`
/// whose `rel` is `stylesheet`, whatever the case of ASCII letters.
pub open spec fn link_href(dom: &Dom, id: NodeId) -> Option<Seq<char>> {
    if dom.is_named(id, "link"@) && (dom.plain_attr(id, "rel"@) matches Some(rel) && text::lowered(
        rel,
    ) == "stylesheet"@) {
        dom.plain_attr(id, "href"@)
    } else {
        None
    }
}

/// Whether a loader can answer `bytes` for a URL.
pub open spec fn can_answer<L: ImageLoader>(
    loader: &L,
    url: Seq<char>,
    bytes: Option<Seq<u8>>,
) -> bool {
    exists|u: &str, b: Option<Vec<u8>>|
        {
            &&& u@ == url
            &&& #[trigger] call_ensures(L::load, (loader, u), b)
            &&& bytes == (match b {
                Some(v) => Some(v@),
                None => None,
            })
        }
}

/// The style sheet that a node links, given what a loader answers: the bytes
/// as text, where they are UTF-8.
pub open spec fn linked_text(dom: &Dom, id: NodeId, bytes: Option<Seq<u8>>) -> Option<Seq<char>> {
    match (link_href(dom, id), bytes) {
        (Some(_), Some(b)) => if valid_utf8(b) {
            Some(decode_utf8(b))
        } else {
            None
        },
        _ => None,
    }
}

/// The style sheets that the first `n` of some nodes link, given what a loader
/// answers for each node.
pub open spec fn linked_sheets(
    dom: &Dom,
    nodes: Seq<NodeId>,
    answers: Seq<Option<Seq<u8>>>,
    n: nat,
) -> Seq<Seq<char>>
    decreases n,
{
    if n == 0 {
        Seq::empty()
    } else {
        let before = linked_sheets(dom, nodes, answers, (n - 1) as nat);
        match linked_text(dom, nodes[n - 1], answers[n - 1]) {
            Some(css) => before.push(css),
            None => before,
        }
    }
}

/// Whether answers can be those of a loader for what some nodes link.
pub open spec fn can_answer_all<L: ImageLoader>(
    loader: &L,
    dom: &Dom,
    nodes: Seq<NodeId>,
    answers: Seq<Option<Seq<u8>>>,
) -> bool {
    &&& answers.len() == nodes.len()
    &&& forall|k: int|
        0 <= k < nodes.len() ==> (link_href(dom, #[trigger] nodes[k]) matches Some(href)
            ==> can_answer(loader, href, answers[k]))
}

fn linked_href<'a>(dom: &'a Dom, id: NodeId) -> (r: Option<&'a str>)
    requires
        dom.has(id),
    ensures
        link_href(dom, id) == (match r {
            Some(h) => Some(h@),
            None => None,
        }),
{
    if !dom.named(id, "link") {
        return None;
    }
    match dom.plain_attribute(id, "rel") {
        Some(rel) => {
            let chars = chars_of(rel);
            let low = lower_chars(chars.as_slice());
            let want = chars_of("stylesheet");
            if chars_eq(low.as_slice(), want.as_slice()) {
                dom.plain_attribute(id, "href")
            } else {
                None
            }
        },
        None => None,
    }
}

/// The style sheets that a document's `<link>` elements name and `loader` has,
/// in the order of a walk with a stack. What is not UTF-8 is passed over.
pub fn linked_stylesheets_with_loader<L: ImageLoader>(dom: &Dom, loader: &L) -> (r: Vec<String>)
    requires
        dom.wf(),
    ensures
        exists|answers: Seq<Option<Seq<u8>>>|
            {
                &&& #[trigger] can_answer_all(loader, dom, dom.stack_order(dom.root()), answers)
                &&& texts(r@) == linked_sheets(
                    dom,
                    dom.stack_order(dom.root()),
                    answers,
                    dom.stack_order(dom.root()).len(),
                )
            },
{
    let walk = dom.walk_with_stack(dom.document());
    proof {
        dom.lemma_stack_order_visits(dom.root());
    }
    let mut sheets: Vec<String> = Vec::new();
    let ghost mut answers = Seq::<Option<Seq<u8>>>::empty();
    let mut i: usize = 0;
    assert(texts(sheets@) =~= Seq::<Seq<char>>::empty());
    while i < walk.len()
        invariant
            dom.wf(),
            walk@ == dom.stack_order(dom.root()),
            forall|x: NodeId| #[trigger]
                dom.stack_order(dom.root()).contains(x) ==> dom.is_within(x, dom.root()),
            i <= walk@.len(),
            answers.len() == i,
            forall|k: int|
                0 <= k < i ==> (link_href(dom, #[trigger] walk@[k]) matches Some(href)
                    ==> can_answer(loader, href, answers[k])),
            texts(sheets@) == linked_sheets(dom, walk@, answers, i as nat),
        decreases walk.len() - i,
    {
        let id = walk[i];
        assert(walk@.contains(walk@[i as int]));
        let ghost known = answers;
        let ghost mut answer: Option<Seq<u8>> = None;
        let ghost before = sheets@;
        if let Some(href) = linked_href(dom, id) {
            let loaded = loader.load(href);
            assert(call_ensures(L::load, (loader, href), loaded));
            if let Some(bytes) = loaded {
                proof {
                    answer = Some(bytes@);
                }
                if let Some(css) = utf8_string(bytes) {
                    sheets.push(css);
                    assert(texts(sheets@) =~= texts(before).push(css@));
                }
            }
            assert(can_answer(loader, href@, answer));
        }
        proof {
            answers = known.push(answer);
            lemma_linked_sheets_prefix(dom, walk@, known, answers, i as nat);
        }
        i += 1;
    }
    assert(can_answer_all(loader, dom, walk@, answers));
    sheets
}

proof fn lemma_linked_sheets_prefix(
    dom: &Dom,
    nodes: Seq<NodeId>,
    a: Seq<Option<Seq<u8>>>,
    b: Seq<Option<Seq<u8>>>,
    n: nat,
)
    requires
        n <= a.len() <= b.len(),
        forall|k: int| 0 <= k < a.len() ==> a[k] == b[k],
    ensures
        linked_sheets(dom, nodes, a, n) == linked_sheets(dom, nodes, b, n),
    decreases n,
{
    if n > 0 {
        lemma_linked_sheets_prefix(dom, nodes, a, b, (n - 1) as nat);
    }
}

// ---------------------------------------------------------------------------
// Laws
// ---------------------------------------------------------------------------
/// What stands before the query and the fragment of a URL is all up to the first `?`
/// or `#`.
pub proof fn a_query_begins_at_its_mark(url: Seq<char>)
    ensures
        ({
            let u = without_query(url);
            &&& u.len() <= url.len()
            &&& u == url.take(u.len() as int)
            &&& !u.contains('#') && !u.contains('?')
            &&& u.len() < url.len() ==> url[u.len() as int] == '#' || url[u.len() as int] == '?'
        }),
    decreases url.len(),
{
    let u = without_query(url);
    if url.len() == 0 || url[0] == '#' || url[0] == '?' {
        assert(u =~= url.take(0));
    } else {
        let rest = url.skip(1);
        a_query_begins_at_its_mark(rest);
        let v = without_query(rest);
        assert(u == seq![url[0]] + v);
        assert(u =~= url.take(u.len() as int));
        assert forall|c: char| (c == '#' || c == '?') implies !u.contains(c) by {
            if u.contains(c) {
                let i = u.index_of(c);
                if i > 0 {
                    assert(v[i - 1] == c);
                    assert(v.contains(c));
                }
            }
        }
        if u.len() < url.len() {
            assert(url[u.len() as int] == rest[v.len() as int]);
        }
    }
}

/// A URL that goes over the network, holds its own data or is empty leads nowhere on
/// disk. A `file:` URL leads to its file. A path from the root leads below the root of
/// the tests, and any other below the directory of the document.
pub proof fn a_url_leads_where_it_begins(url: Seq<char>, u: Seq<char>)
    requires
        u == text::trimmed(without_query(url)),
    ensures
        ({
            let head = |h: Seq<char>| h.len() <= u.len() && u.take(h.len() as int) == h;
            let away = head("http://"@) || head("https://"@) || head("//"@) || head("data:"@);
            &&& u.len() == 0 || away ==> target_of(url) == UrlTarget::Nowhere
            &&& u.len() > 0 && !away && head("file:"@) ==> target_of(url) == UrlTarget::FileUrl(u)
            &&& u.len() > 0 && !away && !head("file:"@) && u[0] == '/' ==> target_of(url)
                == UrlTarget::UnderRoot(u.skip(1))
            &&& u.len() > 0 && !away && !head("file:"@) && u[0] != '/' ==> target_of(url)
                == UrlTarget::UnderBase(u)
        }),
{
}

/// A path under a directory begins with the directory, ends with the path, and has one
/// slash between them: its own, or the one that the directory ends in.
pub proof fn a_path_under_a_directory_joins_the_two(dir: Seq<char>, rest: Seq<char>)
    requires
        dir.len() > 0,
    ensures
        ({
            let path = path_under(dir, rest);
            &&& path.take(dir.len() as int) == dir
            &&& dir.last() == '/' ==> path == dir + rest
            &&& dir.last() != '/' ==> path == dir + seq!['/'] + rest
        }),
{
    let path = path_under(dir, rest);
    assert(path.take(dir.len() as int) =~= dir);
    if dir.last() != '/' {
        assert(path =~= dir + seq!['/'] + rest);
    }
}

/// The style sheet of a `<style>` element is the text in it, one child after the other,
/// where there is more than white space; no other node holds one.
pub proof fn a_style_element_holds_its_text(dom: &Dom, id: NodeId)
    ensures
        ({
            let css = dom.children_at(id).map_values(
                |c: NodeId|
                    match dom.text_at(c) {
                        Some(t) => t,
                        None => Seq::<char>::empty(),
                    },
            ).flatten();
            &&& style_text(dom, id) is Some <==> dom.is_named(id, "style"@) && text::trimmed(
                css,
            ).len() > 0
            &&& style_text(dom, id) matches Some(t) ==> t == css
        }),
{
    let all = dom.children_at(id);
    lemma_children_text(dom, id, all.len());
    assert(all.take(all.len() as int) =~= all);
}

proof fn lemma_children_text(dom: &Dom, id: NodeId, k: nat)
    requires
        k <= dom.children_at(id).len(),
    ensures
        children_text(dom, id, k) == dom.children_at(id).take(k as int).map_values(
            |c: NodeId|
                match dom.text_at(c) {
                    Some(t) => t,
                    None => Seq::<char>::empty(),
                },
        ).flatten(),
    decreases k,
{
    let f = |c: NodeId|
        match dom.text_at(c) {
            Some(t) => t,
            None => Seq::<char>::empty(),
        };
    let parts = dom.children_at(id).take(k as int).map_values(f);
    if k == 0 {
        assert(parts =~= Seq::<Seq<char>>::empty());
    } else {
        lemma_children_text(dom, id, (k - 1) as nat);
        let before = dom.children_at(id).take(k - 1).map_values(f);
        let last = dom.children_at(id)[k - 1];
        assert(parts =~= before.push(f(last)));
        before.lemma_flatten_push(f(last));
        assert(children_text(dom, id, k) =~= before.flatten() + f(last));
    }
}

/// The style sheets that some nodes hold are those of the nodes that hold one, in their
/// order.
pub proof fn the_sheets_of_nodes_stand_in_their_order(dom: &Dom, nodes: Seq<NodeId>, n: nat)
    requires
        n <= nodes.len(),
    ensures
        sheets_of(dom, nodes, n) == nodes.take(n as int).filter(
            |id: NodeId| style_text(dom, id) is Some,
        ).map_values(|id: NodeId| style_text(dom, id)->0),
    decreases n,
{
    let p = |id: NodeId| style_text(dom, id) is Some;
    let f = |id: NodeId| style_text(dom, id)->0;
    let front = nodes.take(n as int);
    reveal(Seq::filter);
    if n == 0 {
        assert(front.filter(p).map_values(f) =~= Seq::<Seq<char>>::empty());
    } else {
        the_sheets_of_nodes_stand_in_their_order(dom, nodes, (n - 1) as nat);
        assert(front.drop_last() =~= nodes.take(n - 1));
        assert(front.last() == nodes[n - 1]);
        let before = nodes.take(n - 1).filter(p);
        if p(nodes[n - 1]) {
            assert(before.push(nodes[n - 1]).map_values(f) =~= before.map_values(f).push(
                f(nodes[n - 1]),
            ));
        }
    }
}

/// A `<link>` links a style sheet where its `rel` is `stylesheet`, whatever the case of
/// its letters, and it has an `href`; the sheet stands there. What a node links is the
/// text of the bytes that are found there, where they are UTF-8.
pub proof fn a_link_element_links_its_address(dom: &Dom, id: NodeId, bytes: Option<Seq<u8>>)
    ensures
        link_href(dom, id) is Some <==> {
            &&& dom.is_named(id, "link"@)
            &&& dom.plain_attr(id, "rel"@) matches Some(rel) && text::lowered(rel) == "stylesheet"@
            &&& dom.plain_attr(id, "href"@) is Some
        },
        link_href(dom, id) is Some ==> link_href(dom, id) == dom.plain_attr(id, "href"@),
        linked_text(dom, id, bytes) is Some <==> {
            &&& link_href(dom, id) is Some
            &&& bytes matches Some(b) && valid_utf8(b)
        },
        linked_text(dom, id, bytes) matches Some(t) ==> t == decode_utf8(bytes->0),
{
}

/// Whether what stands in a source text from one place up to another is the inside of
/// a `<style>` element: an opening tag ends right before it, a closing tag begins right
/// after it, and no closing tag begins in it.
pub open spec fn is_style_block(html: Seq<char>, start: int, close: int) -> bool {
    let low = text::lowered(html);
    &&& 0 < start <= close
    &&& close + 8 <= html.len()
    &&& html[start - 1] == '>'
    &&& low.subrange(close, close + 8) == "</style>"@
    &&& forall|k: int| start <= k < close && k + 8 <= html.len() ==> #[trigger] low.subrange(
        k,
        k + 8,
    ) != "</style>"@
    &&& exists|open: int|
        0 <= open && open + 6 < start && #[trigger] low.subrange(open, open as int + 6) == "<style"@
            && forall|k: int| open <= k < start - 1 ==> #[trigger] html[k] != '>'
}

/// Whether a source text has a `<style>` element with the given inside.
pub open spec fn has_style_block(html: Seq<char>, inside: Seq<char>) -> bool {
    exists|start: int, close: int| #[trigger]
        is_style_block(html, start, close) && html.subrange(start, close) == inside
}

/// Each block of a source text is the inside of a `<style>` element in it.
pub proof fn a_block_is_the_inside_of_a_style_element(html: Seq<char>, from: nat)
    ensures
        forall|i: int|
            0 <= i < blocks_from(html, from).len() ==> has_style_block(
                html,
                #[trigger] blocks_from(html, from)[i],
            ),
    decreases html.len() - from,
{
    let low = text::lowered(html);
    let all = blocks_from(html, from);
    if all.len() > 0 {
        reveal_strlit("<style");
        reveal_strlit("</style>");
        let o = scan::part_index(low.skip(from as int), "<style"@)->0;
        scan::lemma_part_index_fits(low.skip(from as int), "<style"@);
        let open = from + o;
        assert(low.subrange(open as int, open as int + 6) =~= low.skip(from as int).subrange(
            o as int,
            o as int + 6,
        ));
        let g = scan::first_index(low.skip(open as int), '>')->0;
        scan::lemma_first_index_fits(low.skip(open as int), '>');
        let start = open + g + 1;
        let tail = low.skip(start as int);
        let c = scan::part_index(tail, "</style>"@)->0;
        scan::lemma_part_index_fits(tail, "</style>"@);
        let close = start + c;
        scan::a_part_is_found_where_it_first_occurs(tail, "</style>"@);
        scan::a_part_is_found_where_it_first_occurs(low.skip(from as int), "<style"@);
        assert(low[start - 1] == low.skip(open as int)[g as int]);
        assert(html[start - 1] == '>') by {
            text::lower_case_changes_capitals_only(html, start - 1);
        }
        assert(low.subrange(close as int, close as int + 8) =~= tail.subrange(c as int, c as int + 8));
        assert forall|k: int| start <= k < close && k + 8 <= html.len() implies (
        #[trigger] low.subrange(k, k + 8)) != "</style>"@ by {
            assert(low.subrange(k, k + 8) =~= tail.subrange(k - start, k - start + 8));
        }
        assert forall|k: int| open <= k < start - 1 implies #[trigger] html[k] != '>' by {
            assert(low[k] == low.skip(open as int)[k - open]);
            text::lower_case_changes_capitals_only(html, k);
        }
        let tag = low.subrange(open as int, open as int + 6);
        assert(tag == "<style"@);
        assert(tag[0] == '<' && tag[1] == 's' && tag[2] == 't');
        assert(tag[3] == 'y' && tag[4] == 'l' && tag[5] == 'e');
        assert(open + 6 < start) by {
            if g < 6 {
                assert(tag[g as int] == low.skip(open as int)[g as int]);
            }
        }
        assert(low.subrange(close as int, close as int + 8) == "</style>"@);
        assert(exists|o: int|
            0 <= o && o + 6 < start && #[trigger] low.subrange(o, o + 6) == "<style"@
                && forall|k: int| o <= k < start - 1 ==> #[trigger] html[k] != '>');
        assert(is_style_block(html, start as int, close as int));
        assert(all[0] == html.subrange(start as int, close as int));
        a_block_is_the_inside_of_a_style_element(html, close + 8);
        let more = blocks_from(html, close + 8);
        assert(all == seq![html.subrange(start as int, close as int)] + more);
        assert forall|i: int| 0 <= i < all.len() implies has_style_block(
            html,
            #[trigger] all[i],
        ) by {
            if i > 0 {
                assert(all[i] == more[i - 1]);
            }
        }
    }
}

/// An address within the page resolves under the directory of its page, and one
/// from the root under that of the tests, where there is such a directory; an
/// address that leads nowhere resolves to no path.
pub proof fn an_address_resolves_under_its_directory(
    resolver: ResourceResolver,
    url: Seq<char>,
    r: Option<PathBuf>,
)
    requires
        resolver.can_resolve(url, r),
    ensures
        target_of(url) is Nowhere ==> r is None,
        target_of(url) matches UrlTarget::UnderBase(rest) ==> match resolver.base_dir {
            Some(dir) => r matches Some(p) && path_text(p) == Some(path_under(dir@, rest)),
            None => r is None,
        },
        target_of(url) matches UrlTarget::UnderRoot(rest) ==> match resolver.tests_root {
            Some(dir) => r matches Some(p) && path_text(p) == Some(path_under(dir@, rest)),
            None => r is None,
        },
{
}

} // verus!
