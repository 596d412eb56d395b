//! Resources: URLs, style sheets and images.
use serval_layout::dom::{Attribute, Dom, NodeId, QualName};
use serval_layout::host_loader::{
    classify_url, inline_stylesheets, inline_stylesheets_from_source, join_path,
    linked_stylesheets_with_loader, make_url_data, url_or_placeholder, LocalFileImageLoader,
    ResourceResolver, Target,
};
use serval_layout::image_decode::{
    background_image_url, border_image_url, decode_data_uri, decode_image_bytes, decode_svg_bytes,
    has_data_scheme, pseudo_background_image_url, svg_extent, svg_image, unpremultiply,
    BackgroundImagePlane, DecodedImage, ImageLoader, ImagePlane, NoImageLoader,
};
use serval_layout::style_plane::{
    initial_style, ComputedStyle, CssImage, DisplayOutside, PseudoKind, StyleEntry, StylePlane,
};
use std::path::PathBuf;

const HTML: &str = "http://www.w3.org/1999/xhtml";
const VOID: [&str; 5] = ["img", "br", "link", "input", "meta"];

fn add_attribute(dom: &mut Dom, id: NodeId, local: &str, value: &str) {
    let number = value.parse::<f32>().ok().map(f32::to_bits);
    dom.add_attribute(
        id,
        Attribute { ns: String::new(), local: local.to_string(), value: value.to_string(), number },
    );
}

fn element(dom: &mut Dom, parent: NodeId, local: &str) -> NodeId {
    dom.append_element(parent, QualName { ns: HTML.to_string(), local: local.to_string() })
}

/// Reads markup in which every element is closed and every value is quoted.
fn parse(html: &str) -> Dom {
    let mut dom = Dom::new();
    let mut open = vec![dom.document()];
    let mut rest = html;
    while !rest.is_empty() {
        let top = *open.last().expect("an open node");
        if let Some(tag) = rest.strip_prefix('<') {
            let end = tag.find('>').expect("a closed tag");
            let (inside, after) = (&tag[..end], &tag[end + 1..]);
            rest = after;
            if inside.starts_with('/') {
                open.pop();
                continue;
            }
            let (name, mut attributes) = inside.split_once(' ').unwrap_or((inside, ""));
            let id = element(&mut dom, top, name);
            while !attributes.trim().is_empty() {
                attributes = attributes.trim_start();
                let bare = attributes.find(' ').unwrap_or(attributes.len());
                match attributes.find('=') {
                    Some(eq) if eq < bare => {
                        let value = &attributes[eq + 2..];
                        let quote = value.find('"').expect("a closing quote");
                        add_attribute(&mut dom, id, &attributes[..eq], &value[..quote]);
                        attributes = &value[quote + 1..];
                    },
                    _ => {
                        add_attribute(&mut dom, id, &attributes[..bare], "");
                        attributes = &attributes[bare..];
                    },
                }
            }
            if !VOID.contains(&name) {
                open.push(id);
            }
        } else {
            let end = rest.find('<').unwrap_or(rest.len());
            dom.append_text(top, rest[..end].to_string());
            rest = &rest[end..];
        }
    }
    dom
}

fn find_all(dom: &Dom, local: &str) -> Vec<NodeId> {
    dom.document_order(dom.document()).into_iter().filter(|&n| dom.named(n, local)).collect()
}

fn find(dom: &Dom, local: &str) -> NodeId {
    find_all(dom, local)[0]
}

// ---------------------------------------------------------------------------
// Style sheets
// ---------------------------------------------------------------------------
#[test]
fn inline_style_blocks_are_extracted_from_dom() {
    let doc = parse(
        "<html><head><style>p { color: red; }</style>\
         <style>h1 { color: blue; }</style></head><body></body></html>",
    );
    let sheets = inline_stylesheets(&doc);
    assert_eq!(sheets.len(), 2);
    let joined = sheets.join("\n");
    assert!(joined.contains("color: red"));
    assert!(joined.contains("color: blue"));
    assert_eq!(sheets[0], "p { color: red; }", "in document order");
}

#[test]
fn inline_style_blocks_are_extracted_from_source() {
    let sheets = inline_stylesheets_from_source(
        "<style>p { color: red; }</style><STYLE>h1{color:blue}</STYLE>",
    );
    assert_eq!(sheets.len(), 2);
    assert!(sheets[0].contains("color: red"));
    assert!(sheets[1].contains("color:blue"));
}

#[test]
fn blank_and_unclosed_style_blocks_are_left_out() {
    let doc = parse("<style> \n </style><style>a{}</style>");
    assert_eq!(inline_stylesheets(&doc), vec!["a{}"]);
    let sheets = inline_stylesheets_from_source("<style media=\"x\">a{}</style><style>b{}");
    assert_eq!(sheets, vec!["a{}"]);
    assert!(inline_stylesheets_from_source("<p>no sheet</p>").is_empty());
}

/// A loader that has one remote sheet, one that is not text, and one image.
struct FakeFetcher;

impl ImageLoader for FakeFetcher {
    fn load(&self, url: &str) -> Option<Vec<u8>> {
        match url {
            "https://cdn.example/site.css" => Some(b"body { color: purple; }".to_vec()),
            "broken.css" => Some(vec![0xff, 0xfe]),
            "local.css" => Some("p { content: \"\u{e9}\" }".as_bytes().to_vec()),
            "dot.png" => Some(png(2, 3)),
            _ => None,
        }
    }
}

#[test]
fn linked_stylesheets_load_remote_through_loader() {
    let doc = parse(
        "<html><head>\
         <link rel=\"stylesheet\" href=\"https://cdn.example/site.css\">\
         <link rel=\"stylesheet\" href=\"https://cdn.example/missing.css\">\
         </head><body></body></html>",
    );
    let sheets = linked_stylesheets_with_loader(&doc, &FakeFetcher);
    assert_eq!(sheets.len(), 1);
    assert!(sheets[0].contains("color: purple"));
}

#[test]
fn only_text_that_is_linked_as_a_sheet_is_loaded() {
    let doc = parse(
        "<link rel=\"StyleSheet\" href=\"local.css\"><link rel=\"stylesheet\" href=\"broken.css\">\
         <link rel=\"icon\" href=\"https://cdn.example/site.css\"><link rel=\"stylesheet\">",
    );
    let sheets = linked_stylesheets_with_loader(&doc, &FakeFetcher);
    assert_eq!(sheets, vec!["p { content: \"\u{e9}\" }"]);
    assert!(linked_stylesheets_with_loader(&doc, &NoImageLoader).is_empty());
}

// ---------------------------------------------------------------------------
// URLs
// ---------------------------------------------------------------------------
fn resolver(base: &str, root: &str) -> ResourceResolver {
    ResourceResolver { base_dir: Some(base.to_string()), tests_root: Some(root.to_string()) }
}

#[test]
fn resolver_rejects_remote_and_data_urls() {
    let r = resolver("/base", "/root");
    assert!(r.resolve("https://example.com/a.css").is_none());
    assert!(r.resolve("//cdn/a.css").is_none());
    assert!(r.resolve("data:text/css,body{}").is_none());
    assert!(r.resolve("").is_none());
    assert_eq!(r.resolve("a/b.css"), Some(PathBuf::from("/base/a/b.css")));
    assert_eq!(r.resolve("/x/y.css"), Some(PathBuf::from("/root/x/y.css")));
    assert_eq!(r.resolve("a.css#frag?q=1"), Some(PathBuf::from("/base/a.css")));
}

#[test]
fn a_url_resolves_against_the_directories_there_are() {
    let at = ResourceResolver::at("/docs".to_string());
    assert_eq!(at.resolve(" a.css "), Some(PathBuf::from("/docs/a.css")));
    assert_eq!(at.resolve("/a.css"), None, "there is no root");
    let none = ResourceResolver::rootless();
    assert_eq!(none.resolve("a.css"), None);
    assert_eq!(LocalFileImageLoader::new(at).resolver.base_dir.as_deref(), Some("/docs"));
}

#[test]
fn a_file_url_is_turned_into_a_path() {
    let r = ResourceResolver::rootless();
    assert_eq!(r.resolve("file:///tmp/a%20b.css"), Some(PathBuf::from("/tmp/a b.css")));
    assert!(matches!(classify_url("file:///x?y"), Target::FileUrl(_)));
    let target = classify_url("file:///x");
    assert_eq!(r.resolve_to(target, None), None);
    let target = classify_url("file:///x");
    assert_eq!(r.resolve_to(target, Some(PathBuf::from("/x"))), Some(PathBuf::from("/x")));
    let path = r.resolve("file:///tmp/%ff.css").expect("a path that is no text");
    assert_eq!(path.to_str(), None);
    for rest in ["?q=1", "#part", "?a#b", "#?"] {
        let url = format!("file:///tmp/a-b/c{rest}");
        assert_eq!(r.resolve(&url), Some(PathBuf::from("/tmp/a-b/c")));
    }
}

#[test]
fn the_base_is_a_directory_url() {
    let at = ResourceResolver::at("/docs/my site".to_string());
    assert_eq!(at.base_url(None).as_deref(), Some("file:///docs/my%20site/"));
    assert_eq!(at.base_url(Some("/real")).as_deref(), Some("file:///real/"));
    assert_eq!(ResourceResolver::rootless().base_url(Some("/real")), None);
    assert_eq!(at.base_url(Some("/a-b/C_9/")).as_deref(), Some("file:///a-b/C_9/"));
    assert_eq!(at.base_url(Some("/")).as_deref(), Some("file:///"));
    assert_eq!(at.base_url(Some("")), None);
    assert_eq!(ResourceResolver::at("relative".to_string()).base_url(None), None);
    assert_eq!(at.base_path(None), Some("/docs/my site"));
    assert_eq!(at.base_path(Some("/real")), Some("/real"));
    assert_eq!(ResourceResolver::rootless().base_path(Some("/real")), None);
}

#[test]
fn sheets_have_a_base_or_a_placeholder() {
    assert_eq!(make_url_data(Some("HTTP://Example.com/a/../b")), "http://example.com/b");
    assert_eq!(make_url_data(Some("no url")), "about:internal-stylesheet");
    assert_eq!(make_url_data(None), "about:internal-stylesheet");
    assert_eq!(url_or_placeholder(Some("x:y".to_string())), "x:y");
    assert_eq!(url_or_placeholder(None), "about:internal-stylesheet");
}

#[test]
fn paths_are_joined_with_one_slash() {
    let rest: Vec<char> = "b/c".chars().collect();
    assert_eq!(join_path("/a", &rest), "/a/b/c");
    assert_eq!(join_path("/a/", &rest), "/a/b/c");
    assert_eq!(join_path("", &rest), "b/c");
}

// ---------------------------------------------------------------------------
// Images
// ---------------------------------------------------------------------------
fn png(width: u32, height: u32) -> Vec<u8> {
    let picture = image::RgbaImage::from_fn(width, height, |x, y| {
        image::Rgba([x as u8, y as u8, 7, 200])
    });
    let mut out = Vec::new();
    picture
        .write_to(&mut std::io::Cursor::new(&mut out), image::ImageFormat::Png)
        .expect("encode test PNG");
    out
}

#[test]
fn decodes_svg_to_rgba_at_intrinsic_size() {
    let svg = br##"<svg xmlns="http://www.w3.org/2000/svg" width="20" height="20">
            <rect width="20" height="20" fill="#008000"/></svg>"##;
    let decoded = decode_image_bytes(svg).expect("SVG decodes");
    assert_eq!((decoded.width, decoded.height), (20, 20), "intrinsic 20x20");
    let i = ((10 * decoded.width + 10) * 4) as usize;
    let (r, g, b, a) =
        (decoded.rgba[i], decoded.rgba[i + 1], decoded.rgba[i + 2], decoded.rgba[i + 3]);
    assert_eq!(a, 255, "opaque");
    assert!(r < 40 && g > 100 && b < 40, "green center");
}

#[test]
fn crop_extracts_subimage_and_clamps() {
    let mut rgba = Vec::new();
    for _y in 0..2 {
        for x in 0..4 {
            rgba.extend_from_slice(if x < 2 { &[255, 0, 0, 255] } else { &[0, 0, 255, 255] });
        }
    }
    let img = DecodedImage { width: 4, height: 2, rgba };

    let right = img.crop(2, 0, 2, 2).expect("non-empty crop");
    assert_eq!((right.width, right.height), (2, 2));
    assert_eq!(&right.rgba[0..4], &[0, 0, 255, 255], "crop top-left is blue");
    assert_eq!(right.rgba.len(), 2 * 2 * 4, "tightly packed");

    assert!(img.crop(4, 0, 2, 2).is_none(), "a rect at the right edge has no width");
    let clamped = img.crop(1, 1, 9, 9).expect("clamped crop");
    assert_eq!((clamped.width, clamped.height), (3, 1));
    assert_eq!(&clamped.rgba[0..8], &[255, 0, 0, 255, 0, 0, 255, 255]);
}

#[test]
fn a_crop_of_a_crop_is_a_crop_at_the_sum_of_the_corners() {
    let img = DecodedImage { width: 5, height: 4, rgba: (0..80).collect() };
    let part = img.crop(1, 1, 4, 3).expect("a part");
    let twice = part.crop(2, 1, 2, 1).expect("a part of it");
    let once = img.crop(3, 2, 2, 1).expect("the same part");
    assert_eq!((twice.width, twice.height), (2, 1));
    assert_eq!(twice.rgba, once.rgba);
    assert_eq!(twice.rgba, (52..60).collect::<Vec<u8>>());
}

#[test]
fn debug_real_vector_svg() {
    let svg = br##"<svg xmlns="http://www.w3.org/2000/svg"
     width="8px" height="32px" viewBox="0 0 4 64" preserveAspectRatio="none">
  <rect y="0" width="100%" height="50%" fill="lime"/>
  <rect y="50%" width="100%" height="50%" fill="aqua"/></svg>"##;
    let d = decode_image_bytes(svg).expect("decodes");
    assert_eq!((d.width, d.height), (8, 32));
    let px = |x: u32, y: u32| {
        let i = ((y * d.width + x) * 4) as usize;
        (d.rgba[i], d.rgba[i + 1], d.rgba[i + 2], d.rgba[i + 3])
    };
    assert_eq!(px(4, 8), (0, 255, 0, 255));
    assert_eq!(px(4, 24), (0, 255, 255, 255));
    assert_eq!((px(0, 8), px(7, 8)), ((0, 255, 0, 255), (0, 255, 0, 255)));
}

#[test]
fn decodes_svg_data_uri() {
    let uri = "data:image/svg+xml,<svg xmlns='http://www.w3.org/2000/svg' \
               width='8' height='8'><rect width='8' height='8' fill='blue'/></svg>";
    let decoded = decode_data_uri(uri).expect("SVG data-URI decodes");
    assert_eq!((decoded.width, decoded.height), (8, 8));
}

#[test]
fn an_svg_is_painted_at_its_size_rounded_up() {
    let sized = |w: &str, h: &str| {
        let svg = format!("<svg xmlns='http://www.w3.org/2000/svg' width='{w}' height='{h}'/>");
        decode_svg_bytes(svg.as_bytes()).map(|i| (i.width, i.height, i.rgba.len()))
    };
    assert_eq!(sized("2.5", "4"), Some((3, 4, 48)));
    assert_eq!(sized("16385", "1"), None, "too wide");
    assert_eq!(sized("1", "20000"), None, "too high");
    assert_eq!(sized("0", "4"), None, "no area");
}

#[test]
fn raster_images_decode_to_straight_pixels() {
    let decoded = decode_image_bytes(&png(3, 2)).expect("PNG decodes");
    assert_eq!((decoded.width, decoded.height), (3, 2));
    assert_eq!(&decoded.rgba[4 * 4..5 * 4], &[1, 1, 7, 200], "the pixel at (1, 1)");
    assert!(decode_image_bytes(b"no image").is_none());
    assert!(decode_svg_bytes(b"no svg").is_none());
    assert!(decode_svg_bytes(&[0xff, 0xfe, b'<']).is_none(), "neither UTF-8 nor gzipped");
    assert!(decode_svg_bytes(&[0x1f, 0x8b, 0]).is_none(), "cut short");
    assert!(decode_data_uri("http://x/y.png").is_none());
    assert!(decode_data_uri("data:image/png;base64,!!").is_none());
}

#[test]
fn pixels_are_unpremultiplied() {
    let painted = vec![64, 128, 0, 128, 9, 9, 9, 0, 1, 2, 3, 255, 200, 0, 0, 100];
    assert_eq!(
        unpremultiply(painted),
        vec![128, 255, 0, 128, 9, 9, 9, 0, 1, 2, 3, 255, 255, 0, 0, 100],
    );
    let one = svg_image(1, 1, vec![64, 128, 0, 128]);
    assert_eq!((one.width, one.height, one.rgba), (1, 1, vec![128, 255, 0, 128]));
}

#[test]
fn an_svg_document_is_painted_in_whole_pixels() {
    let extent = |w: f32, h: f32| svg_extent(w.to_bits(), h.to_bits());
    assert_eq!(extent(19.1, 20.0), Some((20, 20)));
    assert_eq!(extent(0.5, 1.0), Some((1, 1)));
    assert_eq!(extent(0.0, 5.0), None);
    assert_eq!(extent(16384.0, 1.0), Some((16384, 1)));
    assert_eq!(extent(16384.5, 1.0), None);
    assert_eq!(extent(f32::NAN, 1.0), None);
}

#[test]
fn images_are_decoded_from_their_sources() {
    let doc = parse("<p><img src=\"dot.png\"><img src=\"gone.png\"><img></p><i src=\"dot.png\"></i>");
    let imgs = find_all(&doc, "img");
    let plane = ImagePlane::decode_from_dom_with_loader(&doc, &FakeFetcher);
    assert_eq!(plane.len(), 1);
    let listed: Vec<NodeId> = plane.iter().into_iter().map(|(n, _)| n).collect();
    assert_eq!(listed, vec![imgs[0]]);
    let shown = plane.get(imgs[0]).expect("an image");
    assert_eq!((shown.width, shown.height), (2, 3));
    assert!(plane.get(imgs[1]).is_none());
    assert!(ImagePlane::decode_from_dom(&doc).is_empty(), "without a loader");
    assert!(has_data_scheme("data:,x") && !has_data_scheme("dat") && !has_data_scheme("Data:,x"));
}

#[test]
fn backgrounds_and_borders_have_images() {
    let doc = parse("<p>a</p><p>b</p>");
    let ps = find_all(&doc, "p");
    let url = |u: &str| CssImage::Url(u.to_string());
    let showing = |u: &str| ComputedStyle {
        background_image: vec![url(u)],
        display_outside: DisplayOutside::Block,
        ..initial_style()
    };
    let mut styles = StylePlane::new();
    let primary = ComputedStyle { border_image_source: url("dot.png"), ..showing("dot.png") };
    styles.entries.insert(
        ps[0],
        StyleEntry {
            primary: Some(primary),
            before: Some(showing("dot.png")),
            after: Some(ComputedStyle {
                display_outside: DisplayOutside::Inline,
                ..showing("dot.png")
            }),
            ..StyleEntry::blank()
        },
    );
    styles.set_primary(
        ps[1],
        ComputedStyle {
            background_image: vec![CssImage::Generated, url("dot.png")],
            ..initial_style()
        },
    );
    assert_eq!(background_image_url(&styles, ps[0]), Some("dot.png"));
    assert_eq!(background_image_url(&styles, ps[1]), None, "the topmost layer is no url");
    assert_eq!(border_image_url(&styles, ps[0]), Some("dot.png"));
    assert_eq!(border_image_url(&styles, ps[1]), None);
    let pseudo = |kind| pseudo_background_image_url(&styles, ps[0], kind);
    assert_eq!(pseudo(PseudoKind::Before), Some("dot.png"));
    assert_eq!(pseudo(PseudoKind::After), None, "an inline pseudo-element shows none");

    let plane = BackgroundImagePlane::decode_from_cascade(&doc, &styles, &FakeFetcher);
    assert_eq!(plane.len(), 3);
    assert_eq!(plane.get(ps[0]).map(|i| i.height), Some(3));
    assert!(plane.get(ps[1]).is_none());
    assert!(plane.get_pseudo(ps[0], PseudoKind::Before).is_some());
    assert!(plane.get_pseudo(ps[0], PseudoKind::After).is_none());
    assert!(plane.get_border_image(ps[0]).is_some());
    assert!(BackgroundImagePlane::new().is_empty() && !plane.is_empty());
}
