use rsslide::model::{CodeBlock, Column, Slide, Subtitle};
use rsslide::page::{is_svg_name, page_label, slide_blocks, svg_source, title_rule, Block, SvgSource};

fn slide(svg: Option<&str>, image: Option<&str>) -> Slide {
    Slide {
        title: None,
        subtitles: vec![],
        content: None,
        bullets: None,
        code: None,
        image: image.map(|s| s.to_string()),
        svg: svg.map(|s| s.to_string()),
        class: None,
        background: None,
        align: None,
        title_align: None,
        content_align: None,
        valign: None,
        columns: None,
        bullets_first: false,
        table: None,
    }
}

#[test]
fn inline_svg_wins_over_image() {
    match svg_source(&slide(Some("<svg/>"), Some("pic.png"))).unwrap() {
        Some(SvgSource::Inline(s)) => assert_eq!(s, "<svg/>"),
        other => panic!("unexpected {other:?}"),
    }
}

#[test]
fn svg_file_name_in_any_case() {
    match svg_source(&slide(None, Some("diagrams/Flow.SVG"))).unwrap() {
        Some(SvgSource::File(p)) => assert_eq!(p, "diagrams/Flow.SVG"),
        other => panic!("unexpected {other:?}"),
    }
    assert!(svg_source(&slide(None, Some("a.svg"))).is_ok());
}

#[test]
fn raster_image_is_refused() {
    let err = svg_source(&slide(None, Some("photo.png"))).unwrap_err();
    assert_eq!(err, "image path \"photo.png\" is not an .svg (raster images not yet supported)");
    assert!(svg_source(&slide(None, Some("svg"))).is_err());
}

#[test]
fn no_picture() {
    assert!(svg_source(&slide(None, None)).unwrap().is_none());
}

#[test]
fn svg_names() {
    assert!(is_svg_name("x.svg"));
    assert!(is_svg_name(".svg"));
    assert!(!is_svg_name("x.SVG"));
    assert!(!is_svg_name("x.svgz"));
}

#[test]
fn page_labels() {
    assert_eq!(page_label(1, 12), "1 / 12");
    assert_eq!(page_label(10, 10), "10 / 10");
}

#[test]
fn blocks_in_drawing_order() {
    let mut s = slide(Some("<svg/>"), None);
    s.title = Some("T".to_string());
    s.subtitles = vec![Subtitle::plain("a".to_string()), Subtitle::plain("b".to_string())];
    s.bullets = Some(vec!["x".to_string()]);
    s.columns = Some(vec![Column { header: None, bullets: vec![] }]);
    s.code = Some(CodeBlock { language: None, source: "x".to_string(), trim: false });
    assert_eq!(
        slide_blocks(&s, true),
        vec![
            Block::Title,
            Block::Subtitle(0),
            Block::Subtitle(1),
            Block::Columns,
            Block::Bullets,
            Block::Code,
            Block::Picture,
            Block::PageNumber
        ]
    );
    s.bullets_first = true;
    assert_eq!(
        slide_blocks(&s, false),
        vec![
            Block::Title,
            Block::Subtitle(0),
            Block::Subtitle(1),
            Block::Bullets,
            Block::Columns,
            Block::Code,
            Block::Picture
        ]
    );
}

#[test]
fn empty_slide_draws_nothing() {
    assert!(slide_blocks(&slide(None, None), false).is_empty());
    assert_eq!(slide_blocks(&slide(None, Some("a.png")), false), vec![Block::Picture]);
}

#[test]
fn title_rule_unless_centered() {
    let mut s = slide(None, None);
    assert!(title_rule(&s));
    s.align = Some("center".to_string());
    assert!(!title_rule(&s));
    s.title_align = Some("right".to_string());
    assert!(title_rule(&s));
    s.title_align = Some("center".to_string());
    s.align = None;
    assert!(!title_rule(&s));
}
