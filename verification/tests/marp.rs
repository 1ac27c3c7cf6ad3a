use rsslide::importer::marp::{import, parse_marp, SlideError};

#[test]
fn imports_front_matter_and_single_slide() {
    let md = "---\ntitle: My Talk\ntheme: default\npaginate: true\n---\n\n# Hello\n\nsome text\n";
    let pres = parse_marp(md).unwrap();
    assert_eq!(pres.title.as_deref(), Some("My Talk"));
    assert_eq!(pres.theme.as_deref(), Some("default"));
    assert_eq!(pres.paginate, Some(true));
    assert_eq!(pres.slides.len(), 1);
    assert_eq!(pres.slides[0].title.as_deref(), Some("Hello"));
    assert_eq!(pres.slides[0].content_lines, vec!["some text".to_string()]);
}

#[test]
fn splits_multiple_slides_on_hr() {
    let md = "# A\n\ncontent A\n\n---\n\n# B\n\ncontent B\n";
    let pres = parse_marp(md).unwrap();
    assert_eq!(pres.slides.len(), 2);
    assert_eq!(pres.slides[0].title.as_deref(), Some("A"));
    assert_eq!(pres.slides[1].title.as_deref(), Some("B"));
}

#[test]
fn parses_bullets_and_code() {
    let md = "# Slide\n\n- one\n- two\n\n```rust\nfn main() {}\n```\n";
    let pres = parse_marp(md).unwrap();
    let s = &pres.slides[0];
    assert_eq!(s.bullets, vec!["one".to_string(), "two".to_string()]);
    let code = s.code.as_ref().unwrap();
    assert_eq!(code.language.as_deref(), Some("rust"));
    assert_eq!(code.source, "fn main() {}");
}

#[test]
fn hr_inside_code_fence_is_not_a_separator() {
    let md = "# A\n\n```\n---\n```\n";
    let pres = parse_marp(md).unwrap();
    assert_eq!(pres.slides.len(), 1);
}

#[test]
fn parses_image() {
    let md = "# Pic\n\n![alt](diagram.svg)\n";
    let pres = parse_marp(md).unwrap();
    assert_eq!(pres.slides[0].image.as_deref(), Some("diagram.svg"));
}

#[test]
fn yaml_output_starts_with_doc_marker() {
    let md = "---\ntitle: T\n---\n\n# S\n\n- a\n- b\n";
    let out = import(md).unwrap();
    assert!(out.starts_with("---\n"));
    assert!(out.contains("title: T"));
    assert!(out.contains("  - title: S"));
    assert!(out.contains("      - a"));
}

#[test]
fn captures_subheading_as_subtitle() {
    let md = "## Title\n### Sub\n\nbody\n";
    let pres = parse_marp(md).unwrap();
    let s = &pres.slides[0];
    assert_eq!(s.title.as_deref(), Some("Title"));
    let (text, level) = s.subtitle.as_ref().unwrap();
    assert_eq!(text, "Sub");
    assert_eq!(*level, 3);
    // The subheading must not also leak into content.
    for line in &s.content_lines {
        assert!(!line.starts_with('#'), "heading leaked: {line}");
    }
}

#[test]
fn second_subheading_is_an_error() {
    let md = "# T\n\n## A\n\n## B\n";
    let err = parse_marp(md).unwrap_err();
    assert!(err.message().contains("more than one"), "{}", err.message());
}

#[test]
fn yaml_emits_subtitle_shorthand_for_level_2() {
    let md = "# T\n\n## Sub\n";
    let out = import(md).unwrap();
    assert!(out.contains("subtitle: Sub"), "{out}");
}

#[test]
fn yaml_emits_subtitle_block_for_higher_level() {
    let md = "# T\n\n#### Sub\n";
    let out = import(md).unwrap();
    assert!(out.contains("subtitle:\n      text: Sub\n      level: 4"), "{out}");
}

#[test]
fn parses_simple_table() {
    let md = "# T\n\n| A | B |\n|---|---|\n| 1 | 2 |\n| 3 | 4 |\n";
    let pres = parse_marp(md).unwrap();
    let t = pres.slides[0].table.as_ref().expect("table");
    assert_eq!(t.headers, vec!["A".to_string(), "B".to_string()]);
    assert_eq!(t.rows.len(), 2);
    assert_eq!(t.rows[0], vec!["1".to_string(), "2".to_string()]);
    assert_eq!(t.aligns, vec!["left", "left"]);
}

#[test]
fn parses_table_with_alignment() {
    let md = "# T\n\n| A | B | C |\n|:--|:-:|--:|\n| 1 | 2 | 3 |\n";
    let pres = parse_marp(md).unwrap();
    let t = pres.slides[0].table.as_ref().unwrap();
    assert_eq!(t.aligns, vec!["left", "center", "right"]);
}

#[test]
fn table_does_not_leak_into_content() {
    let md = "# T\n\n| A | B |\n|---|---|\n| 1 | 2 |\n";
    let pres = parse_marp(md).unwrap();
    // The cell text must not have been pushed into content_lines.
    for line in &pres.slides[0].content_lines {
        assert!(!line.contains('|'), "table row leaked: {line}");
    }
}

#[test]
fn yaml_emits_table_block() {
    let md = "# T\n\n| A | B |\n|:-:|--:|\n| 1 | 2 |\n";
    let out = import(md).unwrap();
    assert!(out.contains("table:"), "{out}");
    assert!(out.contains("headers:"));
    assert!(out.contains("aligns:"));
    assert!(out.contains("- center"));
    assert!(out.contains("- right"));
}

#[test]
fn long_content_uses_block_scalar() {
    let long = "x".repeat(200);
    let md = format!("# S\n\n{long}\n");
    let out = import(&md).unwrap();
    assert!(out.contains("content: |-"));
}

// ── further cases ──────────────────────────────────────────────────────────

#[test]
fn whole_document_is_emitted_exactly() {
    let md = "---\ntitle: \"Deck\"\npaginate: false\n---\n# One\n\nhello\nworld\n\n---\n\n## Two\n- x: y\n- 'q'\n![d](p.svg)\n";
    let out = import(md).unwrap();
    let expected = "---\ntitle: Deck\npaginate: false\n\nslides:\n  - title: One\n    content: |-\n      hello\n      world\n\n  - title: Two\n    bullets:\n      - 'x: y'\n      - '''q'''\n    image: p.svg\n";
    assert_eq!(out, expected);
}

#[test]
fn empty_slide_is_an_empty_mapping() {
    let md = "<!-- only a comment -->\n\n---\n\n# B\n";
    let out = import(md).unwrap();
    assert!(out.contains("slides:\n  - {}\n\n  - title: B\n"), "{out}");
}

#[test]
fn multi_line_comment_is_skipped() {
    let md = "# T\n<!--\nhidden\nstill hidden -->\nshown\n";
    let pres = parse_marp(md).unwrap();
    assert_eq!(pres.slides[0].content_lines, vec!["shown".to_string()]);
}

#[test]
fn second_title_is_an_error_with_its_slide_number() {
    let md = "# A\n\n---\n\n# B\n# C\n";
    let err = parse_marp(md).unwrap_err();
    assert_eq!(err.slide, 2);
    assert!(matches!(err.kind, SlideError::SecondTitle(ref h) if h == "C"));
    assert_eq!(
        err.message(),
        "slide 2: second `# ` heading \"C\" on a slide that already has a title \u{2014} only one title is allowed"
    );
    let err2 = parse_marp("# T\n## A\n## B").unwrap_err();
    assert_eq!(err2.message(), "slide 1: more than one sub-heading on a slide; second is \"B\"");
}

#[test]
fn paragraphs_are_separated_by_a_blank_line() {
    let md = "# T\na\nb\n\nc\n";
    let pres = parse_marp(md).unwrap();
    assert_eq!(
        pres.slides[0].content_lines,
        vec!["a".to_string(), "b".to_string(), String::new(), "c".to_string()]
    );
}

#[test]
fn tilde_fence_and_unclosed_fence() {
    let md = "# T\n~~~py\nx = 1\n\n\n";
    let pres = parse_marp(md).unwrap();
    let code = pres.slides[0].code.as_ref().unwrap();
    assert_eq!(code.language.as_deref(), Some("py"));
    assert_eq!(code.source, "x = 1");
}

#[test]
fn front_matter_needs_a_closing_line() {
    let md = "---\ntitle: X\n# Not closed\n";
    let pres = parse_marp(md).unwrap();
    assert!(pres.title.is_none());
}

#[test]
fn front_matter_after_byte_order_mark_and_crlf() {
    let md = "\u{feff}---\r\ntitle: 'Quoted'\r\ntheme: gaia\r\npaginate: maybe\r\n---\r\n# H\r\n";
    let pres = parse_marp(md).unwrap();
    assert_eq!(pres.title.as_deref(), Some("Quoted"));
    assert_eq!(pres.theme.as_deref(), Some("gaia"));
    assert_eq!(pres.paginate, None);
    assert_eq!(pres.slides[0].title.as_deref(), Some("H"));
}

#[test]
fn table_with_ragged_rows_stops_at_first_mismatch() {
    let md = "# T\n| A | B |\n|---|---|\n| 1 | 2 |\n| 3 |\n";
    let pres = parse_marp(md).unwrap();
    let t = pres.slides[0].table.as_ref().unwrap();
    assert_eq!(t.rows.len(), 1);
    assert_eq!(pres.slides[0].content_lines, vec!["| 3 |".to_string()]);
}

#[test]
fn only_first_image_is_kept() {
    let md = "# T\n![a](one.svg)\n![b](two.svg)\n";
    let pres = parse_marp(md).unwrap();
    assert_eq!(pres.slides[0].image.as_deref(), Some("one.svg"));
    assert_eq!(pres.slides[0].content_lines, vec!["![b](two.svg)".to_string()]);
}

#[test]
fn slide_separators_of_each_kind() {
    let md = "# A\n***\n# B\n___\n# C\n  ---  \n\n";
    let pres = parse_marp(md).unwrap();
    assert_eq!(pres.slides.len(), 3);
}

#[test]
fn code_block_in_yaml_is_a_literal_block() {
    let md = "# T\n```js\nlet a = 1;   \n\n  b()\n```\n";
    let out = import(md).unwrap();
    assert!(
        out.contains("    code:\n      language: js\n      source: |-\n        let a = 1;\n\n          b()\n"),
        "{out}"
    );
}

#[test]
fn markdown_samples_import() {
    let md = "---\ntitle: Alignment Examples\ntheme: default\npaginate: true\n---\n\n<!--\nnotes\n-->\n\n<!-- one -->\n## Slide-level: left + top (default)\n\n- Both title and bullets follow align\n- Default \u{2014} no properties needed\n\n---\n\n<!-- align: center -->\n## Slide-level: center + top\n\n- Title and bullets both centered\n";
    let pres = parse_marp(md).unwrap();
    assert_eq!(pres.slides.len(), 2);
    assert_eq!(pres.slides[1].title.as_deref(), Some("Slide-level: center + top"));
    assert_eq!(pres.slides[0].bullets.len(), 2);
}

#[test]
fn content_lines_are_paragraphs_split_by_one_blank() {
    let block: Vec<char> = "# T\n\n  first  \nsecond\n\n\n- b\nthird\n\n".chars().collect();
    let slide = rsslide::importer::marp::parse_slide(&block).unwrap();
    assert_eq!(slide.content_lines, vec!["first", "second", "", "third"]);
    assert_eq!(slide.bullets, vec!["b"]);
}
