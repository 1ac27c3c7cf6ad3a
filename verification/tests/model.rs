use rsslide::model::{CodeBlock, ModelError, Slide, Subtitle, Table, TableAlign};

fn s(x: &str) -> String {
    x.to_string()
}

#[test]
fn subtitle_levels() {
    assert_eq!(Subtitle::new(s("a"), 4).unwrap().level, 4);
    assert_eq!(Subtitle::plain(s("a")).level, 2);
    let e = Subtitle::new(s("x"), 9).unwrap_err();
    assert!(matches!(e, ModelError::SubtitleLevel(9)));
    assert_eq!(e.message(), "subtitle.level must be in 2..=6, got 9");
    assert!(Subtitle::new(s("x"), 1).is_err());
    assert!(Subtitle::new(s("x"), 6).is_ok());
}

#[test]
fn table_aligns_parse() {
    assert_eq!(TableAlign::parse("left").unwrap(), TableAlign::Left);
    assert_eq!(TableAlign::parse("center").unwrap(), TableAlign::Center);
    assert_eq!(TableAlign::parse("right").unwrap(), TableAlign::Right);
    let e = TableAlign::parse("middle").unwrap_err();
    assert_eq!(
        e.message(),
        "table align must be one of left|center|right, got \"middle\""
    );
}

#[test]
fn table_defaults_to_left_aligned() {
    let t = Table::new(vec![s("A"), s("B")], vec![vec![s("1"), s("2")], vec![s("3"), s("4")]], None).unwrap();
    assert_eq!(t.headers, vec![s("A"), s("B")]);
    assert_eq!(t.rows.len(), 2);
    assert_eq!(t.aligns, vec![TableAlign::Left, TableAlign::Left]);
}

#[test]
fn table_rejects_ragged_row() {
    let e = Table::new(vec![s("A"), s("B")], vec![vec![s("1"), s("2")], vec![s("3")]], None).unwrap_err();
    assert!(matches!(e, ModelError::RaggedRow { row: 1, cells: 1, expected: 2 }));
    assert!(e.message().contains("cells"));
    assert_eq!(e.message(), "table row 1 has 1 cells but headers has 2");
}

#[test]
fn table_rejects_aligns_length_mismatch() {
    let e = Table::new(vec![s("A"), s("B")], vec![], Some(vec![TableAlign::Left])).unwrap_err();
    assert_eq!(e.message(), "table.aligns has 1 entries but headers has 2");
}

#[test]
fn table_rejects_empty_headers() {
    let e = Table::new(vec![], vec![], None).unwrap_err();
    assert_eq!(e.message(), "table.headers must be non-empty");
}

fn slide() -> Slide {
    Slide {
        title: None,
        subtitles: vec![],
        content: None,
        bullets: None,
        code: None,
        image: None,
        svg: None,
        class: None,
        background: None,
        align: None,
        title_align: None,
        content_align: None,
        valign: None,
        columns: None,
        bullets_first: false,
        table: None,
    }
}

#[test]
fn alignment_resolution_order() {
    let mut sl = slide();
    assert_eq!(sl.title_alignment(), "left");
    assert_eq!(sl.content_alignment(), "left");
    assert_eq!(sl.vertical_alignment(), "top");
    sl.align = Some(s("center"));
    assert_eq!(sl.title_alignment(), "center");
    assert_eq!(sl.content_alignment(), "center");
    sl.title_align = Some(s("right"));
    sl.content_align = Some(s("left"));
    sl.valign = Some(s("middle"));
    assert_eq!(sl.title_alignment(), "right");
    assert_eq!(sl.content_alignment(), "left");
    assert_eq!(sl.vertical_alignment(), "middle");
}

#[test]
fn code_trim() {
    let c = CodeBlock { language: None, source: s("a\n\r\n\n"), trim: true };
    assert_eq!(c.display_source(), "a");
    let c3 = CodeBlock { language: None, source: s("a\r\n\r\n\r\n"), trim: true };
    assert_eq!(c3.display_source(), "a");
    let c2 = CodeBlock { language: None, source: s("a\n\n"), trim: false };
    assert_eq!(c2.display_source(), "a\n\n");
}
