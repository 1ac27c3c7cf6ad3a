use rsslide::cli::{argument_pairs, Format};

#[test]
fn pairs_of_arguments() {
    assert_eq!(argument_pairs(4), Some(vec![(0, 1), (2, 3)]));
    assert_eq!(argument_pairs(0), Some(vec![]));
    assert_eq!(argument_pairs(3), None);
}

#[test]
fn extensions() {
    assert_eq!(Format::Html.extension(), "html");
    assert_eq!(Format::Pdf.extension(), "pdf");
    assert_eq!(Format::Pptx.extension(), "pptx");
}
