use rsslide::importer::emit::scalar;

fn sc(s: &str) -> String {
    scalar(&s.chars().collect::<Vec<char>>()).into_iter().collect()
}

#[test]
fn plain_text_is_left_alone() {
    assert_eq!(sc("hello world"), "hello world");
    assert_eq!(sc("a-b"), "a-b");
    assert_eq!(sc("1.2.3"), "1.2.3");
}

#[test]
fn empty_text_is_two_quotes() {
    assert_eq!(sc(""), "''");
}

#[test]
fn indicators_and_keywords_are_quoted() {
    assert_eq!(sc("- x"), "'- x'");
    assert_eq!(sc("#tag"), "'#tag'");
    assert_eq!(sc("a: b"), "'a: b'");
    assert_eq!(sc("a #b"), "'a #b'");
    assert_eq!(sc("key:"), "'key:'");
    assert_eq!(sc("true"), "'true'");
    assert_eq!(sc("no"), "'no'");
    assert_eq!(sc("null"), "'null'");
}

#[test]
fn numbers_are_quoted() {
    assert_eq!(sc("42"), "'42'");
    assert_eq!(sc("-1.5e3"), "'-1.5e3'");
    assert_eq!(sc(".5"), "'.5'");
    assert_eq!(sc("1."), "'1.'");
    assert_eq!(sc("inf"), "'inf'");
    assert_eq!(sc("+Infinity"), "'+Infinity'");
    assert_eq!(sc("NaN"), "'NaN'");
    assert_eq!(sc("1e"), "1e");
    assert_eq!(sc("e5"), "e5");
    assert_eq!(sc("0x10"), "0x10");
}

#[test]
fn quotes_are_doubled_inside_quoted_scalars() {
    assert_eq!(sc("'a' b"), "'''a'' b'");
    let parsed: String = {
        let q = sc("it's: 'x'");
        let inner = &q[1..q.len() - 1];
        inner.replace("''", "'")
    };
    assert_eq!(parsed, "it's: 'x'");
}
