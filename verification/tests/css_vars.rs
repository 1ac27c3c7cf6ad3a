use rsslide::css_vars::flatten;

#[test]
fn flattens_basic_var() {
    let svg = r##"<svg><style>:root { --c: #ff0000; }</style><rect fill="var(--c)"/></svg>"##;
    let out = flatten(svg);
    assert!(out.contains(r##"fill="#ff0000""##));
    assert!(!out.contains("var(--c)"));
}

#[test]
fn falls_back_when_undefined() {
    let svg = r##"<svg><rect fill="var(--missing, #00ff00)"/></svg>"##;
    let out = flatten(svg);
    assert!(out.contains(r##"fill="#00ff00""##));
}

#[test]
fn preserves_unknown_without_fallback() {
    let svg = r#"<svg><rect fill="var(--missing)"/></svg>"#;
    let out = flatten(svg);
    assert!(out.contains("var(--missing)"));
}

#[test]
fn handles_multiple_style_blocks() {
    let svg = r#"<svg>
        <style>:root { --a: red; }</style>
        <style>:root { --b: blue; }</style>
        <rect fill="var(--a)"/>
        <rect fill="var(--b)"/>
    </svg>"#;
    let out = flatten(svg);
    assert!(out.contains(r#"fill="red""#));
    assert!(out.contains(r#"fill="blue""#));
}

#[test]
fn first_declaration_wins() {
    let svg = r#"<svg>
        <style>:root { --a: red; }</style>
        <style>:root { --a: green; }</style>
        <rect fill="var(--a)"/>
    </svg>"#;
    let out = flatten(svg);
    assert!(out.contains(r#"fill="red""#));
}

#[test]
fn noop_when_no_style_block() {
    let svg = r##"<svg><rect fill="#abc"/></svg>"##;
    assert_eq!(flatten(svg), svg);
}

#[test]
fn resolves_many_vars_in_one_pass() {
    let svg = r##"<svg>
        <style>:root {
            --bg: #fff;
            --fg: #000;
        }</style>
        <rect fill="var(--bg)" stroke="var(--fg)"/>
    </svg>"##;
    let out = flatten(svg);
    assert!(out.contains(r##"fill="#fff""##));
    assert!(out.contains(r##"stroke="#000""##));
}

#[test]
fn exact_output_of_a_substitution() {
    let svg = "<style>* { --x : 1px ; }</style><g w=\"var( --x )\" h=\"var(--y,2)\"/>";
    assert_eq!(
        flatten(svg),
        "<style>* { --x : 1px ; }</style><g w=\"1px\" h=\"2\"/>"
    );
}

#[test]
fn unclosed_var_is_copied_through() {
    let svg = "<style>:root{--a:b}</style>x var(--a y";
    assert_eq!(flatten(svg), svg);
}

#[test]
fn nested_parentheses_stay_inside_one_var() {
    let svg = "<p f=\"var(--none, rgb(1, 2, 3))\"/>";
    assert_eq!(flatten(svg), "<p f=\"rgb(1, 2, 3)\"/>");
}

#[test]
fn empty_values_are_not_declarations() {
    let svg = "<style>:root { --a: ; --a: blue; }</style><r f=\"var(--a)\"/>";
    assert!(flatten(svg).contains("f=\"blue\""));
}

#[test]
fn non_ascii_text_passes_through() {
    let svg = "<svg><text>héllo → wörld</text></svg>";
    assert_eq!(flatten(svg), svg);
    let svg2 = "<style>:root{--c:ünï}</style><t f=\"var(--c)\">é</t>";
    assert_eq!(flatten(svg2), "<style>:root{--c:ünï}</style><t f=\"ünï\">é</t>");
}
