use rsslide::config::Color;
use rsslide::highlight::{code_line_count, line_runs, split_lines_with_endings, Highlighting};
use rsslide::model::CodeBlock;

fn code(language: Option<&str>, source: &str, trim: bool) -> CodeBlock {
    CodeBlock { language: language.map(|l| l.to_string()), source: source.to_string(), trim }
}

fn lines(s: &str) -> Vec<String> {
    let cs: Vec<char> = s.chars().collect();
    split_lines_with_endings(&cs).into_iter().map(|l| l.into_iter().collect()).collect()
}

#[test]
fn lines_keep_their_newlines() {
    assert_eq!(lines("foo\nbar\nbaz"), vec!["foo\n", "bar\n", "baz"]);
    assert_eq!(lines("a\n\nb\n"), vec!["a\n", "\n", "b\n"]);
    assert!(lines("").is_empty());
    assert_eq!(lines("\r\n"), vec!["\r\n"]);
}

#[test]
fn code_line_counts() {
    assert_eq!(code_line_count(&code(None, "a\nb\n", false)), 2);
    assert_eq!(code_line_count(&code(None, "a\nb", false)), 2);
    assert_eq!(code_line_count(&code(None, "", false)), 0);
    assert_eq!(code_line_count(&code(None, "a\n\n\n", false)), 3);
    assert_eq!(code_line_count(&code(None, "a\n\n\n", true)), 1);
    assert_eq!(code_line_count(&code(None, "\n\n", true)), 0);
    assert_eq!(code_line_count(&code(None, "a\r\n\r\n\r\n", true)), 1);
}

#[test]
fn runs_skip_line_endings_and_advance_columns() {
    let red = Color(255, 0, 0);
    let blue = Color(0, 0, 255);
    let tokens = vec![
        (red, "let".to_string()),
        (blue, " x".to_string()),
        (red, "".to_string()),
        (blue, ";\r\n".to_string()),
    ];
    let runs = line_runs(&tokens);
    let got: Vec<(u8, String, usize)> =
        runs.iter().map(|r| (r.color.0, r.text.clone(), r.column)).collect();
    assert_eq!(
        got,
        vec![(255, "let".to_string(), 0), (0, " x".to_string(), 3), (0, ";".to_string(), 5)]
    );
    let only_newline = vec![(red, "\n".to_string())];
    assert!(line_runs(&only_newline).is_empty());
}

#[test]
fn highlighted_rows_spell_out_the_lines() {
    let h = Highlighting::new();
    let c = code(Some("rust"), "fn main() {\n    let x = 1;\n}\n", false);
    let rows = h.highlight(&c);
    assert_eq!(rows.len(), 3);
    let texts: Vec<String> =
        rows.iter().map(|r| r.iter().map(|run| run.text.as_str()).collect::<String>()).collect();
    assert_eq!(texts, vec!["fn main() {", "    let x = 1;", "}"]);
    for row in &rows {
        let mut col = 0;
        for run in row {
            assert_eq!(run.column, col);
            col += run.text.chars().count();
        }
    }
    // A Rust keyword is not drawn in the color of plain punctuation.
    let first = &rows[0];
    let keyword = first.iter().find(|r| r.text.contains("fn")).unwrap();
    let brace = rows[2].iter().find(|r| r.text.contains('}')).unwrap();
    assert_ne!(keyword.color.rgb(), brace.color.rgb());
}

#[test]
fn unknown_language_falls_back_to_plain_text() {
    let h = Highlighting::new();
    let rows = h.highlight(&code(Some("no-such-language"), "a b\nc", false));
    assert_eq!(rows.len(), 2);
    let texts: Vec<String> =
        rows.iter().map(|r| r.iter().map(|run| run.text.as_str()).collect::<String>()).collect();
    assert_eq!(texts, vec!["a b", "c"]);
    let colors: Vec<(u8, u8, u8)> = rows.iter().flatten().map(|r| r.color.rgb()).collect();
    assert!(colors.windows(2).all(|w| w[0] == w[1]));
}
