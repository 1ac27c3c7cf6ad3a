//! Bundled language icons for code blocks.
use vstd::prelude::*;

use crate::text::{chars_of, eq_chars};

verus! {

pub const RUST_SVG: &'static str = "<svg xmlns=\"http://www.w3.org/2000/svg\" viewBox=\"0 0 24 24\"><rect width=\"24\" height=\"24\" rx=\"4\" fill=\"#000000\"/><text x=\"12\" y=\"16\" font-family=\"sans-serif\" font-size=\"9\" font-weight=\"bold\" text-anchor=\"middle\" fill=\"#ffffff\">Rs</text></svg>";

pub const PYTHON_SVG: &'static str = "<svg xmlns=\"http://www.w3.org/2000/svg\" viewBox=\"0 0 24 24\"><rect width=\"24\" height=\"24\" rx=\"4\" fill=\"#3776AB\"/><text x=\"12\" y=\"16\" font-family=\"sans-serif\" font-size=\"9\" font-weight=\"bold\" text-anchor=\"middle\" fill=\"#ffffff\">Py</text></svg>";

pub const JAVASCRIPT_SVG: &'static str = "<svg xmlns=\"http://www.w3.org/2000/svg\" viewBox=\"0 0 24 24\"><rect width=\"24\" height=\"24\" rx=\"4\" fill=\"#F7DF1E\"/><text x=\"12\" y=\"16\" font-family=\"sans-serif\" font-size=\"9\" font-weight=\"bold\" text-anchor=\"middle\" fill=\"#ffffff\">JS</text></svg>";

pub const TYPESCRIPT_SVG: &'static str = "<svg xmlns=\"http://www.w3.org/2000/svg\" viewBox=\"0 0 24 24\"><rect width=\"24\" height=\"24\" rx=\"4\" fill=\"#3178C6\"/><text x=\"12\" y=\"16\" font-family=\"sans-serif\" font-size=\"9\" font-weight=\"bold\" text-anchor=\"middle\" fill=\"#ffffff\">TS</text></svg>";

pub const GO_SVG: &'static str = "<svg xmlns=\"http://www.w3.org/2000/svg\" viewBox=\"0 0 24 24\"><rect width=\"24\" height=\"24\" rx=\"4\" fill=\"#00ADD8\"/><text x=\"12\" y=\"16\" font-family=\"sans-serif\" font-size=\"9\" font-weight=\"bold\" text-anchor=\"middle\" fill=\"#ffffff\">Go</text></svg>";

pub const JAVA_SVG: &'static str = "<svg xmlns=\"http://www.w3.org/2000/svg\" viewBox=\"0 0 24 24\"><rect width=\"24\" height=\"24\" rx=\"4\" fill=\"#437291\"/><text x=\"12\" y=\"16\" font-family=\"sans-serif\" font-size=\"9\" font-weight=\"bold\" text-anchor=\"middle\" fill=\"#ffffff\">Jv</text></svg>";

pub const CPP_SVG: &'static str = "<svg xmlns=\"http://www.w3.org/2000/svg\" viewBox=\"0 0 24 24\"><rect width=\"24\" height=\"24\" rx=\"4\" fill=\"#00599C\"/><text x=\"12\" y=\"16\" font-family=\"sans-serif\" font-size=\"9\" font-weight=\"bold\" text-anchor=\"middle\" fill=\"#ffffff\">C++</text></svg>";

pub const RUBY_SVG: &'static str = "<svg xmlns=\"http://www.w3.org/2000/svg\" viewBox=\"0 0 24 24\"><rect width=\"24\" height=\"24\" rx=\"4\" fill=\"#CC342D\"/><text x=\"12\" y=\"16\" font-family=\"sans-serif\" font-size=\"9\" font-weight=\"bold\" text-anchor=\"middle\" fill=\"#ffffff\">Rb</text></svg>";

pub const BASH_SVG: &'static str = "<svg xmlns=\"http://www.w3.org/2000/svg\" viewBox=\"0 0 24 24\"><rect width=\"24\" height=\"24\" rx=\"4\" fill=\"#4EAA25\"/><text x=\"12\" y=\"16\" font-family=\"sans-serif\" font-size=\"9\" font-weight=\"bold\" text-anchor=\"middle\" fill=\"#ffffff\">$_</text></svg>";

pub const HTML_SVG: &'static str = "<svg xmlns=\"http://www.w3.org/2000/svg\" viewBox=\"0 0 24 24\"><rect width=\"24\" height=\"24\" rx=\"4\" fill=\"#E34F26\"/><text x=\"12\" y=\"16\" font-family=\"sans-serif\" font-size=\"9\" font-weight=\"bold\" text-anchor=\"middle\" fill=\"#ffffff\">&lt;&gt;</text></svg>";

pub const CSS_SVG: &'static str = "<svg xmlns=\"http://www.w3.org/2000/svg\" viewBox=\"0 0 24 24\"><rect width=\"24\" height=\"24\" rx=\"4\" fill=\"#1572B6\"/><text x=\"12\" y=\"16\" font-family=\"sans-serif\" font-size=\"9\" font-weight=\"bold\" text-anchor=\"middle\" fill=\"#ffffff\">{}</text></svg>";

/// Languages that have a bundled icon.
#[derive(Clone, Copy, Debug, PartialEq, Eq)]
pub enum Icon {
    Rust,
    Python,
    JavaScript,
    TypeScript,
    Go,
    Java,
    Cpp,
    Ruby,
    Bash,
    Html,
    Css,
}

/// The icon named by a syntax token; tokens are case-sensitive.
pub open spec fn icon_for(token: Seq<char>) -> Option<Icon> {
    if token == "rust"@ {
        Some(Icon::Rust)
    } else if token == "python"@ {
        Some(Icon::Python)
    } else if token == "javascript"@ || token == "js"@ {
        Some(Icon::JavaScript)
    } else if token == "typescript"@ || token == "ts"@ {
        Some(Icon::TypeScript)
    } else if token == "go"@ || token == "golang"@ {
        Some(Icon::Go)
    } else if token == "java"@ {
        Some(Icon::Java)
    } else if token == "cpp"@ || token == "c++"@ {
        Some(Icon::Cpp)
    } else if token == "ruby"@ || token == "rb"@ {
        Some(Icon::Ruby)
    } else if token == "bash"@ || token == "sh"@ || token == "shell"@ {
        Some(Icon::Bash)
    } else if token == "html"@ {
        Some(Icon::Html)
    } else if token == "css"@ {
        Some(Icon::Css)
    } else {
        None
    }
}

/// The SVG source of an icon.
pub open spec fn icon_svg(i: Icon) -> Seq<char> {
    match i {
        Icon::Rust => RUST_SVG@,
        Icon::Python => PYTHON_SVG@,
        Icon::JavaScript => JAVASCRIPT_SVG@,
        Icon::TypeScript => TYPESCRIPT_SVG@,
        Icon::Go => GO_SVG@,
        Icon::Java => JAVA_SVG@,
        Icon::Cpp => CPP_SVG@,
        Icon::Ruby => RUBY_SVG@,
        Icon::Bash => BASH_SVG@,
        Icon::Html => HTML_SVG@,
        Icon::Css => CSS_SVG@,
    }
}

fn svg_of(i: Icon) -> (r: &'static str)
    ensures
        r@ == icon_svg(i),
{
    match i {
        Icon::Rust => RUST_SVG,
        Icon::Python => PYTHON_SVG,
        Icon::JavaScript => JAVASCRIPT_SVG,
        Icon::TypeScript => TYPESCRIPT_SVG,
        Icon::Go => GO_SVG,
        Icon::Java => JAVA_SVG,
        Icon::Cpp => CPP_SVG,
        Icon::Ruby => RUBY_SVG,
        Icon::Bash => BASH_SVG,
        Icon::Html => HTML_SVG,
        Icon::Css => CSS_SVG,
    }
}

fn is_token(t: &[char], word: &str) -> (res: bool)
    ensures
        res == (t@ == word@),
{
    let w = chars_of(word);
    eq_chars(t, w.as_slice())
}

/// Returns the SVG source for a well-known programming language icon,
/// or `None` if no icon is bundled for the given syntect language token.
pub fn language_icon(token: &str) -> (res: Option<&'static str>)
    ensures
        match res {
            Some(svg) => icon_for(token@) is Some && svg@ == icon_svg(icon_for(token@)->0),
            None => icon_for(token@) is None,
        },
{
    let t = chars_of(token);
    let t = t.as_slice();
    let icon = if is_token(t, "rust") {
        Some(Icon::Rust)
    } else if is_token(t, "python") {
        Some(Icon::Python)
    } else if is_token(t, "javascript") || is_token(t, "js") {
        Some(Icon::JavaScript)
    } else if is_token(t, "typescript") || is_token(t, "ts") {
        Some(Icon::TypeScript)
    } else if is_token(t, "go") || is_token(t, "golang") {
        Some(Icon::Go)
    } else if is_token(t, "java") {
        Some(Icon::Java)
    } else if is_token(t, "cpp") || is_token(t, "c++") {
        Some(Icon::Cpp)
    } else if is_token(t, "ruby") || is_token(t, "rb") {
        Some(Icon::Ruby)
    } else if is_token(t, "bash") || is_token(t, "sh") || is_token(t, "shell") {
        Some(Icon::Bash)
    } else if is_token(t, "html") {
        Some(Icon::Html)
    } else if is_token(t, "css") {
        Some(Icon::Css)
    } else {
        None
    };
    match icon {
        Some(i) => Some(svg_of(i)),
        None => None,
    }
}

/// The syntax tokens that name each icon's language, aliases included.
pub open spec fn icon_tokens(i: Icon) -> Seq<Seq<char>> {
    match i {
        Icon::Rust => seq!["rust"@],
        Icon::Python => seq!["python"@],
        Icon::JavaScript => seq!["javascript"@, "js"@],
        Icon::TypeScript => seq!["typescript"@, "ts"@],
        Icon::Go => seq!["go"@, "golang"@],
        Icon::Java => seq!["java"@],
        Icon::Cpp => seq!["cpp"@, "c++"@],
        Icon::Ruby => seq!["ruby"@, "rb"@],
        Icon::Bash => seq!["bash"@, "sh"@, "shell"@],
        Icon::Html => seq!["html"@],
        Icon::Css => seq!["css"@],
    }
}

proof fn lemma_tokens_select()
    ensures
        forall|i: Icon, k: int|
            0 <= k < icon_tokens(i).len() ==> icon_for(#[trigger] icon_tokens(i)[k]) == Some(i),
{
    reveal_strlit("rust");
    reveal_strlit("python");
    reveal_strlit("javascript");
    reveal_strlit("js");
    reveal_strlit("typescript");
    reveal_strlit("ts");
    reveal_strlit("go");
    reveal_strlit("golang");
    reveal_strlit("java");
    reveal_strlit("cpp");
    reveal_strlit("c++");
    reveal_strlit("ruby");
    reveal_strlit("rb");
    reveal_strlit("bash");
    reveal_strlit("sh");
    reveal_strlit("shell");
    reveal_strlit("html");
    reveal_strlit("css");
    assert("rust"@.len() == 4);
    assert("python"@.len() == 6);
    assert("javascript"@.len() == 10);
    assert("js"@.len() == 2);
    assert("typescript"@.len() == 10);
    assert("ts"@.len() == 2);
    assert("go"@.len() == 2);
    assert("golang"@.len() == 6);
    assert("java"@.len() == 4);
    assert("cpp"@.len() == 3);
    assert("c++"@.len() == 3);
    assert("ruby"@.len() == 4);
    assert("rb"@.len() == 2);
    assert("bash"@.len() == 4);
    assert("sh"@.len() == 2);
    assert("shell"@.len() == 5);
    assert("html"@.len() == 4);
    assert("css"@.len() == 3);
    assert(icon_for("rust"@) == Some(Icon::Rust));
    assert(icon_for("python"@) == Some(Icon::Python));
    assert(icon_for("javascript"@) == Some(Icon::JavaScript));
    assert(icon_for("js"@) == Some(Icon::JavaScript));
    assert("typescript"@[0] != "javascript"@[0]);
    assert(icon_for("typescript"@) == Some(Icon::TypeScript));
    assert("ts"@[0] != "js"@[0]);
    assert(icon_for("ts"@) == Some(Icon::TypeScript));
    assert("go"@[0] != "js"@[0]);
    assert("go"@[0] != "ts"@[0]);
    assert(icon_for("go"@) == Some(Icon::Go));
    assert("golang"@[0] != "python"@[0]);
    assert(icon_for("golang"@) == Some(Icon::Go));
    assert("java"@[0] != "rust"@[0]);
    assert(icon_for("java"@) == Some(Icon::Java));
    assert(icon_for("cpp"@) == Some(Icon::Cpp));
    assert("c++"@[1] != "cpp"@[1]);
    assert(icon_for("c++"@) == Some(Icon::Cpp));
    assert("ruby"@[2] != "rust"@[2]);
    assert("ruby"@[0] != "java"@[0]);
    assert(icon_for("ruby"@) == Some(Icon::Ruby));
    assert("rb"@[0] != "js"@[0]);
    assert("rb"@[0] != "ts"@[0]);
    assert("rb"@[0] != "go"@[0]);
    assert(icon_for("rb"@) == Some(Icon::Ruby));
    assert("bash"@[0] != "rust"@[0]);
    assert("bash"@[0] != "java"@[0]);
    assert("bash"@[0] != "ruby"@[0]);
    assert(icon_for("bash"@) == Some(Icon::Bash));
    assert("sh"@[0] != "js"@[0]);
    assert("sh"@[0] != "ts"@[0]);
    assert("sh"@[0] != "go"@[0]);
    assert("sh"@[0] != "rb"@[0]);
    assert(icon_for("sh"@) == Some(Icon::Bash));
    assert(icon_for("shell"@) == Some(Icon::Bash));
    assert("html"@[0] != "rust"@[0]);
    assert("html"@[0] != "java"@[0]);
    assert("html"@[0] != "ruby"@[0]);
    assert("html"@[0] != "bash"@[0]);
    assert(icon_for("html"@) == Some(Icon::Html));
    assert("css"@[1] != "cpp"@[1]);
    assert("css"@[1] != "c++"@[1]);
    assert(icon_for("css"@) == Some(Icon::Css));
}

/// A token selects an icon exactly when it is one of the tokens that name
/// that icon's language; so each language gets its own icon, and every
/// alias the icon of its language.
pub proof fn law_icon_tokens(t: Seq<char>, i: Icon)
    ensures
        icon_for(t) == Some(i) <==> icon_tokens(i).contains(t),
{
    if icon_tokens(i).contains(t) {
        lemma_tokens_select();
        let k = choose|k: int| 0 <= k < icon_tokens(i).len() && icon_tokens(i)[k] == t;
        assert(icon_for(icon_tokens(i)[k]) == Some(i));
    }
    if icon_for(t) == Some(i) {
        let ts = icon_tokens(i);
        if ts.len() >= 1 && t == ts[0] {
            assert(ts.contains(t));
        } else if ts.len() >= 2 && t == ts[1] {
            assert(ts.contains(t));
        } else if ts.len() >= 3 && t == ts[2] {
            assert(ts.contains(t));
        } else {
            assert(false);
        }
    }
}

} // verus!
