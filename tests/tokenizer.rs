use org_social_lib_rs::tokenizer::{Token, Tokenizer};

fn toks(s: &str) -> Vec<Token> {
    let mut tokenizer = Tokenizer::new(s.to_string());
    tokenizer.tokenize()
}

fn plain(s: &str) -> Token {
    Token::PlainText(s.to_string())
}

fn link(url: &str, description: Option<&str>) -> Token {
    Token::Link { url: url.to_string(), description: description.map(|d| d.to_string()) }
}

fn mention(url: &str, username: &str) -> Token {
    Token::Mention { url: url.to_string(), username: username.to_string() }
}

#[test]
fn test_plain_text() {
    assert_eq!(toks("Hello world"), vec![plain("Hello world")]);
}

#[test]
fn test_bold_text() {
    assert_eq!(
        toks("This is *bold* text"),
        vec![plain("This is "), Token::Bold("bold".to_string()), plain(" text")]
    );
}

#[test]
fn test_italic_text() {
    assert_eq!(
        toks("This is /italic/ text"),
        vec![plain("This is "), Token::Italic("italic".to_string()), plain(" text")]
    );
}

#[test]
fn test_bold_italic_text() {
    assert_eq!(
        toks("This is */bold italic/* text"),
        vec![plain("This is "), Token::BoldItalic("bold italic".to_string()), plain(" text")]
    );
}

#[test]
fn test_link_without_description() {
    assert_eq!(
        toks("Visit [[https://example.com]] for more"),
        vec![plain("Visit "), link("https://example.com", None), plain(" for more")]
    );
}

#[test]
fn test_link_with_description() {
    assert_eq!(
        toks("Visit [[https://example.com][Example Site]] for more"),
        vec![plain("Visit "), link("https://example.com", Some("Example Site")), plain(" for more")]
    );
}

#[test]
fn test_inline_code() {
    assert_eq!(
        toks("Use ~println!~ to print"),
        vec![plain("Use "), Token::InlineCode("println!".to_string()), plain(" to print")]
    );
}

#[test]
fn test_mixed_formatting() {
    assert_eq!(
        toks("*Bold* and /italic/ with [[https://example.com][link]]"),
        vec![
            Token::Bold("Bold".to_string()),
            plain(" and "),
            Token::Italic("italic".to_string()),
            plain(" with "),
            link("https://example.com", Some("link")),
        ]
    );
}

#[test]
fn test_utf8_text() {
    assert_eq!(
        toks("Hello 世界 *bold 中文* text"),
        vec![plain("Hello 世界 "), Token::Bold("bold 中文".to_string()), plain(" text")]
    );
}

#[test]
fn test_url_http() {
    assert_eq!(
        toks("Visit http://example.com for more info"),
        vec![plain("Visit "), link("http://example.com", None), plain(" for more info")]
    );
}

#[test]
fn test_url_https() {
    assert_eq!(
        toks("Check https://secure.example.com/path?query=value"),
        vec![plain("Check "), link("https://secure.example.com/path?query=value", None)]
    );
}

#[test]
fn test_url_mixed_protocols() {
    assert_eq!(
        toks("Check https://secure.example.com and http://example.com"),
        vec![
            plain("Check "),
            link("https://secure.example.com", None),
            plain(" and "),
            link("http://example.com", None),
        ]
    );
}

#[test]
fn test_non_http_protocols_not_parsed() {
    assert_eq!(
        toks("Connect via ftp://files.example.com or matrix://matrix.org"),
        vec![
            plain("Connect via ftp:"),
            plain("/"),
            Token::Italic("files.example.com or matrix:".to_string()),
            plain("/"),
            plain("matrix.org"),
        ]
    );
}

#[test]
fn test_italic_vs_url() {
    assert_eq!(
        toks("This is /italic/ but this is https://example.com/path not italic"),
        vec![
            plain("This is "),
            Token::Italic("italic".to_string()),
            plain(" but this is "),
            link("https://example.com/path", None),
            plain(" not italic"),
        ]
    );
}

#[test]
fn test_mention_basic() {
    assert_eq!(
        toks("Contact [[org-social:http://example.org/social.org][username]]"),
        vec![plain("Contact "), mention("http://example.org/social.org", "username")]
    );
}

#[test]
fn test_mention_with_https() {
    assert_eq!(
        toks("Hello [[org-social:https://social.example.com/user.org][alice]]!"),
        vec![plain("Hello "), mention("https://social.example.com/user.org", "alice"), plain("!")]
    );
}

#[test]
fn test_mention_mixed_with_links() {
    assert_eq!(
        toks("Visit [[https://example.com][site]] and talk to [[org-social:http://social.org/bob.org][bob]]"),
        vec![
            plain("Visit "),
            link("https://example.com", Some("site")),
            plain(" and talk to "),
            mention("http://social.org/bob.org", "bob"),
        ]
    );
}

#[test]
fn test_mention_without_org_social_prefix_fallback_to_link() {
    assert_eq!(
        toks("This is [[http://example.com][regular link]]"),
        vec![plain("This is "), link("http://example.com", Some("regular link"))]
    );
}

#[test]
fn test_mention_complex_username() {
    assert_eq!(
        toks("Message [[org-social:https://myorg.example.com/profiles/alice.org][alice_123@domain]]"),
        vec![plain("Message "), mention("https://myorg.example.com/profiles/alice.org", "alice_123@domain")]
    );
}

#[test]
fn precedence_bold_italic_and_literal_fallback() {
    assert_eq!(toks("*bold*"), vec![Token::Bold("bold".to_string())]);
    assert_eq!(toks("/it/"), vec![Token::Italic("it".to_string())]);
    assert_eq!(toks("*/bi/*"), vec![Token::BoldItalic("bi".to_string())]);
    assert_eq!(toks("*x"), vec![plain("*"), plain("x")]);
}

#[test]
fn mention_versus_link() {
    assert_eq!(toks("[[org-social:http://a/b.org][alice]]"), vec![mention("http://a/b.org", "alice")]);
    assert_eq!(toks("[[http://a][txt]]"), vec![link("http://a", Some("txt"))]);
}

fn surface(t: &Token, bracketed: bool) -> String {
    match t {
        Token::PlainText(x) => x.clone(),
        Token::Bold(x) => format!("*{x}*"),
        Token::Italic(x) => format!("/{x}/"),
        Token::BoldItalic(x) => format!("*/{x}/*"),
        Token::InlineCode(x) => format!("~{x}~"),
        Token::Link { url, description: None } => {
            if bracketed {
                format!("[[{url}]]")
            } else {
                url.clone()
            }
        }
        Token::Link { url, description: Some(d) } => format!("[[{url}][{d}]]"),
        Token::Mention { url, username } => format!("[[org-social:{url}][{username}]]"),
    }
}

#[test]
fn tokens_spell_out_the_content() {
    let content = "Hi *you*, see /this/ and ~code~ at https://x.org/a or [[https://y.org]] and [[https://z.org][z]] by [[org-social:https://w.org/s.org][w]] * / ~ [";
    let tokens = toks(content);
    let mut rebuilt = String::new();
    for t in &tokens {
        let bracketed = matches!(t, Token::Link { url, description: None } if url == "https://y.org");
        rebuilt.push_str(&surface(t, bracketed));
    }
    assert_eq!(rebuilt, content);
}

#[test]
fn unclosed_brackets_are_plain_text() {
    assert_eq!(toks("a [[b"), vec![plain("a "), plain("[["), plain("b")]);
}

#[test]
fn empty_content_has_no_tokens() {
    assert_eq!(toks(""), Vec::<Token>::new());
}

#[test]
fn bold_does_not_span_lines() {
    assert_eq!(toks("*a\nb*"), vec![plain("*"), plain("a\nb"), plain("*")]);
}

#[test]
fn inline_code_may_span_lines() {
    assert_eq!(toks("~a\nb~"), vec![Token::InlineCode("a\nb".to_string())]);
}

#[test]
fn url_stops_at_whitespace_kind() {
    assert_eq!(
        toks("https://a.org\tnext"),
        vec![link("https://a.org", None), plain("\tnext")]
    );
}

#[test]
fn unclosed_bold_italic_is_literal() {
    assert_eq!(toks("*/x"), vec![plain("*"), plain("/"), plain("x")]);
}
