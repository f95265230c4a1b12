use docket::parse::{parse, MultilineText, Newline, TokenKind};

#[test]
fn uwu() {
    assert_eq!(
        parse("meow! # uwu\n#awa"),
        vec![
            TokenKind::Text("meow! # uwu"),
            TokenKind::Newline(Newline::Unix),
            TokenKind::Text("#awa")
        ]
    );
}

#[test]
fn uwu2() {
    assert_eq!(
        parse("meow! #uwu\n#  awa  \rcool"),
        vec![
            TokenKind::Text("meow! #uwu"),
            TokenKind::Newline(Newline::Unix),
            TokenKind::Heading {
                level: 0,
                text: " awa  "
            },
            TokenKind::Newline(Newline::Mac),
            TokenKind::Text("cool")
        ]
    );
}

#[test]
fn subheadings() {
    assert_eq!(
        parse("## hi"),
        vec![TokenKind::Heading {
            level: 1,
            text: "hi"
        }]
    );
}

#[test]
fn comment() {
    assert_eq!(
        parse("text1<!--text2\ntext3-->text4"),
        vec![
            TokenKind::Text("text1"),
            TokenKind::Comment(MultilineText::new("text2\ntext3")),
            TokenKind::Text("text4")
        ]
    );
}

#[test]
fn empty_input() {
    assert_eq!(parse(""), vec![]);
}

#[test]
fn default_comment_content_is_empty() {
    let m = MultilineText::default();
    assert!(m.entries().is_empty());
}

#[test]
fn newline_unix() {
    assert_eq!(parse("\n"), vec![TokenKind::Newline(Newline::Unix)]);
}

#[test]
fn newline_windows() {
    assert_eq!(parse("\r\n"), vec![TokenKind::Newline(Newline::Windows)]);
}

#[test]
fn newline_mac() {
    assert_eq!(parse("\r"), vec![TokenKind::Newline(Newline::Mac)]);
}

#[test]
fn newline_two_macs_then_text() {
    assert_eq!(
        parse("\r\rX"),
        vec![
            TokenKind::Newline(Newline::Mac),
            TokenKind::Newline(Newline::Mac),
            TokenKind::Text("X")
        ]
    );
}

#[test]
fn hash_mid_line_is_text() {
    assert_eq!(parse("a#b"), vec![TokenKind::Text("a#b")]);
}

#[test]
fn heading_at_start() {
    assert_eq!(
        parse("# a"),
        vec![TokenKind::Heading { level: 0, text: "a" }]
    );
}

#[test]
fn hash_without_space_is_text() {
    assert_eq!(parse("#notaheading"), vec![TokenKind::Text("#notaheading")]);
}

#[test]
fn heading_after_newline() {
    assert_eq!(
        parse("x\n# y"),
        vec![
            TokenKind::Text("x"),
            TokenKind::Newline(Newline::Unix),
            TokenKind::Heading { level: 0, text: "y" }
        ]
    );
}

#[test]
fn heading_after_windows_newline() {
    assert_eq!(
        parse("a\r\n# b"),
        vec![
            TokenKind::Text("a"),
            TokenKind::Newline(Newline::Windows),
            TokenKind::Heading { level: 0, text: "b" }
        ]
    );
}

#[test]
fn heading_text_excludes_newline() {
    assert_eq!(
        parse("# t\n"),
        vec![
            TokenKind::Heading { level: 0, text: "t" },
            TokenKind::Newline(Newline::Unix)
        ]
    );
}

#[test]
fn heading_empty_text() {
    assert_eq!(
        parse("# \n"),
        vec![
            TokenKind::Heading { level: 0, text: "" },
            TokenKind::Newline(Newline::Unix)
        ]
    );
}

#[test]
fn heading_deep_level() {
    assert_eq!(
        parse("### abc"),
        vec![TokenKind::Heading {
            level: 2,
            text: "abc"
        }]
    );
}

#[test]
fn comment_basic() {
    assert_eq!(
        parse("a<!--b\nc-->d"),
        vec![
            TokenKind::Text("a"),
            TokenKind::Comment(MultilineText::new("b\nc")),
            TokenKind::Text("d")
        ]
    );
}

#[test]
fn comment_unterminated_degrades_to_text() {
    assert_eq!(parse("a<!--bc"), vec![TokenKind::Text("a<!--bc")]);
}

#[test]
fn comment_immediately_closed() {
    assert_eq!(
        parse("<!-->"),
        vec![TokenKind::Comment(MultilineText::new(""))]
    );
}

#[test]
fn partial_comment_opener_is_text() {
    assert_eq!(parse("a<!b"), vec![TokenKind::Text("a<!b")]);
}

#[test]
fn windows_newline_between_text() {
    assert_eq!(
        parse("a\r\nb"),
        vec![
            TokenKind::Text("a"),
            TokenKind::Newline(Newline::Windows),
            TokenKind::Text("b")
        ]
    );
}

/// Rebuild the source text that a token stands for, mirroring the model's
/// reconstruction.
fn rebuild(tokens: &[TokenKind<'_>]) -> String {
    let mut out = String::new();
    for t in tokens {
        match t {
            TokenKind::Text(s) => out.push_str(s),
            TokenKind::Newline(Newline::Unix) => out.push('\n'),
            TokenKind::Newline(Newline::Windows) => out.push_str("\r\n"),
            TokenKind::Newline(Newline::Mac) => out.push('\r'),
            TokenKind::Heading { level, text } => {
                for _ in 0..(level + 1) {
                    out.push('#');
                }
                out.push(' ');
                out.push_str(text);
            }
            TokenKind::Comment(m) => {
                out.push_str("<!--");
                for entry in m.entries() {
                    match entry {
                        Ok(s) => out.push_str(s),
                        Err(Newline::Unix) => out.push('\n'),
                        Err(Newline::Windows) => out.push_str("\r\n"),
                        Err(Newline::Mac) => out.push('\r'),
                    }
                }
                out.push_str("-->");
            }
        }
    }
    out
}

#[test]
fn partition_reconstructs_input() {
    let source = "x\r\n## h\n<!--b\nc-->tail\rend";
    assert_eq!(rebuild(&parse(source)), source);
}

#[test]
fn rescan_of_text_token_is_itself() {
    let tokens = parse("meow! # uwu\n#awa");
    if let TokenKind::Text(t) = tokens[2] {
        assert_eq!(parse(t), vec![TokenKind::Text(t)]);
    } else {
        panic!("expected a text token");
    }
}

#[test]
fn rescan_heading_like_text_after_comment() {
    // The one shape of text token whose re-scan differs: a heading-like
    // run directly after a comment.
    assert_eq!(
        parse("<!--a--># x"),
        vec![
            TokenKind::Comment(MultilineText::new("a")),
            TokenKind::Text("# x")
        ]
    );
    assert_eq!(
        parse("# x"),
        vec![TokenKind::Heading { level: 0, text: "x" }]
    );
}
