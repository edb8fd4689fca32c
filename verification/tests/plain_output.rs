use public_api::diff::{ChangedPublicItem, PublicItemsDiff};
use public_api::plain::{print_items_with_header, Plain};
use public_api::public_item::PublicItem;
use public_api::tokens::Token;

fn item(tokens: Vec<Token>) -> PublicItem {
    PublicItem { path: vec![], tokens, children: vec![], impls: vec![] }
}

fn fn_item(name: &str) -> PublicItem {
    item(vec![
        Token::Qualifier("pub".to_string()),
        Token::Whitespace,
        Token::Kind("fn".to_string()),
        Token::Whitespace,
        Token::Function(name.to_string()),
        Token::Symbol("()".to_string()),
    ])
}

#[test]
fn print_items_one_per_line() {
    let out = Plain::print_items(false, vec![fn_item("a"), fn_item("b")]);
    assert_eq!(out, "pub fn a()\npub fn b()\n");
    assert_eq!(Plain::print_items(false, vec![]), "");
}

#[test]
fn print_items_in_color_highlights_each_token() {
    let out = Plain::print_items(
        true,
        vec![item(vec![Token::Kind("fn".to_string()), Token::Whitespace, Token::Function("foo".to_string())])],
    );
    assert_eq!(out, "\u{1b}[34mfn\u{1b}[0m\u{1b}[39m \u{1b}[0m\u{1b}[33mfoo\u{1b}[0m\n");
    let out = Plain::print_items(
        true,
        vec![item(vec![
            Token::Identifier("x".to_string()),
            Token::Type("u8".to_string()),
            Token::Symbol(":".to_string()),
        ])],
    );
    assert_eq!(out, "\u{1b}[36mx\u{1b}[0m\u{1b}[32mu8\u{1b}[0m\u{1b}[39m:\u{1b}[0m\n");
}

#[test]
fn section_with_and_without_items() {
    assert_eq!(print_items_with_header("Header\n======", &[]), "Header\n======\n(none)\n\n");
    assert_eq!(
        print_items_with_header("H", &["-a\n".to_string(), "-b\n".to_string()]),
        "H\n-a\n-b\n\n"
    );
}

fn sample_diff() -> PublicItemsDiff {
    PublicItemsDiff {
        removed: vec![fn_item("gone")],
        changed: vec![ChangedPublicItem {
            old: item(vec![Token::Identifier("a".to_string())]),
            new: item(vec![Token::Identifier("b".to_string())]),
        }],
        added: vec![],
    }
}

#[test]
fn print_diff_plain() {
    let out = Plain::print_diff(false, &sample_diff());
    assert_eq!(
        out,
        "Removed items from the public API\n\
         =================================\n\
         -pub fn gone()\n\
         \n\
         Changed items in the public API\n\
         ===============================\n\
         -a\n\
         +b\n\
         \n\
         Added items to the public API\n\
         =============================\n\
         (none)\n\
         \n"
    );
}

#[test]
fn print_diff_in_color_highlights_differing_tokens() {
    let out = Plain::print_diff(true, &sample_diff());
    let changed = "-\u{1b}[1;48;5;52;38;5;9ma\u{1b}[0m\n+\u{1b}[1;48;5;22;38;5;10mb\u{1b}[0m\n";
    assert!(out.contains(changed), "{:?}", out);
    assert!(out.contains("-\u{1b}[34mpub\u{1b}[0m"), "{:?}", out);
}

#[test]
fn print_diff_in_color_keeps_common_tokens() {
    let diff = PublicItemsDiff {
        removed: vec![],
        changed: vec![ChangedPublicItem {
            old: item(vec![Token::Kind("fn".to_string()), Token::Identifier("a".to_string())]),
            new: item(vec![Token::Kind("fn".to_string()), Token::Identifier("b".to_string())]),
        }],
        added: vec![fn_item("new")],
    };
    let out = Plain::print_diff(true, &diff);
    let changed = "-\u{1b}[34mfn\u{1b}[0m\u{1b}[1;48;5;52;38;5;9ma\u{1b}[0m\n\
                   +\u{1b}[34mfn\u{1b}[0m\u{1b}[1;48;5;22;38;5;10mb\u{1b}[0m\n";
    assert!(out.contains(changed), "{:?}", out);
    assert!(out.starts_with("Removed items from the public API\n=================================\n(none)\n\n"));
    assert!(out.contains("+\u{1b}[34mpub\u{1b}[0m"));
}

/// Removes ANSI escape sequences (`ESC [ ... m`).
fn strip_escapes(s: &str) -> String {
    let mut out = String::new();
    let mut chars = s.chars();
    while let Some(c) = chars.next() {
        if c == '\u{1b}' {
            for d in chars.by_ref() {
                if d == 'm' {
                    break;
                }
            }
        } else {
            out.push(c);
        }
    }
    out
}

#[test]
fn colored_output_without_escape_codes_is_plain_output() {
    let items = || vec![fn_item("a"), item(vec![Token::Identifier("x".to_string()), Token::Whitespace])];
    assert_eq!(strip_escapes(&Plain::print_items(true, items())), Plain::print_items(false, items()));
    let diff = || PublicItemsDiff {
        removed: vec![fn_item("r")],
        changed: vec![ChangedPublicItem {
            old: item(vec![Token::Kind("fn".to_string()), Token::Whitespace, Token::Function("f".to_string())]),
            new: item(vec![
                Token::Kind("fn".to_string()),
                Token::Whitespace,
                Token::Function("g".to_string()),
                Token::Symbol("()".to_string()),
            ]),
        }],
        added: vec![fn_item("n")],
    };
    assert_eq!(strip_escapes(&Plain::print_diff(true, &diff())), Plain::print_diff(false, &diff()));
}

#[test]
fn changed_item_with_equal_tokens_is_painted_like_a_listing() {
    let tokens = || vec![Token::Kind("fn".to_string()), Token::Whitespace, Token::Function("f".to_string())];
    let diff = PublicItemsDiff {
        removed: vec![],
        changed: vec![ChangedPublicItem { old: item(tokens()), new: item(tokens()) }],
        added: vec![],
    };
    let listing = Plain::print_items(true, vec![item(tokens())]);
    let out = Plain::print_diff(true, &diff);
    let expected = format!("-{}+{}", listing, listing);
    assert!(out.contains(&expected), "{:?}", out);
}

#[test]
fn painting_goes_token_by_token() {
    let a = || vec![Token::Kind("struct".to_string())];
    let b = || vec![Token::Whitespace, Token::Type("S".to_string())];
    let joined = [a(), b()].concat();
    let pa = Plain::print_items(true, vec![item(a())]);
    let pb = Plain::print_items(true, vec![item(b())]);
    let pj = Plain::print_items(true, vec![item(joined)]);
    assert_eq!(pj, format!("{}{}", pa.trim_end_matches('\n'), pb));
    assert_eq!(Plain::print_items(true, vec![item(vec![])]), "\n");
}
