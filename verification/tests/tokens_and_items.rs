use public_api::intermediate_public_item::IntermediatePublicItem;
use public_api::item_iterator::{impl_kind, ImplKind, Options};
use public_api::model::{Impl, Item, ItemEnum};
use public_api::public_item::{compare_texts, text_order, PublicItem};
use public_api::tokens::{tokens_to_string, Token};
use std::cmp::Ordering;

fn item(tokens: Vec<Token>) -> PublicItem {
    PublicItem { path: vec![], tokens, children: vec![], impls: vec![] }
}

#[test]
fn token_text_of_each_kind() {
    assert_eq!(Token::Whitespace.text(), " ");
    assert_eq!(Token::Symbol("::".to_string()).text(), "::");
    assert_eq!(Token::Self_("self".to_string()).text(), "self");
    assert_eq!(Token::Type("u32".to_string()).text(), "u32");
}

#[test]
fn tokens_to_string_joins_texts() {
    let tokens = vec![
        Token::Qualifier("pub".to_string()),
        Token::Whitespace,
        Token::Kind("fn".to_string()),
        Token::Whitespace,
        Token::Function("foo".to_string()),
        Token::Symbol("()".to_string()),
    ];
    assert_eq!(tokens_to_string(&tokens), "pub fn foo()");
    assert_eq!(tokens_to_string(&[]), "");
}

#[test]
fn public_item_displays_its_tokens() {
    let i = item(vec![Token::Kind("mod".to_string()), Token::Whitespace, Token::Identifier("a".to_string())]);
    assert_eq!(i.to_string(), "mod a");
    assert_eq!(i.tokens().len(), 3);
}

#[test]
fn public_items_order_by_text() {
    let a = item(vec![Token::Identifier("abc".to_string())]);
    let b = item(vec![Token::Identifier("abd".to_string())]);
    let c = item(vec![Token::Identifier("ab".to_string()), Token::Identifier("c".to_string())]);
    assert_eq!(a.cmp(&b), Ordering::Less);
    assert_eq!(b.cmp(&a), Ordering::Greater);
    assert_eq!(a.cmp(&c), Ordering::Equal);
    assert_eq!(a.partial_cmp(&b), Some(Ordering::Less));
    let mut items = vec![b, a];
    items.sort_by(|x, y| x.cmp(y));
    assert_eq!(items[0].to_string(), "abc");
}

#[test]
fn text_order_is_lexicographic_by_code_point() {
    assert_eq!(text_order("", ""), 0);
    assert_eq!(text_order("", "a"), -1);
    assert_eq!(text_order("b", "a"), 1);
    assert_eq!(text_order("ab", "abc"), -1);
    assert_eq!(text_order("Z", "a"), -1);
    assert_eq!(text_order("é", "z"), 1);
    assert_eq!(compare_texts("mod a", "mod b"), Ordering::Less);
    assert_eq!(compare_texts("x", "x"), Ordering::Equal);
}

#[test]
fn from_intermediate_public_item_keeps_rendered_impls() {
    let p = PublicItem::from_intermediate_public_item(
        vec!["krate".to_string(), "S".to_string()],
        vec![Token::Kind("struct".to_string())],
        vec![Some(vec![Token::Kind("impl".to_string())]), None, Some(vec![Token::Keyword("unsafe".to_string())])],
    );
    assert_eq!(p.path, vec!["krate".to_string(), "S".to_string()]);
    assert_eq!(p.children.len(), 0);
    assert_eq!(p.impls.len(), 2);
    assert_eq!(p.impls[0].to_string(), "impl");
    assert_eq!(p.impls[1].to_string(), "unsafe");
    assert!(p.impls[1].path.is_empty());
}

#[test]
fn impl_kinds_and_activity() {
    let mk = |synthetic, has_blanket_impl| Impl { items: vec![], synthetic, has_blanket_impl };
    assert_eq!(impl_kind(&mk(true, false)), ImplKind::AutoTrait);
    assert_eq!(impl_kind(&mk(false, true)), ImplKind::Blanket);
    assert_eq!(impl_kind(&mk(false, false)), ImplKind::Normal);
    assert_eq!(impl_kind(&mk(true, true)), ImplKind::Normal);
    let with = Options { with_blanket_implementations: true };
    let without = Options { with_blanket_implementations: false };
    ImplKind::Blanket.is_active(&with);
    ImplKind::Normal.is_active(&without);
}

#[test]
fn intermediate_item_name_prefers_override() {
    let it = Item { id: 1, name: Some("Plain".to_string()), inner: ItemEnum::Other };
    let plain = IntermediatePublicItem { item: &it, overridden_name: None };
    let renamed = IntermediatePublicItem { item: &it, overridden_name: Some("RenamedPlain".to_string()) };
    assert_eq!(plain.name(), Some("Plain"));
    assert_eq!(renamed.name(), Some("RenamedPlain"));
    let unnamed_item = Item { id: 2, name: None, inner: ItemEnum::Other };
    let unnamed = IntermediatePublicItem { item: &unnamed_item, overridden_name: None };
    assert_eq!(unnamed.name(), None);
}

#[test]
fn exported_functions_run() {
    public_api::exports::foo();
    public_api::exports::foo2();
}
