use public_api::item_iterator::{
    impls_for_item, items_in_container, public_api_in_crate, public_api_in_crate_bounded, Options,
};
use public_api::model::{
    Crate, Enum, Impl, Import, Item, ItemEnum, Module, Primitive, Struct, StructKind, Trait, Union, Variant,
};
use public_api::public_item::PublicItem;
use public_api::tokens::Token;
use std::collections::HashMap;

fn named(id: u64, name: &str, inner: ItemEnum) -> Item {
    Item { id, name: Some(name.to_string()), inner }
}

fn module(id: u64, name: &str, items: Vec<u64>) -> Item {
    named(id, name, ItemEnum::Module(Module { items }))
}

fn glob(id: u64, source: &str, target: u64) -> Item {
    Item {
        id,
        name: None,
        inner: ItemEnum::Import(Import {
            source: source.to_string(),
            name: "*".to_string(),
            id: Some(target),
            glob: true,
        }),
    }
}

fn import(id: u64, source: &str, name: &str, target: u64) -> Item {
    Item {
        id,
        name: None,
        inner: ItemEnum::Import(Import {
            source: source.to_string(),
            name: name.to_string(),
            id: Some(target),
            glob: false,
        }),
    }
}

fn krate(root: u64, items: Vec<Item>) -> Crate {
    let mut index = HashMap::new();
    for item in items {
        index.insert(item.id, item);
    }
    Crate { root, index }
}

/// The exports and recursion modules of the comprehensive test API.
fn comprehensive() -> Crate {
    krate(
        0,
        vec![
            module(0, "comprehensive_api", vec![1, 2, 3, 4, 5, 6]),
            module(1, "v0", vec![10]),
            named(10, "foo", ItemEnum::Other),
            module(2, "v1", vec![11, 12]),
            glob(11, "super::v0", 1),
            named(12, "foo2", ItemEnum::Other),
            module(3, "recursion_glob_1", vec![13]),
            glob(13, "super::recursion_glob_2", 4),
            module(4, "recursion_glob_2", vec![14]),
            glob(14, "super::recursion_glob_1", 3),
            module(5, "recursion_1", vec![15]),
            import(15, "super::recursion_2", "recursion_2", 6),
            module(6, "recursion_2", vec![16]),
            import(16, "super::recursion_1", "recursion_1", 5),
        ],
    )
}

fn paths(c: &Crate) -> Vec<String> {
    let api = public_api_in_crate(c, Options { with_blanket_implementations: false });
    api.items.iter().map(|p| p.path_vec().join("::")).collect()
}

#[test]
fn walk_lists_items_depth_first_with_glob_reexports() {
    let c = comprehensive();
    assert_eq!(
        paths(&c),
        vec![
            "comprehensive_api",
            "comprehensive_api::v0",
            "comprehensive_api::v0::foo",
            "comprehensive_api::v1",
            "comprehensive_api::v1::foo",
            "comprehensive_api::v1::foo2",
            "comprehensive_api::recursion_glob_1",
            "comprehensive_api::recursion_glob_1::<<super::recursion_glob_1::*>>",
            "comprehensive_api::recursion_glob_2",
            "comprehensive_api::recursion_glob_2::<<super::recursion_glob_2::*>>",
            "comprehensive_api::recursion_1",
            "comprehensive_api::recursion_1::recursion_2",
            "comprehensive_api::recursion_1::recursion_2::recursion_1",
            "comprehensive_api::recursion_2",
            "comprehensive_api::recursion_2::recursion_1",
            "comprehensive_api::recursion_2::recursion_1::recursion_2",
        ]
    );
}

#[test]
fn walk_starts_at_root_and_parents_come_first() {
    let c = comprehensive();
    let api = public_api_in_crate(&c, Options { with_blanket_implementations: true });
    assert_eq!(api.items[0].path.len(), 1);
    assert_eq!(api.items[0].path[0].item.id, 0);
    for (k, p) in api.items.iter().enumerate() {
        if p.path.len() > 1 {
            let parent: Vec<u64> = p.path[..p.path.len() - 1].iter().map(|e| e.item.id).collect();
            assert!(api.items[..k]
                .iter()
                .any(|q| q.path.iter().map(|e| e.item.id).collect::<Vec<_>>() == parent));
        }
    }
    assert!(api.missing_item_ids.is_empty());
}

#[test]
fn glob_items_are_visited_last_first() {
    let c = krate(
        0,
        vec![
            module(0, "root", vec![1, 2]),
            module(1, "m", vec![10, 11]),
            named(10, "a", ItemEnum::Other),
            named(11, "b", ItemEnum::Other),
            module(2, "n", vec![3]),
            glob(3, "super::m", 1),
        ],
    );
    assert_eq!(paths(&c), vec!["root", "root::m", "root::m::a", "root::m::b", "root::n", "root::n::b", "root::n::a"]);
}

#[test]
fn missing_ids_are_recorded() {
    let c = krate(
        0,
        vec![
            module(0, "root", vec![1, 2, 77]),
            named(
                1,
                "S",
                ItemEnum::Struct(Struct { kind: StructKind::Plain { fields: vec![5] }, impls: vec![99] }),
            ),
            named(5, "x", ItemEnum::Other),
            import(2, "other::Thing", "Thing", 88),
        ],
    );
    let api = public_api_in_crate(&c, Options { with_blanket_implementations: false });
    let names: Vec<String> = api.items.iter().map(|p| p.path_vec().join("::")).collect();
    assert_eq!(names, vec!["root", "root::S", "root::S::x", "root::Thing"]);
    // A re-export of an item that is not in the crate is shown as the import.
    assert_eq!(api.items[3].path[1].item.id, 2);
    assert_eq!(api.missing_item_ids, vec![99, 88, 77]);
}

#[test]
fn impls_are_passed_over() {
    let with_impl = krate(
        0,
        vec![
            module(0, "root", vec![1]),
            named(1, "S", ItemEnum::Struct(Struct { kind: StructKind::Unit, impls: vec![2] })),
            Item { id: 2, name: None, inner: ItemEnum::Impl(Impl { items: vec![3], synthetic: true, has_blanket_impl: false }) },
            named(3, "method", ItemEnum::Other),
        ],
    );
    assert_eq!(paths(&with_impl), vec!["root", "root::S"]);
}

#[test]
fn reexports_are_inlined_under_their_names() {
    let c = krate(
        0,
        vec![
            module(0, "root", vec![1, 3, 4, 5]),
            module(1, "structs", vec![2]),
            named(2, "Plain", ItemEnum::Struct(Struct { kind: StructKind::Unit, impls: vec![] })),
            import(3, "structs::Plain", "Plain", 2),
            import(4, "structs::Plain", "RenamedPlain", 2),
            Item {
                id: 5,
                name: None,
                inner: ItemEnum::Import(Import { source: "i32".to_string(), name: "my_i32".to_string(), id: None, glob: false }),
            },
        ],
    );
    let api = public_api_in_crate(&c, Options { with_blanket_implementations: false });
    let names: Vec<String> = api.items.iter().map(|p| p.path_vec().join("::")).collect();
    assert_eq!(names, vec!["root", "root::structs", "root::structs::Plain", "root::Plain", "root::RenamedPlain", "root::my_i32"]);
    // The re-exports show the struct itself; the primitive re-export shows the import.
    assert_eq!(api.items[3].path[1].item.id, 2);
    assert_eq!(api.items[4].path[1].item.id, 2);
    assert_eq!(api.items[5].path[1].item.id, 5);
    assert!(api.missing_item_ids.is_empty());
}

#[test]
fn bounded_walk_gives_up_on_long_walks() {
    let opts = || Options { with_blanket_implementations: false };
    let c = comprehensive();
    assert!(public_api_in_crate_bounded(&c, opts(), 3).is_none());
    let api = public_api_in_crate_bounded(&c, opts(), 1000).unwrap();
    assert_eq!(api.items.len(), 16);
    // A module that holds itself never ends.
    let cyclic = krate(0, vec![module(0, "root", vec![0])]);
    assert!(public_api_in_crate_bounded(&cyclic, opts(), 50).is_none());
}

#[test]
fn wildcard_import_cycles_off_the_path_are_cut() {
    // `v` inlines `g1`, which inlines `g2`, which would inline `g1` again:
    // `g1` was inlined on the way, so that import is shown as itself.
    let globs = krate(
        0,
        vec![
            module(0, "root", vec![1]),
            module(1, "v", vec![2]),
            glob(2, "super::g1", 3),
            module(3, "g1", vec![4]),
            glob(4, "super::g2", 5),
            module(5, "g2", vec![6]),
            glob(6, "super::g1", 3),
        ],
    );
    let api = public_api_in_crate_bounded(&globs, Options { with_blanket_implementations: false }, 1000).unwrap();
    let names: Vec<String> = api.items.iter().map(|p| p.path_vec().join("::")).collect();
    assert_eq!(names, vec!["root", "root::v", "root::v::<<super::g1::*>>"]);
    assert_eq!(api.items[2].path[2].item.id, 6);
    assert!(api.missing_item_ids.is_empty());
}

#[test]
fn reexported_modules_and_structs_are_walked_into() {
    let c = krate(
        0,
        vec![
            module(0, "root", vec![1, 3, 4]),
            module(1, "m", vec![2]),
            named(2, "X", ItemEnum::Other),
            import(3, "m", "alias", 1),
            import(4, "m::S", "S", 5),
            named(5, "S", ItemEnum::Struct(Struct { kind: StructKind::Plain { fields: vec![6] }, impls: vec![7] })),
            named(6, "field", ItemEnum::Other),
            Item { id: 7, name: None, inner: ItemEnum::Impl(Impl { items: vec![], synthetic: false, has_blanket_impl: false }) },
        ],
    );
    let api = public_api_in_crate(&c, Options { with_blanket_implementations: false });
    let names: Vec<String> = api.items.iter().map(|p| p.path_vec().join("::")).collect();
    assert_eq!(names, vec!["root", "root::m", "root::m::X", "root::alias", "root::alias::X", "root::S", "root::S::field"]);
    // The re-exported module shows the module itself, under the import's name.
    assert_eq!(api.items[3].path[1].item.id, 1);
    assert_eq!(api.items[4].path[2].item.id, 2);
    assert!(api.missing_item_ids.is_empty());
}

#[test]
fn containers_and_impls_of_items() {
    let s = named(1, "S", ItemEnum::Struct(Struct { kind: StructKind::Plain { fields: vec![2, 3] }, impls: vec![4] }));
    assert_eq!(items_in_container(&s), Some(&vec![2, 3]));
    assert_eq!(impls_for_item(&s), Some(&[4u64][..]));
    let t = named(1, "T", ItemEnum::Struct(Struct { kind: StructKind::Tuple(vec![Some(2)]), impls: vec![] }));
    assert_eq!(items_in_container(&t), None);
    let v = named(1, "V", ItemEnum::Variant(Variant::Struct { fields: vec![7] }));
    assert_eq!(items_in_container(&v), Some(&vec![7]));
    assert_eq!(impls_for_item(&v), None);
    let e = named(1, "E", ItemEnum::Enum(Enum { variants: vec![8], impls: vec![9] }));
    assert_eq!(items_in_container(&e), Some(&vec![8]));
    assert_eq!(impls_for_item(&e), Some(&[9u64][..]));
    let u = named(1, "U", ItemEnum::Union(Union { fields: vec![1], impls: vec![2] }));
    assert_eq!(items_in_container(&u), Some(&vec![1]));
    let tr = named(1, "Tr", ItemEnum::Trait(Trait { items: vec![5] }));
    assert_eq!(items_in_container(&tr), Some(&vec![5]));
    assert_eq!(impls_for_item(&tr), None);
    let p = named(1, "u32", ItemEnum::Primitive(Primitive { impls: vec![3] }));
    assert_eq!(impls_for_item(&p), Some(&[3u64][..]));
    assert_eq!(items_in_container(&p), None);
    let i = Item { id: 1, name: None, inner: ItemEnum::Impl(Impl { items: vec![6], synthetic: false, has_blanket_impl: false }) };
    assert_eq!(items_in_container(&i), Some(&vec![6]));
}

#[test]
fn public_item_from_processed_item_takes_path_names() {
    let c = comprehensive();
    let api = public_api_in_crate(&c, Options { with_blanket_implementations: false });
    let p = PublicItem::from_processed_item(&api.items[2], vec![Token::Kind("fn".to_string())]);
    assert_eq!(p.path, vec!["comprehensive_api".to_string(), "v0".to_string(), "foo".to_string()]);
    assert_eq!(p.to_string(), "fn");
}
