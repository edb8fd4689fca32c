//! The part of a crate's rustdoc description that the public-API traversal
//! reads: every item keyed by its id, with its name and what it contains.
use std::collections::HashMap;
use vstd::prelude::*;

verus! {

/// A documented crate: the id of its root module and every item by id.
pub struct Crate {
    pub root: u64,
    pub index: HashMap<u64, Item>,
}

/// One documented item.
pub struct Item {
    pub id: u64,
    pub name: Option<String>,
    pub inner: ItemEnum,
}

/// The kinds of items the traversal tells apart; every other kind of item
/// (functions, constants, type aliases, ...) is `Other`.
pub enum ItemEnum {
    Module(Module),
    Import(Import),
    Union(Union),
    Struct(Struct),
    Enum(Enum),
    Variant(Variant),
    Trait(Trait),
    Impl(Impl),
    Primitive(Primitive),
    Other,
}

pub struct Module {
    pub items: Vec<u64>,
}

/// A `use` item: `source` is the path as written, `name` the name it is
/// imported under, `id` the imported item when it is known, and `glob` whether
/// it is a wildcard import.
pub struct Import {
    pub source: String,
    pub name: String,
    pub id: Option<u64>,
    pub glob: bool,
}

pub struct Union {
    pub fields: Vec<u64>,
    pub impls: Vec<u64>,
}

pub struct Struct {
    pub kind: StructKind,
    pub impls: Vec<u64>,
}

pub enum StructKind {
    Unit,
    Tuple(Vec<Option<u64>>),
    Plain { fields: Vec<u64> },
}

pub struct Enum {
    pub variants: Vec<u64>,
    pub impls: Vec<u64>,
}

pub enum Variant {
    Plain,
    Tuple(Vec<Option<u64>>),
    Struct { fields: Vec<u64> },
}

pub struct Trait {
    pub items: Vec<u64>,
}

/// An `impl` block: `synthetic` marks impls the compiler derived (auto
/// traits), `has_blanket_impl` marks impls that come from a blanket impl.
pub struct Impl {
    pub items: Vec<u64>,
    pub synthetic: bool,
    pub has_blanket_impl: bool,
}

pub struct Primitive {
    pub impls: Vec<u64>,
}

} // verus!
