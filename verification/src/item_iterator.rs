//! Walks a crate's items from its root and collects the path of every public
//! item that the walk reaches.
use crate::intermediate_public_item::{IntermediatePublicItem, PathElem, effective_name, opt_str_view};
use vstd::string::StringExecFns;
use crate::model::{Crate, Impl, Import, Item, ItemEnum, StructKind, Variant};
use std::collections::VecDeque;
use vstd::prelude::*;

verus! {

broadcast use vstd::std_specs::hash::group_hash_axioms;

/// Options of the analysis.
pub struct Options {
    /// Whether impls that come from blanket impls are part of the output.
    pub with_blanket_implementations: bool,
}

/// How an `impl` block came about.
#[derive(Debug, PartialEq, Eq, Structural)]
pub enum ImplKind {
    Normal,
    AutoTrait,
    Blanket,
}

impl ImplKind {
    /// Works out whether impls of this kind are active (blanket impls only
    /// with `with_blanket_implementations`, auto-trait and normal impls
    /// always); the answer is not returned.
    pub fn is_active(&self, options: &Options) {
        let _active = match self {
            ImplKind::Blanket => options.with_blanket_implementations,
            ImplKind::AutoTrait | ImplKind::Normal => true,
        };
    }
}

/// The kind of an impl: compiler-made impls that are not blanket impls are
/// auto-trait impls, blanket impls that are not compiler-made are blanket
/// impls, and all others are normal.
pub open spec fn spec_impl_kind(synthetic: bool, has_blanket_impl: bool) -> ImplKind {
    if synthetic && !has_blanket_impl {
        ImplKind::AutoTrait
    } else if !synthetic && has_blanket_impl {
        ImplKind::Blanket
    } else {
        ImplKind::Normal
    }
}

pub fn impl_kind(impl_: &Impl) -> (res: ImplKind)
    ensures
        res == spec_impl_kind(impl_.synthetic, impl_.has_blanket_impl),
{
    let has_blanket_impl = impl_.has_blanket_impl;
    match (impl_.synthetic, has_blanket_impl) {
        (true, false) => ImplKind::AutoTrait,
        (false, true) => ImplKind::Blanket,
        _ => ImplKind::Normal,
    }
}

/// The ids of the items an item contains, for the kinds of items that contain
/// others.
pub open spec fn container_ids(item: Item) -> Option<Seq<u64>> {
    match item.inner {
        ItemEnum::Module(m) => Some(m.items@),
        ItemEnum::Union(u) => Some(u.fields@),
        ItemEnum::Struct(s) => match s.kind {
            StructKind::Plain { fields } => Some(fields@),
            _ => None,
        },
        ItemEnum::Variant(v) => match v {
            Variant::Struct { fields } => Some(fields@),
            _ => None,
        },
        ItemEnum::Enum(e) => Some(e.variants@),
        ItemEnum::Trait(t) => Some(t.items@),
        ItemEnum::Impl(i) => Some(i.items@),
        _ => None,
    }
}

/// The ids of the impls of an item, for the kinds of items that have impls.
pub open spec fn impl_ids(item: Item) -> Option<Seq<u64>> {
    match item.inner {
        ItemEnum::Union(u) => Some(u.impls@),
        ItemEnum::Struct(s) => Some(s.impls@),
        ItemEnum::Enum(e) => Some(e.impls@),
        ItemEnum::Primitive(p) => Some(p.impls@),
        _ => None,
    }
}

pub open spec fn or_empty(o: Option<Seq<u64>>) -> Seq<u64> {
    match o {
        Some(s) => s,
        None => Seq::empty(),
    }
}

/// Some items contain other items; returns the ids of those.
pub fn items_in_container(item: &Item) -> (res: Option<&Vec<u64>>)
    ensures
        match res {
            Some(v) => container_ids(*item) == Some(v@),
            None => container_ids(*item) is None,
        },
{
    match &item.inner {
        ItemEnum::Module(m) => Some(&m.items),
        ItemEnum::Union(u) => Some(&u.fields),
        ItemEnum::Struct(s) => match &s.kind {
            StructKind::Plain { fields } => Some(fields),
            _ => None,
        },
        ItemEnum::Variant(v) => match v {
            Variant::Struct { fields } => Some(fields),
            _ => None,
        },
        ItemEnum::Enum(e) => Some(&e.variants),
        ItemEnum::Trait(t) => Some(&t.items),
        ItemEnum::Impl(i) => Some(&i.items),
        _ => None,
    }
}

/// Returns the ids of the impls of an item, for items that have impls.
pub fn impls_for_item(item: &Item) -> (res: Option<&[u64]>)
    ensures
        match res {
            Some(v) => impl_ids(*item) == Some(v@),
            None => impl_ids(*item) is None,
        },
{
    match &item.inner {
        ItemEnum::Union(u) => Some(u.impls.as_slice()),
        ItemEnum::Struct(s) => Some(s.impls.as_slice()),
        ItemEnum::Enum(e) => Some(e.impls.as_slice()),
        ItemEnum::Primitive(p) => Some(p.impls.as_slice()),
        _ => None,
    }
}


// ---------------------------------------------------------------------------
// The traversal as a sequence of steps
// ---------------------------------------------------------------------------

/// An item still to visit: the path of its parent, the modules whose items
/// wildcard imports inlined on the way to it, and its id.
#[verifier::ext_equal]
pub struct Work {
    pub parent_path: Seq<PathElem>,
    pub inlined: Seq<u64>,
    pub id: u64,
}

/// The state of the traversal: the items still to visit (the next one first),
/// the paths of the items visited so far, and the ids that were looked up but
/// are not in the crate.
#[verifier::ext_equal]
pub struct ProcState {
    pub queue: Seq<Work>,
    pub output: Seq<Seq<PathElem>>,
    pub missing: Seq<u64>,
}

/// The state before the walk: only the root is to be visited.
pub open spec fn initial_state(root: u64) -> ProcState {
    ProcState {
        queue: seq![Work { parent_path: Seq::empty(), inlined: Seq::empty(), id: root }],
        output: Seq::empty(),
        missing: Seq::empty(),
    }
}

/// Whether some element of the path is the item with this id.
pub open spec fn path_has_id(path: Seq<PathElem>, id: u64) -> bool {
    exists|i: int| 0 <= i < path.len() && #[trigger] path[i].item.id == id
}

/// Whether the item with this id is already on the way to a visit: on its
/// path, or a module whose items a wildcard import inlined on the way.
pub open spec fn on_the_way(path: Seq<PathElem>, inlined: Seq<u64>, id: u64) -> bool {
    path_has_id(path, id) || inlined.contains(id)
}

/// One visit per id, in order, each with the given parent path.
pub open spec fn works(ids: Seq<u64>, path: Seq<PathElem>, inlined: Seq<u64>) -> Seq<Work> {
    Seq::new(ids.len(), |i: int| Work { parent_path: path, inlined, id: ids[i] })
}

/// One visit per id, last id first, each with the given parent path.
pub open spec fn works_reversed(ids: Seq<u64>, path: Seq<PathElem>, inlined: Seq<u64>) -> Seq<Work> {
    Seq::new(ids.len(), |i: int| Work { parent_path: path, inlined, id: ids[ids.len() - 1 - i] })
}

/// The visits of the contained items, then of the impls, of an item shown
/// with the given path.
pub open spec fn member_works(item: Item, path: Seq<PathElem>, inlined: Seq<u64>) -> Seq<Work> {
    works(or_empty(container_ids(item)), path, inlined) + works(or_empty(impl_ids(item)), path, inlined)
}

/// The item that an import's target resolves to, unless the target is
/// already on the way (which breaks import cycles) or not in the crate.
pub open spec fn import_target(
    index: Map<u64, Item>,
    path: Seq<PathElem>,
    inlined: Seq<u64>,
    target: Option<u64>,
) -> Option<Item> {
    match target {
        Some(t) => if !on_the_way(path, inlined, t) && index.contains_key(t) {
            Some(index[t])
        } else {
            None
        },
        None => None,
    }
}

/// The missing ids after resolving an import's target: a target that is not
/// on the way and not in the crate is recorded.
pub open spec fn import_missing(
    index: Map<u64, Item>,
    path: Seq<PathElem>,
    inlined: Seq<u64>,
    target: Option<u64>,
    missing: Seq<u64>,
) -> Seq<u64> {
    match target {
        Some(t) => if !on_the_way(path, inlined, t) && !index.contains_key(t) {
            missing.push(t)
        } else {
            missing
        },
        None => missing,
    }
}

/// The path of a visited item: its parent's path followed by the item.
pub open spec fn item_path(parent_path: Seq<PathElem>, item: Item) -> Seq<PathElem> {
    parent_path.push(PathElem { item, overridden_name: None })
}

/// The path of an item shown under another name: its parent's path followed
/// by the item under that name.
pub open spec fn renamed_path(parent_path: Seq<PathElem>, item: Item, name: Seq<char>) -> Seq<PathElem> {
    parent_path.push(PathElem { item, overridden_name: Some(name) })
}

/// The name under which a wildcard import that cannot be inlined is shown:
/// `<<source::*>>`.
pub open spec fn glob_name(source: Seq<char>) -> Seq<char> {
    "<<"@ + source + "::*>>"@
}

/// Visits one found item whose own visit was `w`; `s` is the state with `w`
/// taken off the queue.
///
/// - A wildcard import of a module that is not on the way stands for the
///   module's items, which are visited with the import's parent path, the
///   module being remembered as inlined; any other wildcard import is shown as
///   itself, named `<<source::*>>`.
/// - Any other import is inlined: the imported item is shown in its place,
///   under the import's name, and its contained items and impls are visited
///   under it, unless it has no target in the crate off the way (a re-export
///   of a primitive type, of an item of another crate, or of an item already
///   on the way), in which case the import itself is shown under its name.
/// - `impl` items are not part of the walk: they are passed over.
/// - Every other item is shown, and then its contained items and its impls are
///   visited, in their order, before anything else.
pub open spec fn process_found(index: Map<u64, Item>, s: ProcState, w: Work, item: Item) -> ProcState {
    match item.inner {
        ItemEnum::Import(imp) => {
            let missing = import_missing(index, w.parent_path, w.inlined, imp.id, s.missing);
            let target = import_target(index, w.parent_path, w.inlined, imp.id);
            if imp.glob {
                match target {
                    Some(t) if t.inner is Module => ProcState {
                        queue: works_reversed(
                            t.inner->Module_0.items@,
                            w.parent_path,
                            w.inlined.push(imp.id.unwrap()),
                        ) + s.queue,
                        output: s.output,
                        missing,
                    },
                    _ => ProcState {
                        queue: s.queue,
                        output: s.output.push(renamed_path(w.parent_path, item, glob_name(imp.source@))),
                        missing,
                    },
                }
            } else {
                match target {
                    Some(t) => {
                        let path = renamed_path(w.parent_path, t, imp.name@);
                        ProcState {
                            queue: member_works(t, path, w.inlined) + s.queue,
                            output: s.output.push(path),
                            missing,
                        }
                    },
                    None => ProcState {
                        queue: s.queue,
                        output: s.output.push(renamed_path(w.parent_path, item, imp.name@)),
                        missing,
                    },
                }
            }
        },
        ItemEnum::Impl(_) => s,
        _ => {
            let path = item_path(w.parent_path, item);
            ProcState {
                queue: member_works(item, path, w.inlined) + s.queue,
                output: s.output.push(path),
                missing: s.missing,
            }
        },
    }
}

/// Visits `w`; `s` is the state with `w` taken off the queue. An id that is
/// not in the crate is recorded as missing.
pub open spec fn process_work(index: Map<u64, Item>, s: ProcState, w: Work) -> ProcState {
    if index.contains_key(w.id) {
        process_found(index, s, w, index[w.id])
    } else {
        ProcState { queue: s.queue, output: s.output, missing: s.missing.push(w.id) }
    }
}

/// One step of the walk: visits the first item of the queue.
pub open spec fn step(index: Map<u64, Item>, s: ProcState) -> ProcState
    recommends
        s.queue.len() > 0,
{
    process_work(
        index,
        ProcState { queue: s.queue.drop_first(), output: s.output, missing: s.missing },
        s.queue[0],
    )
}

/// Whether the walk from `s` empties its queue within `fuel` steps.
pub open spec fn run_ok(index: Map<u64, Item>, s: ProcState, fuel: nat) -> bool
    decreases fuel,
{
    if s.queue.len() == 0 {
        true
    } else if fuel == 0 {
        false
    } else {
        run_ok(index, step(index, s), (fuel - 1) as nat)
    }
}

/// The state in which the walk from `s` ends, taking at most `fuel` steps.
pub open spec fn run_result(index: Map<u64, Item>, s: ProcState, fuel: nat) -> ProcState
    decreases fuel,
{
    if s.queue.len() == 0 {
        s
    } else if fuel == 0 {
        s
    } else {
        run_result(index, step(index, s), (fuel - 1) as nat)
    }
}

/// Once the walk ends within some number of steps, more steps change
/// nothing: the walk is deterministic.
pub proof fn lemma_run_fuel_mono(index: Map<u64, Item>, s: ProcState, n: nat, m: nat)
    requires
        run_ok(index, s, n),
        n <= m,
    ensures
        run_ok(index, s, m),
        run_result(index, s, m) == run_result(index, s, n),
    decreases n,
{
    if s.queue.len() != 0 {
        lemma_run_fuel_mono(index, step(index, s), (n - 1) as nat, (m - 1) as nat);
    }
}

/// An import whose target is already on the way is not followed: it adds
/// nothing to the items still to visit, and what it shows is the import
/// itself. This is what cuts cycles of re-exports.
pub proof fn lemma_import_on_the_way_is_not_followed(index: Map<u64, Item>, s: ProcState, w: Work)
    requires
        index.contains_key(w.id),
        index[w.id].inner is Import,
        index[w.id].inner->Import_0.id matches Some(t) && on_the_way(w.parent_path, w.inlined, t),
    ensures
        process_work(index, s, w).queue == s.queue,
        process_work(index, s, w).missing == s.missing,
        process_work(index, s, w).output.len() == s.output.len() + 1,
        process_work(index, s, w).output.last().last().item == index[w.id],
{
}

// ---------------------------------------------------------------------------
// The walk itself
// ---------------------------------------------------------------------------

/// Item lookups in a crate, recording the ids that are not in it.
pub struct CrateWrapper<'c> {
    crate_: &'c Crate,
    missing_ids: Vec<u64>,
}

impl<'c> CrateWrapper<'c> {
    pub closed spec fn index(&self) -> Map<u64, Item> {
        self.crate_.index@
    }

    pub closed spec fn the_crate(&self) -> &'c Crate {
        self.crate_
    }

    pub closed spec fn missing(&self) -> Seq<u64> {
        self.missing_ids@
    }

    pub fn new(crate_: &'c Crate) -> (res: CrateWrapper<'c>)
        ensures
            res.the_crate() == crate_,
            res.missing() == Seq::<u64>::empty(),
    {
        CrateWrapper { crate_, missing_ids: Vec::new() }
    }

    /// The item with this id; an id that is not in the crate is recorded.
    pub fn get_item(&mut self, id: u64) -> (res: Option<&'c Item>)
        ensures
            final(self).the_crate() == old(self).the_crate(),
            match res {
                Some(item) => {
                    &&& old(self).index().contains_key(id)
                    &&& *item == old(self).index()[id]
                    &&& final(self).missing() == old(self).missing()
                },
                None => {
                    &&& !old(self).index().contains_key(id)
                    &&& final(self).missing() == old(self).missing().push(id)
                },
            },
    {
        let c: &'c Crate = self.crate_;
        match c.index.get(&id) {
            Some(item) => Some(item),
            None => {
                self.missing_ids.push(id);
                None
            },
        }
    }

    /// The ids that were looked up but are not in the crate, in lookup order.
    pub fn missing_item_ids(&self) -> (res: Vec<u64>)
        ensures
            res@ == self.missing(),
    {
        self.missing_ids.clone()
    }
}

/// The view of a path: the item and overriding name of each element.
pub open spec fn path_view<'c>(p: Seq<IntermediatePublicItem<'c>>) -> Seq<PathElem> {
    p.map_values(|e: IntermediatePublicItem<'c>| e@)
}

/// Copies a path.
fn clone_path<'c>(path: &Vec<IntermediatePublicItem<'c>>) -> (res: Vec<IntermediatePublicItem<'c>>)
    ensures
        res@ == path@,
{
    let mut res: Vec<IntermediatePublicItem<'c>> = Vec::new();
    let mut i: usize = 0;
    while i < path.len()
        invariant
            i <= path.len(),
            res@ == path@.subrange(0, i as int),
        decreases path.len() - i,
    {
        res.push(path[i].duplicate());
        i = i + 1;
    }
    res
}

struct UnprocessedItem<'c> {
    parent_path: Vec<IntermediatePublicItem<'c>>,
    inlined: Vec<u64>,
    id: u64,
}

impl<'c> View for UnprocessedItem<'c> {
    type V = Work;

    closed spec fn view(&self) -> Work {
        Work { parent_path: path_view(self.parent_path@), inlined: self.inlined@, id: self.id }
    }
}

/// The path of one item that the walk reached: the item's ancestors, then the
/// item.
pub struct ProcessedItem<'c> {
    pub path: Vec<IntermediatePublicItem<'c>>,
}

impl<'c> View for ProcessedItem<'c> {
    type V = Seq<PathElem>;

    open spec fn view(&self) -> Seq<PathElem> {
        path_view(self.path@)
    }
}

/// The names along a path, skipping elements that have no name.
pub open spec fn path_names(p: Seq<PathElem>) -> Seq<Seq<char>>
    decreases p.len(),
{
    if p.len() == 0 {
        Seq::empty()
    } else {
        let rest = path_names(p.drop_last());
        match effective_name(p.last().overridden_name, p.last().item) {
            Some(n) => rest.push(n),
            None => rest,
        }
    }
}

impl<'c> ProcessedItem<'c> {
    /// The names along the path of the item, skipping unnamed elements, such
    /// as `["first", "second", "third"]` for `first::second::third`.
    pub fn path_vec(&self) -> (res: Vec<String>)
        ensures
            res@.map_values(|s: String| s@) == path_names(self@),
    {
        let ghost pv = self@;
        let mut res: Vec<String> = Vec::new();
        let mut i: usize = 0;
        while i < self.path.len()
            invariant
                i <= self.path.len(),
                pv == path_view(self.path@),
                res@.map_values(|s: String| s@) == path_names(pv.subrange(0, i as int)),
            decreases self.path.len() - i,
        {
            let ghost before = res@.map_values(|s: String| s@);
            assert(pv.subrange(0, i + 1).drop_last() =~= pv.subrange(0, i as int));
            match self.path[i].name() {
                Some(name) => {
                    res.push(String::from_str(name));
                    assert(res@.map_values(|s: String| s@) =~= before.push(name@));
                },
                None => {},
            }
            i = i + 1;
        }
        assert(pv.subrange(0, self.path.len() as int) =~= pv);
        res
    }
}

/// The views of a sequence of processed items.
pub open spec fn paths_view<'c>(p: Seq<ProcessedItem<'c>>) -> Seq<Seq<PathElem>> {
    p.map_values(|e: ProcessedItem<'c>| e@)
}

/// Walks the items of a crate from its root, depth first, and collects the
/// path of every item it reaches. Public imports are inlined: an imported item
/// shows up at every place it is re-exported, under the name it is re-exported
/// with. The walk goes over everything except `impl`s, so when the crate's
/// description includes private items, private items are output too.
pub struct ItemProcessor<'c> {
    crate_: CrateWrapper<'c>,
    options: Options,
    work_queue: VecDeque<UnprocessedItem<'c>>,
    output: Vec<ProcessedItem<'c>>,
}

impl<'c> ItemProcessor<'c> {
    pub closed spec fn index(&self) -> Map<u64, Item> {
        self.crate_.index()
    }

    pub closed spec fn the_crate(&self) -> &'c Crate {
        self.crate_.the_crate()
    }

    /// The options the walk was made with.
    pub closed spec fn options(&self) -> Options {
        self.options
    }

    pub closed spec fn state(&self) -> ProcState {
        ProcState {
            queue: self.work_queue@.map_values(|u: UnprocessedItem<'c>| u@),
            output: paths_view(self.output@),
            missing: self.crate_.missing(),
        }
    }

    pub fn new(crate_: &'c Crate, options: Options) -> (res: Self)
        ensures
            res.the_crate() == crate_,
            res.options() == options,
            res.state() == (ProcState {
                queue: Seq::empty(),
                output: Seq::empty(),
                missing: Seq::empty(),
            }),
    {
        let res = ItemProcessor {
            crate_: CrateWrapper::new(crate_),
            options,
            work_queue: VecDeque::new(),
            output: Vec::new(),
        };
        assert(res.state().queue =~= Seq::empty());
        assert(res.state().output =~= Seq::empty());
        res
    }

    fn add_to_work_queue(&mut self, parent_path: Vec<IntermediatePublicItem<'c>>, inlined: Vec<u64>, id: u64)
        ensures
            final(self).the_crate() == old(self).the_crate(),
            final(self).options() == old(self).options(),
            final(self).state() == (ProcState {
                queue: seq![Work { parent_path: path_view(parent_path@), inlined: inlined@, id }]
                    + old(self).state().queue,
                ..old(self).state()
            }),
    {
        let ghost old_q = self.work_queue@;
        let u = UnprocessedItem { parent_path, inlined, id };
        self.work_queue.push_front(u);
        assert(self.work_queue@.map_values(|u: UnprocessedItem<'c>| u@) =~= seq![u@] + old_q.map_values(|u: UnprocessedItem<'c>| u@));
    }

    fn finish_item(
        &self,
        unprocessed_item: UnprocessedItem<'c>,
        item: &'c Item,
        overridden_name: Option<String>,
    ) -> (res: ProcessedItem<'c>)
        ensures
            res@ == unprocessed_item@.parent_path.push(
                PathElem { item: *item, overridden_name: opt_str_view(overridden_name) },
            ),
    {
        // Transfer path ownership to output item
        let mut path = unprocessed_item.parent_path;
        let ghost old_path = path@;
        // Complete the path with the last item
        path.push(IntermediatePublicItem { item, overridden_name });
        assert(path_view(path@) =~= path_view(old_path).push(
            PathElem { item: *item, overridden_name: opt_str_view(overridden_name) },
        ));
        ProcessedItem { path }
    }

    fn finish_item_and_push(
        &mut self,
        unprocessed_item: UnprocessedItem<'c>,
        item: &'c Item,
        overridden_name: Option<String>,
    )
        ensures
            final(self).the_crate() == old(self).the_crate(),
            final(self).options() == old(self).options(),
            final(self).state() == (ProcState {
                output: old(self).state().output.push(
                    unprocessed_item@.parent_path.push(
                        PathElem { item: *item, overridden_name: opt_str_view(overridden_name) },
                    ),
                ),
                ..old(self).state()
            }),
    {
        let x = self.finish_item(unprocessed_item, item, overridden_name);
        let ghost old_out = self.output@;
        self.output.push(x);
        assert(paths_view(self.output@) =~= paths_view(old_out).push(x@));
    }

    /// Get the item with `id`, but only if it is not already on the way to
    /// this visit: on the path, or a module that a wildcard import inlined on
    /// the way. This can happen in the case of recursive re-exports, in which
    /// case we need to break the recursion.
    fn get_item_if_not_in_path(
        &mut self,
        parent_path: &[IntermediatePublicItem<'c>],
        inlined: &[u64],
        id: u64,
    ) -> (res: Option<&'c Item>)
        ensures
            final(self).the_crate() == old(self).the_crate(),
            final(self).options() == old(self).options(),
            match res {
                Some(item) => import_target(old(self).index(), path_view(parent_path@), inlined@, Some(id))
                    == Some(*item),
                None => import_target(old(self).index(), path_view(parent_path@), inlined@, Some(id)) is None,
            },
            final(self).state() == (ProcState {
                missing: import_missing(
                    old(self).index(),
                    path_view(parent_path@),
                    inlined@,
                    Some(id),
                    old(self).state().missing,
                ),
                ..old(self).state()
            }),
    {
        let ghost pv = path_view(parent_path@);
        let mut i: usize = 0;
        while i < parent_path.len()
            invariant
                i <= parent_path.len(),
                pv == path_view(parent_path@),
                forall|j: int| 0 <= j < i ==> pv[j].item.id != id,
            decreases parent_path.len() - i,
        {
            if parent_path[i].item.id == id {
                // The item is already in the path! Break import recursion...
                assert(pv[i as int].item.id == id);
                return None;
            }
            i = i + 1;
        }
        assert(!path_has_id(pv, id));
        let mut k: usize = 0;
        while k < inlined.len()
            invariant
                k <= inlined.len(),
                forall|j: int| 0 <= j < k ==> inlined@[j] != id,
            decreases inlined.len() - k,
        {
            if inlined[k] == id {
                // The module was inlined on the way here: break the cycle.
                assert(inlined@.contains(id));
                return None;
            }
            k = k + 1;
        }
        assert(!inlined@.contains(id));
        self.crate_.get_item(id)
    }

    /// Pushes one visit per id, in the order of `ids`, to the front of the
    /// queue, each with its own copy of `path` and of `inlined`.
    fn push_front_all(&mut self, path: &Vec<IntermediatePublicItem<'c>>, inlined: &Vec<u64>, ids: &[u64])
        ensures
            final(self).the_crate() == old(self).the_crate(),
            final(self).options() == old(self).options(),
            final(self).state() == (ProcState {
                queue: works(ids@, path_view(path@), inlined@) + old(self).state().queue,
                ..old(self).state()
            }),
    {
        let ghost pv = path_view(path@);
        let ghost iv = inlined@;
        let ghost q0 = old(self).state().queue;
        let mut i: usize = ids.len();
        assert(works(ids@.subrange(i as int, ids@.len() as int), pv, iv) + q0 =~= q0);
        while i > 0
            invariant
                i <= ids.len(),
                pv == path_view(path@),
                iv == inlined@,
                self.the_crate() == old(self).the_crate(),
                self.options() == old(self).options(),
                self.state() == (ProcState {
                    queue: works(ids@.subrange(i as int, ids@.len() as int), pv, iv) + q0,
                    ..old(self).state()
                }),
            decreases i,
        {
            i = i - 1;
            self.add_to_work_queue(clone_path(path), inlined.clone(), ids[i]);
            assert(works(ids@.subrange(i as int, ids@.len() as int), pv, iv) =~= seq![
                Work { parent_path: pv, inlined: iv, id: ids@[i as int] },
            ] + works(ids@.subrange(i + 1, ids@.len() as int), pv, iv));
            assert(self.state().queue =~= works(ids@.subrange(i as int, ids@.len() as int), pv, iv) + q0);
        }
        assert(ids@.subrange(0, ids@.len() as int) =~= ids@);
    }

    /// Puts the visits of the contained items, then of the impls, of `item`
    /// at the front of the queue, each with `new`'s path as parent path, in
    /// their own order.
    fn push_members(&mut self, new: &ProcessedItem<'c>, inlined: &Vec<u64>, item: &'c Item)
        ensures
            final(self).the_crate() == old(self).the_crate(),
            final(self).options() == old(self).options(),
            final(self).state() == (ProcState {
                queue: member_works(*item, new@, inlined@) + old(self).state().queue,
                ..old(self).state()
            }),
    {
        let ghost path = new@;
        let ghost q0 = self.state().queue;
        // Note reversed so all items end up at the front but in preserved order
        match impls_for_item(item) {
            Some(impls) => self.push_front_all(&new.path, inlined, impls),
            None => {},
        }
        assert(self.state().queue =~= works(or_empty(impl_ids(*item)), path, inlined@) + q0);
        let ghost q1 = self.state().queue;
        match items_in_container(item) {
            Some(children) => self.push_front_all(&new.path, inlined, children.as_slice()),
            None => {},
        }
        assert(self.state().queue =~= works(or_empty(container_ids(*item)), path, inlined@) + q1);
        assert(self.state().queue =~= member_works(*item, path, inlined@) + q0);
    }

    fn process_item(&mut self, unprocessed_item: UnprocessedItem<'c>, item: &'c Item)
        ensures
            final(self).the_crate() == old(self).the_crate(),
            final(self).options() == old(self).options(),
            final(self).state() == (ProcState {
                queue: member_works(*item, item_path(unprocessed_item@.parent_path, *item), unprocessed_item@.inlined)
                    + old(self).state().queue,
                output: old(self).state().output.push(item_path(unprocessed_item@.parent_path, *item)),
                missing: old(self).state().missing,
            }),
    {
        let ghost path = item_path(unprocessed_item@.parent_path, *item);
        let inlined = unprocessed_item.inlined.clone();
        let new = self.finish_item(unprocessed_item, item, None);
        assert(new@ == path);
        self.push_members(&new, &inlined, item);
        let ghost old_out = self.output@;
        self.output.push(new);
        assert(paths_view(self.output@) =~= paths_view(old_out).push(path));
    }

    /// Since public imports are part of the public API, they are inlined: the
    /// imported item is shown in place of the import, under the import's name,
    /// so that the actual API shows, with its type information, and its
    /// contained items and impls are visited under it. An import whose target
    /// is not in the crate (a re-export of a primitive type or of another
    /// crate's item), or is already on the way (which breaks import cycles),
    /// is shown as the import itself.
    fn process_import_item(&mut self, item: &'c Item, import: &'c Import, unprocessed_item: UnprocessedItem<'c>)
        ensures
            final(self).the_crate() == old(self).the_crate(),
            final(self).options() == old(self).options(),
            final(self).state() == (match import_target(
                old(self).index(),
                unprocessed_item@.parent_path,
                unprocessed_item@.inlined,
                import.id,
            ) {
                Some(t) => ProcState {
                    queue: member_works(
                        t,
                        renamed_path(unprocessed_item@.parent_path, t, import.name@),
                        unprocessed_item@.inlined,
                    ) + old(self).state().queue,
                    output: old(self).state().output.push(
                        renamed_path(unprocessed_item@.parent_path, t, import.name@),
                    ),
                    missing: import_missing(
                        old(self).index(),
                        unprocessed_item@.parent_path,
                        unprocessed_item@.inlined,
                        import.id,
                        old(self).state().missing,
                    ),
                },
                None => ProcState {
                    queue: old(self).state().queue,
                    output: old(self).state().output.push(
                        renamed_path(unprocessed_item@.parent_path, *item, import.name@),
                    ),
                    missing: import_missing(
                        old(self).index(),
                        unprocessed_item@.parent_path,
                        unprocessed_item@.inlined,
                        import.id,
                        old(self).state().missing,
                    ),
                },
            }),
    {
        let ghost u = unprocessed_item@;
        let inlined = unprocessed_item.inlined.clone();
        let found = match import.id {
            Some(imported_id) => self.get_item_if_not_in_path(
                unprocessed_item.parent_path.as_slice(),
                inlined.as_slice(),
                imported_id,
            ),
            None => None,
        };
        match found {
            Some(imported_item) => {
                let new = self.finish_item(unprocessed_item, imported_item, Some(import.name.clone()));
                assert(new@ == renamed_path(u.parent_path, *imported_item, import.name@));
                self.push_members(&new, &inlined, imported_item);
                let ghost old_out = self.output@;
                self.output.push(new);
                assert(paths_view(self.output@) =~= paths_view(old_out).push(new@));
            },
            None => {
                self.finish_item_and_push(unprocessed_item, item, Some(import.name.clone()));
            },
        }
    }

    /// A wildcard import `pub use foo::*` of a module stands for all the items
    /// of that module, which are visited with the import's parent path; the
    /// module itself is not added, but remembered as inlined on the way to
    /// them. Before it is inlined, the module is checked not to be on the way
    /// already, which breaks cycles of wildcard imports; a wildcard import
    /// that is not inlined is shown as itself, named `<<source::*>>`.
    fn process_import_glob_item(&mut self, import: &'c Import, unprocessed_item: UnprocessedItem<'c>, item: &'c Item)
        ensures
            final(self).the_crate() == old(self).the_crate(),
            final(self).options() == old(self).options(),
            final(self).state() == (match import_target(
                old(self).index(),
                unprocessed_item@.parent_path,
                unprocessed_item@.inlined,
                import.id,
            ) {
                Some(t) if t.inner is Module => ProcState {
                    queue: works_reversed(
                        t.inner->Module_0.items@,
                        unprocessed_item@.parent_path,
                        unprocessed_item@.inlined.push(import.id.unwrap()),
                    ) + old(self).state().queue,
                    output: old(self).state().output,
                    missing: import_missing(
                        old(self).index(),
                        unprocessed_item@.parent_path,
                        unprocessed_item@.inlined,
                        import.id,
                        old(self).state().missing,
                    ),
                },
                _ => ProcState {
                    queue: old(self).state().queue,
                    output: old(self).state().output.push(
                        renamed_path(unprocessed_item@.parent_path, *item, glob_name(import.source@)),
                    ),
                    missing: import_missing(
                        old(self).index(),
                        unprocessed_item@.parent_path,
                        unprocessed_item@.inlined,
                        import.id,
                        old(self).state().missing,
                    ),
                },
            }),
    {
        let ghost pv = unprocessed_item@.parent_path;
        match import.id {
            Some(id) => {
                let found = self.get_item_if_not_in_path(
                    unprocessed_item.parent_path.as_slice(),
                    unprocessed_item.inlined.as_slice(),
                    id,
                );
                if let Some(target) = found {
                    if let ItemEnum::Module(m) = &target.inner {
                        let mut inlined = unprocessed_item.inlined.clone();
                        inlined.push(id);
                        let ghost iv = inlined@;
                        assert(iv == unprocessed_item@.inlined.push(import.id.unwrap()));
                        let ghost q0 = self.state().queue;
                        let ghost mid = self.state();
                        let mut i: usize = 0;
                        assert(works_reversed(m.items@.subrange(0, 0), pv, iv) + q0 =~= q0);
                        while i < m.items.len()
                            invariant
                                i <= m.items.len(),
                                pv == path_view(unprocessed_item.parent_path@),
                                iv == inlined@,
                                self.the_crate() == old(self).the_crate(),
                                self.options() == old(self).options(),
                                self.state() == (ProcState {
                                    queue: works_reversed(m.items@.subrange(0, i as int), pv, iv) + q0,
                                    ..mid
                                }),
                            decreases m.items.len() - i,
                        {
                            self.add_to_work_queue(clone_path(&unprocessed_item.parent_path), inlined.clone(), m.items[i]);
                            assert(works_reversed(m.items@.subrange(0, i + 1), pv, iv) =~= seq![
                                Work { parent_path: pv, inlined: iv, id: m.items@[i as int] },
                            ] + works_reversed(m.items@.subrange(0, i as int), pv, iv));
                            assert(self.state().queue =~= works_reversed(m.items@.subrange(0, i + 1), pv, iv) + q0);
                            i = i + 1;
                        }
                        assert(m.items@.subrange(0, m.items@.len() as int) =~= m.items@);
                        return;
                    }
                }
            },
            None => {},
        }
        let mut name = String::from_str("<<");
        name.append(import.source.as_str());
        name.append("::*>>");
        self.finish_item_and_push(unprocessed_item, item, Some(name));
    }

    /// `impl` items are not part of the walk: the walk iterates over
    /// everything with the exception of `impl`s, so an `impl` item adds
    /// nothing.
    fn process_impl_item(&self, unprocessed_item: UnprocessedItem<'c>, impl_: &Impl) {
    }

    fn process_any_item(&mut self, item: &'c Item, unprocessed_item: UnprocessedItem<'c>)
        ensures
            final(self).the_crate() == old(self).the_crate(),
            final(self).options() == old(self).options(),
            final(self).state() == process_found(
                old(self).index(),
                old(self).state(),
                unprocessed_item@,
                *item,
            ),
    {
        match &item.inner {
            ItemEnum::Import(import) => {
                if import.glob {
                    self.process_import_glob_item(import, unprocessed_item, item);
                } else {
                    self.process_import_item(item, import, unprocessed_item);
                }
            },
            ItemEnum::Impl(impl_) => {
                self.process_impl_item(unprocessed_item, impl_);
            },
            _ => {
                self.process_item(unprocessed_item, item);
            },
        }
    }

    /// Visits the first item of the queue.
    fn visit_next(&mut self)
        requires
            old(self).state().queue.len() > 0,
        ensures
            final(self).the_crate() == old(self).the_crate(),
            final(self).options() == old(self).options(),
            final(self).state() == step(old(self).index(), old(self).state()),
    {
        let ghost cur = self.state();
        match self.work_queue.pop_front() {
            Some(unprocessed_item) => {
                assert(self.work_queue@.map_values(|u: UnprocessedItem<'c>| u@) =~= cur.queue.drop_first());
                assert(cur.queue[0] == unprocessed_item@);
                match self.crate_.get_item(unprocessed_item.id) {
                    Some(item) => {
                        self.process_any_item(item, unprocessed_item);
                    },
                    None => {},
                }
                assert(self.state() =~= step(old(self).index(), cur));
            },
            None => {},
        }
    }

    /// Visits items until none is left to visit.
    fn run(&mut self)
        requires
            exists|n: nat| run_ok(old(self).index(), old(self).state(), n),
        ensures
            final(self).the_crate() == old(self).the_crate(),
            final(self).options() == old(self).options(),
            final(self).state().queue.len() == 0,
            forall|n: nat| #[trigger]
                run_ok(old(self).index(), old(self).state(), n) ==> final(self).state() == run_result(
                    old(self).index(),
                    old(self).state(),
                    n,
                ),
    {
        let ghost index = self.index();
        let ghost s0 = self.state();
        let ghost n0: nat = choose|n: nat| run_ok(index, s0, n);
        let ghost mut fuel: nat = n0;
        while self.work_queue.len() > 0
            invariant
                self.the_crate() == old(self).the_crate(),
                self.options() == old(self).options(),
                self.index() == index,
                run_ok(index, self.state(), fuel),
                run_result(index, self.state(), fuel) == run_result(index, s0, n0),
            decreases fuel,
        {
            assert(self.state().queue.len() > 0);
            self.visit_next();
            proof {
                fuel = (fuel - 1) as nat;
            }
        }
        proof {
            assert forall|n: nat| #[trigger] run_ok(index, s0, n) implies self.state() == run_result(index, s0, n) by {
                if n <= n0 {
                    lemma_run_fuel_mono(index, s0, n, n0);
                } else {
                    lemma_run_fuel_mono(index, s0, n0, n);
                }
            }
        }
    }

    /// Visits items until none is left to visit, taking at most `max_steps`
    /// steps. Returns whether the walk finished.
    fn run_bounded(&mut self, max_steps: u64) -> (finished: bool)
        ensures
            final(self).the_crate() == old(self).the_crate(),
            final(self).options() == old(self).options(),
            finished == run_ok(old(self).index(), old(self).state(), max_steps as nat),
            finished ==> final(self).state() == run_result(
                old(self).index(),
                old(self).state(),
                max_steps as nat,
            ),
    {
        let ghost index = self.index();
        let ghost s0 = self.state();
        let mut budget: u64 = max_steps;
        while self.work_queue.len() > 0
            invariant
                self.the_crate() == old(self).the_crate(),
                self.options() == old(self).options(),
                self.index() == index,
                index == old(self).index(),
                s0 == old(self).state(),
                run_ok(index, self.state(), budget as nat) == run_ok(index, s0, max_steps as nat),
                run_result(index, self.state(), budget as nat) == run_result(index, s0, max_steps as nat),
            decreases budget,
        {
            assert(self.state().queue.len() > 0);
            if budget == 0 {
                return false;
            }
            self.visit_next();
            budget = budget - 1;
        }
        true
    }
}

/// Walks the items of `crate_` from its root like `public_api_in_crate`, but
/// gives up after `max_steps` visits; returns `None` then.
pub fn public_api_in_crate_bounded<'c>(crate_: &'c Crate, options: Options, max_steps: u64) -> (res: Option<PublicApi<'c>>)
    ensures
        res is Some == run_ok(crate_.index@, initial_state(crate_.root), max_steps as nat),
        match res {
            Some(api) => {
                let r = run_result(crate_.index@, initial_state(crate_.root), max_steps as nat);
                &&& paths_view(api.items@) == r.output
                &&& api.missing_item_ids@ == r.missing
            },
            None => true,
        },
{
    let mut item_processor = ItemProcessor::new(crate_, options);
    item_processor.add_to_work_queue(Vec::new(), Vec::new(), crate_.root);
    assert(path_view(Seq::<IntermediatePublicItem<'c>>::empty()) =~= Seq::empty());
    assert(item_processor.state().queue =~= initial_state(crate_.root).queue);
    assert(item_processor.state() =~= initial_state(crate_.root));
    if item_processor.run_bounded(max_steps) {
        let missing_item_ids = item_processor.crate_.missing_item_ids();
        Some(PublicApi { items: item_processor.output, missing_item_ids })
    } else {
        None
    }
}

/// The result of walking a crate: the path of every item reached, in the
/// order they were reached, and the ids that were looked up but are not in the
/// crate.
pub struct PublicApi<'c> {
    pub items: Vec<ProcessedItem<'c>>,
    pub missing_item_ids: Vec<u64>,
}

/// Walks the items of `crate_` from its root and returns what was reached.
/// The walk has to end. It does on every well-formed crate whose items do not
/// contain each other in a cycle, re-exports in cycles included
/// (`lemma_walk_ends`); a crate whose items contain each other would be walked
/// forever. `public_api_in_crate_bounded` checks this as it goes.
pub fn public_api_in_crate<'c>(crate_: &'c Crate, options: Options) -> (api: PublicApi<'c>)
    requires
        exists|n: nat| run_ok(crate_.index@, initial_state(crate_.root), n),
    ensures
        forall|n: nat| #[trigger]
            run_ok(crate_.index@, initial_state(crate_.root), n) ==> {
                let r = run_result(crate_.index@, initial_state(crate_.root), n);
                &&& paths_view(api.items@) == r.output
                &&& api.missing_item_ids@ == r.missing
            },
{
    let mut item_processor = ItemProcessor::new(crate_, options);
    item_processor.add_to_work_queue(Vec::new(), Vec::new(), crate_.root);
    assert(path_view(Seq::<IntermediatePublicItem<'c>>::empty()) =~= Seq::empty());
    assert(item_processor.state().queue =~= initial_state(crate_.root).queue);
    assert(item_processor.state() =~= initial_state(crate_.root));
    assert(item_processor.index() == crate_.index@);
    item_processor.run();
    let missing_item_ids = item_processor.crate_.missing_item_ids();
    PublicApi { items: item_processor.output, missing_item_ids }
}


// ---------------------------------------------------------------------------
// What every walk keeps
// ---------------------------------------------------------------------------

/// Whether `p` is the path of one of the first `bound` outputs.
pub open spec fn is_earlier_path(output: Seq<Seq<PathElem>>, p: Seq<PathElem>, bound: int) -> bool {
    exists|j: int| 0 <= j < bound && j < output.len() && #[trigger] output[j] == p
}

/// Every output path is a parent's path (an earlier output) extended by one
/// item, or a single item.
pub open spec fn output_is_tree(output: Seq<Seq<PathElem>>) -> bool {
    forall|k: int|
        0 <= k < output.len() ==> {
            &&& #[trigger] output[k].len() >= 1
            &&& output[k].len() == 1 || is_earlier_path(output, output[k].drop_last(), k)
        }
}

/// The item at the end of an output path is an item of the crate.
pub open spec fn ends_in_crate_item(index: Map<u64, Item>, p: Seq<PathElem>) -> bool {
    &&& p.len() >= 1
    &&& exists|key: u64| index.contains_key(key) && #[trigger] index[key] == p.last().item
}

/// What holds of every state that the walk reaches.
pub open spec fn walk_inv(index: Map<u64, Item>, s: ProcState) -> bool {
    &&& forall|i: int|
        0 <= i < s.queue.len() ==> (#[trigger] s.queue[i]).parent_path.len() == 0 || is_earlier_path(
            s.output,
            s.queue[i].parent_path,
            s.output.len() as int,
        )
    &&& output_is_tree(s.output)
    &&& forall|k: int| 0 <= k < s.output.len() ==> ends_in_crate_item(index, #[trigger] s.output[k])
    &&& forall|m: int| 0 <= m < s.missing.len() ==> !index.contains_key(#[trigger] s.missing[m])
}

/// Adding the path `parent.push(e)` to the output keeps the output a tree of
/// crate items when `parent` is empty or already in the output and `e` is an
/// item of the crate.
proof fn lemma_push_keeps_inv(index: Map<u64, Item>, s: ProcState, t: ProcState, parent: Seq<PathElem>, e: PathElem)
    requires
        walk_inv(index, s),
        parent.len() == 0 || is_earlier_path(s.output, parent, s.output.len() as int),
        exists|key: u64| index.contains_key(key) && #[trigger] index[key] == e.item,
        t.output == s.output.push(parent.push(e)),
        forall|i: int|
            0 <= i < t.queue.len() ==> (#[trigger] t.queue[i]).parent_path.len() == 0 || is_earlier_path(
                s.output,
                t.queue[i].parent_path,
                s.output.len() as int,
            ) || t.queue[i].parent_path == parent.push(e),
        forall|m: int| 0 <= m < t.missing.len() ==> !index.contains_key(#[trigger] t.missing[m]),
    ensures
        walk_inv(index, t),
{
    let k = s.output.len() as int;
    let path = parent.push(e);
    assert(t.output[k] == path);
    assert(path.drop_last() =~= parent);
    assert forall|i: int| 0 <= i < t.queue.len() implies (#[trigger] t.queue[i]).parent_path.len() == 0
        || is_earlier_path(t.output, t.queue[i].parent_path, t.output.len() as int) by {
        let p = t.queue[i].parent_path;
        if p.len() != 0 && p != path {
            let j = choose|j: int| 0 <= j < k && j < s.output.len() && #[trigger] s.output[j] == p;
            assert(t.output[j] == s.output[j]);
        }
    }
    assert forall|kk: int| 0 <= kk < t.output.len() implies {
        &&& #[trigger] t.output[kk].len() >= 1
        &&& t.output[kk].len() == 1 || is_earlier_path(t.output, t.output[kk].drop_last(), kk)
    } by {
        if kk < k {
            assert(t.output[kk] == s.output[kk]);
            if t.output[kk].len() != 1 {
                let j = choose|j: int| 0 <= j < kk && j < s.output.len() && #[trigger] s.output[j]
                    == s.output[kk].drop_last();
                assert(t.output[j] == s.output[j]);
            }
        } else {
            if parent.len() != 0 {
                let j = choose|j: int| 0 <= j < k && j < s.output.len() && #[trigger] s.output[j] == parent;
                assert(t.output[j] == s.output[j]);
            }
        }
    }
    assert forall|kk: int| 0 <= kk < t.output.len() implies ends_in_crate_item(index, #[trigger] t.output[kk]) by {
        if kk < k {
            assert(t.output[kk] == s.output[kk]);
        } else {
            assert(path.last() == e);
        }
    }
}

/// Every visit of `member_works` has the given parent path and inlined
/// modules.
proof fn lemma_member_works_parent(item: Item, path: Seq<PathElem>, inlined: Seq<u64>)
    ensures
        forall|i: int|
            0 <= i < member_works(item, path, inlined).len() ==> {
                &&& (#[trigger] member_works(item, path, inlined)[i]).parent_path == path
                &&& member_works(item, path, inlined)[i].inlined == inlined
            },
{
    let cs = works(or_empty(container_ids(item)), path, inlined);
    let is = works(or_empty(impl_ids(item)), path, inlined);
    assert forall|i: int| 0 <= i < member_works(item, path, inlined).len() implies {
        &&& (#[trigger] member_works(item, path, inlined)[i]).parent_path == path
        &&& member_works(item, path, inlined)[i].inlined == inlined
    } by {
        if i < cs.len() {
            assert(member_works(item, path, inlined)[i] == cs[i]);
        } else {
            assert(member_works(item, path, inlined)[i] == is[i - cs.len()]);
        }
    }
}

proof fn lemma_step_keeps_inv(index: Map<u64, Item>, s: ProcState)
    requires
        walk_inv(index, s),
        s.queue.len() > 0,
    ensures
        walk_inv(index, step(index, s)),
        s.output.is_prefix_of(step(index, s).output),
{
    let w = s.queue[0];
    let t = step(index, s);
    let rest = s.queue.drop_first();
    let k = s.output.len() as int;
    assert(w.parent_path.len() == 0 || is_earlier_path(s.output, w.parent_path, k));
    assert forall|i: int| 0 <= i < rest.len() implies (#[trigger] rest[i]).parent_path.len() == 0
        || is_earlier_path(s.output, rest[i].parent_path, k) by {
        assert(rest[i] == s.queue[i + 1]);
    }
    if index.contains_key(w.id) {
        let item = index[w.id];
        assert(index.contains_key(w.id) && index[w.id] == item);
        match item.inner {
            ItemEnum::Import(imp) => {
                let target = import_target(index, w.parent_path, w.inlined, imp.id);
                assert forall|m: int| 0 <= m < t.missing.len() implies !index.contains_key(
                    #[trigger] t.missing[m],
                ) by {
                    if m < s.missing.len() {
                        assert(t.missing[m] == s.missing[m]);
                    }
                }
                if imp.glob && target is Some && target.unwrap().inner is Module {
                    let ws = works_reversed(
                        target.unwrap().inner->Module_0.items@,
                        w.parent_path,
                        w.inlined.push(imp.id.unwrap()),
                    );
                    assert forall|i: int| 0 <= i < t.queue.len() implies (#[trigger] t.queue[i]).parent_path.len()
                        == 0 || is_earlier_path(t.output, t.queue[i].parent_path, t.output.len() as int) by {
                        if i < ws.len() {
                            assert(t.queue[i] == ws[i]);
                        } else {
                            assert(t.queue[i] == rest[i - ws.len()]);
                        }
                    }
                    assert(t.output =~= s.output);
                } else if !imp.glob && target is Some {
                    let tg = target.unwrap();
                    let e = PathElem { item: tg, overridden_name: Some(imp.name@) };
                    let path = w.parent_path.push(e);
                    let ms = member_works(tg, path, w.inlined);
                    let x = imp.id.unwrap();
                    assert(index.contains_key(x) && index[x] == e.item);
                    assert(t.output == s.output.push(path));
                    lemma_member_works_parent(tg, path, w.inlined);
                    assert forall|i: int| 0 <= i < t.queue.len() implies (#[trigger] t.queue[i]).parent_path.len()
                        == 0 || is_earlier_path(s.output, t.queue[i].parent_path, k) || t.queue[i].parent_path
                        == path by {
                        if i < ms.len() {
                            assert(t.queue[i] == ms[i]);
                        } else {
                            assert(t.queue[i] == rest[i - ms.len()]);
                        }
                    }
                    lemma_push_keeps_inv(index, s, t, w.parent_path, e);
                } else {
                    let e = if imp.glob {
                        PathElem { item, overridden_name: Some(glob_name(imp.source@)) }
                    } else {
                        PathElem { item, overridden_name: Some(imp.name@) }
                    };
                    assert(t.output == s.output.push(w.parent_path.push(e)));
                    assert forall|i: int| 0 <= i < t.queue.len() implies (#[trigger] t.queue[i]).parent_path.len()
                        == 0 || is_earlier_path(s.output, t.queue[i].parent_path, k) || t.queue[i].parent_path
                        == w.parent_path.push(e) by {
                        assert(t.queue[i] == rest[i]);
                    }
                    lemma_push_keeps_inv(index, s, t, w.parent_path, e);
                }
            },
            ItemEnum::Impl(_) => {
                assert forall|i: int| 0 <= i < t.queue.len() implies (#[trigger] t.queue[i]).parent_path.len()
                    == 0 || is_earlier_path(t.output, t.queue[i].parent_path, t.output.len() as int) by {
                    assert(t.queue[i] == rest[i]);
                }
                assert(t.output =~= s.output);
            },
            _ => {
                let e = PathElem { item, overridden_name: None };
                let path = item_path(w.parent_path, item);
                let ms = member_works(item, path, w.inlined);
                lemma_member_works_parent(item, path, w.inlined);
                assert forall|i: int| 0 <= i < t.queue.len() implies (#[trigger] t.queue[i]).parent_path.len()
                    == 0 || is_earlier_path(s.output, t.queue[i].parent_path, k) || t.queue[i].parent_path
                    == w.parent_path.push(e) by {
                    if i < ms.len() {
                        assert(t.queue[i] == ms[i]);
                    } else {
                        assert(t.queue[i] == rest[i - ms.len()]);
                    }
                }
                lemma_push_keeps_inv(index, s, t, w.parent_path, e);
            },
        }
    } else {
        assert forall|m: int| 0 <= m < t.missing.len() implies !index.contains_key(#[trigger] t.missing[m]) by {
            if m < s.missing.len() {
                assert(t.missing[m] == s.missing[m]);
            }
        }
        assert forall|i: int| 0 <= i < t.queue.len() implies (#[trigger] t.queue[i]).parent_path.len() == 0
            || is_earlier_path(t.output, t.queue[i].parent_path, t.output.len() as int) by {
            assert(t.queue[i] == rest[i]);
        }
    }
}

proof fn lemma_run_keeps_inv(index: Map<u64, Item>, s: ProcState, n: nat)
    requires
        walk_inv(index, s),
    ensures
        walk_inv(index, run_result(index, s, n)),
        s.output.is_prefix_of(run_result(index, s, n).output),
    decreases n,
{
    if s.queue.len() != 0 && n > 0 {
        lemma_step_keeps_inv(index, s);
        lemma_run_keeps_inv(index, step(index, s), (n - 1) as nat);
    }
}

/// Every path that the walk outputs is a single item or extends the path of
/// an item output before it by one item: the output lists a tree of items,
/// parents before their children.
pub proof fn lemma_walk_output_is_tree(index: Map<u64, Item>, root: u64, n: nat)
    ensures
        output_is_tree(run_result(index, initial_state(root), n).output),
{
    lemma_run_keeps_inv(index, initial_state(root), n);
}

/// Every path that the walk outputs ends in an item of the crate: an item it
/// visited, or the item an import was inlined to.
pub proof fn lemma_walk_outputs_crate_items(index: Map<u64, Item>, root: u64, n: nat)
    ensures
        forall|k: int|
            0 <= k < run_result(index, initial_state(root), n).output.len() ==> ends_in_crate_item(
                index,
                #[trigger] run_result(index, initial_state(root), n).output[k],
            ),
{
    lemma_run_keeps_inv(index, initial_state(root), n);
}

/// Every id that the walk reports as missing is absent from the crate.
pub proof fn lemma_walk_missing_ids_are_absent(index: Map<u64, Item>, root: u64, n: nat)
    ensures
        forall|m: int|
            0 <= m < run_result(index, initial_state(root), n).missing.len() ==> !index.contains_key(
                #[trigger] run_result(index, initial_state(root), n).missing[m],
            ),
{
    lemma_run_keeps_inv(index, initial_state(root), n);
}

/// When the root is an item that is neither an import nor an impl, its path
/// comes first in the output and is the root alone.
pub proof fn lemma_walk_starts_at_root(index: Map<u64, Item>, root: u64, n: nat)
    requires
        n >= 1,
        index.contains_key(root),
        !(index[root].inner is Import),
        !(index[root].inner is Impl),
    ensures
        run_result(index, initial_state(root), n).output.len() >= 1,
        run_result(index, initial_state(root), n).output[0] == seq![
            PathElem { item: index[root], overridden_name: None },
        ],
{
    let s0 = initial_state(root);
    let t = step(index, s0);
    assert(item_path(Seq::empty(), index[root]) =~= seq![PathElem { item: index[root], overridden_name: None }]);
    assert(t.output =~= seq![seq![PathElem { item: index[root], overridden_name: None }]]);
    lemma_step_keeps_inv(index, s0);
    lemma_run_keeps_inv(index, t, (n - 1) as nat);
}

// ---------------------------------------------------------------------------
// What a shown item adds to the walk
// ---------------------------------------------------------------------------

/// Whether the queue starts with one visit per id, in order, each with the
/// given parent path and inlined modules.
pub open spec fn visits_first(q: Seq<Work>, ids: Seq<u64>, path: Seq<PathElem>, inlined: Seq<u64>) -> bool {
    &&& ids.len() <= q.len()
    &&& forall|i: int| 0 <= i < ids.len() ==> #[trigger] q[i] == Work { parent_path: path, inlined, id: ids[i] }
}

/// Whether the queue starts with the visits of what the crate description
/// lists inside `x`, under `path`: the items of a module, trait or impl; the
/// fields, then the impls, of a union or of a struct with named fields; the
/// impls of any other struct; the variants, then the impls, of an enum; the
/// fields of a struct-like variant; the impls of a primitive type.
pub open spec fn visits_contents_first(q: Seq<Work>, x: Item, path: Seq<PathElem>, inlined: Seq<u64>) -> bool {
    match x.inner {
        ItemEnum::Module(m) => visits_first(q, m.items@, path, inlined),
        ItemEnum::Trait(t) => visits_first(q, t.items@, path, inlined),
        ItemEnum::Impl(i) => visits_first(q, i.items@, path, inlined),
        ItemEnum::Union(u) => visits_first(q, u.fields@ + u.impls@, path, inlined),
        ItemEnum::Struct(st) => match st.kind {
            StructKind::Plain { fields } => visits_first(q, fields@ + st.impls@, path, inlined),
            _ => visits_first(q, st.impls@, path, inlined),
        },
        ItemEnum::Enum(e) => visits_first(q, e.variants@ + e.impls@, path, inlined),
        ItemEnum::Variant(v) => match v {
            Variant::Struct { fields } => visits_first(q, fields@, path, inlined),
            _ => true,
        },
        ItemEnum::Primitive(pr) => visits_first(q, pr.impls@, path, inlined),
        _ => true,
    }
}

proof fn lemma_member_works_visit_contents(x: Item, path: Seq<PathElem>, inlined: Seq<u64>, rest: Seq<Work>)
    ensures
        visits_contents_first(member_works(x, path, inlined) + rest, x, path, inlined),
{
    let mw = member_works(x, path, inlined);
    let q = mw + rest;
    lemma_member_works_parent(x, path, inlined);
    lemma_member_works_ids(x, path, inlined);
    let ids = member_ids(x);
    assert forall|i: int| 0 <= i < ids.len() implies #[trigger] q[i] == Work {
        parent_path: path,
        inlined,
        id: ids[i],
    } by {
        assert(q[i] == mw[i]);
        assert(mw[i].parent_path == path && mw[i].inlined == inlined && mw[i].id == ids[i]);
    }
    assert(visits_first(q, ids, path, inlined));
    match x.inner {
        ItemEnum::Module(m) => assert(ids =~= m.items@),
        ItemEnum::Trait(t) => assert(ids =~= t.items@),
        ItemEnum::Impl(i) => assert(ids =~= i.items@),
        ItemEnum::Union(u) => assert(ids =~= u.fields@ + u.impls@),
        ItemEnum::Struct(st) => match st.kind {
            StructKind::Plain { fields } => assert(ids =~= fields@ + st.impls@),
            _ => assert(ids =~= st.impls@),
        },
        ItemEnum::Enum(e) => assert(ids =~= e.variants@ + e.impls@),
        ItemEnum::Variant(v) => match v {
            Variant::Struct { fields } => assert(ids =~= fields@),
            _ => {},
        },
        ItemEnum::Primitive(pr) => assert(ids =~= pr.impls@),
        _ => {},
    }
}

/// Visiting an item that is neither an import nor an impl shows it (its
/// parent's path followed by the item) and then visits, before anything
/// else, everything the crate description lists inside it (the items of a
/// module or trait, the fields and impls of a struct, ...), each with the
/// item's path as parent path.
pub proof fn lemma_shown_item_visits_its_contents(index: Map<u64, Item>, s: ProcState)
    requires
        s.queue.len() > 0,
        index.contains_key(s.queue[0].id),
        !(index[s.queue[0].id].inner is Import),
        !(index[s.queue[0].id].inner is Impl),
    ensures
        step(index, s).output == s.output.push(
            s.queue[0].parent_path.push(PathElem { item: index[s.queue[0].id], overridden_name: None }),
        ),
        visits_contents_first(
            step(index, s).queue,
            index[s.queue[0].id],
            s.queue[0].parent_path.push(PathElem { item: index[s.queue[0].id], overridden_name: None }),
            s.queue[0].inlined,
        ),
{
    let w = s.queue[0];
    let item = index[w.id];
    lemma_member_works_visit_contents(item, item_path(w.parent_path, item), w.inlined, s.queue.drop_first());
}

/// Visiting a re-export by name whose target is in the crate and not on the
/// way shows the target under the import's name, and then visits, before
/// anything else, everything the crate description lists inside the target,
/// with that path as parent path.
pub proof fn lemma_reexport_visits_target_contents(index: Map<u64, Item>, s: ProcState)
    requires
        s.queue.len() > 0,
        index.contains_key(s.queue[0].id),
        index[s.queue[0].id].inner is Import,
        !index[s.queue[0].id].inner->Import_0.glob,
        index[s.queue[0].id].inner->Import_0.id is Some,
        index.contains_key(index[s.queue[0].id].inner->Import_0.id.unwrap()),
        !on_the_way(s.queue[0].parent_path, s.queue[0].inlined, index[s.queue[0].id].inner->Import_0.id.unwrap()),
    ensures
        ({
            let imp = index[s.queue[0].id].inner->Import_0;
            let target = index[imp.id.unwrap()];
            let path = s.queue[0].parent_path.push(PathElem { item: target, overridden_name: Some(imp.name@) });
            &&& step(index, s).output == s.output.push(path)
            &&& visits_contents_first(step(index, s).queue, target, path, s.queue[0].inlined)
        }),
{
    let w = s.queue[0];
    let imp = index[w.id].inner->Import_0;
    let target = index[imp.id.unwrap()];
    lemma_member_works_visit_contents(
        target,
        renamed_path(w.parent_path, target, imp.name@),
        w.inlined,
        s.queue.drop_first(),
    );
}

// ---------------------------------------------------------------------------
// When the walk ends
// ---------------------------------------------------------------------------

/// The visits that visiting `w` adds to the front of the items still to
/// visit: the contained items and impls of an item that is shown (an item
/// visited, or the item an import by name was inlined to), with its path; or
/// the items of the module that a wildcard import inlines (last first), with
/// the import's parent path and the module remembered as inlined. Imports
/// that are not followed, `impl`s and ids not in the crate add nothing.
pub open spec fn next_works(index: Map<u64, Item>, w: Work) -> Seq<Work> {
    if !index.contains_key(w.id) {
        Seq::empty()
    } else {
        let item = index[w.id];
        match item.inner {
            ItemEnum::Import(imp) => {
                let target = import_target(index, w.parent_path, w.inlined, imp.id);
                if imp.glob {
                    if target is Some && target.unwrap().inner is Module {
                        works_reversed(
                            target.unwrap().inner->Module_0.items@,
                            w.parent_path,
                            w.inlined.push(imp.id.unwrap()),
                        )
                    } else {
                        Seq::empty()
                    }
                } else {
                    match target {
                        Some(t) => member_works(t, renamed_path(w.parent_path, t, imp.name@), w.inlined),
                        None => Seq::empty(),
                    }
                }
            },
            ItemEnum::Impl(_) => Seq::empty(),
            _ => member_works(item, item_path(w.parent_path, item), w.inlined),
        }
    }
}

/// One step of the walk puts the visits that the first one adds in its place.
pub proof fn lemma_step_queue(index: Map<u64, Item>, s: ProcState)
    requires
        s.queue.len() > 0,
    ensures
        step(index, s).queue == next_works(index, s.queue[0]) + s.queue.drop_first(),
{
    let w = s.queue[0];
    let rest = s.queue.drop_first();
    assert(Seq::<Work>::empty() + rest =~= rest);
}

/// Whether `rank` puts every visit that a visit adds below that visit.
pub open spec fn is_work_rank(index: Map<u64, Item>, rank: spec_fn(Work) -> nat) -> bool {
    forall|w: Work, i: int|
        0 <= i < next_works(index, w).len() ==> rank(#[trigger] next_works(index, w)[i]) < rank(w)
}

/// A bound on the number of visits that visiting `w` leads to, looking `d`
/// levels down.
pub open spec fn walk_cost(index: Map<u64, Item>, w: Work, d: nat) -> nat
    decreases d, 0nat, 0nat,
{
    if d == 0 {
        1
    } else {
        1 + walk_costs(index, next_works(index, w), (d - 1) as nat)
    }
}

/// The sum of `walk_cost` over some visits.
pub open spec fn walk_costs(index: Map<u64, Item>, ws: Seq<Work>, d: nat) -> nat
    decreases d, 1nat, ws.len(),
{
    if ws.len() == 0 {
        0
    } else {
        walk_cost(index, ws[0], d) + walk_costs(index, ws.drop_first(), d)
    }
}

/// A bound on the number of visits that the items still to visit lead to.
pub open spec fn queue_cost(index: Map<u64, Item>, rank: spec_fn(Work) -> nat, q: Seq<Work>) -> nat
    decreases q.len(),
{
    if q.len() == 0 {
        0
    } else {
        walk_cost(index, q[0], rank(q[0]) + 1) + queue_cost(index, rank, q.drop_first())
    }
}

proof fn lemma_walk_cost_mono(index: Map<u64, Item>, w: Work, d1: nat, d2: nat)
    requires
        d1 <= d2,
    ensures
        1 <= walk_cost(index, w, d1) <= walk_cost(index, w, d2),
    decreases d2, 0nat, 0nat,
{
    if d1 > 0 {
        lemma_walk_costs_mono(index, next_works(index, w), (d1 - 1) as nat, (d2 - 1) as nat);
    }
}

proof fn lemma_walk_costs_mono(index: Map<u64, Item>, ws: Seq<Work>, d1: nat, d2: nat)
    requires
        d1 <= d2,
    ensures
        walk_costs(index, ws, d1) <= walk_costs(index, ws, d2),
    decreases d2, 1nat, ws.len(),
{
    if ws.len() > 0 {
        lemma_walk_cost_mono(index, ws[0], d1, d2);
        lemma_walk_costs_mono(index, ws.drop_first(), d1, d2);
    }
}

proof fn lemma_queue_cost_append(index: Map<u64, Item>, rank: spec_fn(Work) -> nat, a: Seq<Work>, b: Seq<Work>)
    ensures
        queue_cost(index, rank, a + b) == queue_cost(index, rank, a) + queue_cost(index, rank, b),
    decreases a.len(),
{
    if a.len() == 0 {
        assert(a + b =~= b);
    } else {
        assert((a + b).drop_first() =~= a.drop_first() + b);
        lemma_queue_cost_append(index, rank, a.drop_first(), b);
    }
}

proof fn lemma_queue_cost_bound(index: Map<u64, Item>, rank: spec_fn(Work) -> nat, ws: Seq<Work>, d: nat)
    requires
        forall|i: int| 0 <= i < ws.len() ==> rank(#[trigger] ws[i]) < d,
    ensures
        queue_cost(index, rank, ws) <= walk_costs(index, ws, d),
    decreases ws.len(),
{
    if ws.len() > 0 {
        assert(rank(ws[0]) < d);
        lemma_walk_cost_mono(index, ws[0], rank(ws[0]) + 1, d);
        assert forall|i: int| 0 <= i < ws.drop_first().len() implies rank(#[trigger] ws.drop_first()[i]) < d by {
            assert(ws.drop_first()[i] == ws[i + 1]);
        }
        lemma_queue_cost_bound(index, rank, ws.drop_first(), d);
    }
}

proof fn lemma_step_lowers_cost(index: Map<u64, Item>, rank: spec_fn(Work) -> nat, s: ProcState)
    requires
        is_work_rank(index, rank),
        s.queue.len() > 0,
    ensures
        queue_cost(index, rank, step(index, s).queue) < queue_cost(index, rank, s.queue),
{
    let w = s.queue[0];
    let rest = s.queue.drop_first();
    let next = next_works(index, w);
    let d = rank(w);
    lemma_step_queue(index, s);
    lemma_walk_cost_mono(index, w, 0, d + 1);
    assert forall|i: int| 0 <= i < next.len() implies rank(#[trigger] next[i]) < d by {
        assert(rank(next_works(index, w)[i]) < rank(w));
    }
    lemma_queue_cost_bound(index, rank, next, d);
    lemma_queue_cost_append(index, rank, next, rest);
}

proof fn lemma_run_ok_within_cost(index: Map<u64, Item>, rank: spec_fn(Work) -> nat, s: ProcState)
    requires
        is_work_rank(index, rank),
    ensures
        run_ok(index, s, queue_cost(index, rank, s.queue)),
    decreases queue_cost(index, rank, s.queue),
{
    if s.queue.len() > 0 {
        let t = step(index, s);
        lemma_step_lowers_cost(index, rank, s);
        lemma_run_ok_within_cost(index, rank, t);
        let c = queue_cost(index, rank, s.queue);
        lemma_run_fuel_mono(index, t, queue_cost(index, rank, t.queue), (c - 1) as nat);
    }
}

/// The walk ends on every crate whose visits have a rank that puts what a
/// visit adds below the visit. What a visit adds depends on the way to it: an
/// import whose target is already on the way adds nothing.
pub proof fn lemma_walk_ends_with_rank(index: Map<u64, Item>, root: u64, rank: spec_fn(Work) -> nat)
    requires
        is_work_rank(index, rank),
    ensures
        exists|n: nat| run_ok(index, initial_state(root), n),
{
    lemma_run_ok_within_cost(index, rank, initial_state(root));
}

/// Whether every key of the index is the id of the item it gives, and the
/// index is finite: what a crate's description always is.
pub open spec fn index_is_well_formed(index: Map<u64, Item>) -> bool {
    &&& index.dom().finite()
    &&& forall|k: u64| index.contains_key(k) ==> (#[trigger] index[k]).id == k
}

/// The ids of the contained items, then of the impls, of an item.
pub open spec fn member_ids(item: Item) -> Seq<u64> {
    or_empty(container_ids(item)) + or_empty(impl_ids(item))
}

/// Whether `rank` stays below `bound` and puts the contained items and impls
/// of every item that is shown when visited below the item: items do not
/// contain each other in a cycle.
pub open spec fn is_containment_rank(index: Map<u64, Item>, rank: spec_fn(u64) -> nat, bound: nat) -> bool {
    &&& forall|id: u64| #[trigger] rank(id) < bound
    &&& forall|id: u64, i: int|
        index.contains_key(id) && !(index[id].inner is Import) && !(index[id].inner is Impl) && 0 <= i
            < member_ids(index[id]).len() ==> rank(#[trigger] member_ids(index[id])[i]) < rank(id)
}

/// The ids on the way to a visit: on its parent path, or modules inlined by
/// wildcard imports on the way.
pub open spec fn way_ids(w: Work) -> Set<u64> {
    Set::new(|k: u64| on_the_way(w.parent_path, w.inlined, k))
}

/// The number of items of the crate that are not on the way to a visit.
pub open spec fn left_off_the_way(index: Map<u64, Item>, w: Work) -> nat {
    index.dom().difference(way_ids(w)).len()
}

proof fn lemma_member_works_ids(item: Item, path: Seq<PathElem>, inlined: Seq<u64>)
    ensures
        member_works(item, path, inlined).len() == member_ids(item).len(),
        forall|i: int|
            0 <= i < member_ids(item).len() ==> (#[trigger] member_works(item, path, inlined)[i]).id
                == member_ids(item)[i],
{
    let cs = or_empty(container_ids(item));
    let is = or_empty(impl_ids(item));
    assert forall|i: int| 0 <= i < member_ids(item).len() implies (#[trigger] member_works(
        item,
        path,
        inlined,
    )[i]).id == member_ids(item)[i] by {
        if i < cs.len() {
            assert(member_works(item, path, inlined)[i] == works(cs, path, inlined)[i]);
        } else {
            assert(member_works(item, path, inlined)[i] == works(is, path, inlined)[i - cs.len()]);
        }
    }
}

/// Fewer items are off the way when the way grows, and strictly fewer when it
/// grows by an item of the crate.
proof fn lemma_fewer_off_the_way(index: Map<u64, Item>, w: Work, c: Work, k: u64)
    requires
        index.dom().finite(),
        way_ids(w).subset_of(way_ids(c)),
    ensures
        left_off_the_way(index, c) <= left_off_the_way(index, w),
        index.contains_key(k) && !way_ids(w).contains(k) && way_ids(c).contains(k) ==> left_off_the_way(index, c)
            < left_off_the_way(index, w),
{
    let dw = index.dom().difference(way_ids(w));
    let dc = index.dom().difference(way_ids(c));
    vstd::set::axiom_set_difference_finite(index.dom(), way_ids(w));
    vstd::set_lib::lemma_len_subset(dc, dw);
    if index.contains_key(k) && !way_ids(w).contains(k) && way_ids(c).contains(k) {
        vstd::set::axiom_set_remove_len(dw, k);
        vstd::set::axiom_set_remove_finite(dw, k);
        assert(dw.contains(k));
        vstd::set_lib::lemma_len_subset(dc, dw.remove(k));
    }
}

/// A path extended by one element keeps every id on it and adds the
/// element's.
proof fn lemma_path_push_ids(path: Seq<PathElem>, e: PathElem)
    ensures
        path_has_id(path.push(e), e.item.id),
        forall|k: u64| path_has_id(path, k) ==> path_has_id(path.push(e), k),
{
    assert(path.push(e)[path.len() as int] == e);
    assert forall|k: u64| path_has_id(path, k) implies path_has_id(path.push(e), k) by {
        let i = choose|i: int| 0 <= i < path.len() && #[trigger] path[i].item.id == k;
        assert(path.push(e)[i] == path[i]);
    }
}

/// The rank of a visit: items off the way count most, then the rank of the
/// visited item.
pub open spec fn visit_rank(index: Map<u64, Item>, rank: spec_fn(u64) -> nat, bound: nat, w: Work) -> nat {
    left_off_the_way(index, w) * bound + rank(w.id)
}

proof fn lemma_next_work_ranks_lower(
    index: Map<u64, Item>,
    rank: spec_fn(u64) -> nat,
    bound: nat,
    w: Work,
    i: int,
)
    requires
        index_is_well_formed(index),
        is_containment_rank(index, rank, bound),
        0 <= i < next_works(index, w).len(),
    ensures
        visit_rank(index, rank, bound, next_works(index, w)[i]) < visit_rank(index, rank, bound, w),
{
    let item = index[w.id];
    let c = next_works(index, w)[i];
    let lw = left_off_the_way(index, w);
    assert(rank(c.id) < bound);
    match item.inner {
        ItemEnum::Import(imp) => {
            let tid = imp.id.unwrap();
            let target = import_target(index, w.parent_path, w.inlined, imp.id);
            assert(!on_the_way(w.parent_path, w.inlined, tid) && index.contains_key(tid));
            assert(!way_ids(w).contains(tid));
            if imp.glob {
                let items = target.unwrap().inner->Module_0.items@;
                let inl = w.inlined.push(tid);
                assert(c == works_reversed(items, w.parent_path, inl)[i]);
                assert(c.parent_path == w.parent_path && c.inlined == inl);
                assert(inl[w.inlined.len() as int] == tid);
                assert(way_ids(c).contains(tid));
                assert forall|k: u64| way_ids(w).contains(k) implies way_ids(c).contains(k) by {
                    if w.inlined.contains(k) {
                        let j = choose|j: int| 0 <= j < w.inlined.len() && w.inlined[j] == k;
                        assert(inl[j] == k);
                    }
                }
            } else {
                let t = target.unwrap();
                let e = PathElem { item: t, overridden_name: Some(imp.name@) };
                let path = renamed_path(w.parent_path, t, imp.name@);
                lemma_member_works_parent(t, path, w.inlined);
                assert(c.parent_path == path && c.inlined == w.inlined);
                assert(t.id == tid);
                lemma_path_push_ids(w.parent_path, e);
                assert(way_ids(c).contains(tid));
            }
            lemma_fewer_off_the_way(index, w, c, tid);
            let lc = left_off_the_way(index, c);
            assert(lc * bound + rank(c.id) < lw * bound) by (nonlinear_arith)
                requires
                    lc < lw,
                    rank(c.id) < bound,
            ;
        },
        ItemEnum::Impl(_) => {},
        _ => {
            let e = PathElem { item, overridden_name: None };
            let path = item_path(w.parent_path, item);
            lemma_member_works_parent(item, path, w.inlined);
            lemma_member_works_ids(item, path, w.inlined);
            assert(c.parent_path == path && c.inlined == w.inlined);
            assert(c.id == member_ids(item)[i]);
            assert(rank(member_ids(index[w.id])[i]) < rank(w.id));
            lemma_path_push_ids(w.parent_path, e);
            lemma_fewer_off_the_way(index, w, c, w.id);
            let lc = left_off_the_way(index, c);
            assert(lc * bound <= lw * bound) by (nonlinear_arith)
                requires
                    lc <= lw,
            ;
        },
    }
}

/// The walk ends on every crate whose description is well formed and whose
/// items do not contain each other in a cycle. Cycles of re-exports, by name
/// or by wildcard, are cut: an import whose target is already on the way,
/// on the path or inlined by a wildcard import on the way, is not followed.
pub proof fn lemma_walk_ends(index: Map<u64, Item>, root: u64, rank: spec_fn(u64) -> nat, bound: nat)
    requires
        index_is_well_formed(index),
        is_containment_rank(index, rank, bound),
    ensures
        exists|n: nat| run_ok(index, initial_state(root), n),
{
    let wrank = |w: Work| visit_rank(index, rank, bound, w);
    assert forall|w: Work, i: int| 0 <= i < next_works(index, w).len() implies wrank(
        #[trigger] next_works(index, w)[i],
    ) < wrank(w) by {
        lemma_next_work_ranks_lower(index, rank, bound, w, i);
    }
    lemma_walk_ends_with_rank(index, root, wrank);
}

} // verus!
