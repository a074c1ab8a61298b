//! Which marker traits each type of each module implements.

use vstd::prelude::*;
use crate::graph::{Graph, Item, ItemKind, Span, lookup};
use crate::markers::{MarkerSet, strings_view};

verus! {

/// Why a graph cannot be annotated: it is not self-consistent.
#[derive(Debug, Clone, Copy, PartialEq, Eq)]
pub enum ExtractError {
    /// The identifier is referenced but no item carries it.
    MissingItem(u32),
    /// The identifier is listed as an impl block but stands for another kind of item.
    NotAnImpl(u32),
    /// The type implements a marker trait but has no name to key it by.
    MissingName(u32),
}

/// A type's name and the marker traits it implements, in the order of its impl blocks.
#[derive(Debug, PartialEq, Eq)]
pub struct Entry {
    pub name: String,
    pub markers: Vec<String>,
}

/// The view of an `Entry`.
pub type EntryView = (Seq<char>, Seq<Seq<char>>);

impl View for Entry {
    type V = EntryView;

    open spec fn view(&self) -> EntryView {
        (self.name@, strings_view(self.markers@))
    }
}

/// The annotation of one module: where the module begins, and its tagged types.
#[derive(Debug, PartialEq, Eq)]
pub struct ModuleInfo {
    pub span: Span,
    pub entries: Vec<Entry>,
}

/// The view of a `ModuleInfo`.
pub type ModuleView = ((Seq<char>, usize, usize), Seq<EntryView>);

impl View for ModuleInfo {
    type V = ModuleView;

    open spec fn view(&self) -> ModuleView {
        (self.span@, entries_view(self.entries@))
    }
}

pub open spec fn entries_view(v: Seq<Entry>) -> Seq<EntryView> {
    v.map_values(|e: Entry| e@)
}

pub open spec fn modules_view(v: Seq<ModuleInfo>) -> Seq<ModuleView> {
    v.map_values(|m: ModuleInfo| m@)
}

/// The marker traits that the impl blocks `impls` implement, in order.
pub open spec fn impl_markers(items: Seq<Item>, markers: Seq<Seq<char>>, impls: Seq<u32>) -> Result<
    Seq<Seq<char>>,
    ExtractError,
>
    decreases impls.len(),
{
    if impls.len() == 0 {
        Ok(Seq::empty())
    } else {
        match impl_markers(items, markers, impls.drop_last()) {
            Err(e) => Err(e),
            Ok(found) => {
                let id = impls.last();
                match lookup(items, id) {
                    None => Err(ExtractError::MissingItem(id)),
                    Some(it) => match it.kind {
                        ItemKind::Impl { trait_name } => match trait_name {
                            Some(t) => if markers.contains(t@) {
                                Ok(found.push(t@))
                            } else {
                                Ok(found)
                            },
                            None => Ok(found),
                        },
                        _ => Err(ExtractError::NotAnImpl(id)),
                    },
                }
            },
        }
    }
}

/// The marker traits that an item implements: none unless it is a type.
pub open spec fn item_markers(items: Seq<Item>, markers: Seq<Seq<char>>, it: Item) -> Result<
    Seq<Seq<char>>,
    ExtractError,
> {
    match it.kind {
        ItemKind::TypeDef { impls } => impl_markers(items, markers, impls@),
        _ => Ok(Seq::empty()),
    }
}

/// The entry of module member `id`, if it implements any marker trait.
pub open spec fn member_entry(items: Seq<Item>, markers: Seq<Seq<char>>, id: u32) -> Result<
    Option<EntryView>,
    ExtractError,
> {
    match lookup(items, id) {
        None => Err(ExtractError::MissingItem(id)),
        Some(it) => match item_markers(items, markers, it) {
            Err(e) => Err(e),
            Ok(found) => if found.len() == 0 {
                Ok(None)
            } else {
                match it.name {
                    Some(n) => Ok(Some((n@, found))),
                    None => Err(ExtractError::MissingName(id)),
                }
            },
        },
    }
}

/// The entries of the module members `members`, in order.
pub open spec fn member_entries(items: Seq<Item>, markers: Seq<Seq<char>>, members: Seq<u32>) -> Result<
    Seq<EntryView>,
    ExtractError,
>
    decreases members.len(),
{
    if members.len() == 0 {
        Ok(Seq::empty())
    } else {
        match member_entries(items, markers, members.drop_last()) {
            Err(e) => Err(e),
            Ok(acc) => match member_entry(items, markers, members.last()) {
                Err(e) => Err(e),
                Ok(None) => Ok(acc),
                Ok(Some(en)) => Ok(acc.push(en)),
            },
        }
    }
}

/// The annotations of the modules among `visited`, a run of the graph's
/// items: one for each module that has a span and a tagged member.
pub open spec fn module_infos(items: Seq<Item>, markers: Seq<Seq<char>>, visited: Seq<Item>) -> Result<
    Seq<ModuleView>,
    ExtractError,
>
    decreases visited.len(),
{
    if visited.len() == 0 {
        Ok(Seq::empty())
    } else {
        match module_infos(items, markers, visited.drop_last()) {
            Err(e) => Err(e),
            Ok(acc) => {
                let it = visited.last();
                match it.kind {
                    ItemKind::Module { members } => match it.span {
                        Some(sp) => match member_entries(items, markers, members@) {
                            Err(e) => Err(e),
                            Ok(es) => if es.len() == 0 {
                                Ok(acc)
                            } else {
                                Ok(acc.push((sp@, es)))
                            },
                        },
                        None => Ok(acc),
                    },
                    _ => Ok(acc),
                }
            },
        }
    }
}

/// The annotations of all modules of a graph, in the graph's order.
pub open spec fn graph_infos(g: Graph, markers: Seq<Seq<char>>) -> Result<Seq<ModuleView>, ExtractError> {
    module_infos(g.items@, markers, g.items@)
}

proof fn lemma_impl_error_stays(items: Seq<Item>, markers: Seq<Seq<char>>, s: Seq<u32>, i: int)
    requires
        0 <= i <= s.len(),
        impl_markers(items, markers, s.take(i)) is Err,
    ensures
        impl_markers(items, markers, s) == impl_markers(items, markers, s.take(i)),
    decreases s.len() - i,
{
    if i == s.len() {
        assert(s.take(i) =~= s);
    } else {
        assert(s.drop_last().take(i) =~= s.take(i));
        lemma_impl_error_stays(items, markers, s.drop_last(), i);
    }
}

proof fn lemma_member_error_stays(items: Seq<Item>, markers: Seq<Seq<char>>, s: Seq<u32>, i: int)
    requires
        0 <= i <= s.len(),
        member_entries(items, markers, s.take(i)) is Err,
    ensures
        member_entries(items, markers, s) == member_entries(items, markers, s.take(i)),
    decreases s.len() - i,
{
    if i == s.len() {
        assert(s.take(i) =~= s);
    } else {
        assert(s.drop_last().take(i) =~= s.take(i));
        lemma_member_error_stays(items, markers, s.drop_last(), i);
    }
}

proof fn lemma_module_error_stays(items: Seq<Item>, markers: Seq<Seq<char>>, s: Seq<Item>, i: int)
    requires
        0 <= i <= s.len(),
        module_infos(items, markers, s.take(i)) is Err,
    ensures
        module_infos(items, markers, s) == module_infos(items, markers, s.take(i)),
    decreases s.len() - i,
{
    if i == s.len() {
        assert(s.take(i) =~= s);
    } else {
        assert(s.drop_last().take(i) =~= s.take(i));
        lemma_module_error_stays(items, markers, s.drop_last(), i);
    }
}

/// The marker traits that `item` implements, in the order of its impl blocks.
pub fn bevy_traits_for_item(g: &Graph, markers: &MarkerSet, item: &Item) -> (r: Result<
    Vec<String>,
    ExtractError,
>)
    ensures
        match r {
            Ok(v) => item_markers(g.items@, markers@, *item) == Ok::<_, ExtractError>(strings_view(v@)),
            Err(e) => item_markers(g.items@, markers@, *item) == Err::<Seq<Seq<char>>, _>(e),
        },
{
    let impls = match &item.kind {
        ItemKind::TypeDef { impls } => impls,
        _ => {
            proof {
                assert(strings_view(Seq::<String>::empty()) =~= Seq::<Seq<char>>::empty());
            }
            return Ok(Vec::new());
        },
    };
    let ghost items = g.items@;
    let mut traits: Vec<String> = Vec::new();
    let mut i: usize = 0;
    proof {
        assert(impls@.take(0) =~= Seq::<u32>::empty());
        assert(strings_view(traits@) =~= Seq::<Seq<char>>::empty());
    }
    while i < impls.len()
        invariant
            items == g.items@,
            item.kind == (ItemKind::TypeDef { impls: *impls }),
            i <= impls@.len(),
            impl_markers(items, markers@, impls@.take(i as int)) == Ok::<_, ExtractError>(
                strings_view(traits@),
            ),
        decreases impls@.len() - i,
    {
        let id = impls[i];
        proof {
            assert(impls@.take(i + 1).drop_last() =~= impls@.take(i as int));
        }
        match g.find_item(id) {
            None => {
                proof {
                    lemma_impl_error_stays(items, markers@, impls@, i + 1);
                }
                return Err(ExtractError::MissingItem(id));
            },
            Some(k) => {
                let found = &g.items[k];
                match &found.kind {
                    ItemKind::Impl { trait_name } => {
                        if let Some(t) = trait_name {
                            if markers.contains(t) {
                                let ghost before = traits@;
                                traits.push(t.clone());
                                proof {
                                    assert(strings_view(traits@) =~= strings_view(before).push(t@));
                                }
                            }
                        }
                    },
                    _ => {
                        proof {
                            lemma_impl_error_stays(items, markers@, impls@, i + 1);
                        }
                        return Err(ExtractError::NotAnImpl(id));
                    },
                }
            },
        }
        i = i + 1;
    }
    proof {
        assert(impls@.take(i as int) =~= impls@);
    }
    Ok(traits)
}

/// The entries of the members `members` of a module, in order: one for each
/// member that implements a marker trait.
fn entries_for_members(g: &Graph, markers: &MarkerSet, members: &Vec<u32>) -> (r: Result<
    Vec<Entry>,
    ExtractError,
>)
    ensures
        match r {
            Ok(v) => member_entries(g.items@, markers@, members@) == Ok::<_, ExtractError>(
                entries_view(v@),
            ),
            Err(e) => member_entries(g.items@, markers@, members@) == Err::<Seq<EntryView>, _>(e),
        },
{
    let ghost items = g.items@;
    let mut entries: Vec<Entry> = Vec::new();
    let mut i: usize = 0;
    proof {
        assert(members@.take(0) =~= Seq::<u32>::empty());
        assert(entries_view(entries@) =~= Seq::<EntryView>::empty());
    }
    while i < members.len()
        invariant
            items == g.items@,
            i <= members@.len(),
            member_entries(items, markers@, members@.take(i as int)) == Ok::<_, ExtractError>(
                entries_view(entries@),
            ),
        decreases members@.len() - i,
    {
        let id = members[i];
        proof {
            assert(members@.take(i + 1).drop_last() =~= members@.take(i as int));
        }
        let k = match g.find_item(id) {
            None => {
                proof {
                    lemma_member_error_stays(items, markers@, members@, i + 1);
                }
                return Err(ExtractError::MissingItem(id));
            },
            Some(k) => k,
        };
        let member = &g.items[k];
        let traits = match bevy_traits_for_item(g, markers, member) {
            Err(e) => {
                proof {
                    lemma_member_error_stays(items, markers@, members@, i + 1);
                }
                return Err(e);
            },
            Ok(traits) => traits,
        };
        if traits.len() > 0 {
            match &member.name {
                None => {
                    proof {
                        lemma_member_error_stays(items, markers@, members@, i + 1);
                    }
                    return Err(ExtractError::MissingName(id));
                },
                Some(n) => {
                    let ghost before = entries@;
                    let en = Entry { name: n.clone(), markers: traits };
                    entries.push(en);
                    proof {
                        assert(entries_view(entries@) =~= entries_view(before).push(en@));
                    }
                },
            }
        }
        i = i + 1;
    }
    proof {
        assert(members@.take(i as int) =~= members@);
    }
    Ok(entries)
}

/// The annotations of the graph's modules, in the graph's order: for each
/// module that has a span and at least one member type implementing a
/// marker trait, the module's span and those members' entries.
pub fn info_for_modules(g: &Graph, markers: &MarkerSet) -> (r: Result<
    Vec<ModuleInfo>,
    ExtractError,
>)
    ensures
        match r {
            Ok(v) => graph_infos(*g, markers@) == Ok::<_, ExtractError>(modules_view(v@)),
            Err(e) => graph_infos(*g, markers@) == Err::<Seq<ModuleView>, _>(e),
        },
{
    let ghost items = g.items@;
    let mut modules: Vec<ModuleInfo> = Vec::new();
    let mut i: usize = 0;
    proof {
        assert(items.take(0) =~= Seq::<Item>::empty());
        assert(modules_view(modules@) =~= Seq::<ModuleView>::empty());
    }
    while i < g.items.len()
        invariant
            items == g.items@,
            i <= items.len(),
            module_infos(items, markers@, items.take(i as int)) == Ok::<_, ExtractError>(
                modules_view(modules@),
            ),
        decreases items.len() - i,
    {
        let item = &g.items[i];
        proof {
            assert(items.take(i + 1).drop_last() =~= items.take(i as int));
            assert(items.take(i + 1).last() == *item);
        }
        if let ItemKind::Module { members } = &item.kind {
            if let Some(sp) = &item.span {
                match entries_for_members(g, markers, members) {
                    Err(e) => {
                        proof {
                            lemma_module_error_stays(items, markers@, items, i + 1);
                        }
                        return Err(e);
                    },
                    Ok(entries) => {
                        if entries.len() > 0 {
                            let ghost before = modules@;
                            let m = ModuleInfo { span: sp.duplicate(), entries };
                            modules.push(m);
                            proof {
                                assert(modules_view(modules@) =~= modules_view(before).push(m@));
                            }
                        }
                    },
                }
            }
        }
        i = i + 1;
    }
    proof {
        assert(items.take(i as int) =~= items);
    }
    Ok(modules)
}

/// `it` is a module that carries a span.
pub open spec fn is_spanned_module(it: Item) -> bool {
    it.kind is Module && it.span is Some
}

proof fn lemma_unspanned_visit_empty(items: Seq<Item>, markers: Seq<Seq<char>>, visited: Seq<Item>)
    requires
        forall|i: int| 0 <= i < visited.len() ==> !is_spanned_module(#[trigger] visited[i]),
    ensures
        module_infos(items, markers, visited) == Ok::<_, ExtractError>(Seq::<ModuleView>::empty()),
    decreases visited.len(),
{
    if visited.len() > 0 {
        let rest = visited.drop_last();
        assert forall|i: int| 0 <= i < rest.len() implies !is_spanned_module(#[trigger] rest[i]) by {
            assert(rest[i] == visited[i]);
        }
        lemma_unspanned_visit_empty(items, markers, rest);
        assert(!is_spanned_module(visited[visited.len() - 1]));
    }
}

/// A graph in which no module carries a span has no annotation to give.
pub proof fn lemma_no_spanned_module_no_info(g: Graph, markers: Seq<Seq<char>>)
    requires
        forall|i: int| 0 <= i < g.items@.len() ==> !is_spanned_module(#[trigger] g.items@[i]),
    ensures
        graph_infos(g, markers) == Ok::<_, ExtractError>(Seq::<ModuleView>::empty()),
{
    lemma_unspanned_visit_empty(g.items@, markers, g.items@);
}

/// Every identifier of `impls` stands for an impl block whose trait, if
/// any, is not a marker.
pub open spec fn impls_without_marker(items: Seq<Item>, markers: Seq<Seq<char>>, impls: Seq<u32>) -> bool {
    forall|j: int|
        0 <= j < impls.len() ==> match lookup(items, #[trigger] impls[j]) {
            Some(it) => match it.kind {
                ItemKind::Impl { trait_name } => match trait_name {
                    Some(t) => !markers.contains(t@),
                    None => true,
                },
                _ => false,
            },
            None => false,
        }
}

proof fn lemma_impls_without_marker_empty(items: Seq<Item>, markers: Seq<Seq<char>>, impls: Seq<u32>)
    requires
        impls_without_marker(items, markers, impls),
    ensures
        impl_markers(items, markers, impls) == Ok::<_, ExtractError>(Seq::<Seq<char>>::empty()),
    decreases impls.len(),
{
    if impls.len() > 0 {
        let rest = impls.drop_last();
        assert forall|j: int| 0 <= j < rest.len() implies match lookup(items, #[trigger] rest[j]) {
            Some(it) => match it.kind {
                ItemKind::Impl { trait_name } => match trait_name {
                    Some(t) => !markers.contains(t@),
                    None => true,
                },
                _ => false,
            },
            None => false,
        } by {
            assert(rest[j] == impls[j]);
        }
        lemma_impls_without_marker_empty(items, markers, rest);
        let last = impls[impls.len() - 1];
        assert(last == impls.last());
    }
}

proof fn lemma_skip_untagged_member(
    items: Seq<Item>,
    markers: Seq<Seq<char>>,
    prefix: Seq<u32>,
    id: u32,
    rest: Seq<u32>,
)
    requires
        member_entry(items, markers, id) == Ok::<_, ExtractError>(None::<EntryView>),
    ensures
        member_entries(items, markers, prefix.push(id) + rest) == member_entries(
            items,
            markers,
            prefix + rest,
        ),
    decreases rest.len(),
{
    if rest.len() == 0 {
        assert(prefix.push(id) + rest =~= prefix.push(id));
        assert(prefix + rest =~= prefix);
        assert(prefix.push(id).drop_last() =~= prefix);
    } else {
        lemma_skip_untagged_member(items, markers, prefix, id, rest.drop_last());
        assert((prefix.push(id) + rest).drop_last() =~= prefix.push(id) + rest.drop_last());
        assert((prefix + rest).drop_last() =~= prefix + rest.drop_last());
        assert((prefix.push(id) + rest).last() == rest.last());
        assert((prefix + rest).last() == rest.last());
    }
}

/// A type none of whose impl blocks implements a marker trait gets no entry:
/// its module's entries are those of the same module without it.
pub proof fn lemma_untagged_type_absent(
    items: Seq<Item>,
    markers: Seq<Seq<char>>,
    id: u32,
    before: Seq<u32>,
    after: Seq<u32>,
)
    requires
        lookup(items, id) matches Some(it) && (it.kind matches ItemKind::TypeDef { impls }
            && impls_without_marker(items, markers, impls@)),
    ensures
        member_entry(items, markers, id) == Ok::<_, ExtractError>(None::<EntryView>),
        member_entries(items, markers, before.push(id) + after) == member_entries(
            items,
            markers,
            before + after,
        ),
{
    let it = lookup(items, id)->Some_0;
    if let ItemKind::TypeDef { impls } = it.kind {
        lemma_impls_without_marker_empty(items, markers, impls@);
    }
    lemma_skip_untagged_member(items, markers, before, id, after);
}

/// A type none of whose impl blocks implements a marker trait gets no marker names.
pub proof fn lemma_untagged_item_no_markers(items: Seq<Item>, markers: Seq<Seq<char>>, it: Item)
    requires
        it.kind matches ItemKind::TypeDef { impls } && impls_without_marker(items, markers, impls@),
    ensures
        item_markers(items, markers, it) == Ok::<_, ExtractError>(Seq::<Seq<char>>::empty()),
{
    if let ItemKind::TypeDef { impls } = it.kind {
        lemma_impls_without_marker_empty(items, markers, impls@);
    }
}

/// An impl list that names an identifier no item carries is an integrity error.
pub proof fn lemma_dangling_impl_fails(items: Seq<Item>, markers: Seq<Seq<char>>, impls: Seq<u32>, j: int)
    requires
        0 <= j < impls.len(),
        lookup(items, impls[j]) is None,
    ensures
        impl_markers(items, markers, impls) is Err,
    decreases impls.len(),
{
    if j < impls.len() - 1 {
        assert(impls.drop_last()[j] == impls[j]);
        lemma_dangling_impl_fails(items, markers, impls.drop_last(), j);
    }
}

/// A member list that names an identifier no item carries is an integrity error.
pub proof fn lemma_dangling_member_fails(
    items: Seq<Item>,
    markers: Seq<Seq<char>>,
    members: Seq<u32>,
    j: int,
)
    requires
        0 <= j < members.len(),
        lookup(items, members[j]) is None,
    ensures
        member_entries(items, markers, members) is Err,
    decreases members.len(),
{
    if j < members.len() - 1 {
        assert(members.drop_last()[j] == members[j]);
        lemma_dangling_member_fails(items, markers, members.drop_last(), j);
    }
}

/// A graph in which a module with a span lists a member that no item
/// carries cannot be annotated: the extraction is an integrity error.
pub proof fn lemma_dangling_member_graph_fails(g: Graph, markers: Seq<Seq<char>>, i: int, j: int)
    requires
        0 <= i < g.items@.len(),
        g.items@[i].span is Some,
        g.items@[i].kind matches ItemKind::Module { members } && 0 <= j < members@.len()
            && lookup(g.items@, members@[j]) is None,
    ensures
        graph_infos(g, markers) is Err,
{
    let items = g.items@;
    let visited = items.take(i + 1);
    if let ItemKind::Module { members } = items[i].kind {
        lemma_dangling_member_fails(items, markers, members@, j);
    }
    assert(visited.drop_last() =~= items.take(i));
    assert(visited.last() == items[i]);
    assert(module_infos(items, markers, visited) is Err);
    lemma_module_error_stays(items, markers, items, i + 1);
}

/// The item that `id` stands for gives no entry keyed by `n`: it is missing,
/// not named `n`, not a type, or a type without marker traits.
pub open spec fn gives_no_entry_named(
    items: Seq<Item>,
    markers: Seq<Seq<char>>,
    id: u32,
    n: Seq<char>,
) -> bool {
    match lookup(items, id) {
        Some(it) => {
            ||| !(it.name matches Some(m) && m@ == n)
            ||| !(it.kind is TypeDef)
            ||| (it.kind matches ItemKind::TypeDef { impls } && impls_without_marker(
                items,
                markers,
                impls@,
            ))
        },
        None => true,
    }
}

proof fn lemma_members_lack_name(
    items: Seq<Item>,
    markers: Seq<Seq<char>>,
    members: Seq<u32>,
    n: Seq<char>,
)
    requires
        forall|j: int|
            0 <= j < members.len() ==> gives_no_entry_named(items, markers, #[trigger] members[j], n),
    ensures
        member_entries(items, markers, members) matches Ok(es) ==> forall|k: int|
            0 <= k < es.len() ==> (#[trigger] es[k]).0 != n,
    decreases members.len(),
{
    if members.len() > 0 {
        let rest = members.drop_last();
        assert forall|j: int|
            0 <= j < rest.len() implies gives_no_entry_named(
                items,
                markers,
                #[trigger] rest[j],
                n,
            ) by {
            assert(rest[j] == members[j]);
        }
        lemma_members_lack_name(items, markers, rest, n);
        let id = members.last();
        assert(gives_no_entry_named(items, markers, members[members.len() - 1], n));
        if let Some(it) = lookup(items, id) {
            if it.kind matches ItemKind::TypeDef { impls } && impls_without_marker(items, markers, impls@) {
                lemma_untagged_item_no_markers(items, markers, it);
            }
        }
    }
}

/// If `it` is a module at span `sp`, none of its members gives an entry named `n`.
pub open spec fn module_at_span_lacks_name(
    items: Seq<Item>,
    markers: Seq<Seq<char>>,
    it: Item,
    sp: (Seq<char>, usize, usize),
    n: Seq<char>,
) -> bool {
    match it.kind {
        ItemKind::Module { members } => match it.span {
            Some(s) => s@ == sp ==> forall|j: int|
                0 <= j < members@.len() ==> gives_no_entry_named(items, markers, #[trigger] members@[j], n),
            None => true,
        },
        _ => true,
    }
}

proof fn lemma_visit_lacks_name(
    items: Seq<Item>,
    markers: Seq<Seq<char>>,
    visited: Seq<Item>,
    sp: (Seq<char>, usize, usize),
    n: Seq<char>,
)
    requires
        forall|i: int|
            0 <= i < visited.len() ==> module_at_span_lacks_name(
                items,
                markers,
                #[trigger] visited[i],
                sp,
                n,
            ),
    ensures
        module_infos(items, markers, visited) matches Ok(ms) ==> forall|k: int, e: int|
            0 <= k < ms.len() && (#[trigger] ms[k]).0 == sp && 0 <= e < ms[k].1.len() ==> (
            #[trigger] ms[k].1[e]).0 != n,
    decreases visited.len(),
{
    if visited.len() > 0 {
        let rest = visited.drop_last();
        assert forall|i: int|
            0 <= i < rest.len() implies module_at_span_lacks_name(
                items,
                markers,
                #[trigger] rest[i],
                sp,
                n,
            ) by {
            assert(rest[i] == visited[i]);
        }
        lemma_visit_lacks_name(items, markers, rest, sp, n);
        let it = visited[visited.len() - 1];
        assert(it == visited.last());
        if let ItemKind::Module { members } = it.kind {
            if let Some(s) = it.span {
                if s@ == sp {
                    lemma_members_lack_name(items, markers, members@, n);
                }
            }
        }
    }
}

/// Where every module at span `sp` lists, under name `n`, only types without
/// a marker trait (or none at all), no annotation at `sp` has an entry `n`.
pub proof fn lemma_untagged_name_absent_at_span(
    g: Graph,
    markers: Seq<Seq<char>>,
    sp: (Seq<char>, usize, usize),
    n: Seq<char>,
)
    requires
        forall|i: int|
            0 <= i < g.items@.len() ==> module_at_span_lacks_name(
                g.items@,
                markers,
                #[trigger] g.items@[i],
                sp,
                n,
            ),
    ensures
        graph_infos(g, markers) matches Ok(ms) ==> forall|k: int, e: int|
            0 <= k < ms.len() && (#[trigger] ms[k]).0 == sp && 0 <= e < ms[k].1.len() ==> (
            #[trigger] ms[k].1[e]).0 != n,
{
    lemma_visit_lacks_name(g.items@, markers, g.items@, sp, n);
}

} // verus!
