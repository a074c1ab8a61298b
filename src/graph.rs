//! The documentation graph: items keyed by identifier, each of one kind.

use vstd::prelude::*;

verus! {

/// Where an item is declared: a file, relative to the workspace root, and
/// the line (from 1) and byte column (from 0) at which the item begins.
#[derive(Debug, PartialEq, Eq)]
pub struct Span {
    pub filename: String,
    pub line: usize,
    pub column: usize,
}

impl View for Span {
    type V = (Seq<char>, usize, usize);

    open spec fn view(&self) -> Self::V {
        (self.filename@, self.line, self.column)
    }
}

impl Span {
    /// A copy of this span.
    pub fn duplicate(&self) -> (r: Span)
        ensures
            r@ == self@,
    {
        Span { filename: self.filename.clone(), line: self.line, column: self.column }
    }
}

/// What an item is, as far as trait tags are concerned.
#[derive(Debug, PartialEq, Eq)]
pub enum ItemKind {
    /// A module and the identifiers of its direct members, in order.
    Module { members: Vec<u32> },
    /// A struct, enum or union and the identifiers of its impl blocks.
    TypeDef { impls: Vec<u32> },
    /// An impl block and the path of the trait it implements, if any.
    Impl { trait_name: Option<String> },
    /// Any other item.
    Other,
}

/// One entry of the graph.
#[derive(Debug, PartialEq, Eq)]
pub struct Item {
    pub id: u32,
    pub name: Option<String>,
    pub span: Option<Span>,
    pub kind: ItemKind,
}

/// The items of one compiled crate, in the order in which they are visited.
#[derive(Debug, PartialEq, Eq)]
pub struct Graph {
    pub items: Vec<Item>,
}

/// The item that identifier `id` stands for: the first one that carries it.
pub open spec fn lookup(items: Seq<Item>, id: u32) -> Option<Item>
    decreases items.len(),
{
    if items.len() == 0 {
        None
    } else if items[0].id == id {
        Some(items[0])
    } else {
        lookup(items.drop_first(), id)
    }
}

impl Graph {
    /// The index, in `items`, of the item that `id` stands for.
    pub fn find_item(&self, id: u32) -> (r: Option<usize>)
        ensures
            match r {
                Some(k) => k < self.items@.len() && lookup(self.items@, id) == Some(
                    self.items@[k as int],
                ),
                None => lookup(self.items@, id) is None,
            },
    {
        let mut k: usize = 0;
        proof {
            assert(self.items@.skip(0) =~= self.items@);
        }
        while k < self.items.len()
            invariant
                k <= self.items@.len(),
                lookup(self.items@, id) == lookup(self.items@.skip(k as int), id),
            decreases self.items@.len() - k,
        {
            proof {
                assert(self.items@.skip(k as int).drop_first() =~= self.items@.skip(k + 1));
            }
            if self.items[k].id == id {
                return Some(k);
            }
            k = k + 1;
        }
        None
    }
}

} // verus!
