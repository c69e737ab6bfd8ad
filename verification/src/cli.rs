//! The command-line client's side of the logic: its state, and the walk up
//! an item's parent chain that the cleanup command decides by. The client
//! itself talks HTTP and renders trees, which lives outside this crate.

use vstd::prelude::*;

use crate::models::{Item, ItemModel, Items};
use crate::storage::{distinct_keys, entries_map, lemma_entries_map_domain, lemma_entries_map_index};

verus! {

/// A command-line client bound to one server address.
pub struct CLI {
    host: String,
}

impl View for CLI {
    type V = Seq<char>;

    closed spec fn view(&self) -> Seq<char> {
        self.host@
    }
}

/// Builds a client for the given server address.
pub fn new(host: String) -> (r: CLI)
    ensures
        r@ == host@,
{
    CLI { host }
}

impl CLI {
    /// The server address this client talks to.
    pub fn host(&self) -> (r: &String)
        ensures
            r@ == self@,
    {
        &self.host
    }
}

/// Finds the record a key names in a full listing.
fn find_in_items<'a>(items: &'a Items, key: &String) -> (r: Option<&'a Item>)
    ensures
        (match r {
            Option::Some(it) => exists|i: int|
                0 <= i < items.items@.len() && items.items@[i].0@ == key@ && items.items@[i].1
                    == it,
            Option::None => forall|i: int|
                0 <= i < items.items@.len() ==> items.items@[i].0@ != key@,
        }),
{
    let mut i: usize = 0;
    while i < items.items.len()
        invariant
            i <= items.items@.len(),
            forall|j: int| 0 <= j < i ==> items.items@[j].0@ != key@,
        decreases items.items@.len() - i,
    {
        if items.items[i].0.eq(key) {
            return Option::Some(&items.items[i].1);
        }
        i = i + 1;
    }
    Option::None
}

/// The record one step up the parent chain: the listed parent of the item,
/// if the item names one and the listing holds it.
pub fn get_parent_node(item: &Item, items: &Items) -> (r: Option<Item>)
    requires
        distinct_keys(items.items@),
    ensures
        (match r {
            Option::Some(p) => (match item@.parent {
                Option::Some(pid) => entries_map(items.items@).contains_key(pid) && p@
                    == entries_map(items.items@)[pid],
                Option::None => false,
            }),
            Option::None => (match item@.parent {
                Option::Some(pid) => !entries_map(items.items@).contains_key(pid),
                Option::None => true,
            }),
        }),
{
    proof {
        lemma_entries_map_domain(items.items@);
    }
    match &item.parent {
        Option::None => Option::None,
        Option::Some(pid) => {
            match find_in_items(items, pid) {
                Option::Some(p) => {
                    proof {
                        let i = choose|i: int|
                            0 <= i < items.items@.len() && items.items@[i].0@ == pid@
                                && items.items@[i].1 == p;
                        lemma_entries_map_index(items.items@, i);
                    }
                    Option::Some(p.clone())
                },
                Option::None => Option::None,
            }
        },
    }
}

/// The top of an item's parent chain, as a bounded walk: step to the
/// listed parent while one exists, at most once per stored item. The
/// storage layer does not prevent reference cycles, so the walk carries a
/// step budget instead of trusting the chain to end.
pub open spec fn spec_root(
    m: Map<Seq<char>, ItemModel>,
    it: ItemModel,
    fuel: nat,
) -> ItemModel
    decreases fuel,
{
    match it.parent {
        Option::None => it,
        Option::Some(pid) => {
            if fuel == 0 || !m.contains_key(pid) {
                it
            } else {
                spec_root(m, m[pid], (fuel - 1) as nat)
            }
        },
    }
}

/// The walk itself, with an explicit step budget.
fn root_with_fuel(item: &Item, items: &Items, fuel: usize) -> (r: Item)
    requires
        distinct_keys(items.items@),
    ensures
        r@ == spec_root(entries_map(items.items@), item@, fuel as nat),
    decreases fuel,
{
    if fuel == 0 {
        return item.clone();
    }
    match get_parent_node(item, items) {
        Option::None => item.clone(),
        Option::Some(p) => root_with_fuel(&p, items, fuel - 1),
    }
}

/// Given any node in our tree, returns the root node: the item reached by
/// following listed parents until an item has none, its parent is not
/// listed, or every stored item has been stepped through once (a cycle).
pub fn get_root_node(item: &Item, items: &Items) -> (r: Item)
    requires
        distinct_keys(items.items@),
    ensures
        r@ == spec_root(entries_map(items.items@), item@, items.items@.len() as nat),
{
    root_with_fuel(item, items, items.items.len())
}

} // verus!
