//! The item record, the request shapes that calling layers submit, and the
//! constructors that mint new records.

use vstd::prelude::*;
use vstd::string::StringExecFns;

verus! {

/// The mathematical value of an [`Item`]: every string is a sequence of
/// characters, so contracts can speak of records without reference to heap
/// allocation. Timestamps stay the machine integers they are stored as.
#[verifier::ext_equal]
pub ghost struct ItemModel {
    pub added: u64,
    pub children: Option<Seq<Seq<char>>>,
    pub completed: bool,
    pub description: Option<Seq<char>>,
    pub id: Seq<char>,
    pub link: Option<Seq<char>>,
    pub modified: u64,
    pub parent: Option<Seq<char>>,
    pub title: Seq<char>,
}

/// The record value a fresh [`Item`] starts from: everything empty, absent or
/// zero.
pub open spec fn default_item_model() -> ItemModel {
    ItemModel {
        added: 0,
        children: None,
        completed: false,
        description: None,
        id: Seq::empty(),
        link: None,
        modified: 0,
        parent: None,
        title: Seq::empty(),
    }
}

/// A single task record; a node in the parent/child hierarchy.
///
/// `children` is semantically a set (no duplicates) whose insertion order is
/// preserved; `added` never changes after creation; `modified` is bumped by
/// every mutating transaction that touches the record, link repairs included.
#[derive(Debug, PartialEq, Eq)]
pub struct Item {
    pub added: u64,
    pub children: Option<Vec<String>>,
    pub completed: bool,
    pub description: Option<String>,
    pub id: String,
    pub link: Option<String>,
    pub modified: u64,
    pub parent: Option<String>,
    pub title: String,
}

impl View for Item {
    type V = ItemModel;

    open spec fn view(&self) -> ItemModel {
        ItemModel {
            added: self.added,
            children: self.children.deep_view(),
            completed: self.completed,
            description: self.description.deep_view(),
            id: self.id@,
            link: self.link.deep_view(),
            modified: self.modified,
            parent: self.parent.deep_view(),
            title: self.title@,
        }
    }
}

impl Default for Item {
    fn default() -> (r: Item)
        ensures
            r@ == default_item_model(),
    {
        let r = Item {
            added: 0,
            children: None,
            completed: false,
            description: None,
            id: String::new(),
            link: None,
            modified: 0,
            parent: None,
            title: String::new(),
        };
        assert(r@ =~= default_item_model());
        r
    }
}

/// Copies an optional string, keeping its value.
pub(crate) fn clone_opt_string(o: &Option<String>) -> (r: Option<String>)
    ensures
        r == *o,
{
    match o {
        Option::None => Option::None,
        Option::Some(s) => Option::Some(s.clone()),
    }
}

/// Copies a list of strings, keeping every element.
pub(crate) fn clone_string_vec(v: &Vec<String>) -> (r: Vec<String>)
    ensures
        r@ == v@,
{
    let mut r: Vec<String> = Vec::new();
    let mut i: usize = 0;
    while i < v.len()
        invariant
            i <= v.len(),
            r@.len() == i,
            forall|j: int| 0 <= j < i ==> r@[j] == v@[j],
        decreases v.len() - i,
    {
        r.push(v[i].clone());
        i = i + 1;
    }
    assert(r@ =~= v@);
    r
}

/// Copies an optional list of strings, keeping its value.
pub(crate) fn clone_opt_string_vec(o: &Option<Vec<String>>) -> (r: Option<Vec<String>>)
    ensures
        r.deep_view() == o.deep_view(),
{
    match o {
        Option::None => Option::None,
        Option::Some(v) => Option::Some(clone_string_vec(v)),
    }
}

impl Clone for Item {
    fn clone(&self) -> (r: Item)
        ensures
            r@ == self@,
    {
        let r = Item {
            added: self.added,
            children: clone_opt_string_vec(&self.children),
            completed: self.completed,
            description: clone_opt_string(&self.description),
            id: self.id.clone(),
            link: clone_opt_string(&self.link),
            modified: self.modified,
            parent: clone_opt_string(&self.parent),
            title: self.title.clone(),
        };
        assert(r@ =~= self@);
        r
    }
}

/// An unordered mapping from item id to record, as returned by a full listing.
/// The pairs carry distinct keys.
#[derive(Debug, PartialEq, Eq, Default)]
pub struct Items {
    pub items: Vec<(String, Item)>,
}

/// The fields a caller supplies to create an item over the wire.
#[derive(Debug, PartialEq, Eq)]
pub struct AddItemRequest {
    pub description: Option<String>,
    pub link: Option<String>,
    pub parent: Option<String>,
    pub title: String,
}

/// The fields a caller supplies to alter an item over the wire; an absent
/// field means "keep the stored value".
#[derive(Debug, PartialEq, Eq)]
pub struct UpdateItemRequest {
    pub description: Option<String>,
    pub children: Option<Vec<String>>,
    pub completed: Option<bool>,
    pub link: Option<String>,
    pub parent: Option<String>,
    pub title: Option<String>,
}

/// Overlays an update request onto a stored record: a supplied field replaces
/// the stored one, an absent field keeps it. Identity and timestamps are left
/// untouched; the storage layer recomputes `modified` when it commits.
pub fn apply_update_request(item: Item, req: UpdateItemRequest) -> (r: Item)
    ensures
        r@.id == item@.id,
        r@.added == item@.added,
        r@.modified == item@.modified,
        r@.title == (match req.title {
            Option::Some(t) => t@,
            Option::None => item@.title,
        }),
        r@.completed == (match req.completed {
            Option::Some(c) => c,
            Option::None => item@.completed,
        }),
        r@.link == (match req.link {
            Option::Some(l) => Option::Some(l@),
            Option::None => item@.link,
        }),
        r@.description == (match req.description {
            Option::Some(d) => Option::Some(d@),
            Option::None => item@.description,
        }),
        r@.parent == (match req.parent {
            Option::Some(p) => Option::Some(p@),
            Option::None => item@.parent,
        }),
        r@.children == (match req.children {
            Option::Some(c) => Option::Some(c.deep_view()),
            Option::None => item@.children,
        }),
{
    let mut r = item;
    match req.title {
        Option::Some(title) => {
            r.title = title;
        },
        Option::None => {},
    }
    match req.completed {
        Option::Some(completed) => {
            r.completed = completed;
        },
        Option::None => {},
    }
    match req.link {
        Option::Some(link) => {
            r.link = Option::Some(link);
        },
        Option::None => {},
    }
    match req.description {
        Option::Some(description) => {
            r.description = Option::Some(description);
        },
        Option::None => {},
    }
    match req.parent {
        Option::Some(parent) => {
            r.parent = Option::Some(parent);
        },
        Option::None => {},
    }
    match req.children {
        Option::Some(children) => {
            r.children = Option::Some(children);
        },
        Option::None => {},
    }
    r
}

/// Flips the completion flag of a record, leaving every other field alone.
pub fn toggle_completed(item: Item) -> (r: Item)
    ensures
        r@ == (ItemModel { completed: !item@.completed, ..item@ }),
{
    let mut r = item;
    if r.completed {
        r.completed = false;
    } else {
        r.completed = true;
    }
    r
}

/// An empty parent reference submitted by a caller means "no parent".
pub fn normalize_parent(parent: Option<String>) -> (r: Option<String>)
    ensures
        r.deep_view() == (match parent {
            Option::Some(p) => if p@.len() == 0 {
                Option::None
            } else {
                Option::Some(p@)
            },
            Option::None => (Option::None::<Seq<char>>),
        }),
{
    match parent {
        Option::Some(p) => {
            if p.as_str().is_empty() {
                Option::None
            } else {
                Option::Some(p)
            }
        },
        Option::None => Option::None,
    }
}

/// True of characters that the id generator may produce.
pub open spec fn is_alnum_char(c: char) -> bool {
    ('a' <= c && c <= 'z') || ('A' <= c && c <= 'Z') || ('0' <= c && c <= '9')
}

/// Relies on rand's `thread_rng` and `Alphanumeric` distribution: taking
/// `length` samples yields exactly `length` alphanumeric characters
/// (`a`-`z`, `A`-`Z`, `0`-`9`). Which characters come out depends on the
/// generator's state, so nothing more is promised.
#[verifier::external_body]
fn generate_id(length: usize) -> (r: String)
    ensures
        r@.len() == length as int,
        forall|i: int| 0 <= i < r@.len() ==> is_alnum_char(r@[i]),
{
    rand::Rng::sample_iter(rand::thread_rng(), &rand::distributions::Alphanumeric)
        .take(length)
        .map(char::from)
        .collect()
}

/// Relies on std::time::SystemTime: seconds elapsed since the Unix epoch, or
/// 0 should the system clock read earlier than the epoch. The result depends
/// on the wall clock, so nothing is promised of it.
#[verifier::external_body]
pub fn get_current_epoch_time() -> u64 {
    match std::time::SystemTime::now().duration_since(std::time::SystemTime::UNIX_EPOCH) {
        Ok(d) => d.as_secs(),
        Err(_) => 0,
    }
}

/// Mints a fresh record: a random id of the configured length, the given
/// title, creation and modification stamped with one reading of the clock,
/// and everything else empty.
pub fn new_item(id_length: usize, title: &str) -> (r: Item)
    ensures
        r@.id.len() == id_length as int,
        forall|i: int| 0 <= i < r@.id.len() ==> is_alnum_char(#[trigger] r@.id[i]),
        r@.title == title@,
        !r@.completed,
        r@.children is None,
        r@.description is None,
        r@.link is None,
        r@.parent is None,
        r@.added == r@.modified,
{
    let now = get_current_epoch_time();
    let mut r: Item = Default::default();
    r.added = now;
    r.completed = false;
    r.id = generate_id(id_length);
    r.modified = now;
    r.title = String::from_str(title);
    r
}

} // verus!
