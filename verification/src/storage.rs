//! The storage engine: a key-value store of item records whose mutating
//! calls are atomic and keep parent/child links mutually consistent.
//!
//! The store is modelled as a list of key/record pairs with distinct keys;
//! its mathematical value is the map from key to record model. Every
//! mutating call stages its writes on a copy and installs the copy only
//! when every step has succeeded, so a failed call leaves the store exactly
//! as it was.

use vstd::prelude::*;
use vstd::pervasive::VecAdditionalExecFns;

use crate::codec::{decode_item, enc_item, wf_model};
use crate::error::{Error, ErrorModel};
use crate::models::{clone_opt_string_vec, clone_string_vec, get_current_epoch_time, Item, ItemModel, Items};

verus! {

/// The map a pair list stands for; a later pair with the same key would win,
/// though the store never holds two.
pub open spec fn entries_map(s: Seq<(String, Item)>) -> Map<Seq<char>, ItemModel>
    decreases s.len(),
{
    if s.len() == 0 {
        Map::empty()
    } else {
        entries_map(s.drop_last()).insert(s.last().0@, s.last().1@)
    }
}

/// No two pairs carry the same key.
pub open spec fn distinct_keys(s: Seq<(String, Item)>) -> bool {
    forall|i: int, j: int| 0 <= i < j < s.len() ==> s[i].0@ != s[j].0@
}

/// A key is in the map exactly when some pair carries it.
pub(crate) proof fn lemma_entries_map_domain(s: Seq<(String, Item)>)
    ensures
        forall|k: Seq<char>|
            entries_map(s).contains_key(k) <==> (exists|i: int| 0 <= i < s.len() && s[i].0@ == k),
    decreases s.len(),
{
    if s.len() > 0 {
        lemma_entries_map_domain(s.drop_last());
        let s0 = s.drop_last();
        let m0 = entries_map(s0);
        assert forall|k: Seq<char>| entries_map(s).contains_key(k) implies (exists|i: int|
            0 <= i < s.len() && s[i].0@ == k) by {
            if s.last().0@ == k {
                assert(s[s.len() - 1].0@ == k);
            } else {
                assert(m0.contains_key(k));
                assert(exists|i: int| 0 <= i < s0.len() && s0[i].0@ == k);
                let i = choose|i: int| 0 <= i < s0.len() && s0[i].0@ == k;
                assert(s0[i] == s[i]);
                assert(s[i].0@ == k);
            }
        }
        assert forall|k: Seq<char>| (exists|i: int| 0 <= i < s.len() && s[i].0@ == k) implies
            entries_map(s).contains_key(k) by {
            let i = choose|i: int| 0 <= i < s.len() && s[i].0@ == k;
            if i < s.len() - 1 {
                assert(s0[i] == s[i]);
                assert(s0[i].0@ == k);
                assert(m0.contains_key(k));
            } else {
                assert(s.last().0@ == k);
            }
        }
    }
}

/// With distinct keys, the pair at any position gives the map's value at its
/// key.
pub(crate) proof fn lemma_entries_map_index(s: Seq<(String, Item)>, i: int)
    requires
        distinct_keys(s),
        0 <= i < s.len(),
    ensures
        entries_map(s).contains_key(s[i].0@),
        entries_map(s)[s[i].0@] == s[i].1@,
    decreases s.len(),
{
    if i == s.len() - 1 {
    } else {
        assert(distinct_keys(s.drop_last()));
        assert(s.drop_last()[i] == s[i]);
        lemma_entries_map_index(s.drop_last(), i);
        assert(s[i].0@ != s[s.len() - 1].0@);
    }
}

/// Replacing the record at one position updates the map at that key.
proof fn lemma_entries_map_update(s: Seq<(String, Item)>, i: int, p: (String, Item))
    requires
        distinct_keys(s),
        0 <= i < s.len(),
        p.0@ == s[i].0@,
    ensures
        distinct_keys(s.update(i, p)),
        entries_map(s.update(i, p)) =~= entries_map(s).insert(p.0@, p.1@),
    decreases s.len(),
{
    let s2 = s.update(i, p);
    assert forall|x: int, y: int| 0 <= x < y < s2.len() implies s2[x].0@ != s2[y].0@ by {
        assert(s2[x].0@ == s[x].0@ && s2[y].0@ == s[y].0@);
    }
    if i == s.len() - 1 {
        assert(s2.drop_last() =~= s.drop_last());
    } else {
        assert(s2.drop_last() =~= s.drop_last().update(i, p));
        assert(distinct_keys(s.drop_last()));
        lemma_entries_map_update(s.drop_last(), i, p);
        assert(s2.last() == s.last());
        assert(s[i].0@ != s.last().0@);
        assert(entries_map(s2) =~= entries_map(s).insert(p.0@, p.1@));
    }
}

/// Appending a pair inserts its key.
proof fn lemma_entries_map_push(s: Seq<(String, Item)>, p: (String, Item))
    ensures
        entries_map(s.push(p)) == entries_map(s).insert(p.0@, p.1@),
{
    assert(s.push(p).drop_last() =~= s);
    assert(s.push(p).last() == p);
}

/// Removing a pair removes its key from the map.
proof fn lemma_entries_map_remove(s: Seq<(String, Item)>, i: int)
    requires
        distinct_keys(s),
        0 <= i < s.len(),
    ensures
        distinct_keys(s.remove(i)),
        entries_map(s.remove(i)) =~= entries_map(s).remove(s[i].0@),
    decreases s.len(),
{
    let s2 = s.remove(i);
    assert forall|x: int, y: int| 0 <= x < y < s2.len() implies s2[x].0@ != s2[y].0@ by {
        let x0 = if x < i { x } else { x + 1 };
        let y0 = if y < i { y } else { y + 1 };
        assert(s2[x] == s[x0] && s2[y] == s[y0]);
    }
    if i == s.len() - 1 {
        assert(s2 =~= s.drop_last());
        lemma_entries_map_domain(s.drop_last());
        assert(entries_map(s2) =~= entries_map(s).remove(s[i].0@));
    } else {
        assert(s2.drop_last() =~= s.drop_last().remove(i));
        assert(distinct_keys(s.drop_last()));
        lemma_entries_map_remove(s.drop_last(), i);
        assert(s2.last() == s.last());
        assert(s[i].0@ != s.last().0@);
        assert(entries_map(s2) =~= entries_map(s).remove(s[i].0@));
    }
}

/// Two pair lists whose keys and record models agree position by position
/// stand for the same map.
proof fn lemma_entries_map_congruence(s1: Seq<(String, Item)>, s2: Seq<(String, Item)>)
    requires
        s1.len() == s2.len(),
        forall|i: int| 0 <= i < s1.len() ==> s1[i].0@ == s2[i].0@ && s1[i].1@ == s2[i].1@,
    ensures
        entries_map(s1) == entries_map(s2),
    decreases s1.len(),
{
    if s1.len() > 0 {
        assert(forall|i: int|
            0 <= i < s1.drop_last().len() ==> s1.drop_last()[i] == s1[i] && s2.drop_last()[i]
                == s2[i]);
        lemma_entries_map_congruence(s1.drop_last(), s2.drop_last());
        assert(s1.last() == s1[s1.len() - 1] && s2.last() == s2[s2.len() - 1]);
    }
}

/// Compares two strings by their characters.
fn string_eq(a: &String, b: &String) -> (r: bool)
    ensures
        r == (a@ == b@),
{
    a.eq(b)
}

/// Compares two optional strings by their characters.
fn opt_string_eq(a: &Option<String>, b: &Option<String>) -> (r: bool)
    ensures
        r == (a.deep_view() == b.deep_view()),
{
    match (a, b) {
        (Option::None, Option::None) => true,
        (Option::Some(x), Option::Some(y)) => {
            let r = string_eq(x, y);
            assert(a.deep_view() == (Option::Some(x@)) && b.deep_view() == (Option::Some(y@)));
            r
        },
        _ => false,
    }
}

/// True when the list holds the given string.
fn string_vec_contains(v: &Vec<String>, x: &String) -> (r: bool)
    ensures
        r == v.deep_view().contains(x@),
{
    let mut i: usize = 0;
    while i < v.len()
        invariant
            i <= v.len(),
            forall|j: int| 0 <= j < i ==> v.deep_view()[j] != x@,
        decreases v.len() - i,
    {
        assert(v.deep_view()[i as int] == v@[i as int]@);
        if string_eq(&v[i], x) {
            return true;
        }
        i = i + 1;
    }
    false
}

/// Finds the position of a key in the pair list.
fn find_index(entries: &Vec<(String, Item)>, key: &String) -> (r: Option<usize>)
    ensures
        (match r {
            Option::Some(i) => i < entries@.len() && entries@[i as int].0@ == key@,
            Option::None => forall|j: int| 0 <= j < entries@.len() ==> entries@[j].0@ != key@,
        }),
{
    let mut i: usize = 0;
    while i < entries.len()
        invariant
            i <= entries.len(),
            forall|j: int| 0 <= j < i ==> entries@[j].0@ != key@,
        decreases entries.len() - i,
    {
        if string_eq(&entries[i].0, key) {
            return Option::Some(i);
        }
        i = i + 1;
    }
    Option::None
}

/// Copies a pair list, keeping every key and record value.
fn clone_entries(v: &Vec<(String, Item)>) -> (r: Vec<(String, Item)>)
    ensures
        r@.len() == v@.len(),
        forall|i: int| 0 <= i < v@.len() ==> r@[i].0@ == v@[i].0@ && r@[i].1@ == v@[i].1@,
        entries_map(r@) == entries_map(v@),
        distinct_keys(v@) ==> distinct_keys(r@),
{
    let mut r: Vec<(String, Item)> = Vec::new();
    let mut i: usize = 0;
    while i < v.len()
        invariant
            i <= v.len(),
            r@.len() == i,
            forall|j: int| 0 <= j < i ==> r@[j].0@ == v@[j].0@ && r@[j].1@ == v@[j].1@,
        decreases v.len() - i,
    {
        let pair = &v[i];
        r.push((pair.0.clone(), pair.1.clone()));
        i = i + 1;
    }
    proof {
        lemma_entries_map_congruence(r@, v@);
    }
    r
}

/// The set-difference of two child lists, as the diff engine computes it:
/// the elements of `a` that `b` lacks, first occurrences only, in `a`'s
/// order.
pub open spec fn seq_diff(a: Seq<Seq<char>>, b: Seq<Seq<char>>) -> Seq<Seq<char>>
    decreases a.len(),
{
    if a.len() == 0 {
        Seq::empty()
    } else {
        let init = seq_diff(a.drop_last(), b);
        if b.contains(a.last()) || init.contains(a.last()) {
            init
        } else {
            init.push(a.last())
        }
    }
}

/// What the diff holds: exactly the elements of `a` absent from `b`, each
/// once.
pub proof fn lemma_seq_diff_membership(a: Seq<Seq<char>>, b: Seq<Seq<char>>)
    ensures
        forall|x: Seq<char>|
            #[trigger] seq_diff(a, b).contains(x) <==> (a.contains(x) && !b.contains(x)),
        forall|i: int, j: int|
            0 <= i < j < seq_diff(a, b).len() ==> seq_diff(a, b)[i] != seq_diff(a, b)[j],
    decreases a.len(),
{
    if a.len() > 0 {
        lemma_seq_diff_membership(a.drop_last(), b);
        let init = seq_diff(a.drop_last(), b);
        let d = seq_diff(a, b);
        assert forall|x: Seq<char>| #[trigger] d.contains(x) implies (a.contains(x)
            && !b.contains(x)) by {
            if init.contains(x) {
                assert(a.drop_last().contains(x));
                let i = choose|i: int| 0 <= i < a.drop_last().len() && a.drop_last()[i] == x;
                assert(a[i] == x);
            } else {
                assert(x == a.last());
                assert(a[a.len() - 1] == x);
            }
        }
        assert forall|x: Seq<char>| (a.contains(x) && !b.contains(x)) implies #[trigger] d.contains(
            x,
        ) by {
            if x == a.last() {
                if !(b.contains(a.last()) || init.contains(a.last())) {
                    assert(d[d.len() - 1] == x);
                } else {
                    assert(init.contains(x));
                    if d != init {
                        let i = choose|i: int| 0 <= i < init.len() && init[i] == x;
                        assert(d[i] == x);
                    }
                }
            } else {
                let i = choose|i: int| 0 <= i < a.len() && a[i] == x;
                assert(a.drop_last()[i] == x);
                assert(init.contains(x));
                let k = choose|k: int| 0 <= k < init.len() && init[k] == x;
                assert(d[k] == x);
            }
        }
        assert forall|i: int, j: int| 0 <= i < j < d.len() implies d[i] != d[j] by {
            if j < init.len() {
            } else {
                assert(d[j] == a.last() && !init.contains(a.last()));
                assert(d[i] == init[i]);
            }
        }
    }
}

/// The elements of `list1` that `list2` lacks, duplicates dropped, in
/// `list1`'s order. Both lists are read as sets.
pub fn find_list_difference(list1: &Vec<String>, list2: &Vec<String>) -> (r: Vec<String>)
    ensures
        r.deep_view() == seq_diff(list1.deep_view(), list2.deep_view()),
{
    let mut r: Vec<String> = Vec::new();
    let mut i: usize = 0;
    while i < list1.len()
        invariant
            i <= list1.len(),
            r.deep_view() == seq_diff(list1.deep_view().take(i as int), list2.deep_view()),
        decreases list1.len() - i,
    {
        let ghost pre = list1.deep_view().take(i as int);
        let ghost post = list1.deep_view().take(i + 1 as int);
        proof {
            assert(post.drop_last() =~= pre);
            assert(post.last() == list1.deep_view()[i as int]);
            assert(list1.deep_view()[i as int] == list1@[i as int]@);
        }
        let x = &list1[i];
        if !string_vec_contains(list2, x) && !string_vec_contains(&r, x) {
            let ghost before = r.deep_view();
            r.push(x.clone());
            proof {
                assert(r.deep_view() =~= before.push(x@));
            }
        }
        i = i + 1;
    }
    proof {
        assert(list1.deep_view().take(list1@.len() as int) =~= list1.deep_view());
    }
    r
}

/// The removals and additions between an old and a new child list:
/// `(difference(old, new), difference(new, old))`.
pub fn find_list_updates(old_list: &Vec<String>, new_list: &Vec<String>) -> (r: (
    Vec<String>,
    Vec<String>,
))
    ensures
        r.0.deep_view() == seq_diff(old_list.deep_view(), new_list.deep_view()),
        r.1.deep_view() == seq_diff(new_list.deep_view(), old_list.deep_view()),
{
    let removals = find_list_difference(old_list, new_list);
    let additions = find_list_difference(new_list, old_list);
    (removals, additions)
}

/// The store. Its value is the map from item id to record.
pub struct Storage {
    entries: Vec<(String, Item)>,
}

impl View for Storage {
    type V = Map<Seq<char>, ItemModel>;

    closed spec fn view(&self) -> Map<Seq<char>, ItemModel> {
        entries_map(self.entries@)
    }
}

impl Storage {
    #[verifier::type_invariant]
    spec fn type_inv(self) -> bool {
        distinct_keys(self.entries@)
    }

    /// An empty store.
    pub fn new() -> (r: Storage)
        ensures
            r@ == (Map::<Seq<char>, ItemModel>::empty()),
    {
        Storage { entries: Vec::new() }
    }

    /// Returns a single item by id, or nothing when the id is absent.
    pub fn get_item(&self, id: &str) -> (r: Result<Option<Item>, Error>)
        ensures
            (match r {
                Result::Ok(o) => match o {
                    Option::Some(it) => self@.contains_key(id@) && it@ == self@[id@],
                    Option::None => !self@.contains_key(id@),
                },
                Result::Err(_) => false,
            }),
    {
        proof {
            use_type_invariant(&*self);
            lemma_entries_map_domain(self.entries@);
        }
        let key = id.to_owned();
        match find_index(&self.entries, &key) {
            Option::Some(i) => {
                proof {
                    lemma_entries_map_index(self.entries@, i as int);
                }
                Result::Ok(Option::Some(self.entries[i].1.clone()))
            },
            Option::None => Result::Ok(Option::None),
        }
    }

    /// Returns every stored item, keyed by id.
    pub fn get_all_items(&self) -> (r: Result<Items, Error>)
        ensures
            (match r {
                Result::Ok(its) => entries_map(its.items@) == self@ && distinct_keys(its.items@),
                Result::Err(_) => false,
            }),
    {
        proof {
            use_type_invariant(&*self);
        }
        Result::Ok(Items { items: clone_entries(&self.entries) })
    }

    /// Removes a single item by key. Removal of an absent key succeeds: the
    /// call is idempotent. No link cleanup is performed.
    pub fn delete_item(&mut self, id: &str) -> (r: Result<(), Error>)
        ensures
            r is Ok,
            final(self)@ == old(self)@.remove(id@),
    {
        proof {
            use_type_invariant(&*self);
            lemma_entries_map_domain(self.entries@);
        }
        let key = id.to_owned();
        match find_index(&self.entries, &key) {
            Option::Some(i) => {
                let mut staged = clone_entries(&self.entries);
                proof {
                    lemma_entries_map_remove(staged@, i as int);
                }
                staged.remove(i);
                self.entries = staged;
            },
            Option::None => {
                proof {
                    assert(old(self)@.remove(id@) =~= old(self)@);
                }
            },
        }
        Result::Ok(())
    }

    /// Empties the store.
    pub fn clear(&mut self)
        ensures
            final(self)@ == (Map::<Seq<char>, ItemModel>::empty()),
    {
        self.entries = Vec::new();
    }

    /// Loads one persisted entry: the bytes must decode to a record, which
    /// is stored under the given key as it stands, with no link repair.
    /// Bytes that do not decode are rejected with the offending key, and
    /// the store is unchanged.
    pub fn load_entry(&mut self, key: String, bytes: Vec<u8>) -> (r: Result<(), Error>)
        ensures
            (match r {
                Result::Ok(()) => exists|v: ItemModel|
                    wf_model(v) && enc_item(v) == bytes@ && final(self)@ == old(self)@.insert(
                        key@,
                        v,
                    ),
                Result::Err(e) => final(self)@ == old(self)@ && (e@ matches
                    ErrorModel::DecodeError(k) && k == key@) && (forall|v: ItemModel|
                    wf_model(v) ==> enc_item(v) != bytes@),
            }),
    {
        proof {
            use_type_invariant(&*self);
        }
        match decode_item(&bytes) {
            Option::Some(it) => {
                let mut staged = clone_entries(&self.entries);
                store_pair(&mut staged, key, it);
                self.entries = staged;
                Result::Ok(())
            },
            Option::None => Result::Err(Error::DecodeError(key)),
        }
    }
}

/// The children of a record, the absent list read as empty.
pub open spec fn child_list(p: ItemModel) -> Seq<Seq<char>> {
    match p.children {
        Option::Some(cs) => cs,
        Option::None => Seq::empty(),
    }
}

/// A parent record after the child id is appended: a no-op when the id is
/// already listed (the append is idempotent and never duplicates), else the
/// id goes to the end and the record's `modified` is bumped.
pub open spec fn with_child(p: ItemModel, cid: Seq<char>, t: u64) -> ItemModel {
    match p.children {
        Option::None => ItemModel { children: Option::Some(seq![cid]), modified: t, ..p },
        Option::Some(cs) => if cs.contains(cid) {
            p
        } else {
            ItemModel { children: Option::Some(cs.push(cid)), modified: t, ..p }
        },
    }
}

/// A child list with every occurrence of one id dropped, order kept.
pub open spec fn seq_without(cs: Seq<Seq<char>>, cid: Seq<char>) -> Seq<Seq<char>>
    decreases cs.len(),
{
    if cs.len() == 0 {
        Seq::empty()
    } else {
        let init = seq_without(cs.drop_last(), cid);
        if cs.last() == cid {
            init
        } else {
            init.push(cs.last())
        }
    }
}

/// What remains after dropping an id: every other element, in order.
pub proof fn lemma_seq_without_membership(cs: Seq<Seq<char>>, cid: Seq<char>)
    ensures
        forall|x: Seq<char>|
            #[trigger] seq_without(cs, cid).contains(x) <==> (cs.contains(x) && x != cid),
    decreases cs.len(),
{
    if cs.len() > 0 {
        lemma_seq_without_membership(cs.drop_last(), cid);
        let init = seq_without(cs.drop_last(), cid);
        let w = seq_without(cs, cid);
        assert forall|x: Seq<char>| #[trigger] w.contains(x) implies (cs.contains(x) && x != cid) by {
            if init.contains(x) {
                assert(cs.drop_last().contains(x));
                let i = choose|i: int| 0 <= i < cs.drop_last().len() && cs.drop_last()[i] == x;
                assert(cs[i] == x);
            } else {
                assert(x == cs.last());
                assert(cs[cs.len() - 1] == x);
            }
        }
        assert forall|x: Seq<char>| (cs.contains(x) && x != cid) implies #[trigger] w.contains(
            x,
        ) by {
            if x == cs.last() {
                assert(w[w.len() - 1] == x);
            } else {
                let i = choose|i: int| 0 <= i < cs.len() && cs[i] == x;
                assert(cs.drop_last()[i] == x);
                assert(init.contains(x));
                let k = choose|k: int| 0 <= k < init.len() && init[k] == x;
                if cs.last() == cid {
                    assert(w[k] == x);
                } else {
                    assert(w[k] == x);
                }
            }
        }
    }
}

/// A parent record after one child id is removed. A record without a child
/// list is left untouched; otherwise every occurrence of the id is dropped
/// and `modified` is bumped, whether or not the id was listed.
pub open spec fn without_child(p: ItemModel, cid: Seq<char>, t: u64) -> ItemModel {
    match p.children {
        Option::None => p,
        Option::Some(cs) => ItemModel {
            children: Option::Some(seq_without(cs, cid)),
            modified: t,
            ..p
        },
    }
}

/// A child record re-pointed at a new parent, `modified` bumped.
pub open spec fn with_parent(c: ItemModel, pid: Seq<char>, t: u64) -> ItemModel {
    ItemModel { parent: Option::Some(pid), modified: t, ..c }
}

/// No id occurs twice in the list.
pub open spec fn no_dup(cs: Seq<Seq<char>>) -> bool {
    forall|i: int, j: int| 0 <= i < j < cs.len() ==> cs[i] != cs[j]
}

/// What an append leaves in the children: the old entries and the new id,
/// nothing else.
pub proof fn lemma_with_child_membership(p: ItemModel, cid: Seq<char>, t: u64)
    ensures
        forall|x: Seq<char>|
            #[trigger] child_list(with_child(p, cid, t)).contains(x) <==> (child_list(p).contains(
                x,
            ) || x == cid),
{
    let w = child_list(with_child(p, cid, t));
    let c = child_list(p);
    assert forall|x: Seq<char>| #[trigger] w.contains(x) implies (c.contains(x) || x == cid) by {
        let i = choose|i: int| 0 <= i < w.len() && w[i] == x;
        match p.children {
            Option::None => {},
            Option::Some(cs) => {
                if !cs.contains(cid) && i == w.len() - 1 {
                } else {
                    assert(c[i] == x);
                }
            },
        }
    }
    assert forall|x: Seq<char>| (c.contains(x) || x == cid) implies #[trigger] w.contains(x) by {
        match p.children {
            Option::None => {
                if x == cid {
                    assert(w[0] == cid);
                }
            },
            Option::Some(cs) => {
                if cs.contains(cid) {
                } else {
                    if c.contains(x) {
                        let i = choose|i: int| 0 <= i < c.len() && c[i] == x;
                        assert(w[i] == x);
                    } else {
                        assert(w[w.len() - 1] == cid);
                    }
                }
            },
        }
    }
}

/// Appending the same child id twice yields a single entry: appending an
/// already-listed id leaves the whole record untouched (no duplicate, no
/// `modified` bump), so the second of two appends is a strict no-op, and a
/// duplicate-free children list stays duplicate-free through any append.
pub proof fn lemma_append_child_idempotent(p: ItemModel, cid: Seq<char>, t1: u64, t2: u64)
    requires
        no_dup(child_list(p)),
    ensures
        child_list(p).contains(cid) ==> with_child(p, cid, t1) == p,
        with_child(with_child(p, cid, t1), cid, t2) == with_child(p, cid, t1),
        child_list(with_child(p, cid, t1)).contains(cid),
        no_dup(child_list(with_child(p, cid, t1))),
{
    let w1 = with_child(p, cid, t1);
    lemma_with_child_membership(p, cid, t1);
    assert(child_list(w1).contains(cid));
    match p.children {
        Option::None => {
            assert(child_list(w1)[0] == cid);
            assert(no_dup(child_list(w1)));
        },
        Option::Some(cs) => {
            if cs.contains(cid) {
                assert(w1 == p);
            } else {
                let w = child_list(w1);
                assert forall|i: int, j: int| 0 <= i < j < w.len() implies w[i] != w[j] by {
                    if j == w.len() - 1 {
                        assert(w[i] == cs[i]);
                        assert(cs.contains(cs[i]));
                    }
                }
            }
        },
    }
    match w1.children {
        Option::Some(cs1) => {
            assert(cs1.contains(cid));
            assert(with_child(w1, cid, t2) == w1);
        },
        Option::None => {
            assert(false);
        },
    }
}

/// One step of the link engine: append `cid` to the children of the given
/// parent, if any. An absent referenced parent fails the step; a child
/// without a parent reference is left alone.
pub open spec fn spec_link_child(
    m: Map<Seq<char>, ItemModel>,
    cid: Seq<char>,
    parent: Option<Seq<char>>,
    t: u64,
) -> Result<Map<Seq<char>, ItemModel>, ErrorModel> {
    match parent {
        Option::None => Result::Ok(m),
        Option::Some(p) => if m.contains_key(p) {
            Result::Ok(m.insert(p, with_child(m[p], cid, t)))
        } else {
            Result::Err(ErrorModel::MissingParent(p))
        },
    }
}

/// One step of the link engine: drop `cid` from the children of parent
/// `pid`. An absent parent fails the step.
pub open spec fn spec_unlink_child(
    m: Map<Seq<char>, ItemModel>,
    cid: Seq<char>,
    pid: Seq<char>,
    t: u64,
) -> Result<Map<Seq<char>, ItemModel>, ErrorModel> {
    if m.contains_key(pid) {
        Result::Ok(m.insert(pid, without_child(m[pid], cid, t)))
    } else {
        Result::Err(ErrorModel::MissingParent(pid))
    }
}

/// One step of the link engine: point child `cid` at parent `pid`, first
/// dropping the child's stored id from its prior parent's children when
/// that prior parent is another item, so no stale back-link survives the
/// adoption. An absent child, or an absent prior parent, fails the step.
pub open spec fn spec_link_parent(
    m: Map<Seq<char>, ItemModel>,
    cid: Seq<char>,
    pid: Seq<char>,
    t: u64,
) -> Result<Map<Seq<char>, ItemModel>, ErrorModel> {
    if !m.contains_key(cid) {
        Result::Err(ErrorModel::MissingItem(cid))
    } else {
        let c = m[cid];
        match c.parent {
            Option::Some(pp) => if pp != pid {
                match spec_unlink_child(m, c.id, pp, t) {
                    Result::Ok(m1) => Result::Ok(m1.insert(cid, with_parent(m1[cid], pid, t))),
                    Result::Err(e) => Result::Err(e),
                }
            } else {
                Result::Ok(m.insert(cid, with_parent(c, pid, t)))
            },
            Option::None => Result::Ok(m.insert(cid, with_parent(c, pid, t))),
        }
    }
}

/// One step of the link engine: clear the parent of child `cid`, first
/// dropping the child's stored id from its prior parent's children for
/// cross-consistency. An absent child, or an absent prior parent, fails the
/// step.
pub open spec fn spec_unlink_parent(
    m: Map<Seq<char>, ItemModel>,
    cid: Seq<char>,
    t: u64,
) -> Result<Map<Seq<char>, ItemModel>, ErrorModel> {
    if !m.contains_key(cid) {
        Result::Err(ErrorModel::MissingItem(cid))
    } else {
        let c = m[cid];
        match c.parent {
            Option::Some(pp) => match spec_unlink_child(m, c.id, pp, t) {
                Result::Ok(m1) => Result::Ok(
                    m1.insert(cid, ItemModel { parent: Option::None, modified: t, ..c }),
                ),
                Result::Err(e) => Result::Err(e),
            },
            Option::None => Result::Ok(
                m.insert(cid, ItemModel { parent: Option::None, modified: t, ..c }),
            ),
        }
    }
}

/// The whole ADD as one step on the map: reject an empty id, link the item
/// into its parent's children if it names one, then write the item itself.
/// A failed parent link is wrapped as a transaction abort and the map is
/// unchanged.
pub open spec fn spec_add(
    m: Map<Seq<char>, ItemModel>,
    it: ItemModel,
    t: u64,
) -> Result<Map<Seq<char>, ItemModel>, ErrorModel> {
    if it.id.len() == 0 {
        Result::Err(ErrorModel::InvalidInput)
    } else {
        match spec_link_child(m, it.id, it.parent, t) {
            Result::Ok(m1) => Result::Ok(m1.insert(it.id, it)),
            Result::Err(e) => Result::Err(
                ErrorModel::TransactionAbort { item_id: it.id, cause: Box::new(e) },
            ),
        }
    }
}

/// A failure inside an atomic unit, wrapped with the id of the item whose
/// call was aborted.
pub open spec fn wrap_abort(id: Seq<char>, e: ErrorModel) -> ErrorModel {
    ErrorModel::TransactionAbort { item_id: id, cause: Box::new(e) }
}

/// The link engine's pass over newly added children: each in turn is
/// pointed at the parent and dropped from its prior parent's children; the
/// first absent child, or absent prior parent, fails the pass.
pub open spec fn spec_link_children(
    m: Map<Seq<char>, ItemModel>,
    cids: Seq<Seq<char>>,
    pid: Seq<char>,
    t: u64,
) -> Result<Map<Seq<char>, ItemModel>, ErrorModel>
    decreases cids.len(),
{
    if cids.len() == 0 {
        Result::Ok(m)
    } else {
        match spec_link_parent(m, cids[0], pid, t) {
            Result::Ok(m1) => spec_link_children(m1, cids.drop_first(), pid, t),
            Result::Err(e) => Result::Err(e),
        }
    }
}

/// The link engine's pass over removed children: each in turn has its
/// parent cleared (and its id dropped from its prior parent's children);
/// the first failing step fails the pass.
pub open spec fn spec_unlink_children(
    m: Map<Seq<char>, ItemModel>,
    cids: Seq<Seq<char>>,
    t: u64,
) -> Result<Map<Seq<char>, ItemModel>, ErrorModel>
    decreases cids.len(),
{
    if cids.len() == 0 {
        Result::Ok(m)
    } else {
        match spec_unlink_parent(m, cids[0], t) {
            Result::Ok(m1) => spec_unlink_children(m1, cids.drop_first(), t),
            Result::Err(e) => Result::Err(e),
        }
    }
}

/// The whole UPDATE as one step on the map, `it.id` naming the target:
/// load the old record (an absent target aborts); a dropped or changed
/// parent reference unlinks the item from the old parent; a new parent
/// reference links it into the new parent's children, so a reparenting
/// moves the id from the one children list to the other in this single
/// step; the children diff re-points added children (detaching each from
/// its prior parent) and detaches removed ones; finally the record is
/// written with its identity and creation time carried over and `modified`
/// set to `t`. Any failing step aborts the whole call, wrapped, with the
/// map unchanged.
pub open spec fn spec_update(
    m: Map<Seq<char>, ItemModel>,
    it: ItemModel,
    t: u64,
) -> Result<Map<Seq<char>, ItemModel>, ErrorModel> {
    if !m.contains_key(it.id) {
        Result::Err(wrap_abort(it.id, ErrorModel::MissingItem(it.id)))
    } else {
        let old_it = m[it.id];
        let step_a = if old_it.parent is Some && it.parent != old_it.parent {
            spec_unlink_child(m, it.id, old_it.parent->0, t)
        } else {
            Result::Ok(m)
        };
        match step_a {
            Result::Err(e) => Result::Err(wrap_abort(it.id, e)),
            Result::Ok(ma) => {
                let step_b = if it.parent is Some && it.parent != old_it.parent {
                    spec_link_child(ma, it.id, it.parent, t)
                } else {
                    Result::Ok(ma)
                };
                match step_b {
                    Result::Err(e) => Result::Err(wrap_abort(it.id, e)),
                    Result::Ok(mb) => {
                        let removed = seq_diff(child_list(old_it), child_list(it));
                        let added = seq_diff(child_list(it), child_list(old_it));
                        match spec_link_children(mb, added, it.id, t) {
                            Result::Err(e) => Result::Err(wrap_abort(it.id, e)),
                            Result::Ok(mc) => match spec_unlink_children(mc, removed, t) {
                                Result::Err(e) => Result::Err(wrap_abort(it.id, e)),
                                Result::Ok(md) => Result::Ok(
                                    md.insert(
                                        old_it.id,
                                        ItemModel {
                                            id: old_it.id,
                                            added: old_it.added,
                                            modified: t,
                                            ..it
                                        },
                                    ),
                                ),
                            },
                        }
                    },
                }
            },
        }
    }
}

/// The children of a record, as the set its list stands for.
spec fn kids_set(p: ItemModel) -> Set<Seq<char>> {
    Set::new(|x: Seq<char>| child_list(p).contains(x))
}

/// UPDATE's first stage on its own: the old-parent unlink, when the
/// parent reference is dropped or changed.
spec fn spec_update_stage_a(
    m: Map<Seq<char>, ItemModel>,
    it: ItemModel,
    t: u64,
) -> Result<Map<Seq<char>, ItemModel>, ErrorModel> {
    if m[it.id].parent is Some && it.parent != m[it.id].parent {
        spec_unlink_child(m, it.id, m[it.id].parent->0, t)
    } else {
        Result::Ok(m)
    }
}

/// UPDATE's first two stages: the old-parent unlink, then the new-parent
/// append.
spec fn spec_update_stage_b(
    m: Map<Seq<char>, ItemModel>,
    it: ItemModel,
    t: u64,
) -> Result<Map<Seq<char>, ItemModel>, ErrorModel> {
    match spec_update_stage_a(m, it, t) {
        Result::Err(e) => Result::Err(e),
        Result::Ok(ma) => if it.parent is Some && it.parent != m[it.id].parent {
            spec_link_child(ma, it.id, it.parent, t)
        } else {
            Result::Ok(ma)
        },
    }
}

/// The bidirectional link invariant over a store: among stored items, A
/// names B as its parent exactly when B lists A's id among its children.
pub open spec fn mutually_linked(m: Map<Seq<char>, ItemModel>) -> bool {
    forall|a: Seq<char>, b: Seq<char>|
        #![trigger m[a], m[b]]
        m.contains_key(a) && m.contains_key(b) ==> ((m[a].parent == Option::Some(b))
            <==> child_list(m[b]).contains(a))
}

/// ADD keeps the store mutually linked: a fresh item that carries no child
/// list of its own, whose parent (if it names one) is present, and whose
/// id no stored item references is linked into its parent's children in
/// the same step that writes it, so both directions of the new link land
/// together.
pub proof fn lemma_add_preserves_links(m: Map<Seq<char>, ItemModel>, it: ItemModel, t: u64)
    requires
        mutually_linked(m),
        it.id.len() > 0,
        !m.contains_key(it.id),
        it.children is None,
        (match it.parent {
            Option::Some(p) => m.contains_key(p),
            Option::None => true,
        }),
        forall|a: Seq<char>| #[trigger]
            m.contains_key(a) ==> m[a].parent != Option::Some(it.id) && !child_list(
                m[a],
            ).contains(it.id),
    ensures
        spec_add(m, it, t) is Ok,
        mutually_linked(spec_add(m, it, t)->Ok_0),
{
    match it.parent {
        Option::None => {
            let m2 = m.insert(it.id, it);
            assert(spec_add(m, it, t) == Result::<Map<Seq<char>, ItemModel>, ErrorModel>::Ok(m2));
            assert forall|a: Seq<char>, b: Seq<char>|
                #![trigger m2[a], m2[b]]
                m2.contains_key(a) && m2.contains_key(b) implies ((m2[a].parent == Option::Some(
                b,
            )) <==> child_list(m2[b]).contains(a)) by {
                if a == it.id {
                    assert(m2[a].parent is None);
                    if b == it.id {
                        assert(child_list(m2[b]) =~= Seq::<Seq<char>>::empty());
                    } else {
                        assert(m2[b] == m[b]);
                        assert(!child_list(m[b]).contains(it.id));
                    }
                } else {
                    assert(m2[a] == m[a]);
                    if b == it.id {
                        assert(m[a].parent != Option::Some(it.id));
                        assert(child_list(it) =~= Seq::<Seq<char>>::empty());
                        assert(!child_list(m2[b]).contains(a));
                    } else {
                        assert(m2[b] == m[b]);
                    }
                }
            }
        },
        Option::Some(p) => {
            let wp = with_child(m[p], it.id, t);
            let m2 = m.insert(p, wp).insert(it.id, it);
            assert(spec_add(m, it, t) == Result::<Map<Seq<char>, ItemModel>, ErrorModel>::Ok(m2));
            lemma_with_child_membership(m[p], it.id, t);
            assert(p != it.id);
            assert(wp.parent == m[p].parent);
            assert forall|a: Seq<char>, b: Seq<char>|
                #![trigger m2[a], m2[b]]
                m2.contains_key(a) && m2.contains_key(b) implies ((m2[a].parent == Option::Some(
                b,
            )) <==> child_list(m2[b]).contains(a)) by {
                let pa = m2[a].parent;
                if a == it.id {
                    assert(pa == Option::Some(p));
                    if b == p {
                        assert(child_list(m2[b]) == child_list(wp));
                        assert(child_list(wp).contains(it.id));
                    } else if b == it.id {
                        assert(child_list(m2[b]) =~= Seq::<Seq<char>>::empty());
                    } else {
                        assert(m2[b] == m[b]);
                        assert(!child_list(m[b]).contains(it.id));
                    }
                } else {
                    if a == p {
                        assert(pa == m[p].parent);
                    } else {
                        assert(m2[a] == m[a]);
                        assert(pa == m[a].parent);
                    }
                    assert(m.contains_key(a) && pa == m[a].parent);
                    if b == it.id {
                        assert(m[a].parent != Option::Some(it.id));
                        assert(child_list(it) =~= Seq::<Seq<char>>::empty());
                        assert(!child_list(m2[b]).contains(a));
                    } else if b == p {
                        assert(child_list(m2[b]) == child_list(wp));
                        assert(child_list(wp).contains(a) <==> (child_list(m[p]).contains(a) || a
                            == it.id));
                        assert(child_list(m[p]).contains(a) <==> m[a].parent == Option::Some(p));
                    } else {
                        assert(m2[b] == m[b]);
                        assert(child_list(m[b]).contains(a) <==> m[a].parent == Option::Some(b));
                    }
                }
            }
        },
    }
}

/// Every stored record carries the key it is stored under as its id. ADD
/// and UPDATE write records under their own ids, so a store built through
/// them satisfies this throughout.
pub open spec fn ids_match(m: Map<Seq<char>, ItemModel>) -> bool {
    forall|k: Seq<char>| #[trigger] m.contains_key(k) ==> m[k].id == k
}

/// One adoption step never grows a child list, only drops the adopted id
/// from its prior parent; key set and stored ids stay as they were.
proof fn lemma_link_parent_effects(
    m: Map<Seq<char>, ItemModel>,
    cid: Seq<char>,
    pid: Seq<char>,
    t: u64,
)
    requires
        spec_link_parent(m, cid, pid, t) is Ok,
        ids_match(m),
    ensures
        ids_match(spec_link_parent(m, cid, pid, t)->Ok_0),
        forall|k: Seq<char>|
            #[trigger] spec_link_parent(m, cid, pid, t)->Ok_0.contains_key(k) <==> m.contains_key(
                k,
            ),
        forall|k: Seq<char>, x: Seq<char>|
            m.contains_key(k) && #[trigger] child_list(
                spec_link_parent(m, cid, pid, t)->Ok_0[k],
            ).contains(x) ==> child_list(m[k]).contains(x),
        forall|k: Seq<char>, x: Seq<char>|
            m.contains_key(k) && #[trigger] child_list(m[k]).contains(x) && x != cid
                ==> child_list(spec_link_parent(m, cid, pid, t)->Ok_0[k]).contains(x),
        forall|k: Seq<char>|
            m.contains_key(k) && k != cid ==> #[trigger] spec_link_parent(
                m,
                cid,
                pid,
                t,
            )->Ok_0[k].parent == m[k].parent,
{
    let c = m[cid];
    assert(c.id == cid);
    let m2 = spec_link_parent(m, cid, pid, t)->Ok_0;
    match c.parent {
        Option::Some(pp) => {
            if pp != pid {
                assert(m.contains_key(pp));
                let wp = without_child(m[pp], c.id, t);
                let m1 = m.insert(pp, wp);
                lemma_seq_without_membership(child_list(m[pp]), c.id);
                assert(forall|x: Seq<char>|
                    #[trigger] child_list(wp).contains(x) ==> child_list(m[pp]).contains(x));
                assert(forall|x: Seq<char>|
                    child_list(m[pp]).contains(x) && x != cid ==> #[trigger] child_list(
                        wp,
                    ).contains(x));
                assert(m2 == m1.insert(cid, with_parent(m1[cid], pid, t)));
                assert(child_list(with_parent(m1[cid], pid, t)) == child_list(m1[cid]));
                assert(m1[cid].id == cid);
            } else {
                assert(m2 == m.insert(cid, with_parent(c, pid, t)));
            }
        },
        Option::None => {
            assert(m2 == m.insert(cid, with_parent(c, pid, t)));
        },
    }
}

/// The pass over added children never grows a child list, and drops only
/// the added ids (each from its prior parent); key set and stored ids stay
/// as they were.
proof fn lemma_link_children_effects(
    m: Map<Seq<char>, ItemModel>,
    cids: Seq<Seq<char>>,
    pid: Seq<char>,
    t: u64,
)
    requires
        spec_link_children(m, cids, pid, t) is Ok,
        ids_match(m),
    ensures
        ids_match(spec_link_children(m, cids, pid, t)->Ok_0),
        forall|k: Seq<char>|
            #[trigger] spec_link_children(m, cids, pid, t)->Ok_0.contains_key(k)
                <==> m.contains_key(k),
        forall|k: Seq<char>, x: Seq<char>|
            m.contains_key(k) && #[trigger] child_list(
                spec_link_children(m, cids, pid, t)->Ok_0[k],
            ).contains(x) ==> child_list(m[k]).contains(x),
        forall|k: Seq<char>, x: Seq<char>|
            m.contains_key(k) && #[trigger] child_list(m[k]).contains(x) && !cids.contains(x)
                ==> child_list(spec_link_children(m, cids, pid, t)->Ok_0[k]).contains(x),
        forall|k: Seq<char>|
            m.contains_key(k) && !cids.contains(k) ==> #[trigger] spec_link_children(
                m,
                cids,
                pid,
                t,
            )->Ok_0[k].parent == m[k].parent,
    decreases cids.len(),
{
    if cids.len() > 0 {
        let cid = cids[0];
        lemma_link_parent_effects(m, cid, pid, t);
        let m1 = spec_link_parent(m, cid, pid, t)->Ok_0;
        lemma_link_children_effects(m1, cids.drop_first(), pid, t);
        assert forall|k: Seq<char>, x: Seq<char>|
            m.contains_key(k) && #[trigger] child_list(m[k]).contains(x) && !cids.contains(x)
            implies child_list(spec_link_children(m, cids, pid, t)->Ok_0[k]).contains(x) by {
            assert(x != cids[0]);
            assert(!cids.drop_first().contains(x)) by {
                if cids.drop_first().contains(x) {
                    let i = choose|i: int|
                        0 <= i < cids.drop_first().len() && cids.drop_first()[i] == x;
                    assert(cids[i + 1] == x);
                }
            }
            assert(child_list(m1[k]).contains(x));
        }
        assert forall|k: Seq<char>|
            m.contains_key(k) && !cids.contains(k) implies #[trigger] spec_link_children(
            m,
            cids,
            pid,
            t,
        )->Ok_0[k].parent == m[k].parent by {
            assert(k != cids[0]);
            assert(!cids.drop_first().contains(k)) by {
                if cids.drop_first().contains(k) {
                    let i = choose|i: int|
                        0 <= i < cids.drop_first().len() && cids.drop_first()[i] == k;
                    assert(cids[i + 1] == k);
                }
            }
            assert(m1[k].parent == m[k].parent);
        }
    }
}

/// One detach step never grows a child list, only drops the detached id
/// from its prior parent; key set and stored ids stay as they were.
proof fn lemma_unlink_parent_effects(m: Map<Seq<char>, ItemModel>, cid: Seq<char>, t: u64)
    requires
        spec_unlink_parent(m, cid, t) is Ok,
        ids_match(m),
    ensures
        ids_match(spec_unlink_parent(m, cid, t)->Ok_0),
        forall|k: Seq<char>|
            #[trigger] spec_unlink_parent(m, cid, t)->Ok_0.contains_key(k) <==> m.contains_key(k),
        forall|k: Seq<char>, x: Seq<char>|
            m.contains_key(k) && #[trigger] child_list(
                spec_unlink_parent(m, cid, t)->Ok_0[k],
            ).contains(x) ==> child_list(m[k]).contains(x),
        forall|k: Seq<char>, x: Seq<char>|
            m.contains_key(k) && #[trigger] child_list(m[k]).contains(x) && x != cid
                ==> child_list(spec_unlink_parent(m, cid, t)->Ok_0[k]).contains(x),
        forall|k: Seq<char>|
            m.contains_key(k) && k != cid ==> #[trigger] spec_unlink_parent(
                m,
                cid,
                t,
            )->Ok_0[k].parent == m[k].parent,
{
    let c = m[cid];
    assert(c.id == cid);
    let m2 = spec_unlink_parent(m, cid, t)->Ok_0;
    match c.parent {
        Option::Some(pp) => {
            assert(m.contains_key(pp));
            let wp = without_child(m[pp], c.id, t);
            lemma_seq_without_membership(child_list(m[pp]), c.id);
            assert(forall|x: Seq<char>|
                #[trigger] child_list(wp).contains(x) ==> child_list(m[pp]).contains(x));
            assert(forall|x: Seq<char>|
                child_list(m[pp]).contains(x) && x != cid ==> #[trigger] child_list(wp).contains(
                    x,
                ));
            assert(m2 == m.insert(pp, wp).insert(cid, ItemModel { parent: Option::None, modified: t, ..c }));
        },
        Option::None => {
            assert(m2 == m.insert(cid, ItemModel { parent: Option::None, modified: t, ..c }));
        },
    }
}

/// The pass over removed children never grows a child list, and drops
/// only the removed ids; key set and stored ids stay as they were.
proof fn lemma_unlink_children_effects(m: Map<Seq<char>, ItemModel>, cids: Seq<Seq<char>>, t: u64)
    requires
        spec_unlink_children(m, cids, t) is Ok,
        ids_match(m),
    ensures
        ids_match(spec_unlink_children(m, cids, t)->Ok_0),
        forall|k: Seq<char>|
            #[trigger] spec_unlink_children(m, cids, t)->Ok_0.contains_key(k) <==> m.contains_key(
                k,
            ),
        forall|k: Seq<char>, x: Seq<char>|
            m.contains_key(k) && #[trigger] child_list(
                spec_unlink_children(m, cids, t)->Ok_0[k],
            ).contains(x) ==> child_list(m[k]).contains(x),
        forall|k: Seq<char>, x: Seq<char>|
            m.contains_key(k) && #[trigger] child_list(m[k]).contains(x) && !cids.contains(x)
                ==> child_list(spec_unlink_children(m, cids, t)->Ok_0[k]).contains(x),
    decreases cids.len(),
{
    if cids.len() > 0 {
        let cid = cids[0];
        lemma_unlink_parent_effects(m, cid, t);
        let m1 = spec_unlink_parent(m, cid, t)->Ok_0;
        lemma_unlink_children_effects(m1, cids.drop_first(), t);
        assert forall|k: Seq<char>, x: Seq<char>|
            m.contains_key(k) && #[trigger] child_list(m[k]).contains(x) && !cids.contains(x)
            implies child_list(spec_unlink_children(m, cids, t)->Ok_0[k]).contains(x) by {
            assert(x != cids[0]);
            assert(!cids.drop_first().contains(x)) by {
                if cids.drop_first().contains(x) {
                    let i = choose|i: int|
                        0 <= i < cids.drop_first().len() && cids.drop_first()[i] == x;
                    assert(cids[i + 1] == x);
                }
            }
            assert(child_list(m1[k]).contains(x));
        }
    }
}

/// The link invariant while one record's links are in flight: every stored
/// pair is mutually linked, except that the record under `xid` is read as
/// having parent `xparent` and children `xkids` instead of its stored
/// fields. An atomic call stages its writes against this shape and closes
/// the gap when it writes the record itself.
spec fn linked_except(
    m: Map<Seq<char>, ItemModel>,
    xid: Seq<char>,
    xparent: Option<Seq<char>>,
    xkids: Set<Seq<char>>,
) -> bool {
    forall|a: Seq<char>, b: Seq<char>|
        #![trigger m[a], m[b]]
        m.contains_key(a) && m.contains_key(b) ==> {
            let pa = if a == xid {
                xparent
            } else {
                m[a].parent
            };
            let inb = if b == xid {
                xkids.contains(a)
            } else {
                child_list(m[b]).contains(a)
            };
            (pa == Option::Some(b)) <==> inb
        }
}

/// One adoption step keeps the in-flight invariant, moving the adopted id
/// into the override set: the step re-points the child at `xid` and drops
/// it from its prior parent's children in the same stroke.
proof fn lemma_adopt_step_keeps_links(
    m: Map<Seq<char>, ItemModel>,
    c: Seq<char>,
    xid: Seq<char>,
    xparent: Option<Seq<char>>,
    xkids: Set<Seq<char>>,
    t: u64,
)
    requires
        ids_match(m),
        linked_except(m, xid, xparent, xkids),
        m.contains_key(xid),
        m.contains_key(c),
        c != xid,
        !xkids.contains(c),
        spec_link_parent(m, c, xid, t) is Ok,
    ensures
        ids_match(spec_link_parent(m, c, xid, t)->Ok_0),
        linked_except(spec_link_parent(m, c, xid, t)->Ok_0, xid, xparent, xkids.insert(c)),
{
    let cm = m[c];
    assert(cm.id == c);
    assert(cm.parent != Option::Some(xid));
    let m2 = spec_link_parent(m, c, xid, t)->Ok_0;
    let k2 = xkids.insert(c);
    match cm.parent {
        Option::None => {
            assert(m2 == m.insert(c, with_parent(cm, xid, t)));
            assert(ids_match(m2));
            assert forall|a: Seq<char>, b: Seq<char>|
                #![trigger m2[a], m2[b]]
                m2.contains_key(a) && m2.contains_key(b) implies {
                let pa = if a == xid {
                    xparent
                } else {
                    m2[a].parent
                };
                let inb = if b == xid {
                    k2.contains(a)
                } else {
                    child_list(m2[b]).contains(a)
                };
                (pa == Option::Some(b)) <==> inb
            } by {
                if a == c && a != xid {
                    assert(m2[a].parent == Option::Some(xid));
                    if b == xid {
                        assert(k2.contains(a));
                    } else {
                        assert(child_list(m2[b]) == child_list(m[b]));
                        assert((cm.parent == Option::Some(b)) <==> child_list(m[b]).contains(c));
                        assert(!child_list(m2[b]).contains(a));
                    }
                } else {
                    assert(m2[a] == m[a] || a == c);
                    if b == xid {
                        assert((if a == xid {
                            xparent
                        } else {
                            m[a].parent
                        }) == Option::Some(b) <==> xkids.contains(a));
                        assert(k2.contains(a) == xkids.contains(a));
                    } else if b == c {
                        assert(child_list(m2[b]) == child_list(cm));
                    } else {
                        assert(child_list(m2[b]) == child_list(m[b]));
                    }
                }
            }
        },
        Option::Some(pp) => {
            assert(pp != xid);
            assert(m.contains_key(pp));
            let wp = without_child(m[pp], c, t);
            let m1 = m.insert(pp, wp);
            assert(m2 == m1.insert(c, with_parent(m1[c], xid, t)));
            assert(ids_match(m2));
            lemma_seq_without_membership(child_list(m[pp]), c);
            assert forall|x: Seq<char>|
                #[trigger] child_list(wp).contains(x) <==> (child_list(m[pp]).contains(x) && x
                    != c) by {
                match m[pp].children {
                    Option::Some(cs) => {},
                    Option::None => {
                        assert(child_list(wp) =~= (Seq::<Seq<char>>::empty()));
                    },
                }
            }
            assert(child_list(m2[c]) == child_list(m1[c]));
            assert(m2[c].parent == Option::Some(xid));
            assert forall|a: Seq<char>, b: Seq<char>|
                #![trigger m2[a], m2[b]]
                m2.contains_key(a) && m2.contains_key(b) implies {
                let pa = if a == xid {
                    xparent
                } else {
                    m2[a].parent
                };
                let inb = if b == xid {
                    k2.contains(a)
                } else {
                    child_list(m2[b]).contains(a)
                };
                (pa == Option::Some(b)) <==> inb
            } by {
                if a == c {
                    assert(m2[a].parent == Option::Some(xid));
                    if b == xid {
                        assert(k2.contains(a));
                    } else if b == c {
                        assert((cm.parent == Option::Some(b)) <==> child_list(m[b]).contains(c));
                        if pp == c {
                            assert(child_list(m2[b]) == child_list(wp));
                            assert(!child_list(m2[b]).contains(a));
                        } else {
                            assert(child_list(m2[b]) == child_list(cm));
                            assert(!child_list(m2[b]).contains(a));
                        }
                    } else if b == pp {
                        assert(child_list(m2[b]) == child_list(wp));
                        assert(!child_list(m2[b]).contains(a));
                    } else {
                        assert(child_list(m2[b]) == child_list(m[b]));
                        assert((cm.parent == Option::Some(b)) <==> child_list(m[b]).contains(c));
                        assert(!child_list(m2[b]).contains(a));
                    }
                } else {
                    let pa0 = if a == xid {
                        xparent
                    } else {
                        m[a].parent
                    };
                    assert((if a == xid {
                        xparent
                    } else {
                        m2[a].parent
                    }) == pa0);
                    if b == xid {
                        assert((pa0 == Option::Some(b)) <==> xkids.contains(a));
                        assert(k2.contains(a) == xkids.contains(a));
                    } else if b == c {
                        assert(child_list(m2[b]) == child_list(m1[c]));
                        assert(child_list(m1[c]).contains(a) <==> child_list(m[c]).contains(a));
                        assert((pa0 == Option::Some(b)) <==> child_list(m[b]).contains(a));
                    } else if b == pp {
                        assert(child_list(m2[b]).contains(a) <==> child_list(m[b]).contains(a));
                        assert((pa0 == Option::Some(b)) <==> child_list(m[b]).contains(a));
                    } else {
                        assert(child_list(m2[b]) == child_list(m[b]));
                        assert((pa0 == Option::Some(b)) <==> child_list(m[b]).contains(a));
                    }
                }
            }
        },
    }
}

/// One detach step keeps the in-flight invariant, taking the detached id
/// out of the override set: the step clears the child's parent and drops
/// it from the children of the record it pointed at in the same stroke.
proof fn lemma_detach_step_keeps_links(
    m: Map<Seq<char>, ItemModel>,
    c: Seq<char>,
    xid: Seq<char>,
    xparent: Option<Seq<char>>,
    xkids: Set<Seq<char>>,
    t: u64,
)
    requires
        ids_match(m),
        linked_except(m, xid, xparent, xkids),
        m.contains_key(xid),
        m.contains_key(c),
        c != xid,
        xkids.contains(c),
    ensures
        spec_unlink_parent(m, c, t) is Ok,
        ids_match(spec_unlink_parent(m, c, t)->Ok_0),
        linked_except(spec_unlink_parent(m, c, t)->Ok_0, xid, xparent, xkids.remove(c)),
{
    let cm = m[c];
    assert(cm.id == c);
    assert(cm.parent == Option::Some(xid));
    let wp = without_child(m[xid], c, t);
    let m2 = m.insert(xid, wp).insert(c, ItemModel { parent: Option::None, modified: t, ..cm });
    assert(spec_unlink_parent(m, c, t) == Result::<Map<Seq<char>, ItemModel>, ErrorModel>::Ok(m2));
    assert(ids_match(m2));
    let k2 = xkids.remove(c);
    assert forall|a: Seq<char>, b: Seq<char>|
        #![trigger m2[a], m2[b]]
        m2.contains_key(a) && m2.contains_key(b) implies {
        let pa = if a == xid {
            xparent
        } else {
            m2[a].parent
        };
        let inb = if b == xid {
            k2.contains(a)
        } else {
            child_list(m2[b]).contains(a)
        };
        (pa == Option::Some(b)) <==> inb
    } by {
        if a == c {
            assert(m2[a].parent is None);
            if b == xid {
                assert(!k2.contains(a));
            } else if b == c {
                assert(child_list(m2[b]) == child_list(cm));
                assert((cm.parent == Option::Some(b)) <==> child_list(m[b]).contains(c));
                assert(!child_list(m2[b]).contains(a));
            } else {
                assert(child_list(m2[b]) == child_list(m[b]));
                assert((cm.parent == Option::Some(b)) <==> child_list(m[b]).contains(c));
                assert(!child_list(m2[b]).contains(a));
            }
        } else {
            let pa0 = if a == xid {
                xparent
            } else {
                m[a].parent
            };
            assert((if a == xid {
                xparent
            } else {
                m2[a].parent
            }) == pa0);
            if b == xid {
                assert((pa0 == Option::Some(b)) <==> xkids.contains(a));
                assert(k2.contains(a) == xkids.contains(a));
            } else if b == c {
                assert(child_list(m2[b]) == child_list(cm));
                assert((pa0 == Option::Some(b)) <==> child_list(m[b]).contains(a));
            } else {
                assert(child_list(m2[b]) == child_list(m[b]));
                assert((pa0 == Option::Some(b)) <==> child_list(m[b]).contains(a));
            }
        }
    }
}

/// The whole adoption pass keeps the in-flight invariant, adding every
/// adopted id to the override set.
proof fn lemma_adopt_pass_keeps_links(
    m: Map<Seq<char>, ItemModel>,
    cids: Seq<Seq<char>>,
    xid: Seq<char>,
    xparent: Option<Seq<char>>,
    xkids: Set<Seq<char>>,
    t: u64,
)
    requires
        ids_match(m),
        linked_except(m, xid, xparent, xkids),
        m.contains_key(xid),
        forall|i: int|
            0 <= i < cids.len() ==> #[trigger] cids[i] != xid && !xkids.contains(cids[i]),
        no_dup(cids),
        spec_link_children(m, cids, xid, t) is Ok,
    ensures
        ids_match(spec_link_children(m, cids, xid, t)->Ok_0),
        spec_link_children(m, cids, xid, t)->Ok_0.contains_key(xid),
        linked_except(
            spec_link_children(m, cids, xid, t)->Ok_0,
            xid,
            xparent,
            xkids.union(Set::new(|x: Seq<char>| cids.contains(x))),
        ),
    decreases cids.len(),
{
    let target = xkids.union(Set::new(|x: Seq<char>| cids.contains(x)));
    if cids.len() == 0 {
        assert(target =~= xkids);
    } else {
        let c = cids[0];
        assert(m.contains_key(c));
        assert(c != xid && !xkids.contains(c));
        lemma_adopt_step_keeps_links(m, c, xid, xparent, xkids, t);
        lemma_link_parent_effects(m, c, xid, t);
        let m1 = spec_link_parent(m, c, xid, t)->Ok_0;
        let rest = cids.drop_first();
        assert(forall|i: int|
            0 <= i < rest.len() ==> #[trigger] rest[i] == cids[i + 1]);
        assert forall|i: int|
            0 <= i < rest.len() implies #[trigger] rest[i] != xid && !xkids.insert(c).contains(
            rest[i],
        ) by {
            assert(rest[i] == cids[i + 1]);
            assert(rest[i] != c);
        }
        assert(no_dup(rest));
        lemma_adopt_pass_keeps_links(m1, rest, xid, xparent, xkids.insert(c), t);
        assert forall|x: Seq<char>| cids.contains(x) implies (x == c || rest.contains(x)) by {
            let i = choose|i: int| 0 <= i < cids.len() && cids[i] == x;
            if i > 0 {
                assert(rest[i - 1] == x);
            }
        }
        assert(forall|x: Seq<char>| #[trigger] rest.contains(x) ==> cids.contains(x));
        assert(xkids.insert(c).union(Set::new(|x: Seq<char>| rest.contains(x))) =~= target);
    }
}

/// The whole detach pass keeps the in-flight invariant, taking every
/// detached id out of the override set.
proof fn lemma_detach_pass_keeps_links(
    m: Map<Seq<char>, ItemModel>,
    cids: Seq<Seq<char>>,
    xid: Seq<char>,
    xparent: Option<Seq<char>>,
    xkids: Set<Seq<char>>,
    t: u64,
)
    requires
        ids_match(m),
        linked_except(m, xid, xparent, xkids),
        m.contains_key(xid),
        forall|i: int|
            0 <= i < cids.len() ==> #[trigger] cids[i] != xid && xkids.contains(cids[i]),
        no_dup(cids),
        spec_unlink_children(m, cids, t) is Ok,
    ensures
        ids_match(spec_unlink_children(m, cids, t)->Ok_0),
        spec_unlink_children(m, cids, t)->Ok_0.contains_key(xid),
        linked_except(
            spec_unlink_children(m, cids, t)->Ok_0,
            xid,
            xparent,
            xkids.difference(Set::new(|x: Seq<char>| cids.contains(x))),
        ),
    decreases cids.len(),
{
    let target = xkids.difference(Set::new(|x: Seq<char>| cids.contains(x)));
    if cids.len() == 0 {
        assert(target =~= xkids);
    } else {
        let c = cids[0];
        assert(m.contains_key(c));
        assert(c != xid && xkids.contains(c));
        lemma_detach_step_keeps_links(m, c, xid, xparent, xkids, t);
        lemma_unlink_parent_effects(m, c, t);
        let m1 = spec_unlink_parent(m, c, t)->Ok_0;
        let rest = cids.drop_first();
        assert(forall|i: int|
            0 <= i < rest.len() ==> #[trigger] rest[i] == cids[i + 1]);
        assert forall|i: int|
            0 <= i < rest.len() implies #[trigger] rest[i] != xid && xkids.remove(c).contains(
            rest[i],
        ) by {
            assert(rest[i] == cids[i + 1]);
            assert(rest[i] != c);
        }
        assert(no_dup(rest));
        lemma_detach_pass_keeps_links(m1, rest, xid, xparent, xkids.remove(c), t);
        assert forall|x: Seq<char>| cids.contains(x) implies (x == c || rest.contains(x)) by {
            let i = choose|i: int| 0 <= i < cids.len() && cids[i] == x;
            if i > 0 {
                assert(rest[i - 1] == x);
            }
        }
        assert(forall|x: Seq<char>| #[trigger] rest.contains(x) ==> cids.contains(x));
        assert(xkids.remove(c).difference(Set::new(|x: Seq<char>| rest.contains(x))) =~= target);
    }
}

/// The pass over removed children fails whenever one of them is stored
/// with a prior parent that is not: the cross-consistency unlink has
/// nothing to write to.
proof fn lemma_unlink_children_err(
    m: Map<Seq<char>, ItemModel>,
    cids: Seq<Seq<char>>,
    t: u64,
    c: Seq<char>,
)
    requires
        ids_match(m),
        cids.contains(c),
        m.contains_key(c),
        m[c].parent is Some,
        !m.contains_key(m[c].parent->0),
    ensures
        spec_unlink_children(m, cids, t) is Err,
    decreases cids.len(),
{
    let d = cids[0];
    let q = m[c].parent->0;
    if d == c {
        assert(spec_unlink_child(m, m[c].id, q, t) is Err);
    } else {
        match spec_unlink_parent(m, d, t) {
            Result::Err(e) => {},
            Result::Ok(m1) => {
                assert(m.contains_key(d));
                let cd = m[d];
                lemma_unlink_parent_effects(m, d, t);
                assert(m1.contains_key(c));
                assert(m1[c].parent == m[c].parent);
                assert(!m1.contains_key(q));
                assert(cids.drop_first().contains(c)) by {
                    let i = choose|i: int| 0 <= i < cids.len() && cids[i] == c;
                    assert(cids.drop_first()[i - 1] == c);
                }
                lemma_unlink_children_err(m1, cids.drop_first(), t, c);
            },
        }
    }
}

/// Atomicity of the removed-children repair: when a child dropped from the
/// target's list is stored with a prior parent that is not, the
/// cross-consistency unlink cannot be staged and the whole UPDATE fails —
/// and `update_item`'s contract returns a failed call's store exactly as
/// it was, so no write of the call is ever observed afterwards.
pub proof fn lemma_update_aborts_on_absent_prior_parent(
    m: Map<Seq<char>, ItemModel>,
    it: ItemModel,
    t: u64,
    c: Seq<char>,
)
    requires
        ids_match(m),
        m.contains_key(it.id),
        child_list(m[it.id]).contains(c),
        !child_list(it).contains(c),
        m.contains_key(c),
        m[c].parent is Some,
        !m.contains_key(m[c].parent->0),
    ensures
        spec_update(m, it, t) is Err,
{
    let old_it = m[it.id];
    let q = m[c].parent->0;
    let removed = seq_diff(child_list(old_it), child_list(it));
    let added = seq_diff(child_list(it), child_list(old_it));
    lemma_seq_diff_membership(child_list(old_it), child_list(it));
    lemma_seq_diff_membership(child_list(it), child_list(old_it));
    assert(removed.contains(c));
    assert(!added.contains(c));
    let step_a = if old_it.parent is Some && it.parent != old_it.parent {
        spec_unlink_child(m, it.id, old_it.parent->0, t)
    } else {
        Result::<Map<Seq<char>, ItemModel>, ErrorModel>::Ok(m)
    };
    match step_a {
        Result::Err(e) => {},
        Result::Ok(ma) => {
            assert(ids_match(ma) && ma.contains_key(c) && ma[c].parent == m[c].parent
                && !ma.contains_key(q)) by {
                if old_it.parent is Some && it.parent != old_it.parent {
                    let p1 = old_it.parent->0;
                    assert(m.contains_key(p1));
                    assert(ma == m.insert(p1, without_child(m[p1], it.id, t)));
                }
            }
            let step_b = if it.parent is Some && it.parent != old_it.parent {
                spec_link_child(ma, it.id, it.parent, t)
            } else {
                Result::<Map<Seq<char>, ItemModel>, ErrorModel>::Ok(ma)
            };
            match step_b {
                Result::Err(e) => {},
                Result::Ok(mb) => {
                    assert(ids_match(mb) && mb.contains_key(c) && mb[c].parent == m[c].parent
                        && !mb.contains_key(q)) by {
                        if it.parent is Some && it.parent != old_it.parent {
                            let p2 = it.parent->0;
                            assert(ma.contains_key(p2));
                            assert(mb == ma.insert(p2, with_child(ma[p2], it.id, t)));
                        }
                    }
                    match spec_link_children(mb, added, it.id, t) {
                        Result::Err(e) => {},
                        Result::Ok(mc) => {
                            lemma_link_children_effects(mb, added, it.id, t);
                            assert(mc[c].parent == mb[c].parent);
                            assert(mc.contains_key(c) && !mc.contains_key(q) && ids_match(mc));
                            lemma_unlink_children_err(mc, removed, t, c);
                        },
                    }
                },
            }
        },
    }
}

/// Reparenting: when an UPDATE that moves an item under a new parent
/// succeeds, the committed state holds the item's id in the new parent's
/// children, no longer in the old parent's children (when it had one),
/// and the item's own record points at the new parent — all written in
/// the one atomic step, so no state with the id under both parents, or
/// under neither, is ever observable.
pub proof fn lemma_update_links_new_parent(m: Map<Seq<char>, ItemModel>, it: ItemModel, t: u64)
    requires
        ids_match(m),
        m.contains_key(it.id),
        it.parent is Some,
        it.parent->0 != it.id,
        it.parent != m[it.id].parent,
        m[it.id].parent != Option::Some(it.id),
        !child_list(m[it.id]).contains(it.id),
        !child_list(it).contains(it.id),
        spec_update(m, it, t) is Ok,
    ensures
        spec_update(m, it, t)->Ok_0.contains_key(it.parent->0),
        child_list(spec_update(m, it, t)->Ok_0[it.parent->0]).contains(it.id),
        spec_update(m, it, t)->Ok_0.contains_key(it.id),
        spec_update(m, it, t)->Ok_0[it.id].parent == it.parent,
        (match m[it.id].parent {
            Option::Some(p1) => spec_update(m, it, t)->Ok_0.contains_key(p1) && !child_list(
                spec_update(m, it, t)->Ok_0[p1],
            ).contains(it.id),
            Option::None => true,
        }),
{
    let old_it = m[it.id];
    let p2 = it.parent->0;
    let ma = if old_it.parent is Some {
        spec_unlink_child(m, it.id, old_it.parent->0, t)->Ok_0
    } else {
        m
    };
    match old_it.parent {
        Option::Some(p1) => {
            assert(m.contains_key(p1));
            assert(p1 != p2);
            assert(p1 != it.id);
            assert(ma == m.insert(p1, without_child(m[p1], it.id, t)));
            lemma_seq_without_membership(child_list(m[p1]), it.id);
            assert(!child_list(ma[p1]).contains(it.id)) by {
                match m[p1].children {
                    Option::Some(cs) => {},
                    Option::None => {
                        assert(child_list(ma[p1]) =~= Seq::<Seq<char>>::empty());
                    },
                }
            }
            assert(ids_match(ma));
        },
        Option::None => {},
    }
    assert(ma.contains_key(p2));
    let wp = with_child(ma[p2], it.id, t);
    let mb = ma.insert(p2, wp);
    lemma_with_child_membership(ma[p2], it.id, t);
    assert(child_list(mb[p2]).contains(it.id));
    assert(ids_match(mb));
    let removed = seq_diff(child_list(old_it), child_list(it));
    let added = seq_diff(child_list(it), child_list(old_it));
    lemma_seq_diff_membership(child_list(it), child_list(old_it));
    lemma_seq_diff_membership(child_list(old_it), child_list(it));
    assert(!added.contains(it.id));
    assert(!removed.contains(it.id));
    let mc = spec_link_children(mb, added, it.id, t)->Ok_0;
    lemma_link_children_effects(mb, added, it.id, t);
    assert(child_list(mc[p2]).contains(it.id));
    let md = spec_unlink_children(mc, removed, t)->Ok_0;
    lemma_unlink_children_effects(mc, removed, t);
    assert(child_list(md[p2]).contains(it.id));
    match old_it.parent {
        Option::Some(p1) => {
            assert(mb[p1] == ma[p1]);
            assert(!child_list(mc[p1]).contains(it.id));
            assert(!child_list(md[p1]).contains(it.id));
        },
        Option::None => {},
    }
    assert(old_it.id == it.id);
    let fin = ItemModel { id: old_it.id, added: old_it.added, modified: t, ..it };
    assert(fin.parent == it.parent);
    assert(spec_update(m, it, t)->Ok_0 == md.insert(old_it.id, fin));
}

/// Reparenting, detaching half: when an UPDATE that drops an item's
/// parent reference succeeds, the item no longer stands in that former
/// parent's children in the committed state; the removal and the item's
/// own write land in the one atomic step.
pub proof fn lemma_update_detaches_old_parent(m: Map<Seq<char>, ItemModel>, it: ItemModel, t: u64)
    requires
        ids_match(m),
        m.contains_key(it.id),
        it.parent is None,
        m[it.id].parent is Some,
        m[it.id].parent->0 != it.id,
        spec_update(m, it, t) is Ok,
    ensures
        spec_update(m, it, t)->Ok_0.contains_key(m[it.id].parent->0),
        !child_list(spec_update(m, it, t)->Ok_0[m[it.id].parent->0]).contains(it.id),
{
    let old_it = m[it.id];
    let p1 = old_it.parent->0;
    assert(m.contains_key(p1));
    let wp = without_child(m[p1], it.id, t);
    let ma = m.insert(p1, wp);
    lemma_seq_without_membership(child_list(m[p1]), it.id);
    assert(!child_list(ma[p1]).contains(it.id)) by {
        match m[p1].children {
            Option::Some(cs) => {},
            Option::None => {
                assert(child_list(wp) =~= Seq::<Seq<char>>::empty());
            },
        }
    }
    assert(ids_match(ma));
    let removed = seq_diff(child_list(old_it), child_list(it));
    let added = seq_diff(child_list(it), child_list(old_it));
    let mc = spec_link_children(ma, added, it.id, t)->Ok_0;
    lemma_link_children_effects(ma, added, it.id, t);
    assert(!child_list(mc[p1]).contains(it.id));
    let md = spec_unlink_children(mc, removed, t)->Ok_0;
    lemma_unlink_children_effects(mc, removed, t);
    assert(!child_list(md[p1]).contains(it.id));
    assert(old_it.id == it.id);
    assert(spec_update(m, it, t)->Ok_0 == md.insert(
        old_it.id,
        ItemModel { id: old_it.id, added: old_it.added, modified: t, ..it },
    ));
}

/// A retried ADD changes nothing: once an add has committed, committing
/// the same record again rewrites it unchanged and skips the
/// already-present child link, leaving the whole store exactly as the
/// first add left it, whatever the clock reads the second time.
pub proof fn lemma_add_retry_is_noop(m: Map<Seq<char>, ItemModel>, it: ItemModel, t1: u64, t2: u64)
    requires
        spec_add(m, it, t1) is Ok,
    ensures
        spec_add(spec_add(m, it, t1)->Ok_0, it, t2) == spec_add(m, it, t1),
{
    let m1 = spec_add(m, it, t1)->Ok_0;
    match it.parent {
        Option::None => {
            assert(m1 == m.insert(it.id, it));
            assert(m1.insert(it.id, it) =~= m1);
        },
        Option::Some(p) => {
            let w1 = with_child(m[p], it.id, t1);
            assert(m1 == m.insert(p, w1).insert(it.id, it));
            if p == it.id {
                assert(m1[p] == it);
                lemma_with_child_membership(it, it.id, t2);
                match it.children {
                    Option::Some(cs) => {
                        if cs.contains(it.id) {
                            assert(with_child(it, it.id, t2) == it);
                            assert(m1.insert(p, it) =~= m1);
                            assert(m1.insert(p, it).insert(it.id, it) =~= m1);
                        } else {
                            assert(m1.insert(p, with_child(it, it.id, t2)).insert(it.id, it)
                                =~= m1);
                        }
                    },
                    Option::None => {
                        assert(m1.insert(p, with_child(it, it.id, t2)).insert(it.id, it) =~= m1);
                    },
                }
            } else {
                assert(m1[p] == w1);
                lemma_with_child_membership(m[p], it.id, t1);
                assert(child_list(w1).contains(it.id));
                match w1.children {
                    Option::Some(cs) => {
                        assert(with_child(w1, it.id, t2) == w1);
                    },
                    Option::None => {
                        assert(false);
                    },
                }
                assert(m1.insert(p, w1) =~= m1);
                assert(m1.insert(p, w1).insert(it.id, it) =~= m1);
            }
        },
    }
}

/// UPDATE's first two stages leave the store linked up to the in-flight
/// override: the target's record is read as already carrying its new
/// parent and, for now, its old children.
#[verifier::rlimit(100)]
#[verifier::spinoff_prover]
proof fn lemma_update_stage_ab(m: Map<Seq<char>, ItemModel>, it: ItemModel, t: u64)
    requires
        mutually_linked(m),
        ids_match(m),
        m.contains_key(it.id),
        it.parent != Option::Some(it.id),
        m[it.id].parent != Option::Some(it.id),
        spec_update_stage_b(m, it, t) is Ok,
    ensures
        ids_match(spec_update_stage_b(m, it, t)->Ok_0),
        spec_update_stage_b(m, it, t)->Ok_0.contains_key(it.id),
        linked_except(spec_update_stage_b(m, it, t)->Ok_0, it.id, it.parent, kids_set(m[it.id])),
{
    let xid = it.id;
    let old_it = m[xid];
    let k0 = kids_set(old_it);
    assert((m[xid].parent == Option::Some(xid)) <==> child_list(m[xid]).contains(xid));
    assert(!k0.contains(xid));
    let mb = spec_update_stage_b(m, it, t)->Ok_0;
    if it.parent == old_it.parent {
        assert(mb == m);
        assert forall|a: Seq<char>, b: Seq<char>|
            #![trigger mb[a], mb[b]]
            mb.contains_key(a) && mb.contains_key(b) implies {
            let pa = if a == xid {
                it.parent
            } else {
                mb[a].parent
            };
            let inb = if b == xid {
                k0.contains(a)
            } else {
                child_list(mb[b]).contains(a)
            };
            (pa == Option::Some(b)) <==> inb
        } by {
            assert((m[a].parent == Option::Some(b)) <==> child_list(m[b]).contains(a));
        }
    } else if it.parent is None {
        let p1 = old_it.parent->0;
        assert(m.contains_key(p1));
        assert(p1 != xid);
        let wp = without_child(m[p1], xid, t);
        assert(mb == m.insert(p1, wp));
        lemma_seq_without_membership(child_list(m[p1]), xid);
        assert forall|x: Seq<char>|
            #[trigger] child_list(wp).contains(x) <==> (child_list(m[p1]).contains(x) && x
                != xid) by {
            match m[p1].children {
                Option::Some(cs) => {},
                Option::None => {
                    assert(child_list(wp) =~= (Seq::<Seq<char>>::empty()));
                },
            }
        }
        assert forall|a: Seq<char>, b: Seq<char>|
            #![trigger mb[a], mb[b]]
            mb.contains_key(a) && mb.contains_key(b) implies {
            let pa = if a == xid {
                it.parent
            } else {
                mb[a].parent
            };
            let inb = if b == xid {
                k0.contains(a)
            } else {
                child_list(mb[b]).contains(a)
            };
            (pa == Option::Some(b)) <==> inb
        } by {
            assert((m[a].parent == Option::Some(b)) <==> child_list(m[b]).contains(a));
            if a == xid {
                if b == p1 {
                    assert(!child_list(mb[b]).contains(a));
                } else if b != xid {
                    assert(child_list(mb[b]) == child_list(m[b]));
                    assert(!child_list(m[b]).contains(xid));
                }
            } else {
                assert(mb[a].parent == m[a].parent);
                if b == p1 {
                    assert(child_list(mb[b]).contains(a) <==> child_list(m[b]).contains(a));
                } else if b != xid {
                    assert(child_list(mb[b]) == child_list(m[b]));
                }
            }
        }
    } else if old_it.parent is None {
        let p2 = it.parent->0;
        assert(m.contains_key(p2));
        assert(p2 != xid);
        let wp = with_child(m[p2], xid, t);
        assert(mb == m.insert(p2, wp));
        lemma_with_child_membership(m[p2], xid, t);
        assert forall|a: Seq<char>, b: Seq<char>|
            #![trigger mb[a], mb[b]]
            mb.contains_key(a) && mb.contains_key(b) implies {
            let pa = if a == xid {
                it.parent
            } else {
                mb[a].parent
            };
            let inb = if b == xid {
                k0.contains(a)
            } else {
                child_list(mb[b]).contains(a)
            };
            (pa == Option::Some(b)) <==> inb
        } by {
            assert((m[a].parent == Option::Some(b)) <==> child_list(m[b]).contains(a));
            if a == xid {
                if b == p2 {
                    assert(child_list(mb[b]).contains(a));
                } else if b != xid {
                    assert(child_list(mb[b]) == child_list(m[b]));
                    assert(!child_list(m[b]).contains(xid));
                }
            } else {
                assert(mb[a].parent == m[a].parent);
                if b == p2 {
                    assert(child_list(mb[b]).contains(a) <==> (child_list(m[b]).contains(a) || a
                        == xid));
                } else if b != xid {
                    assert(child_list(mb[b]) == child_list(m[b]));
                }
            }
        }
    } else {
        let p1 = old_it.parent->0;
        let p2 = it.parent->0;
        assert(m.contains_key(p1));
        assert(p1 != xid && p2 != xid && p1 != p2);
        let wp1 = without_child(m[p1], xid, t);
        let ma = m.insert(p1, wp1);
        assert(ma.contains_key(p2) && ma[p2] == m[p2]);
        let wp2 = with_child(m[p2], xid, t);
        assert(mb == ma.insert(p2, wp2));
        lemma_seq_without_membership(child_list(m[p1]), xid);
        assert forall|x: Seq<char>|
            #[trigger] child_list(wp1).contains(x) <==> (child_list(m[p1]).contains(x) && x
                != xid) by {
            match m[p1].children {
                Option::Some(cs) => {},
                Option::None => {
                    assert(child_list(wp1) =~= (Seq::<Seq<char>>::empty()));
                },
            }
        }
        lemma_with_child_membership(m[p2], xid, t);
        assert forall|a: Seq<char>, b: Seq<char>|
            #![trigger mb[a], mb[b]]
            mb.contains_key(a) && mb.contains_key(b) implies {
            let pa = if a == xid {
                it.parent
            } else {
                mb[a].parent
            };
            let inb = if b == xid {
                k0.contains(a)
            } else {
                child_list(mb[b]).contains(a)
            };
            (pa == Option::Some(b)) <==> inb
        } by {
            assert((m[a].parent == Option::Some(b)) <==> child_list(m[b]).contains(a));
            if a == xid {
                if b == p2 {
                    assert(child_list(mb[b]).contains(a));
                } else if b == p1 {
                    assert(child_list(mb[b]) == child_list(wp1));
                    assert(!child_list(mb[b]).contains(a));
                } else if b != xid {
                    assert(child_list(mb[b]) == child_list(m[b]));
                    assert(!child_list(m[b]).contains(xid));
                }
            } else {
                assert(mb[a].parent == m[a].parent);
                if b == p1 {
                    assert(child_list(mb[b]).contains(a) <==> child_list(m[b]).contains(a));
                } else if b == p2 {
                    assert(child_list(mb[b]).contains(a) <==> (child_list(m[b]).contains(a) || a
                        == xid));
                } else if b != xid {
                    assert(child_list(mb[b]) == child_list(m[b]));
                }
            }
        }
    }
}

/// UPDATE keeps the store mutually linked, whatever it changes: a
/// dropped, gained or switched parent reference moves the one back-link
/// in the same step; children added to the list are re-pointed here and
/// detached from their prior parents; children removed are detached; and
/// the record itself is written with the new references, so the committed
/// state is linked in both directions again. (The submitted record must
/// not name itself as parent or child; self-links are the open question
/// the storage layer leaves undecided.)
#[verifier::rlimit(100)]
#[verifier::spinoff_prover]
pub proof fn lemma_update_preserves_links(m: Map<Seq<char>, ItemModel>, it: ItemModel, t: u64)
    requires
        mutually_linked(m),
        ids_match(m),
        m.contains_key(it.id),
        it.parent != Option::Some(it.id),
        m[it.id].parent != Option::Some(it.id),
        !child_list(it).contains(it.id),
        spec_update(m, it, t) is Ok,
    ensures
        ids_match(spec_update(m, it, t)->Ok_0),
        mutually_linked(spec_update(m, it, t)->Ok_0),
{
    let xid = it.id;
    let old_it = m[xid];
    assert(old_it.id == xid);
    let k0 = kids_set(old_it);
    assert((m[xid].parent == Option::Some(xid)) <==> child_list(m[xid]).contains(xid));
    assert(!child_list(old_it).contains(xid));
    let removed = seq_diff(child_list(old_it), child_list(it));
    let added = seq_diff(child_list(it), child_list(old_it));
    lemma_seq_diff_membership(child_list(it), child_list(old_it));
    lemma_seq_diff_membership(child_list(old_it), child_list(it));

    assert(spec_update_stage_b(m, it, t) is Ok);
    lemma_update_stage_ab(m, it, t);
    let mb = spec_update_stage_b(m, it, t)->Ok_0;

    assert(spec_link_children(mb, added, xid, t) is Ok);
    assert forall|i: int| 0 <= i < added.len() implies #[trigger] added[i] != xid && !k0.contains(
        added[i],
    ) by {
        assert(added.contains(added[i]));
        assert(child_list(it).contains(added[i]));
        assert(!child_list(old_it).contains(added[i]));
    }
    assert(no_dup(added));
    lemma_adopt_pass_keeps_links(mb, added, xid, it.parent, k0, t);
    let mc = spec_link_children(mb, added, xid, t)->Ok_0;
    let k1 = k0.union(Set::new(|x: Seq<char>| added.contains(x)));

    assert(spec_unlink_children(mc, removed, t) is Ok);
    assert forall|i: int| 0 <= i < removed.len() implies #[trigger] removed[i] != xid
        && k1.contains(removed[i]) by {
        assert(removed.contains(removed[i]));
        assert(child_list(old_it).contains(removed[i]));
        assert(k0.contains(removed[i]));
    }
    assert(no_dup(removed));
    lemma_detach_pass_keeps_links(mc, removed, xid, it.parent, k1, t);
    let md = spec_unlink_children(mc, removed, t)->Ok_0;
    let k2 = k1.difference(Set::new(|x: Seq<char>| removed.contains(x)));

    let fin = ItemModel { id: old_it.id, added: old_it.added, modified: t, ..it };
    assert(k2 =~= kids_set(fin)) by {
        assert forall|x: Seq<char>| k2.contains(x) <==> child_list(it).contains(x) by {
            if child_list(it).contains(x) {
                if child_list(old_it).contains(x) {
                    assert(!removed.contains(x));
                } else {
                    assert(added.contains(x));
                    assert(!removed.contains(x));
                }
            } else {
                if child_list(old_it).contains(x) {
                    assert(removed.contains(x));
                } else {
                    assert(!k0.contains(x) && !added.contains(x));
                }
            }
        }
    }

    let mf = md.insert(xid, fin);
    assert(spec_update(m, it, t)->Ok_0 == mf);
    assert(ids_match(mf));
    assert forall|a: Seq<char>, b: Seq<char>|
        #![trigger mf[a], mf[b]]
        mf.contains_key(a) && mf.contains_key(b) implies ((mf[a].parent == Option::Some(b))
        <==> child_list(mf[b]).contains(a)) by {
        assert(md.contains_key(a) && md.contains_key(b));
        let pa = if a == xid {
            it.parent
        } else {
            md[a].parent
        };
        let inb = if b == xid {
            k2.contains(a)
        } else {
            child_list(md[b]).contains(a)
        };
        assert((pa == Option::Some(b)) <==> inb);
        assert(mf[a].parent == pa);
        if b == xid {
            assert(child_list(mf[b]) == child_list(it));
            assert(child_list(mf[b]).contains(a) == k2.contains(a));
        } else {
            assert(child_list(mf[b]) == child_list(md[b]));
        }
    }
}

/// Appends `child_id` to the listed parent's children, staging the write.
fn link_child_to_parent(
    entries: &mut Vec<(String, Item)>,
    child_id: &String,
    parent: &Option<String>,
    now: u64,
) -> (r: Result<(), Error>)
    requires
        distinct_keys(old(entries)@),
    ensures
        distinct_keys(final(entries)@),
        (match r {
            Result::Ok(()) => spec_link_child(
                entries_map(old(entries)@),
                child_id@,
                parent.deep_view(),
                now,
            ) == Result::<Map<Seq<char>, ItemModel>, ErrorModel>::Ok(
                entries_map(final(entries)@),
            ),
            Result::Err(e) => final(entries)@ == old(entries)@ && spec_link_child(
                entries_map(old(entries)@),
                child_id@,
                parent.deep_view(),
                now,
            ) == Result::<Map<Seq<char>, ItemModel>, ErrorModel>::Err(e@),
        }),
{
    let ghost m = entries_map(entries@);
    match parent {
        Option::None => Result::Ok(()),
        Option::Some(pid) => {
            proof {
                lemma_entries_map_domain(entries@);
            }
            match find_index(&*entries, pid) {
                Option::None => Result::Err(Error::MissingParent(pid.clone())),
                Option::Some(i) => {
                    proof {
                        lemma_entries_map_index(entries@, i as int);
                    }
                    let mut p = entries[i].1.clone();
                    let ghost pm = p@;
                    let cur: Option<Vec<String>> = clone_opt_string_vec(&p.children);
                    match cur {
                        Option::Some(mut cs) => {
                            let ghost cs0 = cs.deep_view();
                            if string_vec_contains(&cs, child_id) {
                                proof {
                                    assert(with_child(pm, child_id@, now) == pm);
                                    assert(m.insert(pid@, pm) =~= m);
                                }
                                return Result::Ok(());
                            }
                            cs.push(child_id.clone());
                            proof {
                                assert(cs.deep_view() =~= cs0.push(child_id@));
                            }
                            p.children = Option::Some(cs);
                        },
                        Option::None => {
                            let mut cs: Vec<String> = Vec::new();
                            cs.push(child_id.clone());
                            proof {
                                assert(cs.deep_view() =~= seq![child_id@]);
                            }
                            p.children = Option::Some(cs);
                        },
                    }
                    p.modified = now;
                    let key = entries[i].0.clone();
                    proof {
                        assert(p@ =~= with_child(pm, child_id@, now));
                        lemma_entries_map_update(entries@, i as int, (key, p));
                    }
                    entries.set(i, (key, p));
                    Result::Ok(())
                },
            }
        },
    }
}

/// Drops `child_id` from the children of parent `parent_id`, staging the
/// write.
fn unlink_child_from_parent(
    entries: &mut Vec<(String, Item)>,
    child_id: &String,
    parent_id: &String,
    now: u64,
) -> (r: Result<(), Error>)
    requires
        distinct_keys(old(entries)@),
    ensures
        distinct_keys(final(entries)@),
        (match r {
            Result::Ok(()) => spec_unlink_child(
                entries_map(old(entries)@),
                child_id@,
                parent_id@,
                now,
            ) == Result::<Map<Seq<char>, ItemModel>, ErrorModel>::Ok(
                entries_map(final(entries)@),
            ),
            Result::Err(e) => final(entries)@ == old(entries)@ && spec_unlink_child(
                entries_map(old(entries)@),
                child_id@,
                parent_id@,
                now,
            ) == Result::<Map<Seq<char>, ItemModel>, ErrorModel>::Err(e@),
        }),
{
    let ghost m = entries_map(entries@);
    proof {
        lemma_entries_map_domain(entries@);
    }
    match find_index(&*entries, parent_id) {
        Option::None => Result::Err(Error::MissingParent(parent_id.clone())),
        Option::Some(i) => {
            proof {
                lemma_entries_map_index(entries@, i as int);
            }
            let mut p = entries[i].1.clone();
            let ghost pm = p@;
            let cur: Option<Vec<String>> = clone_opt_string_vec(&p.children);
            match cur {
                Option::None => {
                    proof {
                        assert(without_child(pm, child_id@, now) == pm);
                        assert(m.insert(parent_id@, pm) =~= m);
                    }
                    Result::Ok(())
                },
                Option::Some(cs) => {
                    let ghost cs0 = cs.deep_view();
                    let mut kept: Vec<String> = Vec::new();
                    let mut j: usize = 0;
                    while j < cs.len()
                        invariant
                            j <= cs.len(),
                            cs.deep_view() == cs0,
                            kept.deep_view() == seq_without(cs0.take(j as int), child_id@),
                        decreases cs.len() - j,
                    {
                        let ghost pre = cs0.take(j as int);
                        let ghost post = cs0.take(j + 1 as int);
                        proof {
                            assert(post.drop_last() =~= pre);
                            assert(post.last() == cs0[j as int]);
                            assert(cs0[j as int] == cs@[j as int]@);
                        }
                        if !string_eq(&cs[j], child_id) {
                            let ghost before = kept.deep_view();
                            kept.push(cs[j].clone());
                            proof {
                                assert(kept.deep_view() =~= before.push(cs@[j as int]@));
                            }
                        }
                        j = j + 1;
                    }
                    proof {
                        assert(cs0.take(cs0.len() as int) =~= cs0);
                    }
                    p.children = Option::Some(kept);
                    p.modified = now;
                    let key = entries[i].0.clone();
                    proof {
                        assert(p@ =~= without_child(pm, child_id@, now));
                        lemma_entries_map_update(entries@, i as int, (key, p));
                    }
                    entries.set(i, (key, p));
                    Result::Ok(())
                },
            }
        },
    }
}

/// Points child `child_id` at parent `parent_id`, first dropping the
/// child's stored id from its prior parent's children, staging both
/// writes.
fn link_parent_to_child(
    entries: &mut Vec<(String, Item)>,
    child_id: &String,
    parent_id: &String,
    now: u64,
) -> (r: Result<(), Error>)
    requires
        distinct_keys(old(entries)@),
    ensures
        distinct_keys(final(entries)@),
        (match r {
            Result::Ok(()) => spec_link_parent(
                entries_map(old(entries)@),
                child_id@,
                parent_id@,
                now,
            ) == Result::<Map<Seq<char>, ItemModel>, ErrorModel>::Ok(
                entries_map(final(entries)@),
            ),
            Result::Err(e) => final(entries)@ == old(entries)@ && spec_link_parent(
                entries_map(old(entries)@),
                child_id@,
                parent_id@,
                now,
            ) == Result::<Map<Seq<char>, ItemModel>, ErrorModel>::Err(e@),
        }),
{
    let ghost m = entries_map(entries@);
    proof {
        lemma_entries_map_domain(entries@);
    }
    match find_index(&*entries, child_id) {
        Option::None => Result::Err(Error::MissingItem(child_id.clone())),
        Option::Some(i) => {
            proof {
                lemma_entries_map_index(entries@, i as int);
            }
            let child = entries[i].1.clone();
            let ghost cm = child@;
            match &child.parent {
                Option::Some(pp) => {
                    if !string_eq(pp, parent_id) {
                        let ppc = pp.clone();
                        match unlink_child_from_parent(entries, &child.id, &ppc, now) {
                            Result::Err(e) => {
                                return Result::Err(e);
                            },
                            Result::Ok(()) => {},
                        }
                    }
                },
                Option::None => {},
            }
            proof {
                assert(entries_map(entries@).contains_key(child_id@));
                lemma_entries_map_domain(entries@);
            }
            match find_index(&*entries, child_id) {
                Option::None => {
                    proof {
                        assert(false);
                    }
                    Result::Err(Error::StorageIOError)
                },
                Option::Some(j) => {
                    proof {
                        lemma_entries_map_index(entries@, j as int);
                    }
                    let mut c2 = entries[j].1.clone();
                    let ghost cur = c2@;
                    c2.parent = Option::Some(parent_id.clone());
                    c2.modified = now;
                    let key = entries[j].0.clone();
                    proof {
                        assert(c2@ =~= with_parent(cur, parent_id@, now));
                        lemma_entries_map_update(entries@, j as int, (key, c2));
                    }
                    entries.set(j, (key, c2));
                    Result::Ok(())
                },
            }
        },
    }
}

/// Clears the parent of child `child_id`, first dropping the child's stored
/// id from its prior parent's children, staging both writes.
fn unlink_parent_from_child(
    entries: &mut Vec<(String, Item)>,
    child_id: &String,
    now: u64,
) -> (r: Result<(), Error>)
    requires
        distinct_keys(old(entries)@),
    ensures
        distinct_keys(final(entries)@),
        (match r {
            Result::Ok(()) => spec_unlink_parent(entries_map(old(entries)@), child_id@, now)
                == Result::<Map<Seq<char>, ItemModel>, ErrorModel>::Ok(
                entries_map(final(entries)@),
            ),
            Result::Err(e) => final(entries)@ == old(entries)@ && spec_unlink_parent(
                entries_map(old(entries)@),
                child_id@,
                now,
            ) == Result::<Map<Seq<char>, ItemModel>, ErrorModel>::Err(e@),
        }),
{
    let ghost m = entries_map(entries@);
    proof {
        lemma_entries_map_domain(entries@);
    }
    match find_index(&*entries, child_id) {
        Option::None => Result::Err(Error::MissingItem(child_id.clone())),
        Option::Some(i) => {
            proof {
                lemma_entries_map_index(entries@, i as int);
            }
            let child = entries[i].1.clone();
            let ghost cm = child@;
            match &child.parent {
                Option::Some(pp) => {
                    let ppc = pp.clone();
                    match unlink_child_from_parent(entries, &child.id, &ppc, now) {
                        Result::Err(e) => {
                            return Result::Err(e);
                        },
                        Result::Ok(()) => {},
                    }
                },
                Option::None => {},
            }
            let ghost m1 = entries_map(entries@);
            proof {
                assert(m1.contains_key(child_id@));
                lemma_entries_map_domain(entries@);
            }
            match find_index(&*entries, child_id) {
                Option::None => {
                    proof {
                        assert(false);
                    }
                    Result::Err(Error::StorageIOError)
                },
                Option::Some(j) => {
                    let mut c2 = child;
                    c2.parent = Option::None;
                    c2.modified = now;
                    let key = entries[j].0.clone();
                    proof {
                        assert(c2@ =~= (ItemModel { parent: Option::None, modified: now, ..cm }));
                        lemma_entries_map_update(entries@, j as int, (key, c2));
                    }
                    entries.set(j, (key, c2));
                    Result::Ok(())
                },
            }
        },
    }
}

impl Storage {
    /// Adds a single item, atomically. An empty id is rejected. An item
    /// that names a parent is appended to that parent's children (skipped
    /// if already listed, so a retried add changes nothing); an absent
    /// parent aborts the call, wrapped as a transaction abort, and the
    /// store is left exactly as it was.
    pub fn add_item(&mut self, item: Item) -> (r: Result<(), Error>)
        ensures
            (match r {
                Result::Ok(()) => exists|t: u64|
                    spec_add(old(self)@, item@, t) == Result::<
                        Map<Seq<char>, ItemModel>,
                        ErrorModel,
                    >::Ok(final(self)@),
                Result::Err(e) => final(self)@ == old(self)@ && exists|t: u64|
                    spec_add(old(self)@, item@, t) == Result::<
                        Map<Seq<char>, ItemModel>,
                        ErrorModel,
                    >::Err(e@),
            }),
    {
        proof {
            use_type_invariant(&*self);
        }
        let now = get_current_epoch_time();
        if item.id.as_str().is_empty() {
            proof {
                assert(spec_add(old(self)@, item@, now) == Result::<
                    Map<Seq<char>, ItemModel>,
                    ErrorModel,
                >::Err(ErrorModel::InvalidInput));
            }
            return Result::Err(Error::InvalidInput);
        }
        let mut staged = clone_entries(&self.entries);
        match link_child_to_parent(&mut staged, &item.id, &item.parent, now) {
            Result::Err(e) => {
                let wrapped = Error::TransactionAbort { item_id: item.id, cause: Box::new(e) };
                proof {
                    assert(spec_add(old(self)@, item@, now) == Result::<
                        Map<Seq<char>, ItemModel>,
                        ErrorModel,
                    >::Err(wrapped@));
                }
                return Result::Err(wrapped);
            },
            Result::Ok(()) => {},
        }
        let key = item.id.clone();
        store_pair(&mut staged, key, item);
        proof {
            assert(spec_add(old(self)@, item@, now) == Result::<
                Map<Seq<char>, ItemModel>,
                ErrorModel,
            >::Ok(entries_map(staged@)));
        }
        self.entries = staged;
        Result::Ok(())
    }
}

/// Stages the write of one record under the given key, replacing any pair
/// that carries it.
fn store_pair(entries: &mut Vec<(String, Item)>, key: String, value: Item)
    requires
        distinct_keys(old(entries)@),
    ensures
        distinct_keys(final(entries)@),
        entries_map(final(entries)@) == entries_map(old(entries)@).insert(key@, value@),
{
    let ghost m0 = entries_map(entries@);
    match find_index(&*entries, &key) {
        Option::Some(i) => {
            proof {
                lemma_entries_map_update(entries@, i as int, (key, value));
            }
            entries.set(i, (key, value));
            proof {
                assert(entries_map(entries@) =~= m0.insert(key@, value@));
            }
        },
        Option::None => {
            proof {
                lemma_entries_map_push(entries@, (key, value));
                assert forall|x: int, y: int|
                    0 <= x < y < entries@.push((key, value)).len() implies entries@.push(
                    (key, value),
                )[x].0@ != entries@.push((key, value))[y].0@ by {
                    if y < entries@.len() {
                        assert(entries@[x].0@ != entries@[y].0@);
                    } else {
                        assert(entries@.push((key, value))[y] == (key, value));
                        assert(entries@[x].0@ != key@);
                    }
                }
            }
            entries.push((key, value));
        },
    }
}

/// Wraps a mid-transaction failure with the id of the aborted item.
fn make_abort(id: &String, e: Error) -> (r: Error)
    ensures
        r@ == wrap_abort(id@, e@),
{
    Error::TransactionAbort { item_id: id.clone(), cause: Box::new(e) }
}

/// The pass over newly added children: points each at `parent_id` in turn,
/// staging the writes. On failure the staging area is left part-written;
/// the caller discards it.
#[verifier::loop_isolation(false)]
fn link_added_children(
    entries: &mut Vec<(String, Item)>,
    added: &Vec<String>,
    parent_id: &String,
    now: u64,
) -> (r: Result<(), Error>)
    requires
        distinct_keys(old(entries)@),
    ensures
        distinct_keys(final(entries)@),
        (match r {
            Result::Ok(()) => spec_link_children(
                entries_map(old(entries)@),
                added.deep_view(),
                parent_id@,
                now,
            ) == Result::<Map<Seq<char>, ItemModel>, ErrorModel>::Ok(
                entries_map(final(entries)@),
            ),
            Result::Err(e) => spec_link_children(
                entries_map(old(entries)@),
                added.deep_view(),
                parent_id@,
                now,
            ) == Result::<Map<Seq<char>, ItemModel>, ErrorModel>::Err(e@),
        }),
{
    let ghost m0 = entries_map(entries@);
    let ghost dv = added.deep_view();
    proof {
        assert(dv.skip(0) =~= dv);
    }
    let mut k: usize = 0;
    while k < added.len()
        invariant
            k <= added.len(),
            distinct_keys(entries@),
            added.deep_view() == dv,
            dv.len() == added@.len(),
            spec_link_children(m0, dv, parent_id@, now) == spec_link_children(
                entries_map(entries@),
                dv.skip(k as int),
                parent_id@,
                now,
            ),
        decreases added.len() - k,
    {
        let ghost cur = entries_map(entries@);
        let ghost rest = dv.skip(k as int);
        proof {
            assert(rest[0] == dv[k as int]);
            assert(dv[k as int] == added@[k as int]@);
            assert(rest.drop_first() =~= dv.skip(k + 1 as int));
        }
        match link_parent_to_child(entries, &added[k], parent_id, now) {
            Result::Err(e) => {
                proof {
                    assert(spec_link_children(cur, rest, parent_id@, now) == Result::<
                        Map<Seq<char>, ItemModel>,
                        ErrorModel,
                    >::Err(e@));
                }
                return Result::Err(e);
            },
            Result::Ok(()) => {
                proof {
                    assert(spec_link_children(cur, rest, parent_id@, now) == spec_link_children(
                        entries_map(entries@),
                        rest.drop_first(),
                        parent_id@,
                        now,
                    ));
                }
            },
        }
        k = k + 1;
    }
    proof {
        assert(dv.skip(dv.len() as int) =~= Seq::<Seq<char>>::empty());
    }
    Result::Ok(())
}

/// The pass over removed children: detaches each in turn, staging the
/// writes. On failure the staging area is left part-written; the caller
/// discards it.
#[verifier::loop_isolation(false)]
fn unlink_removed_children(
    entries: &mut Vec<(String, Item)>,
    removed: &Vec<String>,
    now: u64,
) -> (r: Result<(), Error>)
    requires
        distinct_keys(old(entries)@),
    ensures
        distinct_keys(final(entries)@),
        (match r {
            Result::Ok(()) => spec_unlink_children(
                entries_map(old(entries)@),
                removed.deep_view(),
                now,
            ) == Result::<Map<Seq<char>, ItemModel>, ErrorModel>::Ok(
                entries_map(final(entries)@),
            ),
            Result::Err(e) => spec_unlink_children(
                entries_map(old(entries)@),
                removed.deep_view(),
                now,
            ) == Result::<Map<Seq<char>, ItemModel>, ErrorModel>::Err(e@),
        }),
{
    let ghost m0 = entries_map(entries@);
    let ghost dv = removed.deep_view();
    proof {
        assert(dv.skip(0) =~= dv);
    }
    let mut k: usize = 0;
    while k < removed.len()
        invariant
            k <= removed.len(),
            distinct_keys(entries@),
            removed.deep_view() == dv,
            dv.len() == removed@.len(),
            spec_unlink_children(m0, dv, now) == spec_unlink_children(
                entries_map(entries@),
                dv.skip(k as int),
                now,
            ),
        decreases removed.len() - k,
    {
        let ghost cur = entries_map(entries@);
        let ghost rest = dv.skip(k as int);
        proof {
            assert(rest[0] == dv[k as int]);
            assert(dv[k as int] == removed@[k as int]@);
            assert(rest.drop_first() =~= dv.skip(k + 1 as int));
        }
        match unlink_parent_from_child(entries, &removed[k], now) {
            Result::Err(e) => {
                proof {
                    assert(spec_unlink_children(cur, rest, now) == Result::<
                        Map<Seq<char>, ItemModel>,
                        ErrorModel,
                    >::Err(e@));
                }
                return Result::Err(e);
            },
            Result::Ok(()) => {
                proof {
                    assert(spec_unlink_children(cur, rest, now) == spec_unlink_children(
                        entries_map(entries@),
                        rest.drop_first(),
                        now,
                    ));
                }
            },
        }
        k = k + 1;
    }
    proof {
        assert(dv.skip(dv.len() as int) =~= Seq::<Seq<char>>::empty());
    }
    Result::Ok(())
}

impl Storage {
    /// Replaces the stored record named by `item.id` with `item`,
    /// atomically, repairing every parent/child link the change affects: a
    /// dropped or changed parent reference removes the item from the old
    /// parent's children, and a new parent reference appends it to the new
    /// parent's children (skipped if already listed), so a reparenting
    /// moves the id between the two lists in this one call; children added
    /// to the list are re-pointed at this item and dropped from their
    /// prior parents' children; children removed from the list have their
    /// parent cleared and are dropped from their prior parent's children.
    /// The stored identity and creation time are carried over; `modified`
    /// is set to the clock. Any failure aborts the whole call, wrapped as
    /// a transaction abort, and the store is left exactly as it was.
    pub fn update_item(&mut self, item: Item) -> (r: Result<(), Error>)
        ensures
            (match r {
                Result::Ok(()) => exists|t: u64|
                    spec_update(old(self)@, item@, t) == Result::<
                        Map<Seq<char>, ItemModel>,
                        ErrorModel,
                    >::Ok(final(self)@),
                Result::Err(e) => final(self)@ == old(self)@ && exists|t: u64|
                    spec_update(old(self)@, item@, t) == Result::<
                        Map<Seq<char>, ItemModel>,
                        ErrorModel,
                    >::Err(e@),
            }),
    {
        proof {
            use_type_invariant(&*self);
        }
        let ghost m = old(self)@;
        let now = get_current_epoch_time();
        let mut staged = clone_entries(&self.entries);
        proof {
            lemma_entries_map_domain(staged@);
        }
        let i0 = match find_index(&staged, &item.id) {
            Option::Some(i) => i,
            Option::None => {
                let wrapped = make_abort(&item.id, Error::MissingItem(item.id.clone()));
                proof {
                    assert(spec_update(m, item@, now) == Result::<
                        Map<Seq<char>, ItemModel>,
                        ErrorModel,
                    >::Err(wrapped@));
                }
                return Result::Err(wrapped);
            },
        };
        proof {
            lemma_entries_map_index(staged@, i0 as int);
        }
        let old_item = staged[i0].1.clone();
        let ghost om = old_item@;

        // A dropped or changed parent reference: unlink the item from its
        // old parent.
        match &old_item.parent {
            Option::Some(pp) => {
                if !opt_string_eq(&item.parent, &old_item.parent) {
                    match unlink_child_from_parent(&mut staged, &item.id, pp, now) {
                        Result::Err(e) => {
                            let wrapped = make_abort(&item.id, e);
                            proof {
                                assert(spec_update(m, item@, now) == Result::<
                                    Map<Seq<char>, ItemModel>,
                                    ErrorModel,
                                >::Err(wrapped@));
                            }
                            return Result::Err(wrapped);
                        },
                        Result::Ok(()) => {},
                    }
                }
            },
            Option::None => {},
        }
        let ghost ma = entries_map(staged@);

        // A new or changed parent reference: link the item into the new
        // parent's children.
        if item.parent.is_some() && !opt_string_eq(&item.parent, &old_item.parent) {
            match link_child_to_parent(&mut staged, &item.id, &item.parent, now) {
                Result::Err(e) => {
                    let wrapped = make_abort(&item.id, e);
                    proof {
                        assert(spec_update(m, item@, now) == Result::<
                            Map<Seq<char>, ItemModel>,
                            ErrorModel,
                        >::Err(wrapped@));
                    }
                    return Result::Err(wrapped);
                },
                Result::Ok(()) => {},
            }
        }
        let ghost mb = entries_map(staged@);

        // The children diff: re-point added children, detach removed ones.
        let old_list = match &old_item.children {
            Option::Some(v) => clone_string_vec(v),
            Option::None => Vec::new(),
        };
        let new_list = match &item.children {
            Option::Some(v) => clone_string_vec(v),
            Option::None => Vec::new(),
        };
        proof {
            assert(old_list.deep_view() =~= child_list(om));
            assert(new_list.deep_view() =~= child_list(item@));
        }
        let (removed, added) = find_list_updates(&old_list, &new_list);
        match link_added_children(&mut staged, &added, &item.id, now) {
            Result::Err(e) => {
                let wrapped = make_abort(&item.id, e);
                proof {
                    assert(spec_update(m, item@, now) == Result::<
                        Map<Seq<char>, ItemModel>,
                        ErrorModel,
                    >::Err(wrapped@));
                }
                return Result::Err(wrapped);
            },
            Result::Ok(()) => {},
        }
        let ghost mc = entries_map(staged@);
        match unlink_removed_children(&mut staged, &removed, now) {
            Result::Err(e) => {
                let wrapped = make_abort(&item.id, e);
                proof {
                    assert(spec_update(m, item@, now) == Result::<
                        Map<Seq<char>, ItemModel>,
                        ErrorModel,
                    >::Err(wrapped@));
                }
                return Result::Err(wrapped);
            },
            Result::Ok(()) => {},
        }
        let ghost md = entries_map(staged@);

        // Carry identity and creation time over, stamp the change, write.
        let mut fin = item;
        fin.id = old_item.id.clone();
        fin.added = old_item.added;
        fin.modified = now;
        let key = fin.id.clone();
        proof {
            assert(fin@ =~= (ItemModel { id: om.id, added: om.added, modified: now, ..item@ }));
        }
        store_pair(&mut staged, key, fin);
        proof {
            assert(spec_update(m, item@, now) == Result::<
                Map<Seq<char>, ItemModel>,
                ErrorModel,
            >::Ok(entries_map(staged@)));
        }
        self.entries = staged;
        Result::Ok(())
    }
}

} // verus!
