//! The binary record format. One store entry holds one item, encoded field
//! by field in a fixed order: id, parent, children, title, description,
//! link, completed, added, modified. Strings carry a little-endian 8-byte
//! length followed by their UTF-8 bytes; optional fields a presence byte;
//! the children list a count followed by its elements; booleans one byte;
//! timestamps 8 little-endian bytes.
//!
//! Encoding and decoding invert one another: the contracts of
//! [`encode_item`] and [`decode_item`], together with
//! [`lemma_enc_item_injective`], pin the round trip in both directions.

use vstd::prelude::*;
use vstd::bytes::*;
use vstd::slice::*;
use vstd::string::StrSliceExecFns;
use vstd::utf8::{decode_utf8, encode_utf8, valid_utf8};

use crate::models::{Item, ItemModel};

verus! {

broadcast use vstd::utf8::encode_utf8_valid_utf8, vstd::utf8::encode_utf8_decode_utf8, vstd::utf8::decode_utf8_encode_utf8;

/// A 64-bit value as its eight little-endian bytes.
pub open spec fn enc_u64(x: u64) -> Seq<u8> {
    spec_u64_to_le_bytes(x)
}

/// A byte string, length-prefixed.
pub open spec fn enc_bytes(b: Seq<u8>) -> Seq<u8> {
    enc_u64(b.len() as u64) + b
}

/// A string: its UTF-8 bytes, length-prefixed.
pub open spec fn enc_str(s: Seq<char>) -> Seq<u8> {
    enc_bytes(encode_utf8(s))
}

/// An optional string: a presence byte, then the string if present.
pub open spec fn enc_opt_str(o: Option<Seq<char>>) -> Seq<u8> {
    match o {
        Option::None => seq![0u8],
        Option::Some(s) => seq![1u8] + enc_str(s),
    }
}

/// A run of strings, one after the other.
pub open spec fn enc_str_seq(l: Seq<Seq<char>>) -> Seq<u8>
    decreases l.len(),
{
    if l.len() == 0 {
        Seq::empty()
    } else {
        enc_str_seq(l.drop_last()) + enc_str(l.last())
    }
}

/// An optional id list: a presence byte, then a count and the ids.
pub open spec fn enc_opt_list(o: Option<Seq<Seq<char>>>) -> Seq<u8> {
    match o {
        Option::None => seq![0u8],
        Option::Some(l) => seq![1u8] + enc_u64(l.len() as u64) + enc_str_seq(l),
    }
}

/// A boolean as one byte.
pub open spec fn enc_bool(v: bool) -> Seq<u8> {
    if v {
        seq![1u8]
    } else {
        seq![0u8]
    }
}

/// The whole record, fields in their fixed order.
pub open spec fn enc_item(v: ItemModel) -> Seq<u8> {
    enc_str(v.id) + enc_opt_str(v.parent) + enc_opt_list(v.children) + enc_str(v.title)
        + enc_opt_str(v.description) + enc_opt_str(v.link) + enc_bool(v.completed) + enc_u64(
        v.added,
    ) + enc_u64(v.modified)
}

/// The string's byte length fits the 8-byte length prefix.
pub open spec fn str_fits(s: Seq<char>) -> bool {
    encode_utf8(s).len() <= u64::MAX
}

/// Present or absent, the string fits its length prefix.
pub open spec fn opt_str_fits(o: Option<Seq<char>>) -> bool {
    match o {
        Option::None => true,
        Option::Some(s) => str_fits(s),
    }
}

/// The list's count fits its prefix and every element fits its own.
pub open spec fn list_fits(o: Option<Seq<Seq<char>>>) -> bool {
    match o {
        Option::None => true,
        Option::Some(l) => l.len() <= u64::MAX && (forall|i: int|
            0 <= i < l.len() ==> str_fits(#[trigger] l[i])),
    }
}

/// Every length in the record fits its prefix. True of every record built
/// from machine values; the encoding is injective on such records.
pub open spec fn wf_model(v: ItemModel) -> bool {
    str_fits(v.id) && opt_str_fits(v.parent) && list_fits(v.children) && str_fits(v.title)
        && opt_str_fits(v.description) && opt_str_fits(v.link)
}

/// The bytes `p` stand at offset `i` of `b`.
spec fn prefix_at(b: Seq<u8>, i: int, p: Seq<u8>) -> bool {
    0 <= i && i + p.len() <= b.len() && b.subrange(i, i + p.len()) == p
}

/// A concatenation stands at an offset exactly when its parts stand in
/// sequence.
proof fn lemma_prefix_concat(b: Seq<u8>, i: int, x: Seq<u8>, y: Seq<u8>)
    ensures
        prefix_at(b, i, x + y) <==> (prefix_at(b, i, x) && prefix_at(b, i + x.len(), y)),
{
    if prefix_at(b, i, x + y) {
        assert(b.subrange(i, i + x.len()) =~= (x + y).subrange(0, x.len() as int));
        assert((x + y).subrange(0, x.len() as int) =~= x);
        assert(b.subrange(i + x.len(), i + x.len() + y.len()) =~= (x + y).subrange(
            x.len() as int,
            (x + y).len() as int,
        ));
        assert((x + y).subrange(x.len() as int, (x + y).len() as int) =~= y);
    }
    if prefix_at(b, i, x) && prefix_at(b, i + x.len(), y) {
        assert(b.subrange(i, i + (x + y).len()) =~= x + y);
    }
}

/// Two byte strings of one length standing at one offset are the same.
proof fn lemma_prefix_unique(b: Seq<u8>, i: int, p1: Seq<u8>, p2: Seq<u8>)
    requires
        prefix_at(b, i, p1),
        prefix_at(b, i, p2),
        p1.len() == p2.len(),
    ensures
        p1 == p2,
{
    assert(p1 =~= p2);
}

/// Two encoded 64-bit values standing at one offset are the same value.
proof fn lemma_enc_u64_unique(b: Seq<u8>, i: int, x: u64, y: u64)
    requires
        prefix_at(b, i, enc_u64(x)),
        prefix_at(b, i, enc_u64(y)),
    ensures
        x == y,
{
    lemma_auto_spec_u64_to_from_le_bytes();
    lemma_prefix_unique(b, i, enc_u64(x), enc_u64(y));
    assert(spec_u64_from_le_bytes(spec_u64_to_le_bytes(x)) == x);
    assert(spec_u64_from_le_bytes(spec_u64_to_le_bytes(y)) == y);
}

/// Two encoded strings standing at one offset are the same string, with
/// the same encoded length.
proof fn lemma_enc_str_unique(b: Seq<u8>, i: int, s: Seq<char>, t: Seq<char>)
    requires
        str_fits(s),
        str_fits(t),
        prefix_at(b, i, enc_str(s)),
        prefix_at(b, i, enc_str(t)),
    ensures
        s == t,
{
    lemma_auto_spec_u64_to_from_le_bytes();
    lemma_prefix_concat(b, i, enc_u64(encode_utf8(s).len() as u64), encode_utf8(s));
    lemma_prefix_concat(b, i, enc_u64(encode_utf8(t).len() as u64), encode_utf8(t));
    lemma_enc_u64_unique(
        b,
        i,
        encode_utf8(s).len() as u64,
        encode_utf8(t).len() as u64,
    );
    lemma_prefix_unique(b, i + 8, encode_utf8(s), encode_utf8(t));
    assert(decode_utf8(encode_utf8(s)) == s);
    assert(decode_utf8(encode_utf8(t)) == t);
}

/// Splitting off the first string of a run.
proof fn lemma_enc_str_seq_unfold_front(l: Seq<Seq<char>>)
    requires
        l.len() > 0,
    ensures
        enc_str_seq(l) == enc_str(l[0]) + enc_str_seq(l.drop_first()),
    decreases l.len(),
{
    if l.len() == 1 {
        assert(l.drop_last() =~= Seq::<Seq<char>>::empty());
        assert(l.drop_first() =~= Seq::<Seq<char>>::empty());
        assert(enc_str_seq(l) =~= enc_str(l[0]) + enc_str_seq(l.drop_first()));
    } else {
        lemma_enc_str_seq_unfold_front(l.drop_last());
        assert(l.drop_last()[0] == l[0]);
        assert(l.drop_last().drop_first() =~= l.drop_first().drop_last());
        assert(l.last() == l.drop_first().last());
        assert(enc_str_seq(l) == enc_str_seq(l.drop_last()) + enc_str(l.last()));
        assert(enc_str_seq(l.drop_first()) == enc_str_seq(l.drop_first().drop_last()) + enc_str(
            l.drop_first().last(),
        ));
        assert(enc_str_seq(l) =~= enc_str(l[0]) + enc_str_seq(l.drop_first()));
    }
}

/// Appending one string to a run.
proof fn lemma_enc_str_seq_push(l: Seq<Seq<char>>, s: Seq<char>)
    ensures
        enc_str_seq(l.push(s)) == enc_str_seq(l) + enc_str(s),
{
    assert(l.push(s).drop_last() =~= l);
    assert(l.push(s).last() == s);
}

/// Two runs of one count standing at one offset are the same run, element
/// for element.
proof fn lemma_enc_str_seq_unique(b: Seq<u8>, i: int, a: Seq<Seq<char>>, l: Seq<Seq<char>>)
    requires
        a.len() == l.len(),
        forall|k: int| 0 <= k < a.len() ==> str_fits(#[trigger] a[k]),
        forall|k: int| 0 <= k < l.len() ==> str_fits(#[trigger] l[k]),
        prefix_at(b, i, enc_str_seq(a)),
        prefix_at(b, i, enc_str_seq(l)),
    ensures
        a == l,
    decreases a.len(),
{
    if a.len() > 0 {
        lemma_enc_str_seq_unfold_front(a);
        lemma_enc_str_seq_unfold_front(l);
        lemma_prefix_concat(b, i, enc_str(a[0]), enc_str_seq(a.drop_first()));
        lemma_prefix_concat(b, i, enc_str(l[0]), enc_str_seq(l.drop_first()));
        lemma_enc_str_unique(b, i, a[0], l[0]);
        assert(forall|k: int|
            0 <= k < a.drop_first().len() ==> str_fits(#[trigger] a.drop_first()[k]));
        assert(forall|k: int|
            0 <= k < l.drop_first().len() ==> str_fits(#[trigger] l.drop_first()[k]));
        lemma_enc_str_seq_unique(b, i + enc_str(a[0]).len(), a.drop_first(), l.drop_first());
        assert forall|k: int| 0 <= k < a.len() implies a[k] == l[k] by {
            if k > 0 {
                assert(a.drop_first()[k - 1] == l.drop_first()[k - 1]);
            }
        }
        assert(a =~= l);
    } else {
        assert(a =~= l);
    }
}

/// Two encoded optional strings standing at one offset are the same value,
/// with the same encoded length.
proof fn lemma_enc_opt_str_unique(
    b: Seq<u8>,
    i: int,
    o1: Option<Seq<char>>,
    o2: Option<Seq<char>>,
)
    requires
        opt_str_fits(o1),
        opt_str_fits(o2),
        prefix_at(b, i, enc_opt_str(o1)),
        prefix_at(b, i, enc_opt_str(o2)),
    ensures
        o1 == o2,
{
    assert(enc_opt_str(o1)[0] == b[i]);
    assert(enc_opt_str(o2)[0] == b[i]);
    match (o1, o2) {
        (Option::Some(s), Option::Some(t)) => {
            lemma_prefix_concat(b, i, seq![1u8], enc_str(s));
            lemma_prefix_concat(b, i, seq![1u8], enc_str(t));
            lemma_enc_str_unique(b, i + 1, s, t);
        },
        (Option::None, Option::None) => {},
        (Option::Some(s), Option::None) => {
            assert((seq![1u8] + enc_str(s))[0] == 1u8);
            assert(seq![0u8][0] == 0u8);
        },
        (Option::None, Option::Some(t)) => {
            assert((seq![1u8] + enc_str(t))[0] == 1u8);
            assert(seq![0u8][0] == 0u8);
        },
    }
}

/// Two encoded optional lists standing at one offset are the same value.
proof fn lemma_enc_opt_list_unique(
    b: Seq<u8>,
    i: int,
    o1: Option<Seq<Seq<char>>>,
    o2: Option<Seq<Seq<char>>>,
)
    requires
        list_fits(o1),
        list_fits(o2),
        prefix_at(b, i, enc_opt_list(o1)),
        prefix_at(b, i, enc_opt_list(o2)),
    ensures
        o1 == o2,
{
    lemma_auto_spec_u64_to_from_le_bytes();
    assert(enc_opt_list(o1)[0] == b[i]);
    assert(enc_opt_list(o2)[0] == b[i]);
    match (o1, o2) {
        (Option::Some(x), Option::Some(y)) => {
            assert(enc_opt_list(o1) =~= seq![1u8] + (enc_u64(x.len() as u64) + enc_str_seq(x)));
            assert(enc_opt_list(o2) =~= seq![1u8] + (enc_u64(y.len() as u64) + enc_str_seq(y)));
            lemma_prefix_concat(b, i, seq![1u8], enc_u64(x.len() as u64) + enc_str_seq(x));
            lemma_prefix_concat(b, i, seq![1u8], enc_u64(y.len() as u64) + enc_str_seq(y));
            lemma_prefix_concat(b, i + 1, enc_u64(x.len() as u64), enc_str_seq(x));
            lemma_prefix_concat(b, i + 1, enc_u64(y.len() as u64), enc_str_seq(y));
            lemma_enc_u64_unique(b, i + 1, x.len() as u64, y.len() as u64);
            lemma_enc_str_seq_unique(b, i + 9, x, y);
        },
        (Option::None, Option::None) => {},
        (Option::Some(x), Option::None) => {
            assert(enc_opt_list(o1)[0] == 1u8);
            assert(seq![0u8][0] == 0u8);
        },
        (Option::None, Option::Some(y)) => {
            assert(enc_opt_list(o2)[0] == 1u8);
            assert(seq![0u8][0] == 0u8);
        },
    }
}

/// Two encoded booleans standing at one offset are the same value.
proof fn lemma_enc_bool_unique(b: Seq<u8>, i: int, v1: bool, v2: bool)
    requires
        prefix_at(b, i, enc_bool(v1)),
        prefix_at(b, i, enc_bool(v2)),
    ensures
        v1 == v2,
{
    assert(enc_bool(v1)[0] == b[i]);
    assert(enc_bool(v2)[0] == b[i]);
}

/// Offset of the parent field inside an encoded record.
spec fn off_parent(v: ItemModel) -> int {
    enc_str(v.id).len() as int
}

/// Offset of the children field.
spec fn off_children(v: ItemModel) -> int {
    off_parent(v) + enc_opt_str(v.parent).len()
}

/// Offset of the title field.
spec fn off_title(v: ItemModel) -> int {
    off_children(v) + enc_opt_list(v.children).len()
}

/// Offset of the description field.
spec fn off_description(v: ItemModel) -> int {
    off_title(v) + enc_str(v.title).len()
}

/// Offset of the link field.
spec fn off_link(v: ItemModel) -> int {
    off_description(v) + enc_opt_str(v.description).len()
}

/// Offset of the completed flag.
spec fn off_completed(v: ItemModel) -> int {
    off_link(v) + enc_opt_str(v.link).len()
}

/// Offset of the creation stamp.
spec fn off_added(v: ItemModel) -> int {
    off_completed(v) + 1
}

/// Offset of the modification stamp.
spec fn off_modified(v: ItemModel) -> int {
    off_added(v) + 8
}

/// Where a record's encoding stands at offset `i`, each field's encoding
/// stands at its own offset.
#[verifier::rlimit(100)]
#[verifier::spinoff_prover]
proof fn lemma_enc_item_fields(b: Seq<u8>, i: int, v: ItemModel)
    requires
        prefix_at(b, i, enc_item(v)),
    ensures
        prefix_at(b, i, enc_str(v.id)),
        prefix_at(b, i + off_parent(v), enc_opt_str(v.parent)),
        prefix_at(b, i + off_children(v), enc_opt_list(v.children)),
        prefix_at(b, i + off_title(v), enc_str(v.title)),
        prefix_at(b, i + off_description(v), enc_opt_str(v.description)),
        prefix_at(b, i + off_link(v), enc_opt_str(v.link)),
        prefix_at(b, i + off_completed(v), enc_bool(v.completed)),
        prefix_at(b, i + off_added(v), enc_u64(v.added)),
        prefix_at(b, i + off_modified(v), enc_u64(v.modified)),
        off_modified(v) + 8 == enc_item(v).len(),
{
    lemma_auto_spec_u64_to_from_le_bytes();
    let r1 = enc_opt_str(v.parent) + enc_opt_list(v.children) + enc_str(v.title) + enc_opt_str(
        v.description,
    ) + enc_opt_str(v.link) + enc_bool(v.completed) + enc_u64(v.added) + enc_u64(v.modified);
    assert(enc_item(v) =~= enc_str(v.id) + r1);
    lemma_prefix_concat(b, i, enc_str(v.id), r1);

    let r2 = enc_opt_list(v.children) + enc_str(v.title) + enc_opt_str(v.description)
        + enc_opt_str(v.link) + enc_bool(v.completed) + enc_u64(v.added) + enc_u64(v.modified);
    assert(r1 =~= enc_opt_str(v.parent) + r2);
    lemma_prefix_concat(b, i + off_parent(v), enc_opt_str(v.parent), r2);

    let r3 = enc_str(v.title) + enc_opt_str(v.description) + enc_opt_str(v.link) + enc_bool(
        v.completed,
    ) + enc_u64(v.added) + enc_u64(v.modified);
    assert(r2 =~= enc_opt_list(v.children) + r3);
    lemma_prefix_concat(b, i + off_children(v), enc_opt_list(v.children), r3);

    let r4 = enc_opt_str(v.description) + enc_opt_str(v.link) + enc_bool(v.completed) + enc_u64(
        v.added,
    ) + enc_u64(v.modified);
    assert(r3 =~= enc_str(v.title) + r4);
    lemma_prefix_concat(b, i + off_title(v), enc_str(v.title), r4);

    let r5 = enc_opt_str(v.link) + enc_bool(v.completed) + enc_u64(v.added) + enc_u64(v.modified);
    assert(r4 =~= enc_opt_str(v.description) + r5);
    lemma_prefix_concat(b, i + off_description(v), enc_opt_str(v.description), r5);

    let r6 = enc_bool(v.completed) + enc_u64(v.added) + enc_u64(v.modified);
    assert(r5 =~= enc_opt_str(v.link) + r6);
    lemma_prefix_concat(b, i + off_link(v), enc_opt_str(v.link), r6);

    let r7 = enc_u64(v.added) + enc_u64(v.modified);
    assert(r6 =~= enc_bool(v.completed) + r7);
    lemma_prefix_concat(b, i + off_completed(v), enc_bool(v.completed), r7);

    lemma_prefix_concat(b, i + off_added(v), enc_u64(v.added), enc_u64(v.modified));
}

/// The encoding distinguishes any two records: equal encodings mean equal
/// records. With the round trip stated on [`encode_item`] and
/// [`decode_item`], this pins decoding as the exact inverse of encoding.
#[verifier::rlimit(100)]
#[verifier::spinoff_prover]
pub proof fn lemma_enc_item_injective(v1: ItemModel, v2: ItemModel)
    requires
        wf_model(v1),
        wf_model(v2),
        enc_item(v1) == enc_item(v2),
    ensures
        v1 == v2,
{
    lemma_auto_spec_u64_to_from_le_bytes();
    let b = enc_item(v1);
    assert(prefix_at(b, 0, b)) by {
        assert(b.subrange(0, b.len() as int) =~= b);
    }
    lemma_enc_item_fields(b, 0, v1);
    lemma_enc_item_fields(b, 0, v2);
    lemma_enc_str_unique(b, 0, v1.id, v2.id);
    assert(off_parent(v1) == off_parent(v2));
    lemma_enc_opt_str_unique(b, off_parent(v1), v1.parent, v2.parent);
    assert(off_children(v1) == off_children(v2));
    lemma_enc_opt_list_unique(b, off_children(v1), v1.children, v2.children);
    assert(off_title(v1) == off_title(v2));
    lemma_enc_str_unique(b, off_title(v1), v1.title, v2.title);
    assert(off_description(v1) == off_description(v2));
    lemma_enc_opt_str_unique(b, off_description(v1), v1.description, v2.description);
    assert(off_link(v1) == off_link(v2));
    lemma_enc_opt_str_unique(b, off_link(v1), v1.link, v2.link);
    assert(off_completed(v1) == off_completed(v2));
    lemma_enc_bool_unique(b, off_completed(v1), v1.completed, v2.completed);
    lemma_enc_u64_unique(b, off_added(v1), v1.added, v2.added);
    lemma_enc_u64_unique(b, off_modified(v1), v1.modified, v2.modified);
    assert(v1 =~= v2);
}

/// Appends the eight little-endian bytes of `x`.
fn push_u64(out: &mut Vec<u8>, x: u64)
    ensures
        final(out)@ == old(out)@ + enc_u64(x),
{
    let mut b = u64_to_le_bytes(x);
    out.append(&mut b);
}

/// Appends a length-prefixed byte string.
fn push_bytes(out: &mut Vec<u8>, b: &[u8])
    ensures
        final(out)@ == old(out)@ + enc_bytes(b@),
        b@.len() <= u64::MAX,
{
    push_u64(out, b.len() as u64);
    let mut v = slice_to_vec(b);
    out.append(&mut v);
    proof {
        assert(final(out)@ =~= old(out)@ + enc_bytes(b@));
    }
}

/// Appends a length-prefixed string.
fn push_str(out: &mut Vec<u8>, s: &String)
    ensures
        final(out)@ == old(out)@ + enc_str(s@),
        str_fits(s@),
{
    let b = s.as_str().as_bytes_vec();
    push_bytes(out, b.as_slice());
}

/// Appends a presence byte, then the string if present.
fn push_opt_str(out: &mut Vec<u8>, o: &Option<String>)
    ensures
        final(out)@ == old(out)@ + enc_opt_str(o.deep_view()),
        opt_str_fits(o.deep_view()),
{
    match o {
        Option::None => {
            out.push(0u8);
            proof {
                assert(final(out)@ =~= old(out)@ + enc_opt_str(o.deep_view()));
            }
        },
        Option::Some(s) => {
            let ghost mid = out@;
            out.push(1u8);
            proof {
                assert(out@ =~= mid + seq![1u8]);
            }
            push_str(out, s);
            proof {
                assert(final(out)@ =~= old(out)@ + enc_opt_str(o.deep_view()));
            }
        },
    }
}

/// Appends a presence byte, then the count and every id if present.
fn push_opt_list(out: &mut Vec<u8>, o: &Option<Vec<String>>)
    ensures
        final(out)@ == old(out)@ + enc_opt_list(o.deep_view()),
        list_fits(o.deep_view()),
{
    match o {
        Option::None => {
            out.push(0u8);
            proof {
                assert(final(out)@ =~= old(out)@ + enc_opt_list(o.deep_view()));
            }
        },
        Option::Some(l) => {
            let ghost dv = l.deep_view();
            out.push(1u8);
            push_u64(out, l.len() as u64);
            let ghost head = out@;
            proof {
                assert(head =~= old(out)@ + seq![1u8] + enc_u64(dv.len() as u64));
                assert(dv.take(0) =~= Seq::<Seq<char>>::empty());
            }
            let mut i: usize = 0;
            while i < l.len()
                invariant
                    i <= l.len(),
                    l.deep_view() == dv,
                    dv.len() == l@.len(),
                    out@ == head + enc_str_seq(dv.take(i as int)),
                    forall|k: int| 0 <= k < i ==> str_fits(#[trigger] dv[k]),
                decreases l.len() - i,
            {
                let ghost pre = dv.take(i as int);
                push_str(out, &l[i]);
                proof {
                    assert(dv[i as int] == l@[i as int]@);
                    assert(dv.take(i + 1 as int).drop_last() =~= pre);
                    assert(dv.take(i + 1 as int).last() == dv[i as int]);
                    assert(enc_str_seq(dv.take(i + 1 as int)) == enc_str_seq(pre) + enc_str(
                        dv[i as int],
                    ));
                    assert(out@ =~= head + enc_str_seq(dv.take(i + 1 as int)));
                }
                i = i + 1;
            }
            proof {
                assert(dv.take(dv.len() as int) =~= dv);
                assert(final(out)@ =~= old(out)@ + enc_opt_list(o.deep_view()));
            }
        },
    }
}

/// The record's bytes, exactly its encoding under the fixed format.
pub fn encode_item(item: &Item) -> (r: Vec<u8>)
    ensures
        r@ == enc_item(item@),
        wf_model(item@),
{
    let mut out: Vec<u8> = Vec::new();
    push_str(&mut out, &item.id);
    push_opt_str(&mut out, &item.parent);
    push_opt_list(&mut out, &item.children);
    push_str(&mut out, &item.title);
    push_opt_str(&mut out, &item.description);
    push_opt_str(&mut out, &item.link);
    if item.completed {
        out.push(1u8);
    } else {
        out.push(0u8);
    }
    push_u64(&mut out, item.added);
    push_u64(&mut out, item.modified);
    proof {
        assert(out@ =~= enc_item(item@));
    }
    out
}

/// A run of strings encodes piecewise.
proof fn lemma_enc_str_seq_concat(a: Seq<Seq<char>>, c: Seq<Seq<char>>)
    ensures
        enc_str_seq(a + c) == enc_str_seq(a) + enc_str_seq(c),
    decreases c.len(),
{
    if c.len() == 0 {
        assert(a + c =~= a);
        assert(enc_str_seq(a) + enc_str_seq(c) =~= enc_str_seq(a));
    } else {
        assert((a + c).drop_last() =~= a + c.drop_last());
        lemma_enc_str_seq_concat(a, c.drop_last());
        assert((a + c).last() == c.last());
        assert(enc_str_seq(a + c) =~= enc_str_seq(a) + enc_str_seq(c));
    }
}

/// Relies on `String::from_utf8`: it returns the string whose UTF-8
/// encoding is exactly the given bytes, and fails exactly when the bytes
/// are not valid UTF-8.
#[verifier::external_body]
fn string_from_utf8(bytes: Vec<u8>) -> (r: Option<String>)
    ensures
        (match r {
            Option::Some(s) => valid_utf8(bytes@) && s@ == decode_utf8(bytes@),
            Option::None => !valid_utf8(bytes@),
        }),
{
    match String::from_utf8(bytes) {
        Ok(s) => Option::Some(s),
        Err(_) => Option::None,
    }
}

/// Reads eight little-endian bytes at `pos`.
fn read_u64(b: &Vec<u8>, pos: usize) -> (r: Option<(u64, usize)>)
    requires
        pos <= b@.len(),
    ensures
        (match r {
            Option::Some(xp) => xp.1 == pos + 8 && xp.1 <= b@.len() && prefix_at(
                b@,
                pos as int,
                enc_u64(xp.0),
            ),
            Option::None => b@.len() - pos < 8,
        }),
{
    proof {
        lemma_auto_spec_u64_to_from_le_bytes();
    }
    if b.len() - pos < 8 {
        return Option::None;
    }
    let s = slice_subrange(b.as_slice(), pos, pos + 8);
    let x = u64_from_le_bytes(s);
    proof {
        assert(enc_u64(x) == b@.subrange(pos as int, pos + 8));
    }
    Option::Some((x, pos + 8))
}

/// Reads a length-prefixed byte string at `pos`.
fn read_lp_bytes(b: &Vec<u8>, pos: usize) -> (r: Option<(Vec<u8>, usize)>)
    requires
        pos <= b@.len(),
    ensures
        (match r {
            Option::Some(vp) => pos <= vp.1 <= b@.len() && prefix_at(
                b@,
                pos as int,
                enc_bytes(vp.0@),
            ) && vp.1 == pos + 8 + vp.0@.len() && vp.0@.len() <= u64::MAX,
            Option::None => forall|s: Seq<u8>|
                s.len() <= u64::MAX ==> !prefix_at(b@, pos as int, #[trigger] enc_bytes(s)),
        }),
{
    proof {
        lemma_auto_spec_u64_to_from_le_bytes();
    }
    let (ln, p1) = match read_u64(b, pos) {
        Option::Some(xp) => xp,
        Option::None => {
            proof {
                assert forall|s: Seq<u8>| s.len() <= u64::MAX implies !prefix_at(
                    b@,
                    pos as int,
                    #[trigger] enc_bytes(s),
                ) by {
                    assert(enc_bytes(s).len() >= 8);
                }
            }
            return Option::None;
        },
    };
    let rem = b.len() - p1;
    if ln > rem as u64 {
        proof {
            assert forall|s: Seq<u8>| s.len() <= u64::MAX implies !prefix_at(
                b@,
                pos as int,
                #[trigger] enc_bytes(s),
            ) by {
                if prefix_at(b@, pos as int, enc_bytes(s)) {
                    lemma_prefix_concat(b@, pos as int, enc_u64(s.len() as u64), s);
                    lemma_enc_u64_unique(b@, pos as int, ln, s.len() as u64);
                    assert(s.len() == ln);
                }
            }
        }
        return Option::None;
    }
    let l = ln as usize;
    let v = slice_to_vec(slice_subrange(b.as_slice(), p1, p1 + l));
    proof {
        assert(b@.subrange(pos as int, p1 + l as int) =~= b@.subrange(pos as int, p1 as int)
            + b@.subrange(p1 as int, p1 + l as int));
        assert(prefix_at(b@, pos as int, enc_bytes(v@))) by {
            assert(enc_bytes(v@) =~= enc_u64(ln) + v@);
        }
    }
    Option::Some((v, p1 + l))
}

/// Reads a length-prefixed string at `pos`.
fn read_str(b: &Vec<u8>, pos: usize) -> (r: Option<(String, usize)>)
    requires
        pos <= b@.len(),
    ensures
        (match r {
            Option::Some(sp) => pos <= sp.1 <= b@.len() && prefix_at(
                b@,
                pos as int,
                enc_str(sp.0@),
            ) && sp.1 == pos + enc_str(sp.0@).len() && str_fits(sp.0@),
            Option::None => forall|t: Seq<char>|
                str_fits(t) ==> !prefix_at(b@, pos as int, #[trigger] enc_str(t)),
        }),
{
    proof {
        lemma_auto_spec_u64_to_from_le_bytes();
    }
    let (v, p1) = match read_lp_bytes(b, pos) {
        Option::Some(vp) => vp,
        Option::None => {
            proof {
                assert forall|t: Seq<char>| str_fits(t) implies !prefix_at(
                    b@,
                    pos as int,
                    #[trigger] enc_str(t),
                ) by {
                    assert(enc_str(t) == enc_bytes(encode_utf8(t)));
                }
            }
            return Option::None;
        },
    };
    let ghost vb = v@;
    match string_from_utf8(v) {
        Option::Some(s) => {
            proof {
                assert(encode_utf8(s@) == vb);
                assert(enc_str(s@) == enc_bytes(vb));
            }
            Option::Some((s, p1))
        },
        Option::None => {
            proof {
                assert forall|t: Seq<char>| str_fits(t) implies !prefix_at(
                    b@,
                    pos as int,
                    #[trigger] enc_str(t),
                ) by {
                    if prefix_at(b@, pos as int, enc_str(t)) {
                        lemma_prefix_concat(
                            b@,
                            pos as int,
                            enc_u64(encode_utf8(t).len() as u64),
                            encode_utf8(t),
                        );
                        lemma_prefix_concat(b@, pos as int, enc_u64(vb.len() as u64), vb);
                        lemma_enc_u64_unique(
                            b@,
                            pos as int,
                            encode_utf8(t).len() as u64,
                            vb.len() as u64,
                        );
                        lemma_prefix_unique(b@, pos + 8, encode_utf8(t), vb);
                        assert(valid_utf8(vb));
                    }
                }
            }
            Option::None
        },
    }
}

/// Reads a presence byte and, if set, a string.
fn read_opt_str(b: &Vec<u8>, pos: usize) -> (r: Option<(Option<String>, usize)>)
    requires
        pos <= b@.len(),
    ensures
        (match r {
            Option::Some(op) => pos <= op.1 <= b@.len() && prefix_at(
                b@,
                pos as int,
                enc_opt_str(op.0.deep_view()),
            ) && op.1 == pos + enc_opt_str(op.0.deep_view()).len() && opt_str_fits(
                op.0.deep_view(),
            ),
            Option::None => forall|o: Option<Seq<char>>|
                opt_str_fits(o) ==> !prefix_at(b@, pos as int, #[trigger] enc_opt_str(o)),
        }),
{
    if pos >= b.len() {
        proof {
            assert forall|o: Option<Seq<char>>| opt_str_fits(o) implies !prefix_at(
                b@,
                pos as int,
                #[trigger] enc_opt_str(o),
            ) by {
                assert(enc_opt_str(o).len() >= 1);
            }
        }
        return Option::None;
    }
    let tag = b[pos];
    if tag == 0 {
        proof {
            assert(prefix_at(b@, pos as int, enc_opt_str(Option::None))) by {
                assert(b@.subrange(pos as int, pos + 1) =~= seq![b@[pos as int]]);
            }
        }
        Option::Some((Option::None, pos + 1))
    } else if tag == 1 {
        match read_str(b, pos + 1) {
            Option::Some((s, p2)) => {
                proof {
                    assert(prefix_at(
                        b@,
                        pos as int,
                        enc_opt_str(Option::Some(s@)),
                    )) by {
                        lemma_prefix_concat(b@, pos as int, seq![1u8], enc_str(s@));
                        assert(prefix_at(b@, pos as int, seq![1u8])) by {
                            assert(b@.subrange(pos as int, pos + 1) =~= seq![b@[pos as int]]);
                        }
                        assert(enc_opt_str(Option::Some(s@)) == seq![1u8] + enc_str(s@));
                    }
                }
                Option::Some((Option::Some(s), p2))
            },
            Option::None => {
                proof {
                    assert forall|o: Option<Seq<char>>| opt_str_fits(o) implies !prefix_at(
                        b@,
                        pos as int,
                        #[trigger] enc_opt_str(o),
                    ) by {
                        if prefix_at(b@, pos as int, enc_opt_str(o)) {
                            assert(enc_opt_str(o)[0] == b@[pos as int]);
                            match o {
                                Option::None => {
                                    assert(enc_opt_str(o)[0] == 0u8);
                                },
                                Option::Some(t) => {
                                    assert(enc_opt_str(o)[0] == 1u8);
                                    lemma_prefix_concat(b@, pos as int, seq![1u8], enc_str(t));
                                },
                            }
                        }
                    }
                }
                Option::None
            },
        }
    } else {
        proof {
            assert forall|o: Option<Seq<char>>| opt_str_fits(o) implies !prefix_at(
                b@,
                pos as int,
                #[trigger] enc_opt_str(o),
            ) by {
                if prefix_at(b@, pos as int, enc_opt_str(o)) {
                    assert(enc_opt_str(o)[0] == b@[pos as int]);
                    match o {
                        Option::None => {
                            assert(enc_opt_str(o)[0] == 0u8);
                        },
                        Option::Some(t) => {
                            assert(enc_opt_str(o)[0] == 1u8);
                        },
                    }
                }
            }
        }
        Option::None
    }
}

/// Reads a one-byte boolean.
fn read_bool(b: &Vec<u8>, pos: usize) -> (r: Option<(bool, usize)>)
    requires
        pos <= b@.len(),
    ensures
        (match r {
            Option::Some(vp) => vp.1 == pos + 1 && vp.1 <= b@.len() && prefix_at(
                b@,
                pos as int,
                enc_bool(vp.0),
            ),
            Option::None => forall|v: bool| !prefix_at(b@, pos as int, #[trigger] enc_bool(v)),
        }),
{
    if pos >= b.len() {
        proof {
            assert forall|v: bool| !prefix_at(b@, pos as int, #[trigger] enc_bool(v)) by {
                assert(enc_bool(v).len() == 1);
            }
        }
        return Option::None;
    }
    let tag = b[pos];
    proof {
        assert(b@.subrange(pos as int, pos + 1) =~= seq![b@[pos as int]]);
    }
    if tag == 0 {
        Option::Some((false, pos + 1))
    } else if tag == 1 {
        Option::Some((true, pos + 1))
    } else {
        proof {
            assert forall|v: bool| !prefix_at(b@, pos as int, #[trigger] enc_bool(v)) by {
                if prefix_at(b@, pos as int, enc_bool(v)) {
                    assert(enc_bool(v)[0] == b@[pos as int]);
                }
            }
        }
        Option::None
    }
}

/// True of a run whose count fits the prefix and whose elements each fit
/// their own.
pub open spec fn str_seq_fits(l: Seq<Seq<char>>) -> bool {
    l.len() <= u64::MAX && (forall|i: int| 0 <= i < l.len() ==> str_fits(#[trigger] l[i]))
}

/// Reads a count and that many strings.
#[verifier::loop_isolation(false)]
fn read_str_list(b: &Vec<u8>, pos: usize) -> (r: Option<(Vec<String>, usize)>)
    requires
        pos <= b@.len(),
    ensures
        (match r {
            Option::Some(lp) => pos <= lp.1 <= b@.len() && prefix_at(
                b@,
                pos as int,
                enc_u64(lp.0@.len() as u64) + enc_str_seq(lp.0.deep_view()),
            ) && lp.1 == pos + 8 + enc_str_seq(lp.0.deep_view()).len() && str_seq_fits(
                lp.0.deep_view(),
            ),
            Option::None => forall|ls: Seq<Seq<char>>|
                str_seq_fits(ls) ==> !prefix_at(
                    b@,
                    pos as int,
                    enc_u64(ls.len() as u64) + #[trigger] enc_str_seq(ls),
                ),
        }),
{
    proof {
        lemma_auto_spec_u64_to_from_le_bytes();
    }
    let ghost lex = exists|ls: Seq<Seq<char>>|
        str_seq_fits(ls) && prefix_at(
            b@,
            pos as int,
            enc_u64(ls.len() as u64) + #[trigger] enc_str_seq(ls),
        );
    let ghost l0: Seq<Seq<char>> = if lex {
        choose|ls: Seq<Seq<char>>|
            str_seq_fits(ls) && prefix_at(
                b@,
                pos as int,
                enc_u64(ls.len() as u64) + #[trigger] enc_str_seq(ls),
            )
    } else {
        arbitrary()
    };
    proof {
        if lex {
            lemma_prefix_concat(b@, pos as int, enc_u64(l0.len() as u64), enc_str_seq(l0));
        }
    }
    let (n, p1) = match read_u64(b, pos) {
        Option::Some(xp) => xp,
        Option::None => {
            proof {
                if lex {
                    assert(prefix_at(b@, pos as int, enc_u64(l0.len() as u64)));
                }
                assert(!lex);
            }
            return Option::None;
        },
    };
    proof {
        if lex {
            lemma_enc_u64_unique(b@, pos as int, n, l0.len() as u64);
            assert(l0.len() == n);
        }
    }
    let mut res: Vec<String> = Vec::new();
    let mut k: u64 = 0;
    let mut p: usize = p1;
    proof {
        assert(res.deep_view() =~= Seq::<Seq<char>>::empty());
        assert(enc_str_seq(res.deep_view()).len() == 0);
        assert(prefix_at(b@, p1 as int, enc_str_seq(res.deep_view()))) by {
            assert(b@.subrange(p1 as int, p1 as int) =~= Seq::<u8>::empty());
        }
        if lex {
            assert(res.deep_view() =~= l0.take(0));
        }
    }
    while k < n
        invariant
            k <= n,
            res@.len() == k as int,
            p1 <= p <= b@.len(),
            p == p1 + enc_str_seq(res.deep_view()).len(),
            prefix_at(b@, p1 as int, enc_str_seq(res.deep_view())),
            str_seq_fits(res.deep_view()),
            lex ==> res.deep_view() == l0.take(k as int),
        decreases n - k,
    {
        let ghost dv = res.deep_view();
        match read_str(b, p) {
            Option::Some((s, p2)) => {
                res.push(s);
                proof {
                    assert(res.deep_view() =~= dv.push(s@));
                    lemma_enc_str_seq_push(dv, s@);
                    lemma_prefix_concat(b@, p1 as int, enc_str_seq(dv), enc_str(s@));
                    assert(prefix_at(b@, p1 as int, enc_str_seq(res.deep_view())));
                    assert forall|i: int| 0 <= i < res.deep_view().len() implies str_fits(
                        #[trigger] res.deep_view()[i],
                    ) by {
                        if i < dv.len() {
                            assert(res.deep_view()[i] == dv[i]);
                        } else {
                            assert(res.deep_view()[i] == s@);
                        }
                    }
                    if lex {
                        assert(l0.take(k as int) =~= l0.take(k + 1 as int).drop_last());
                        lemma_enc_str_seq_concat(l0.take(k as int), l0.skip(k as int));
                        assert(l0.take(k as int) + l0.skip(k as int) =~= l0);
                        lemma_prefix_concat(
                            b@,
                            p1 as int,
                            enc_str_seq(l0.take(k as int)),
                            enc_str_seq(l0.skip(k as int)),
                        );
                        lemma_enc_str_seq_unfold_front(l0.skip(k as int));
                        assert(l0.skip(k as int)[0] == l0[k as int]);
                        lemma_prefix_concat(
                            b@,
                            p as int,
                            enc_str(l0[k as int]),
                            enc_str_seq(l0.skip(k as int).drop_first()),
                        );
                        lemma_enc_str_unique(b@, p as int, s@, l0[k as int]);
                        assert(res.deep_view() =~= l0.take(k + 1 as int));
                    }
                }
                p = p2;
            },
            Option::None => {
                proof {
                    if lex {
                        lemma_enc_str_seq_concat(l0.take(k as int), l0.skip(k as int));
                        assert(l0.take(k as int) + l0.skip(k as int) =~= l0);
                        lemma_prefix_concat(
                            b@,
                            p1 as int,
                            enc_str_seq(l0.take(k as int)),
                            enc_str_seq(l0.skip(k as int)),
                        );
                        lemma_enc_str_seq_unfold_front(l0.skip(k as int));
                        assert(l0.skip(k as int)[0] == l0[k as int]);
                        lemma_prefix_concat(
                            b@,
                            p as int,
                            enc_str(l0[k as int]),
                            enc_str_seq(l0.skip(k as int).drop_first()),
                        );
                        assert(prefix_at(b@, p as int, enc_str(l0[k as int])));
                        assert(str_fits(l0[k as int]));
                    }
                    assert(!lex);
                }
                return Option::None;
            },
        }
        k = k + 1;
    }
    proof {
        if lex {
            assert(l0.take(n as int) =~= l0);
        }
        assert(prefix_at(b@, pos as int, enc_u64(res@.len() as u64) + enc_str_seq(
            res.deep_view(),
        ))) by {
            lemma_prefix_concat(b@, pos as int, enc_u64(n), enc_str_seq(res.deep_view()));
        }
    }
    Option::Some((res, p))
}

/// Reads a presence byte and, if set, a counted id list.
fn read_opt_list(b: &Vec<u8>, pos: usize) -> (r: Option<(Option<Vec<String>>, usize)>)
    requires
        pos <= b@.len(),
    ensures
        (match r {
            Option::Some(op) => pos <= op.1 <= b@.len() && prefix_at(
                b@,
                pos as int,
                enc_opt_list(op.0.deep_view()),
            ) && op.1 == pos + enc_opt_list(op.0.deep_view()).len() && list_fits(
                op.0.deep_view(),
            ),
            Option::None => forall|o: Option<Seq<Seq<char>>>|
                list_fits(o) ==> !prefix_at(b@, pos as int, #[trigger] enc_opt_list(o)),
        }),
{
    proof {
        lemma_auto_spec_u64_to_from_le_bytes();
    }
    if pos >= b.len() {
        proof {
            assert forall|o: Option<Seq<Seq<char>>>| list_fits(o) implies !prefix_at(
                b@,
                pos as int,
                #[trigger] enc_opt_list(o),
            ) by {
                assert(enc_opt_list(o).len() >= 1);
            }
        }
        return Option::None;
    }
    let tag = b[pos];
    proof {
        assert(b@.subrange(pos as int, pos + 1) =~= seq![b@[pos as int]]);
    }
    if tag == 0 {
        proof {
            let ghost o: Option<Seq<Seq<char>>> = Option::None;
            assert(enc_opt_list(o) == seq![0u8]);
            assert(b@.subrange(pos as int, pos + 1) =~= seq![0u8]);
            assert(prefix_at(b@, pos as int, enc_opt_list(o)));
            assert((Option::<Vec<String>>::None).deep_view() == o);
        }
        Option::Some((Option::None, pos + 1))
    } else if tag == 1 {
        match read_str_list(b, pos + 1) {
            Option::Some((l, p2)) => {
                proof {
                    assert(prefix_at(
                        b@,
                        pos as int,
                        enc_opt_list(Option::Some(l.deep_view())),
                    )) by {
                        lemma_prefix_concat(
                            b@,
                            pos as int,
                            seq![1u8],
                            enc_u64(l@.len() as u64) + enc_str_seq(l.deep_view()),
                        );
                        assert(enc_opt_list(Option::Some(l.deep_view())) =~= seq![1u8] + (enc_u64(
                            l@.len() as u64,
                        ) + enc_str_seq(l.deep_view())));
                        assert(l.deep_view().len() == l@.len());
                    }
                }
                Option::Some((Option::Some(l), p2))
            },
            Option::None => {
                proof {
                    assert forall|o: Option<Seq<Seq<char>>>| list_fits(o) implies !prefix_at(
                        b@,
                        pos as int,
                        #[trigger] enc_opt_list(o),
                    ) by {
                        if prefix_at(b@, pos as int, enc_opt_list(o)) {
                            assert(enc_opt_list(o)[0] == b@[pos as int]);
                            match o {
                                Option::None => {
                                    assert(enc_opt_list(o)[0] == 0u8);
                                },
                                Option::Some(ls) => {
                                    assert(enc_opt_list(o) =~= seq![1u8] + (enc_u64(
                                        ls.len() as u64,
                                    ) + enc_str_seq(ls)));
                                    lemma_prefix_concat(
                                        b@,
                                        pos as int,
                                        seq![1u8],
                                        enc_u64(ls.len() as u64) + enc_str_seq(ls),
                                    );
                                    assert(str_seq_fits(ls));
                                },
                            }
                        }
                    }
                }
                Option::None
            },
        }
    } else {
        proof {
            assert forall|o: Option<Seq<Seq<char>>>| list_fits(o) implies !prefix_at(
                b@,
                pos as int,
                #[trigger] enc_opt_list(o),
            ) by {
                if prefix_at(b@, pos as int, enc_opt_list(o)) {
                    assert(enc_opt_list(o)[0] == b@[pos as int]);
                    match o {
                        Option::None => {
                            assert(enc_opt_list(o)[0] == 0u8);
                        },
                        Option::Some(ls) => {
                            assert(enc_opt_list(o)[0] == (seq![1u8] + (enc_u64(ls.len() as u64)
                                + enc_str_seq(ls)))[0]);
                        },
                    }
                }
            }
        }
        Option::None
    }
}

/// Where no record encodes to these bytes, none in particular does.
proof fn lemma_no_witness(bytes: Seq<u8>)
    requires
        !(exists|v: ItemModel| wf_model(v) && enc_item(v) == bytes),
    ensures
        forall|v: ItemModel| wf_model(v) ==> enc_item(v) != bytes,
{
    assert forall|v: ItemModel| wf_model(v) implies enc_item(v) != bytes by {
        if enc_item(v) == bytes {
            assert(wf_model(v) && enc_item(v) == bytes);
        }
    }
}

/// Reads a record back from its bytes. Exactly the byte strings produced
/// by [`encode_item`] decode, each to the one record that produced it;
/// anything else is refused.
#[verifier::rlimit(100)]
#[verifier::spinoff_prover]
pub fn decode_item(bytes: &Vec<u8>) -> (r: Option<Item>)
    ensures
        (match r {
            Option::Some(it) => wf_model(it@) && bytes@ == enc_item(it@),
            Option::None => forall|v: ItemModel| wf_model(v) ==> enc_item(v) != bytes@,
        }),
        (forall|v: ItemModel|
            wf_model(v) && enc_item(v) == bytes@ ==> (r matches Option::Some(it) && it@ == v)),
{
    proof {
        lemma_auto_spec_u64_to_from_le_bytes();
    }
    let ghost ex = exists|v: ItemModel| wf_model(v) && enc_item(v) == bytes@;
    let ghost v0: ItemModel = if ex {
        choose|v: ItemModel| wf_model(v) && enc_item(v) == bytes@
    } else {
        arbitrary()
    };
    proof {
        if ex {
            assert(wf_model(v0) && enc_item(v0) == bytes@);
            assert(prefix_at(bytes@, 0, enc_item(v0))) by {
                assert(bytes@.subrange(0, bytes@.len() as int) =~= bytes@);
            }
            lemma_enc_item_fields(bytes@, 0, v0);
        }
    }
    let (id, p1) = match read_str(bytes, 0) {
        Option::Some(sp) => sp,
        Option::None => {
            proof {
                assert(!ex);
                lemma_no_witness(bytes@);
            }
            return Option::None;
        },
    };
    proof {
        if ex {
            lemma_enc_str_unique(bytes@, 0, id@, v0.id);
            assert(p1 == off_parent(v0));
        }
    }
    let (parent, p2) = match read_opt_str(bytes, p1) {
        Option::Some(op) => op,
        Option::None => {
            proof {
                assert(!ex);
                lemma_no_witness(bytes@);
            }
            return Option::None;
        },
    };
    proof {
        if ex {
            lemma_enc_opt_str_unique(bytes@, p1 as int, parent.deep_view(), v0.parent);
            assert(p2 == off_children(v0));
        }
    }
    let (children, p3) = match read_opt_list(bytes, p2) {
        Option::Some(op) => op,
        Option::None => {
            proof {
                assert(!ex);
                lemma_no_witness(bytes@);
            }
            return Option::None;
        },
    };
    proof {
        if ex {
            lemma_enc_opt_list_unique(bytes@, p2 as int, children.deep_view(), v0.children);
            assert(p3 == off_title(v0));
        }
    }
    let (title, p4) = match read_str(bytes, p3) {
        Option::Some(sp) => sp,
        Option::None => {
            proof {
                assert(!ex);
                lemma_no_witness(bytes@);
            }
            return Option::None;
        },
    };
    proof {
        if ex {
            lemma_enc_str_unique(bytes@, p3 as int, title@, v0.title);
            assert(p4 == off_description(v0));
        }
    }
    let (description, p5) = match read_opt_str(bytes, p4) {
        Option::Some(op) => op,
        Option::None => {
            proof {
                assert(!ex);
                lemma_no_witness(bytes@);
            }
            return Option::None;
        },
    };
    proof {
        if ex {
            lemma_enc_opt_str_unique(bytes@, p4 as int, description.deep_view(), v0.description);
            assert(p5 == off_link(v0));
        }
    }
    let (link, p6) = match read_opt_str(bytes, p5) {
        Option::Some(op) => op,
        Option::None => {
            proof {
                assert(!ex);
                lemma_no_witness(bytes@);
            }
            return Option::None;
        },
    };
    proof {
        if ex {
            lemma_enc_opt_str_unique(bytes@, p5 as int, link.deep_view(), v0.link);
            assert(p6 == off_completed(v0));
        }
    }
    let (completed, p7) = match read_bool(bytes, p6) {
        Option::Some(vp) => vp,
        Option::None => {
            proof {
                assert(!ex);
                lemma_no_witness(bytes@);
            }
            return Option::None;
        },
    };
    proof {
        if ex {
            lemma_enc_bool_unique(bytes@, p6 as int, completed, v0.completed);
            assert(p7 == off_added(v0));
        }
    }
    let (added, p8) = match read_u64(bytes, p7) {
        Option::Some(xp) => xp,
        Option::None => {
            proof {
                if ex {
                    assert(prefix_at(bytes@, p7 as int, enc_u64(v0.added)));
                }
                assert(!ex);
                lemma_no_witness(bytes@);
            }
            return Option::None;
        },
    };
    proof {
        if ex {
            lemma_enc_u64_unique(bytes@, p7 as int, added, v0.added);
            assert(p8 == off_modified(v0));
        }
    }
    let (modified, p9) = match read_u64(bytes, p8) {
        Option::Some(xp) => xp,
        Option::None => {
            proof {
                if ex {
                    assert(prefix_at(bytes@, p8 as int, enc_u64(v0.modified)));
                }
                assert(!ex);
                lemma_no_witness(bytes@);
            }
            return Option::None;
        },
    };
    proof {
        if ex {
            lemma_enc_u64_unique(bytes@, p8 as int, modified, v0.modified);
            assert(p9 == off_modified(v0) + 8);
        }
    }
    if p9 != bytes.len() {
        proof {
            if ex {
                assert(p9 == enc_item(v0).len());
                assert(enc_item(v0).len() == bytes@.len());
            }
            assert(!ex);
            lemma_no_witness(bytes@);
        }
        return Option::None;
    }
    let it = Item { added, children, completed, description, id, link, modified, parent, title };
    proof {
        let t1 = enc_str(it@.id);
        let t2 = t1 + enc_opt_str(it@.parent);
        let t3 = t2 + enc_opt_list(it@.children);
        let t4 = t3 + enc_str(it@.title);
        let t5 = t4 + enc_opt_str(it@.description);
        let t6 = t5 + enc_opt_str(it@.link);
        let t7 = t6 + enc_bool(it@.completed);
        let t8 = t7 + enc_u64(it@.added);
        let t9 = t8 + enc_u64(it@.modified);
        lemma_prefix_concat(bytes@, 0, t1, enc_opt_str(it@.parent));
        lemma_prefix_concat(bytes@, 0, t2, enc_opt_list(it@.children));
        lemma_prefix_concat(bytes@, 0, t3, enc_str(it@.title));
        lemma_prefix_concat(bytes@, 0, t4, enc_opt_str(it@.description));
        lemma_prefix_concat(bytes@, 0, t5, enc_opt_str(it@.link));
        lemma_prefix_concat(bytes@, 0, t6, enc_bool(it@.completed));
        lemma_prefix_concat(bytes@, 0, t7, enc_u64(it@.added));
        lemma_prefix_concat(bytes@, 0, t8, enc_u64(it@.modified));
        assert(prefix_at(bytes@, 0, t9));
        assert(t9.len() == p9);
        assert(bytes@ =~= t9);
        assert(enc_item(it@) =~= t9);
        assert(wf_model(it@));
        assert forall|v: ItemModel| wf_model(v) && enc_item(v) == bytes@ implies it@ == v by {
            lemma_enc_item_injective(v, it@);
        }
    }
    Option::Some(it)
}

} // verus!
