//! Mathematical model of tree documents.
//!
//! Contracts in this crate speak about [`TreeView`], the ghost counterpart of
//! the executable [`crate::value::TreeValue`]: text is a `Seq<char>`, arrays
//! are `Seq<TreeView>`, and objects are ordered sequences of [`MemberView`]
//! entries with pairwise distinct keys.

use vstd::prelude::*;

verus! {

/// Ghost model of a document node.
///
/// Numeric scalars are carried as their exact decimal text.  The merge never
/// inspects a number, so the text form is lossless and keeps the core free of
/// floating point.
#[verifier::ext_equal]
pub enum TreeView {
    Null,
    Bool(bool),
    Number(Seq<char>),
    Text(Seq<char>),
    Array(Seq<TreeView>),
    Object(Seq<MemberView>),
}

/// Ghost model of one object member: a key and the value stored under it.
#[verifier::ext_equal]
pub struct MemberView {
    pub key: Seq<char>,
    pub value: TreeView,
}

/// Ghost model of the one failure the merge can report: the two sibling
/// values whose shapes conflict.
#[verifier::ext_equal]
pub struct Mismatch {
    pub base: TreeView,
    pub item: TreeView,
}

/// The reserved sentinel text.  An object member whose value is exactly this
/// string acts as a tombstone during hydration: the key is suppressed even
/// though the base supplies a value for it.
pub open spec fn marker_text() -> Seq<char> {
    "𒍟※"@
}

/// True when no two members of `ms` share a key.
pub open spec fn unique_keys(ms: Seq<MemberView>) -> bool {
    forall|i: int, j: int| 0 <= i < j < ms.len() ==> ms[i].key != ms[j].key
}

/// True when some member of `ms` carries the key `k`.
pub open spec fn has_key(ms: Seq<MemberView>, k: Seq<char>) -> bool {
    exists|i: int| 0 <= i < ms.len() && ms[i].key == k
}

/// The index of the member carrying key `k`.
pub open spec fn key_index(ms: Seq<MemberView>, k: Seq<char>) -> int {
    choose|i: int| 0 <= i < ms.len() && ms[i].key == k
}

/// The value stored under key `k`.
pub open spec fn lookup(ms: Seq<MemberView>, k: Seq<char>) -> TreeView
    recommends
        has_key(ms, k),
{
    ms[key_index(ms, k)].value
}

/// Well-formedness: every object in the tree has pairwise distinct keys.
pub open spec fn wf(v: TreeView) -> bool
    decreases v, 1nat,
{
    match v {
        TreeView::Array(es) => wf_elems(es),
        TreeView::Object(ms) => unique_keys(ms) && wf_members(ms),
        _ => true,
    }
}

/// Well-formedness of each element of an array.
pub open spec fn wf_elems(es: Seq<TreeView>) -> bool
    decreases es, 0nat,
{
    if es.len() == 0 {
        true
    } else {
        wf(es[0]) && wf_elems(es.drop_first())
    }
}

/// Well-formedness of the value of each member of an object.
pub open spec fn wf_members(ms: Seq<MemberView>) -> bool
    decreases ms, 0nat,
{
    if ms.len() == 0 {
        true
    } else {
        wf(ms[0].value) && wf_members(ms.drop_first())
    }
}

/// True when no object member anywhere in the tree carries the sentinel text
/// as its value, so hydrating `v` over any base deletes nothing.
pub open spec fn tombstone_free(v: TreeView) -> bool
    decreases v, 1nat,
{
    match v {
        TreeView::Array(es) => tombstone_free_elems(es),
        TreeView::Object(ms) => tombstone_free_members(ms),
        _ => true,
    }
}

/// Tombstone-freedom of each element of an array.
pub open spec fn tombstone_free_elems(es: Seq<TreeView>) -> bool
    decreases es, 0nat,
{
    if es.len() == 0 {
        true
    } else {
        tombstone_free(es[0]) && tombstone_free_elems(es.drop_first())
    }
}

/// Tombstone-freedom of an object's member list: no member's value is the
/// sentinel, and each value is itself tombstone-free.
pub open spec fn tombstone_free_members(ms: Seq<MemberView>) -> bool
    decreases ms, 0nat,
{
    if ms.len() == 0 {
        true
    } else {
        ms[0].value != TreeView::Text(marker_text()) && tombstone_free(ms[0].value)
            && tombstone_free_members(ms.drop_first())
    }
}

/// With pairwise distinct keys, any member carrying key `k` sits at
/// `key_index(ms, k)`.
pub proof fn lemma_key_index_unique(ms: Seq<MemberView>, k: Seq<char>, i: int)
    requires
        unique_keys(ms),
        0 <= i < ms.len(),
        ms[i].key == k,
    ensures
        key_index(ms, k) == i,
        has_key(ms, k),
        lookup(ms, k) == ms[i].value,
{
    assert(has_key(ms, k));
    let j = key_index(ms, k);
    assert(0 <= j < ms.len() && ms[j].key == k);
    if i < j {
        assert(ms[i].key != ms[j].key);
    } else if j < i {
        assert(ms[j].key != ms[i].key);
    }
}

/// `wf_elems` holds exactly when every element is well-formed.
pub proof fn lemma_wf_elems_index(es: Seq<TreeView>)
    ensures
        wf_elems(es) <==> (forall|i: int| 0 <= i < es.len() ==> wf(#[trigger] es[i])),
    decreases es.len(),
{
    if es.len() > 0 {
        lemma_wf_elems_index(es.drop_first());
        assert forall|i: int| 0 <= i < es.len() && wf(es[0]) && wf_elems(es.drop_first())
            implies wf(#[trigger] es[i]) by {
            if i > 0 {
                assert(es.drop_first()[i - 1] == es[i]);
            }
        }
        if forall|i: int| 0 <= i < es.len() ==> wf(#[trigger] es[i]) {
            assert forall|i: int| 0 <= i < es.drop_first().len()
                implies wf(#[trigger] es.drop_first()[i]) by {
                assert(es.drop_first()[i] == es[i + 1]);
            }
        }
    }
}

/// `wf_members` holds exactly when every member's value is well-formed.
pub proof fn lemma_wf_members_index(ms: Seq<MemberView>)
    ensures
        wf_members(ms) <==> (forall|i: int| 0 <= i < ms.len() ==> wf(#[trigger] ms[i].value)),
    decreases ms.len(),
{
    if ms.len() > 0 {
        lemma_wf_members_index(ms.drop_first());
        assert forall|i: int| 0 <= i < ms.len() && wf(ms[0].value) && wf_members(ms.drop_first())
            implies wf(#[trigger] ms[i].value) by {
            if i > 0 {
                assert(ms.drop_first()[i - 1] == ms[i]);
            }
        }
        if forall|i: int| 0 <= i < ms.len() ==> wf(#[trigger] ms[i].value) {
            assert forall|i: int| 0 <= i < ms.drop_first().len()
                implies wf(#[trigger] ms.drop_first()[i].value) by {
                assert(ms.drop_first()[i] == ms[i + 1]);
            }
        }
    }
}

/// `tombstone_free_members` holds exactly when no member's value is the
/// sentinel and every member's value is tombstone-free.
pub proof fn lemma_tombstone_free_members_index(ms: Seq<MemberView>)
    ensures
        tombstone_free_members(ms) <==> (forall|i: int|
            0 <= i < ms.len() ==> (#[trigger] ms[i].value) != TreeView::Text(marker_text())
                && tombstone_free(ms[i].value)),
    decreases ms.len(),
{
    if ms.len() > 0 {
        lemma_tombstone_free_members_index(ms.drop_first());
        assert forall|i: int|
            0 <= i < ms.len() && ms[0].value != TreeView::Text(marker_text())
                && tombstone_free(ms[0].value) && tombstone_free_members(ms.drop_first())
            implies (#[trigger] ms[i].value) != TreeView::Text(marker_text())
                && tombstone_free(ms[i].value) by {
            if i > 0 {
                assert(ms.drop_first()[i - 1] == ms[i]);
            }
        }
        if forall|i: int|
            0 <= i < ms.len() ==> (#[trigger] ms[i].value) != TreeView::Text(marker_text())
                && tombstone_free(ms[i].value) {
            assert forall|i: int| 0 <= i < ms.drop_first().len()
                implies (#[trigger] ms.drop_first()[i].value) != TreeView::Text(marker_text())
                    && tombstone_free(ms.drop_first()[i].value) by {
                assert(ms.drop_first()[i] == ms[i + 1]);
            }
        }
    }
}

/// `tombstone_free_elems` holds exactly when every element is tombstone-free.
pub proof fn lemma_tombstone_free_elems_index(es: Seq<TreeView>)
    ensures
        tombstone_free_elems(es) <==> (forall|i: int|
            0 <= i < es.len() ==> tombstone_free(#[trigger] es[i])),
    decreases es.len(),
{
    if es.len() > 0 {
        lemma_tombstone_free_elems_index(es.drop_first());
        assert forall|i: int|
            0 <= i < es.len() && tombstone_free(es[0]) && tombstone_free_elems(es.drop_first())
            implies tombstone_free(#[trigger] es[i]) by {
            if i > 0 {
                assert(es.drop_first()[i - 1] == es[i]);
            }
        }
        if forall|i: int| 0 <= i < es.len() ==> tombstone_free(#[trigger] es[i]) {
            assert forall|i: int| 0 <= i < es.drop_first().len()
                implies tombstone_free(#[trigger] es.drop_first()[i]) by {
                assert(es.drop_first()[i] == es[i + 1]);
            }
        }
    }
}

} // verus!
