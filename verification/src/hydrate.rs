//! The hydration core: recursively merge a sparse item document over a base
//! (template) document.
//!
//! Dispatch follows the item's shape.  An item object merges member-wise with
//! a base object, an item array merges element-wise with a base array, and an
//! item scalar always wins without inspecting the base.  A base of `Null`
//! contributes nothing.  Any other shape pairing for objects and arrays is a
//! type mismatch that aborts the whole merge.
//!
//! The functions [`spec_hydrate`], [`members_fault`], [`merged_members`],
//! [`base_fill`], [`elems_fault`] and [`merged_elems`] give the mathematical
//! definition; [`hydrate`] is the executable merge, proved to return exactly
//! `spec_hydrate` of its arguments' models.

use vstd::prelude::*;

use crate::model::{
    has_key, key_index, lemma_key_index_unique, lemma_wf_elems_index, lemma_wf_members_index,
    lookup, marker_text, unique_keys, wf, wf_elems, wf_members, MemberView, Mismatch, TreeView,
};
use crate::value::{
    elems_view, lemma_elems_view, lemma_members_view, member_view, members_view, tree_view,
    Member, MergeError, TreeValue,
};

verus! {

/// What hydrating `item` over `base` yields: the hydrated document, or the
/// first structural mismatch met by the traversal.
pub open spec fn spec_hydrate(base: TreeView, item: TreeView) -> Result<TreeView, Mismatch>
    decreases item, 1nat,
{
    match item {
        TreeView::Object(imems) => match base {
            TreeView::Object(bmems) => match members_fault(bmems, imems) {
                Some(f) => Err(f),
                None => Ok(
                    TreeView::Object(merged_members(bmems, imems) + base_fill(bmems, imems)),
                ),
            },
            TreeView::Null => Ok(item),
            _ => Err(Mismatch { base, item }),
        },
        TreeView::Array(ielems) => match base {
            TreeView::Array(belems) => match elems_fault(belems, ielems) {
                Some(f) => Err(f),
                None => Ok(TreeView::Array(merged_elems(belems, ielems))),
            },
            TreeView::Null => Ok(item),
            _ => Err(Mismatch { base, item }),
        },
        _ => Ok(item),
    }
}

/// The first mismatch raised while walking the base members in base order and
/// recursively merging each member the item also carries (tombstones merge
/// nothing), or `None` when every such merge succeeds.
pub open spec fn members_fault(bmems: Seq<MemberView>, imems: Seq<MemberView>) -> Option<
    Mismatch,
>
    decreases imems, bmems.len(),
{
    if bmems.len() == 0 {
        None
    } else {
        let bm = bmems[0];
        if has_key(imems, bm.key) && lookup(imems, bm.key) != TreeView::Text(marker_text()) {
            match spec_hydrate(bm.value, lookup(imems, bm.key)) {
                Err(f) => Some(f),
                Ok(_) => members_fault(bmems.drop_first(), imems),
            }
        } else {
            members_fault(bmems.drop_first(), imems)
        }
    }
}

/// The surviving item members, in item order: a member whose key the base
/// also carries is suppressed if it is a tombstone and recursively merged
/// otherwise; a member whose key the base lacks is kept exactly as it is.
pub open spec fn merged_members(bmems: Seq<MemberView>, imems: Seq<MemberView>) -> Seq<
    MemberView,
>
    decreases imems, 0nat,
{
    if imems.len() == 0 {
        Seq::empty()
    } else {
        let m = imems.last();
        let front = merged_members(bmems, imems.drop_last());
        if has_key(bmems, m.key) {
            if m.value == TreeView::Text(marker_text()) {
                front
            } else {
                front.push(
                    MemberView {
                        key: m.key,
                        value: spec_hydrate(lookup(bmems, m.key), m.value)->Ok_0,
                    },
                )
            }
        } else {
            front.push(m)
        }
    }
}

/// The base members whose keys the item lacks, in base order.  They are
/// appended verbatim after the surviving item members.
pub open spec fn base_fill(bmems: Seq<MemberView>, imems: Seq<MemberView>) -> Seq<MemberView>
    decreases bmems.len(),
{
    if bmems.len() == 0 {
        Seq::empty()
    } else {
        let front = base_fill(bmems.drop_last(), imems);
        if has_key(imems, bmems.last().key) {
            front
        } else {
            front.push(bmems.last())
        }
    }
}

/// The first mismatch raised while merging array elements pairwise by
/// ascending index, or `None` when all shared positions merge.  Positions
/// past the end of either array raise nothing.
pub open spec fn elems_fault(belems: Seq<TreeView>, ielems: Seq<TreeView>) -> Option<Mismatch>
    decreases ielems, 0nat,
{
    if ielems.len() == 0 || belems.len() == 0 {
        None
    } else {
        match spec_hydrate(belems[0], ielems[0]) {
            Err(f) => Some(f),
            Ok(_) => elems_fault(belems.drop_first(), ielems.drop_first()),
        }
    }
}

/// The hydrated array elements: element `i` of the item merged over element
/// `i` of the base while the base lasts, and the item's own elements beyond
/// that.  The result always has exactly the item's length.
pub open spec fn merged_elems(belems: Seq<TreeView>, ielems: Seq<TreeView>) -> Seq<TreeView>
    decreases ielems, 0nat,
{
    if ielems.len() == 0 {
        Seq::empty()
    } else {
        let i = ielems.len() - 1;
        let front = merged_elems(belems, ielems.drop_last());
        if i >= belems.len() {
            front.push(ielems.last())
        } else {
            front.push(spec_hydrate(belems[i], ielems.last())->Ok_0)
        }
    }
}

/// The reserved sentinel as an executable string.
pub fn magic_marker() -> (s: String)
    ensures
        s@ == marker_text(),
{
    "𒍟※".to_owned()
}

/// True exactly when `v` is the sentinel string.
fn is_marker(v: &TreeValue) -> (b: bool)
    ensures
        b == (v@ == TreeView::Text(marker_text())),
{
    match v {
        TreeValue::Text(s) => {
            let m = magic_marker();
            *s == m
        },
        _ => false,
    }
}

/// The position of the first member of `mems` whose key is `key`.
#[verifier::loop_isolation(false)]
fn find_key(mems: &Vec<Member>, key: &String) -> (r: Option<usize>)
    ensures
        (match r {
            Some(i) => i < mems@.len() && members_view(mems@)[i as int].key == key@ && (forall|
                t: int,
            |
                0 <= t < i ==> members_view(mems@)[t].key != key@),
            None => forall|t: int| 0 <= t < mems@.len() ==> members_view(mems@)[t].key != key@,
        }),
{
    proof {
        lemma_members_view(mems@);
    }
    let mut i: usize = 0;
    while i < mems.len()
        invariant
            i <= mems@.len(),
            forall|t: int| 0 <= t < i ==> members_view(mems@)[t].key != key@,
        decreases mems@.len() - i,
    {
        if mems[i].key == *key {
            return Some(i);
        }
        i += 1;
    }
    None
}

/// Hydrate `item` over `base`.
///
/// Both trees are borrowed; the result is an independent document.  On
/// success the result models exactly `spec_hydrate` of the two inputs'
/// models and is well-formed in turn; on failure the reported mismatch is
/// exactly the one `spec_hydrate` selects.
pub fn hydrate(base: &TreeValue, item: &TreeValue) -> (r: Result<TreeValue, MergeError>)
    requires
        wf(base@),
        wf(item@),
    ensures
        (match r {
            Ok(out) => spec_hydrate(base@, item@) == Ok::<TreeView, Mismatch>(out@) && wf(out@),
            Err(e) => spec_hydrate(base@, item@) == Err::<TreeView, Mismatch>(e@),
        }),
{
    let r = hydrate_any(base, item);
    proof {
        if r is Ok {
            crate::laws::lemma_hydrate_preserves_wf(base@, item@);
        }
    }
    r
}

/// Dispatch on the item's shape, as the table in the crate documentation.
fn hydrate_any(base: &TreeValue, item: &TreeValue) -> (r: Result<TreeValue, MergeError>)
    requires
        wf(base@),
        wf(item@),
    ensures
        (match r {
            Ok(out) => spec_hydrate(base@, item@) == Ok::<TreeView, Mismatch>(out@),
            Err(e) => spec_hydrate(base@, item@) == Err::<TreeView, Mismatch>(e@),
        }),
    decreases *item, 1nat,
{
    match item {
        TreeValue::Object(imems) => match base {
            TreeValue::Object(bmems) => {
                proof {
                    assert((*item)->Object_0 == *imems);
                    assert(decreases_to!(*item => (*item)->Object_0));
                }
                match hydrate_dict(bmems, imems) {
                    Ok(ms) => Ok(TreeValue::Object(ms)),
                    Err(e) => Err(e),
                }
            },
            TreeValue::Null => Ok(item.clone()),
            _ => Err(MergeError::TypeMismatch { base: base.clone(), item: item.clone() }),
        },
        TreeValue::Array(ielems) => match base {
            TreeValue::Array(belems) => {
                proof {
                    assert((*item)->Array_0 == *ielems);
                    assert(decreases_to!(*item => (*item)->Array_0));
                }
                match hydrate_list(belems, ielems) {
                    Ok(es) => Ok(TreeValue::Array(es)),
                    Err(e) => Err(e),
                }
            },
            TreeValue::Null => Ok(item.clone()),
            _ => Err(MergeError::TypeMismatch { base: base.clone(), item: item.clone() }),
        },
        _ => Ok(item.clone()),
    }
}

/// Element-wise merge of two arrays, by ascending index.
#[verifier::loop_isolation(false)]
#[verifier::rlimit(50)]
fn hydrate_list(belems: &Vec<TreeValue>, ielems: &Vec<TreeValue>) -> (r: Result<
    Vec<TreeValue>,
    MergeError,
>)
    requires
        wf_elems(elems_view(belems@)),
        wf_elems(elems_view(ielems@)),
    ensures
        (match r {
            Ok(out) => elems_fault(elems_view(belems@), elems_view(ielems@)) is None
                && elems_view(out@) == merged_elems(elems_view(belems@), elems_view(ielems@)),
            Err(e) => elems_fault(elems_view(belems@), elems_view(ielems@)) == Some(e@),
        }),
    decreases *ielems, 0nat,
{
    let ghost bv = elems_view(belems@);
    let ghost iv = elems_view(ielems@);

    proof {
        lemma_elems_view(belems@);
        lemma_elems_view(ielems@);
        lemma_wf_elems_index(bv);
        lemma_wf_elems_index(iv);
        assert(bv.skip(0) =~= bv);
        assert(iv.skip(0) =~= iv);
        assert(iv.take(0) =~= Seq::<TreeView>::empty());
    }

    let mut out: Vec<TreeValue> = Vec::new();
    let mut j: usize = 0;
    while j < ielems.len()
        invariant
            j <= ielems@.len(),
            elems_view(out@) == merged_elems(bv, iv.take(j as int)),
            j as int <= bv.len() ==> elems_fault(bv.skip(j as int), iv.skip(j as int))
                == elems_fault(bv, iv),
            j as int > bv.len() ==> elems_fault(bv, iv) is None,
        decreases ielems@.len() - j,
    {
        let ghost out0 = out@;
        proof {
            assert(iv.take(j as int + 1).drop_last() =~= iv.take(j as int));
            assert(iv.take(j as int + 1).last() == iv[j as int]);
        }
        if j < belems.len() {
            proof {
                assert(decreases_to!(*ielems => ielems@));
                assert(decreases_to!(ielems@ => ielems@[j as int]));
            }
            match hydrate_any(&belems[j], &ielems[j]) {
                Ok(v) => {
                    out.push(v);
                    proof {
                        lemma_elems_view(out@);
                        lemma_elems_view(out0);
                        assert(out@ == out0.push(v));
                        assert(bv.skip(j as int)[0] == bv[j as int]);
                        assert(iv.skip(j as int)[0] == iv[j as int]);
                        assert(bv.skip(j as int).drop_first() =~= bv.skip(j as int + 1));
                        assert(iv.skip(j as int).drop_first() =~= iv.skip(j as int + 1));
                        assert(elems_view(out@) =~= elems_view(out0).push(tree_view(v)));
                        assert(elems_view(out@) =~= merged_elems(bv, iv.take(j as int + 1)));
                    }
                },
                Err(e) => {
                    proof {
                        assert(bv.skip(j as int)[0] == bv[j as int]);
                        assert(iv.skip(j as int)[0] == iv[j as int]);
                    }
                    return Err(e);
                },
            }
        } else {
            let v = ielems[j].clone();
            out.push(v);
            proof {
                lemma_elems_view(out@);
                lemma_elems_view(out0);
                assert(elems_view(out@) =~= elems_view(out0).push(iv[j as int]));
                assert(elems_view(out@) =~= merged_elems(bv, iv.take(j as int + 1)));
                if j as int == bv.len() {
                    assert(bv.skip(j as int).len() == 0);
                }
            }
        }
        j += 1;
    }
    proof {
        assert(iv.take(ielems@.len() as int) =~= iv);
        if iv.len() <= bv.len() {
            assert(iv.skip(iv.len() as int).len() == 0);
        }
    }
    Ok(out)
}

/// Member-wise merge of two objects: walk the base members in base order,
/// recursively merging those the item also carries; then keep the surviving
/// item members in item order and append the base's own members after them.
#[verifier::loop_isolation(false)]
#[verifier::rlimit(80)]
fn hydrate_dict(bmems: &Vec<Member>, imems: &Vec<Member>) -> (r: Result<Vec<Member>, MergeError>)
    requires
        unique_keys(members_view(bmems@)),
        wf_members(members_view(bmems@)),
        unique_keys(members_view(imems@)),
        wf_members(members_view(imems@)),
    ensures
        (match r {
            Ok(out) => members_fault(members_view(bmems@), members_view(imems@)) is None
                && members_view(out@) == merged_members(members_view(bmems@), members_view(imems@))
                + base_fill(members_view(bmems@), members_view(imems@)),
            Err(e) => members_fault(members_view(bmems@), members_view(imems@)) == Some(e@),
        }),
    decreases *imems, 0nat,
{
    let ghost bv = members_view(bmems@);
    let ghost iv = members_view(imems@);

    proof {
        lemma_members_view(bmems@);
        lemma_members_view(imems@);
        lemma_wf_members_index(bv);
        lemma_wf_members_index(iv);
        assert(bv.skip(0) =~= bv);
    }

    // Slot `k` receives the recursive merge for item member `k`, when the
    // base carries its key and the member is not a tombstone.
    let mut merged: Vec<Option<TreeValue>> = Vec::new();
    let mut j: usize = 0;
    while j < imems.len()
        invariant
            j <= imems@.len(),
            merged@.len() == j as int,
            forall|k: int| 0 <= k < j ==> (#[trigger] merged@[k]) is None,
        decreases imems@.len() - j,
    {
        merged.push(None);
        j += 1;
    }

    let mut bi: usize = 0;
    while bi < bmems.len()
        invariant
            bi <= bmems@.len(),
            merged@.len() == iv.len(),
            members_fault(bv.skip(bi as int), iv) == members_fault(bv, iv),
            forall|k: int| 0 <= k < iv.len() ==> ((#[trigger] merged@[k]) is Some ==> (has_key(
                bv.take(bi as int),
                iv[k].key,
            ) && iv[k].value != TreeView::Text(marker_text()) && tree_view(merged@[k]->0)
                == spec_hydrate(lookup(bv, iv[k].key), iv[k].value)->Ok_0)),
            forall|k: int|
                0 <= k < iv.len() && has_key(bv.take(bi as int), iv[k].key) && iv[k].value
                    != TreeView::Text(marker_text()) ==> (#[trigger] merged@[k]) is Some,
        decreases bmems@.len() - bi,
    {
        let bm = &bmems[bi];
        let ghost bkey = bv[bi as int].key;
        proof {
            assert(bm.key@ == bkey);
            assert(bv.skip(bi as int)[0] == bv[bi as int]);
            assert(bv.skip(bi as int).drop_first() =~= bv.skip(bi as int + 1));
            assert(bv.take(bi as int + 1) =~= bv.take(bi as int).push(bv[bi as int]));
        }
        match find_key(imems, &bm.key) {
            None => {
                proof {
                    assert(!has_key(iv, bkey));
                    assert forall|k: int| 0 <= k < iv.len() implies has_key(
                        bv.take(bi as int + 1),
                        #[trigger] iv[k].key,
                    ) == has_key(bv.take(bi as int), iv[k].key) by {
                        if has_key(bv.take(bi as int + 1), iv[k].key) {
                            let w = key_index(bv.take(bi as int + 1), iv[k].key);
                            if w == bi as int {
                                assert(iv[k].key == bkey);
                                assert(has_key(iv, bkey));
                            } else {
                                assert(bv.take(bi as int)[w] == bv.take(bi as int + 1)[w]);
                                assert(has_key(bv.take(bi as int), iv[k].key));
                            }
                        }
                        if has_key(bv.take(bi as int), iv[k].key) {
                            let w = key_index(bv.take(bi as int), iv[k].key);
                            assert(bv.take(bi as int + 1)[w] == bv.take(bi as int)[w]);
                            assert(has_key(bv.take(bi as int + 1), iv[k].key));
                        }
                    }
                }
            },
            Some(ji) => {
                proof {
                    assert(iv[ji as int].key == bkey);
                    lemma_key_index_unique(iv, bkey, ji as int);
                    lemma_key_index_unique(bv, bkey, bi as int);
                    assert forall|k: int|
                        0 <= k < iv.len() && k != ji as int implies #[trigger] iv[k].key
                        != bkey by {
                        if k < ji as int {
                            assert(iv[k].key != iv[ji as int].key);
                        } else {
                            assert(iv[ji as int].key != iv[k].key);
                        }
                    }
                    assert forall|k: int|
                        0 <= k < iv.len() && k != ji as int implies has_key(
                        bv.take(bi as int + 1),
                        #[trigger] iv[k].key,
                    ) == has_key(bv.take(bi as int), iv[k].key) by {
                        if has_key(bv.take(bi as int + 1), iv[k].key) {
                            let w = key_index(bv.take(bi as int + 1), iv[k].key);
                            if w == bi as int {
                                assert(iv[k].key == bkey);
                            } else {
                                assert(bv.take(bi as int)[w] == bv.take(bi as int + 1)[w]);
                                assert(has_key(bv.take(bi as int), iv[k].key));
                            }
                        }
                        if has_key(bv.take(bi as int), iv[k].key) {
                            let w = key_index(bv.take(bi as int), iv[k].key);
                            assert(bv.take(bi as int + 1)[w] == bv.take(bi as int)[w]);
                            assert(has_key(bv.take(bi as int + 1), iv[k].key));
                        }
                    }
                    assert(bv.take(bi as int + 1)[bi as int] == bv[bi as int]);
                    assert(has_key(bv.take(bi as int + 1), bkey));
                }
                if is_marker(&imems[ji].value) {
                    proof {
                        assert(tree_view(imems@[ji as int].value) == TreeView::Text(
                            marker_text(),
                        ));
                        assert(iv[ji as int].value == TreeView::Text(marker_text()));
                        assert(lookup(iv, bkey) == TreeView::Text(marker_text()));
                    }
                } else {
                    proof {
                        assert(iv[ji as int].value != TreeView::Text(marker_text()));
                        assert(lookup(iv, bkey) == iv[ji as int].value);
                        assert(wf(bv[bi as int].value));
                        assert(wf(iv[ji as int].value));
                        assert(tree_view(bmems@[bi as int].value) == bv[bi as int].value);
                        assert(tree_view(imems@[ji as int].value) == iv[ji as int].value);
                        assert(decreases_to!(*imems => imems@));
                        assert(decreases_to!(imems@ => imems@[ji as int]));
                        assert(decreases_to!(imems@[ji as int] => imems@[ji as int].value));
                    }
                    match hydrate_any(&bm.value, &imems[ji].value) {
                        Ok(v) => {
                            let ghost m0 = merged@;
                            let _slot = merged.remove(ji);
                            merged.insert(ji, Some(v));
                            proof {
                                assert(merged@ =~= m0.update(ji as int, Some(v)));
                                assert(lookup(bv, bkey) == bv[bi as int].value);
                            }
                        },
                        Err(e) => {
                            proof {
                                assert(spec_hydrate(bv[bi as int].value, lookup(iv, bkey))
                                    == Err::<TreeView, Mismatch>(e@));
                                assert(members_fault(bv.skip(bi as int), iv) == Some(e@));
                            }
                            return Err(e);
                        },
                    }
                }
            },
        }
        bi += 1;
    }

    proof {
        assert(bv.skip(bmems@.len() as int).len() == 0);
        assert(members_fault(bv, iv) is None);
        assert(bv.take(bmems@.len() as int) =~= bv);
    }

    Ok(assemble_members(bmems, imems, merged))
}

/// Assemble the hydrated member list once every needed recursive merge has
/// succeeded: the surviving item members in item order, then the base
/// members the item lacks, in base order.
#[verifier::loop_isolation(false)]
#[verifier::rlimit(80)]
fn assemble_members(bmems: &Vec<Member>, imems: &Vec<Member>, merged: Vec<Option<TreeValue>>) -> (out:
    Vec<Member>)
    requires
        merged@.len() == members_view(imems@).len(),
        forall|k: int| 0 <= k < merged@.len() ==> ((#[trigger] merged@[k]) is Some ==> (has_key(
            members_view(bmems@),
            members_view(imems@)[k].key,
        ) && members_view(imems@)[k].value != TreeView::Text(marker_text()) && tree_view(
            merged@[k]->0,
        ) == spec_hydrate(
            lookup(members_view(bmems@), members_view(imems@)[k].key),
            members_view(imems@)[k].value,
        )->Ok_0)),
        forall|k: int|
            0 <= k < merged@.len() && has_key(members_view(bmems@), members_view(imems@)[k].key)
                && members_view(imems@)[k].value != TreeView::Text(marker_text()) ==> (
            #[trigger] merged@[k]) is Some,
    ensures
        members_view(out@) == merged_members(members_view(bmems@), members_view(imems@))
            + base_fill(members_view(bmems@), members_view(imems@)),
{
    let ghost bv = members_view(bmems@);
    let ghost iv = members_view(imems@);
    let ghost fullm = merged@;

    proof {
        lemma_members_view(bmems@);
        lemma_members_view(imems@);
        assert(iv.take(0) =~= Seq::<MemberView>::empty());
        assert(fullm.skip(0) =~= fullm);
    }

    let mut merged = merged;
    let mut out: Vec<Member> = Vec::new();
    let mut j: usize = 0;
    while j < imems.len()
        invariant
            j <= imems@.len(),
            merged@ == fullm.skip(j as int),
            members_view(out@) == merged_members(bv, iv.take(j as int)),
        decreases imems@.len() - j,
    {
        proof {
            assert(fullm.skip(j as int)[0] == fullm[j as int]);
            assert(fullm.skip(j as int).drop_first() =~= fullm.skip(j as int + 1));
            assert(iv.take(j as int + 1).drop_last() =~= iv.take(j as int));
            assert(iv.take(j as int + 1).last() == iv[j as int]);
        }
        let mo = merged.remove(0);
        let ghost out0 = out@;
        let im = &imems[j];
        proof {
            assert(im.key@ == iv[j as int].key);
            assert(mo == fullm[j as int]);
        }
        match find_key(bmems, &im.key) {
            Some(_bj) => {
                proof {
                    assert(has_key(bv, iv[j as int].key));
                }
                if is_marker(&im.value) {
                    proof {
                        assert(iv[j as int].value == TreeView::Text(marker_text()));
                        assert(members_view(out@) == merged_members(bv, iv.take(j as int + 1)));
                    }
                } else {
                    proof {
                        assert(iv[j as int].value != TreeView::Text(marker_text()));
                        assert(fullm[j as int] is Some);
                    }
                    match mo {
                        Some(v) => {
                            out.push(Member { key: im.key.clone(), value: v });
                            proof {
                                lemma_members_view(out@);
                                lemma_members_view(out0);
                                assert(out@.last() == Member { key: im.key, value: v });
                                assert(member_view(out@.last()) == MemberView {
                                    key: iv[j as int].key,
                                    value: tree_view(v),
                                });
                                assert(members_view(out@) =~= members_view(out0).push(
                                    member_view(out@.last()),
                                ));
                                assert(members_view(out@) =~= merged_members(
                                    bv,
                                    iv.take(j as int + 1),
                                ));
                            }
                        },
                        None => {
                            proof {
                                assert(fullm[j as int] is Some);
                            }
                        },
                    }
                }
            },
            None => {
                proof {
                    assert(!has_key(bv, iv[j as int].key));
                }
                out.push(im.clone());
                proof {
                    lemma_members_view(out@);
                    lemma_members_view(out0);
                    assert(member_view(out@.last()) == iv[j as int]);
                    assert(members_view(out@) =~= members_view(out0).push(iv[j as int]));
                    assert(members_view(out@) =~= merged_members(bv, iv.take(j as int + 1)));
                }
            },
        }
        j += 1;
    }

    proof {
        assert(iv.take(imems@.len() as int) =~= iv);
        assert(bv.take(0) =~= Seq::<MemberView>::empty());
        assert(members_view(out@) =~= merged_members(bv, iv) + base_fill(bv.take(0), iv));
    }

    let mut bi: usize = 0;
    while bi < bmems.len()
        invariant
            bi <= bmems@.len(),
            members_view(out@) == merged_members(bv, iv) + base_fill(bv.take(bi as int), iv),
        decreases bmems@.len() - bi,
    {
        let bm = &bmems[bi];
        let ghost out0 = out@;
        proof {
            assert(bm.key@ == bv[bi as int].key);
            assert(bv.take(bi as int + 1).drop_last() =~= bv.take(bi as int));
            assert(bv.take(bi as int + 1).last() == bv[bi as int]);
        }
        match find_key(imems, &bm.key) {
            Some(_x) => {
                proof {
                    assert(has_key(iv, bv[bi as int].key));
                    assert(members_view(out@) == merged_members(bv, iv) + base_fill(
                        bv.take(bi as int + 1),
                        iv,
                    ));
                }
            },
            None => {
                proof {
                    assert(!has_key(iv, bv[bi as int].key));
                }
                out.push(bm.clone());
                proof {
                    lemma_members_view(out@);
                    lemma_members_view(out0);
                    assert(member_view(out@.last()) == bv[bi as int]);
                    assert(members_view(out@) =~= members_view(out0).push(bv[bi as int]));
                    assert(members_view(out@) =~= merged_members(bv, iv) + base_fill(
                        bv.take(bi as int + 1),
                        iv,
                    ));
                }
            },
        }
        bi += 1;
    }

    proof {
        assert(bv.take(bmems@.len() as int) =~= bv);
    }
    out
}

} // verus!
