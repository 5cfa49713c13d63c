//! Laws of hydration, proved once and for all inputs.

use vstd::prelude::*;

use crate::hydrate::{
    base_fill, elems_fault, members_fault, merged_elems, merged_members, spec_hydrate,
};
use crate::model::{
    has_key, key_index, lemma_key_index_unique, lemma_tombstone_free_elems_index,
    lemma_tombstone_free_members_index, lemma_wf_elems_index, lemma_wf_members_index, lookup,
    marker_text, tombstone_free, unique_keys, wf, MemberView, Mismatch, TreeView,
};

verus! {

/// Identity on an empty base: hydrating any item over `Null` returns the
/// item unchanged.
pub proof fn lemma_null_base_identity(item: TreeView)
    ensures
        spec_hydrate(TreeView::Null, item) == Ok::<TreeView, Mismatch>(item),
{
}

/// Scalars win unconditionally: when the item is neither an object nor an
/// array, hydration returns it unchanged whatever the base holds.
pub proof fn lemma_scalar_item_wins(base: TreeView, item: TreeView)
    requires
        !(item is Object),
        !(item is Array),
    ensures
        spec_hydrate(base, item) == Ok::<TreeView, Mismatch>(item),
{
}

/// Arrays only fill existing slots: a successful array merge has exactly the
/// item's length, never the base's.
pub proof fn lemma_array_fills_only(belems: Seq<TreeView>, ielems: Seq<TreeView>)
    ensures
        merged_elems(belems, ielems).len() == ielems.len(),
    decreases ielems.len(),
{
    if ielems.len() > 0 {
        lemma_array_fills_only(belems, ielems.drop_last());
    }
}

/// Hydrating a well-formed, tombstone-free document over an identical base
/// changes nothing: `hydrate(x, x) == x`.
pub proof fn lemma_self_hydration(x: TreeView)
    requires
        wf(x),
        tombstone_free(x),
    ensures
        spec_hydrate(x, x) == Ok::<TreeView, Mismatch>(x),
    decreases x, 1nat,
{
    match x {
        TreeView::Array(es) => {
            lemma_wf_elems_index(es);
            lemma_tombstone_free_elems_index(es);
            lemma_elems_fault_diagonal(es, es);
            lemma_merged_elems_diagonal(es, es);
        },
        TreeView::Object(ms) => {
            lemma_wf_members_index(ms);
            lemma_tombstone_free_members_index(ms);
            assert forall|t: int| 0 <= t < ms.len() implies has_key(ms, #[trigger] ms[t].key)
                && lookup(ms, ms[t].key) == ms[t].value by {
                lemma_key_index_unique(ms, ms[t].key, t);
            }
            lemma_members_fault_diagonal(ms, ms);
            lemma_merged_members_diagonal(ms, ms);
            lemma_base_fill_all_present(ms, ms);
            assert(merged_members(ms, ms) + base_fill(ms, ms) =~= ms);
        },
        _ => {},
    }
}

/// No fault arises when base and item arrays agree element by element on
/// their shared positions and each item element is well-formed and
/// tombstone-free.
proof fn lemma_elems_fault_diagonal(belems: Seq<TreeView>, ielems: Seq<TreeView>)
    requires
        forall|t: int|
            0 <= t < ielems.len() && t < belems.len() ==> #[trigger] belems[t] == ielems[t],
        forall|t: int| 0 <= t < ielems.len() ==> wf(#[trigger] ielems[t]) && tombstone_free(
            ielems[t],
        ),
    ensures
        elems_fault(belems, ielems) is None,
    decreases ielems, 0nat,
{
    if ielems.len() > 0 && belems.len() > 0 {
        lemma_self_hydration(ielems[0]);
        assert forall|t: int| 0 <= t < ielems.drop_first().len() && t < belems.drop_first().len()
            implies #[trigger] belems.drop_first()[t] == ielems.drop_first()[t] by {
            assert(belems.drop_first()[t] == belems[t + 1]);
            assert(ielems.drop_first()[t] == ielems[t + 1]);
        }
        assert forall|t: int| 0 <= t < ielems.drop_first().len() implies wf(
            #[trigger] ielems.drop_first()[t],
        ) && tombstone_free(ielems.drop_first()[t]) by {
            assert(ielems.drop_first()[t] == ielems[t + 1]);
        }
        lemma_elems_fault_diagonal(belems.drop_first(), ielems.drop_first());
    }
}

/// Merging an array over a base that agrees with it on every shared position
/// keeps every element: the merge is the item array itself.
proof fn lemma_merged_elems_diagonal(belems: Seq<TreeView>, ielems: Seq<TreeView>)
    requires
        forall|t: int|
            0 <= t < ielems.len() && t < belems.len() ==> #[trigger] belems[t] == ielems[t],
        forall|t: int| 0 <= t < ielems.len() ==> wf(#[trigger] ielems[t]) && tombstone_free(
            ielems[t],
        ),
    ensures
        merged_elems(belems, ielems) == ielems,
    decreases ielems, 0nat,
{
    if ielems.len() > 0 {
        let i = ielems.len() - 1;
        assert forall|t: int| 0 <= t < ielems.drop_last().len() implies wf(
            #[trigger] ielems.drop_last()[t],
        ) && tombstone_free(ielems.drop_last()[t]) by {
            assert(ielems.drop_last()[t] == ielems[t]);
        }
        lemma_merged_elems_diagonal(belems, ielems.drop_last());
        if i < belems.len() {
            lemma_self_hydration(ielems[i]);
        }
        assert(merged_elems(belems, ielems) =~= ielems);
    }
}

/// No fault arises when every base member whose key the item carries holds
/// exactly the item's value there, and the item's values are well-formed,
/// tombstone-free and never the sentinel.
proof fn lemma_members_fault_diagonal(bmems: Seq<MemberView>, imems: Seq<MemberView>)
    requires
        unique_keys(imems),
        forall|t: int| 0 <= t < bmems.len() ==> (has_key(imems, #[trigger] bmems[t].key)
            ==> bmems[t].value == lookup(imems, bmems[t].key)),
        forall|t: int| 0 <= t < imems.len() ==> wf(#[trigger] imems[t].value) && tombstone_free(
            imems[t].value,
        ) && imems[t].value != TreeView::Text(marker_text()),
    ensures
        members_fault(bmems, imems) is None,
    decreases imems, bmems.len(),
{
    if bmems.len() > 0 {
        let bm = bmems[0];
        if has_key(imems, bm.key) && lookup(imems, bm.key) != TreeView::Text(marker_text()) {
            let ki = key_index(imems, bm.key);
            assert(0 <= ki < imems.len() && imems[ki].key == bm.key);
            assert(lookup(imems, bm.key) == imems[ki].value);
            assert(wf(imems[ki].value) && tombstone_free(imems[ki].value));
            assert(decreases_to!(imems => imems[ki]));
            assert(decreases_to!(imems[ki] => imems[ki].value));
            lemma_self_hydration(imems[ki].value);
            assert(bm.value == lookup(imems, bm.key));
            assert(spec_hydrate(bm.value, lookup(imems, bm.key)) == Ok::<TreeView, Mismatch>(
                imems[ki].value,
            ));
        }
        assert forall|t: int| 0 <= t < bmems.drop_first().len() implies (has_key(
            imems,
            #[trigger] bmems.drop_first()[t].key,
        ) ==> bmems.drop_first()[t].value == lookup(imems, bmems.drop_first()[t].key)) by {
            assert(bmems.drop_first()[t] == bmems[t + 1]);
        }
        lemma_members_fault_diagonal(bmems.drop_first(), imems);
    }
}

/// Merging an object over a base that holds every one of its keys with the
/// identical value keeps every member: the surviving members are the item's
/// own, unchanged and in order.
proof fn lemma_merged_members_diagonal(bmems: Seq<MemberView>, imems: Seq<MemberView>)
    requires
        forall|t: int| 0 <= t < imems.len() ==> has_key(bmems, #[trigger] imems[t].key) && lookup(
            bmems,
            imems[t].key,
        ) == imems[t].value,
        forall|t: int| 0 <= t < imems.len() ==> wf(#[trigger] imems[t].value) && tombstone_free(
            imems[t].value,
        ) && imems[t].value != TreeView::Text(marker_text()),
    ensures
        merged_members(bmems, imems) == imems,
    decreases imems, 0nat,
{
    if imems.len() > 0 {
        let m = imems.last();
        assert forall|t: int| 0 <= t < imems.drop_last().len() implies has_key(
            bmems,
            #[trigger] imems.drop_last()[t].key,
        ) && lookup(bmems, imems.drop_last()[t].key) == imems.drop_last()[t].value && wf(
            imems.drop_last()[t].value,
        ) && tombstone_free(imems.drop_last()[t].value) && imems.drop_last()[t].value
            != TreeView::Text(marker_text()) by {
            assert(imems.drop_last()[t] == imems[t]);
        }
        lemma_merged_members_diagonal(bmems, imems.drop_last());
        let li = imems.len() - 1;
        assert(m == imems[li]);
        assert(decreases_to!(imems => imems[li]));
        assert(decreases_to!(imems[li] => imems[li].value));
        lemma_self_hydration(m.value);
        assert(spec_hydrate(lookup(bmems, m.key), m.value) == Ok::<TreeView, Mismatch>(m.value));
        assert(MemberView { key: m.key, value: m.value } == m);
        assert(merged_members(bmems, imems) =~= imems);
    }
}

/// Splitting a lookup over a concatenation with pairwise distinct keys.
proof fn lemma_lookup_concat(s1: Seq<MemberView>, s2: Seq<MemberView>, k: Seq<char>)
    requires
        unique_keys(s1 + s2),
    ensures
        has_key(s1 + s2, k) == (has_key(s1, k) || has_key(s2, k)),
        has_key(s1, k) ==> lookup(s1 + s2, k) == lookup(s1, k),
        !has_key(s1, k) && has_key(s2, k) ==> lookup(s1 + s2, k) == lookup(s2, k),
{
    let s = s1 + s2;
    assert forall|a: int, b: int| 0 <= a < b < s1.len() implies s1[a].key != s1[b].key by {
        assert(s[a] == s1[a] && s[b] == s1[b]);
    }
    assert forall|a: int, b: int| 0 <= a < b < s2.len() implies s2[a].key != s2[b].key by {
        assert(s[s1.len() + a] == s2[a] && s[s1.len() + b] == s2[b]);
    }
    if has_key(s1, k) {
        let i = key_index(s1, k);
        assert(s[i] == s1[i]);
        lemma_key_index_unique(s, k, i);
        lemma_key_index_unique(s1, k, i);
    } else if has_key(s2, k) {
        let i = key_index(s2, k);
        assert(s[s1.len() + i] == s2[i]);
        lemma_key_index_unique(s, k, s1.len() + i);
        lemma_key_index_unique(s2, k, i);
    } else {
        if has_key(s, k) {
            let w = key_index(s, k);
            if w < s1.len() {
                assert(s1[w] == s[w]);
                assert(has_key(s1, k));
            } else {
                assert(s2[w - s1.len()] == s[w]);
                assert(has_key(s2, k));
            }
        }
    }
}

/// The keys of the surviving item members all come from the item, and stay
/// pairwise distinct.
proof fn lemma_merged_members_keys(bmems: Seq<MemberView>, imems: Seq<MemberView>)
    requires
        unique_keys(imems),
    ensures
        forall|t: int| 0 <= t < merged_members(bmems, imems).len() ==> has_key(
            imems,
            (#[trigger] merged_members(bmems, imems)[t]).key,
        ),
        unique_keys(merged_members(bmems, imems)),
    decreases imems.len(),
{
    if imems.len() > 0 {
        let front_i = imems.drop_last();
        let m = imems.last();
        let li = imems.len() - 1;
        assert forall|a: int, b: int| 0 <= a < b < front_i.len()
            implies front_i[a].key != front_i[b].key by {
            assert(front_i[a] == imems[a] && front_i[b] == imems[b]);
        }
        lemma_merged_members_keys(bmems, front_i);
        let fm = merged_members(bmems, front_i);
        assert forall|t: int| 0 <= t < fm.len() implies has_key(imems, (#[trigger] fm[t]).key)
            && fm[t].key != m.key by {
            let w = key_index(front_i, fm[t].key);
            assert(0 <= w < front_i.len() && front_i[w].key == fm[t].key);
            assert(imems[w] == front_i[w]);
            assert(has_key(imems, fm[t].key));
            assert(imems[w].key != imems[li].key);
        }
    }
}

/// Where each key of the item lands among the surviving members.
proof fn lemma_merged_members_lookup(bmems: Seq<MemberView>, imems: Seq<MemberView>, k: Seq<char>)
    requires
        unique_keys(imems),
    ensures
        !has_key(imems, k) ==> !has_key(merged_members(bmems, imems), k),
        has_key(imems, k) && has_key(bmems, k) && lookup(imems, k) == TreeView::Text(
            marker_text(),
        ) ==> !has_key(merged_members(bmems, imems), k),
        has_key(imems, k) && has_key(bmems, k) && lookup(imems, k) != TreeView::Text(
            marker_text(),
        ) ==> has_key(merged_members(bmems, imems), k) && lookup(merged_members(bmems, imems), k)
            == spec_hydrate(lookup(bmems, k), lookup(imems, k))->Ok_0,
        has_key(imems, k) && !has_key(bmems, k) ==> has_key(merged_members(bmems, imems), k)
            && lookup(merged_members(bmems, imems), k) == lookup(imems, k),
    decreases imems.len(),
{
    lemma_merged_members_keys(bmems, imems);
    if imems.len() > 0 {
        let front_i = imems.drop_last();
        let m = imems.last();
        let li = imems.len() - 1;
        assert forall|a: int, b: int| 0 <= a < b < front_i.len()
            implies front_i[a].key != front_i[b].key by {
            assert(front_i[a] == imems[a] && front_i[b] == imems[b]);
        }
        lemma_merged_members_keys(bmems, front_i);
        lemma_merged_members_lookup(bmems, front_i, k);
        let fm = merged_members(bmems, front_i);
        let mm = merged_members(bmems, imems);
        if m.key == k {
            lemma_key_index_unique(imems, k, li);
            assert(lookup(imems, k) == m.value);
            assert forall|t: int| 0 <= t < front_i.len() implies (#[trigger] front_i[t]).key
                != k by {
                assert(front_i[t] == imems[t]);
                assert(imems[t].key != imems[li].key);
            }
            if has_key(front_i, k) {
                let w = key_index(front_i, k);
            }
            assert(!has_key(front_i, k));
            assert(!has_key(fm, k));
            if has_key(bmems, k) && m.value == TreeView::Text(marker_text()) {
                assert(mm == fm);
            } else {
                assert(mm.len() == fm.len() + 1);
                assert(mm[mm.len() - 1].key == k);
                assert(has_key(mm, k));
                lemma_key_index_unique(mm, k, mm.len() - 1);
            }
        } else {
            // `k` is settled entirely by the earlier members.
            if has_key(imems, k) {
                let w = key_index(imems, k);
                assert(w != li);
                assert(front_i[w] == imems[w]);
                assert(has_key(front_i, k));
            }
            if has_key(front_i, k) {
                let w = key_index(front_i, k);
                assert(imems[w] == front_i[w]);
                lemma_key_index_unique(imems, k, w);
                lemma_key_index_unique(front_i, k, w);
                assert(lookup(imems, k) == lookup(front_i, k));
            }
            assert(has_key(imems, k) == has_key(front_i, k));
            if has_key(fm, k) {
                let w = key_index(fm, k);
                assert(mm[w] == fm[w]);
                assert(has_key(mm, k));
                lemma_key_index_unique(mm, k, w);
                lemma_key_index_unique(fm, k, w);
                assert(lookup(mm, k) == lookup(fm, k));
            }
            if !has_key(fm, k) && has_key(mm, k) {
                let w = key_index(mm, k);
                if w < fm.len() {
                    assert(fm[w] == mm[w]);
                } else {
                    assert(mm[w].key == m.key);
                }
            }
            assert(has_key(mm, k) == has_key(fm, k));
        }
    }
}

/// The filled-in base members carry exactly the base keys the item lacks,
/// with the base's own values, pairwise distinct and nothing else.
proof fn lemma_base_fill_lookup(bmems: Seq<MemberView>, imems: Seq<MemberView>, k: Seq<char>)
    requires
        unique_keys(bmems),
    ensures
        forall|t: int| 0 <= t < base_fill(bmems, imems).len() ==> has_key(
            bmems,
            (#[trigger] base_fill(bmems, imems)[t]).key,
        ) && !has_key(imems, base_fill(bmems, imems)[t].key),
        unique_keys(base_fill(bmems, imems)),
        has_key(base_fill(bmems, imems), k) == (has_key(bmems, k) && !has_key(imems, k)),
        has_key(bmems, k) && !has_key(imems, k) ==> lookup(base_fill(bmems, imems), k) == lookup(
            bmems,
            k,
        ),
    decreases bmems.len(),
{
    if bmems.len() > 0 {
        let front_b = bmems.drop_last();
        let bm = bmems.last();
        let lb = bmems.len() - 1;
        assert forall|a: int, b: int| 0 <= a < b < front_b.len()
            implies front_b[a].key != front_b[b].key by {
            assert(front_b[a] == bmems[a] && front_b[b] == bmems[b]);
        }
        lemma_base_fill_lookup(front_b, imems, k);
        let ff = base_fill(front_b, imems);
        let fl = base_fill(bmems, imems);
        // Keys of the front members sit in the front of the base.
        assert forall|t: int| 0 <= t < ff.len() implies has_key(bmems, (#[trigger] ff[t]).key)
            && ff[t].key != bm.key by {
            let w = key_index(front_b, ff[t].key);
            assert(bmems[w] == front_b[w]);
            assert(has_key(bmems, ff[t].key));
            assert(bmems[w].key != bmems[lb].key);
        }
        // Transfer front lookups into the whole base.
        assert forall|kk: Seq<char>| has_key(front_b, kk) implies has_key(bmems, kk) by {
            let w = key_index(front_b, kk);
            assert(bmems[w] == front_b[w]);
        }
        if has_key(bmems, k) {
            let w = key_index(bmems, k);
            if w != lb {
                assert(front_b[w] == bmems[w]);
                assert(has_key(front_b, k));
                lemma_key_index_unique(front_b, k, w);
                lemma_key_index_unique(bmems, k, w);
                assert(lookup(front_b, k) == lookup(bmems, k));
            }
        }
        if has_key(front_b, k) {
            let w = key_index(front_b, k);
            assert(bmems[w] == front_b[w]);
            lemma_key_index_unique(bmems, k, w);
        }
        if has_key(imems, bm.key) {
            assert(fl == ff);
            if k == bm.key {
                assert(!(has_key(bmems, k) && !has_key(imems, k)));
            }
        } else {
            assert(fl == ff.push(bm));
            assert(fl[fl.len() - 1] == bm);
            if k == bm.key {
                lemma_key_index_unique(bmems, k, lb);
                assert(has_key(fl, k));
                lemma_key_index_unique(fl, k, fl.len() - 1);
                assert(lookup(fl, k) == bm.value);
            } else {
                if has_key(fl, k) {
                    let w = key_index(fl, k);
                    assert(w < ff.len());
                    assert(ff[w] == fl[w]);
                    assert(has_key(ff, k));
                    lemma_key_index_unique(fl, k, w);
                    lemma_key_index_unique(ff, k, w);
                }
                if has_key(ff, k) {
                    let w = key_index(ff, k);
                    assert(fl[w] == ff[w]);
                    assert(has_key(fl, k));
                    lemma_key_index_unique(fl, k, w);
                    lemma_key_index_unique(ff, k, w);
                }
            }
        }
    }
}

/// The hydrated object's member list keeps pairwise distinct keys.
proof fn lemma_result_members_unique(bmems: Seq<MemberView>, imems: Seq<MemberView>)
    requires
        unique_keys(bmems),
        unique_keys(imems),
    ensures
        unique_keys(merged_members(bmems, imems) + base_fill(bmems, imems)),
{
    let mm = merged_members(bmems, imems);
    let fl = base_fill(bmems, imems);
    lemma_merged_members_keys(bmems, imems);
    lemma_base_fill_lookup(bmems, imems, Seq::empty());
    let s = mm + fl;
    assert forall|a: int, b: int| 0 <= a < b < s.len() implies s[a].key != s[b].key by {
        if b < mm.len() {
            assert(s[a] == mm[a] && s[b] == mm[b]);
        } else if a >= mm.len() {
            assert(s[a] == fl[a - mm.len()] && s[b] == fl[b - mm.len()]);
        } else {
            assert(s[a] == mm[a] && s[b] == fl[b - mm.len()]);
            assert(has_key(imems, mm[a].key));
            assert(!has_key(imems, fl[b - mm.len()].key));
        }
    }
}

/// When the member-wise walk raises no fault, every base member the item
/// shares a key with (tombstones aside) merges successfully.
proof fn lemma_members_fault_none_ok(bmems: Seq<MemberView>, imems: Seq<MemberView>)
    requires
        members_fault(bmems, imems) is None,
    ensures
        forall|t: int|
            0 <= t < bmems.len() && has_key(imems, (#[trigger] bmems[t]).key) && lookup(
                imems,
                bmems[t].key,
            ) != TreeView::Text(marker_text()) ==> spec_hydrate(
                bmems[t].value,
                lookup(imems, bmems[t].key),
            ) is Ok,
    decreases bmems.len(),
{
    if bmems.len() > 0 {
        lemma_members_fault_none_ok(bmems.drop_first(), imems);
        assert forall|t: int|
            0 <= t < bmems.len() && has_key(imems, (#[trigger] bmems[t]).key) && lookup(
                imems,
                bmems[t].key,
            ) != TreeView::Text(marker_text()) implies spec_hydrate(
            bmems[t].value,
            lookup(imems, bmems[t].key),
        ) is Ok by {
            if t > 0 {
                assert(bmems.drop_first()[t - 1] == bmems[t]);
            }
        }
    }
}

/// Base-fill for missing keys: a key the base carries and the item lacks is
/// present in the hydrated object, with the base's value adopted verbatim.
pub proof fn lemma_base_fill_for_missing_keys(
    bmems: Seq<MemberView>,
    imems: Seq<MemberView>,
    k: Seq<char>,
)
    requires
        unique_keys(bmems),
        unique_keys(imems),
        spec_hydrate(TreeView::Object(bmems), TreeView::Object(imems)) is Ok,
        has_key(bmems, k),
        !has_key(imems, k),
    ensures
        spec_hydrate(TreeView::Object(bmems), TreeView::Object(imems))->Ok_0 is Object,
        has_key(
            spec_hydrate(TreeView::Object(bmems), TreeView::Object(imems))->Ok_0->Object_0,
            k,
        ),
        lookup(
            spec_hydrate(TreeView::Object(bmems), TreeView::Object(imems))->Ok_0->Object_0,
            k,
        ) == lookup(bmems, k),
{
    let mm = merged_members(bmems, imems);
    let fl = base_fill(bmems, imems);
    lemma_merged_members_lookup(bmems, imems, k);
    lemma_base_fill_lookup(bmems, imems, k);
    lemma_result_members_unique(bmems, imems);
    lemma_lookup_concat(mm, fl, k);
}

/// Item precedence: a key the item carries with a non-tombstone value is
/// present in the hydrated object; the base never overwrites it.  Where the
/// base also carries the key the value is their recursive merge, and where
/// the item's value is a scalar it survives completely untouched.
pub proof fn lemma_item_precedence(bmems: Seq<MemberView>, imems: Seq<MemberView>, k: Seq<char>)
    requires
        unique_keys(bmems),
        unique_keys(imems),
        spec_hydrate(TreeView::Object(bmems), TreeView::Object(imems)) is Ok,
        has_key(imems, k),
        lookup(imems, k) != TreeView::Text(marker_text()),
    ensures
        spec_hydrate(TreeView::Object(bmems), TreeView::Object(imems))->Ok_0 is Object,
        has_key(
            spec_hydrate(TreeView::Object(bmems), TreeView::Object(imems))->Ok_0->Object_0,
            k,
        ),
        has_key(bmems, k) ==> spec_hydrate(lookup(bmems, k), lookup(imems, k)) is Ok && lookup(
            spec_hydrate(TreeView::Object(bmems), TreeView::Object(imems))->Ok_0->Object_0,
            k,
        ) == spec_hydrate(lookup(bmems, k), lookup(imems, k))->Ok_0,
        !has_key(bmems, k) ==> lookup(
            spec_hydrate(TreeView::Object(bmems), TreeView::Object(imems))->Ok_0->Object_0,
            k,
        ) == lookup(imems, k),
        !(lookup(imems, k) is Object) && !(lookup(imems, k) is Array) ==> lookup(
            spec_hydrate(TreeView::Object(bmems), TreeView::Object(imems))->Ok_0->Object_0,
            k,
        ) == lookup(imems, k),
{
    let mm = merged_members(bmems, imems);
    let fl = base_fill(bmems, imems);
    lemma_merged_members_lookup(bmems, imems, k);
    lemma_base_fill_lookup(bmems, imems, k);
    lemma_result_members_unique(bmems, imems);
    lemma_lookup_concat(mm, fl, k);
    lemma_members_fault_none_ok(bmems, imems);
    if has_key(bmems, k) {
        let w = key_index(bmems, k);
        lemma_key_index_unique(bmems, k, w);
        assert(spec_hydrate(bmems[w].value, lookup(imems, k)) is Ok);
        if !(lookup(imems, k) is Object) && !(lookup(imems, k) is Array) {
            lemma_scalar_item_wins(lookup(bmems, k), lookup(imems, k));
        }
    }
}

/// Tombstone suppression: a key the base supplies but the item marks with
/// the sentinel is absent from the hydrated object entirely.
pub proof fn lemma_tombstone_suppression(
    bmems: Seq<MemberView>,
    imems: Seq<MemberView>,
    k: Seq<char>,
)
    requires
        unique_keys(bmems),
        unique_keys(imems),
        has_key(bmems, k),
        has_key(imems, k),
        lookup(imems, k) == TreeView::Text(marker_text()),
    ensures
        !has_key(merged_members(bmems, imems) + base_fill(bmems, imems), k),
{
    let mm = merged_members(bmems, imems);
    let fl = base_fill(bmems, imems);
    lemma_merged_members_lookup(bmems, imems, k);
    lemma_base_fill_lookup(bmems, imems, k);
    lemma_result_members_unique(bmems, imems);
    lemma_lookup_concat(mm, fl, k);
}

/// Hydration invents no keys: every member of the hydrated object carries a
/// key of the item or of the base.
pub proof fn lemma_no_new_keys(bmems: Seq<MemberView>, imems: Seq<MemberView>)
    requires
        unique_keys(bmems),
        unique_keys(imems),
    ensures
        forall|t: int|
            0 <= t < (merged_members(bmems, imems) + base_fill(bmems, imems)).len() ==> (has_key(
                imems,
                (#[trigger] (merged_members(bmems, imems) + base_fill(bmems, imems))[t]).key,
            ) || has_key(
                bmems,
                (merged_members(bmems, imems) + base_fill(bmems, imems))[t].key,
            )),
{
    let mm = merged_members(bmems, imems);
    let fl = base_fill(bmems, imems);
    lemma_merged_members_keys(bmems, imems);
    lemma_base_fill_lookup(bmems, imems, Seq::empty());
    assert forall|t: int| 0 <= t < (mm + fl).len() implies (has_key(
        imems,
        (#[trigger] (mm + fl)[t]).key,
    ) || has_key(bmems, (mm + fl)[t].key)) by {
        if t < mm.len() {
            assert((mm + fl)[t] == mm[t]);
        } else {
            assert((mm + fl)[t] == fl[t - mm.len()]);
        }
    }
}

/// What each position of a hydrated array holds.
proof fn lemma_merged_elems_index(belems: Seq<TreeView>, ielems: Seq<TreeView>)
    ensures
        merged_elems(belems, ielems).len() == ielems.len(),
        forall|t: int| 0 <= t < ielems.len() ==> #[trigger] merged_elems(belems, ielems)[t] == (
        if t < belems.len() {
            spec_hydrate(belems[t], ielems[t])->Ok_0
        } else {
            ielems[t]
        }),
    decreases ielems.len(),
{
    if ielems.len() > 0 {
        lemma_merged_elems_index(belems, ielems.drop_last());
        assert forall|t: int| 0 <= t < ielems.drop_last().len()
            implies ielems.drop_last()[t] == ielems[t] by {}
    }
}

/// When the element-wise walk raises no fault, every shared position merges
/// successfully.
proof fn lemma_elems_fault_none_ok(belems: Seq<TreeView>, ielems: Seq<TreeView>)
    requires
        elems_fault(belems, ielems) is None,
    ensures
        forall|t: int|
            0 <= t < ielems.len() && t < belems.len() ==> spec_hydrate(
                #[trigger] belems[t],
                ielems[t],
            ) is Ok,
    decreases ielems.len(),
{
    if ielems.len() > 0 && belems.len() > 0 {
        lemma_elems_fault_none_ok(belems.drop_first(), ielems.drop_first());
        assert forall|t: int| 0 <= t < ielems.len() && t < belems.len() implies spec_hydrate(
            #[trigger] belems[t],
            ielems[t],
        ) is Ok by {
            if t > 0 {
                assert(belems.drop_first()[t - 1] == belems[t]);
                assert(ielems.drop_first()[t - 1] == ielems[t]);
            }
        }
    }
}

/// Hydration preserves well-formedness: merging two well-formed documents
/// yields a well-formed document whenever it succeeds.
pub proof fn lemma_hydrate_preserves_wf(base: TreeView, item: TreeView)
    requires
        wf(base),
        wf(item),
        spec_hydrate(base, item) is Ok,
    ensures
        wf(spec_hydrate(base, item)->Ok_0),
    decreases item, 1nat,
{
    match item {
        TreeView::Object(imems) => match base {
            TreeView::Object(bmems) => {
                let mm = merged_members(bmems, imems);
                let fl = base_fill(bmems, imems);
                let r = mm + fl;
                lemma_wf_members_index(bmems);
                lemma_wf_members_index(imems);
                lemma_merged_members_keys(bmems, imems);
                lemma_members_fault_none_ok(bmems, imems);
                lemma_result_members_unique(bmems, imems);
                assert forall|t: int| 0 <= t < r.len() implies wf(#[trigger] r[t].value) by {
                    if t < mm.len() {
                        assert(r[t] == mm[t]);
                        let kk = mm[t].key;
                        assert(has_key(imems, kk));
                        lemma_merged_members_lookup(bmems, imems, kk);
                        lemma_key_index_unique(mm, kk, t);
                        let wi = key_index(imems, kk);
                        assert(lookup(imems, kk) == imems[wi].value);
                        assert(wf(imems[wi].value));
                        if has_key(bmems, kk) {
                            assert(lookup(imems, kk) != TreeView::Text(marker_text()));
                            let wb = key_index(bmems, kk);
                            assert(lookup(bmems, kk) == bmems[wb].value);
                            assert(wf(bmems[wb].value));
                            assert(spec_hydrate(lookup(bmems, kk), lookup(imems, kk)) is Ok);
                            assert(decreases_to!(imems => imems[wi]));
                            assert(decreases_to!(imems[wi] => imems[wi].value));
                            lemma_hydrate_preserves_wf(lookup(bmems, kk), lookup(imems, kk));
                            assert(mm[t].value == spec_hydrate(
                                lookup(bmems, kk),
                                lookup(imems, kk),
                            )->Ok_0);
                        } else {
                            assert(mm[t].value == lookup(imems, kk));
                        }
                    } else {
                        assert(r[t] == fl[t - mm.len()]);
                        let kk = fl[t - mm.len()].key;
                        lemma_base_fill_lookup(bmems, imems, kk);
                        lemma_key_index_unique(fl, kk, t - mm.len());
                        let wb = key_index(bmems, kk);
                        assert(lookup(bmems, kk) == bmems[wb].value);
                        assert(fl[t - mm.len()].value == lookup(bmems, kk));
                        assert(wf(bmems[wb].value));
                    }
                }
                lemma_wf_members_index(r);
            },
            _ => {},
        },
        TreeView::Array(ielems) => match base {
            TreeView::Array(belems) => {
                let me = merged_elems(belems, ielems);
                lemma_wf_elems_index(belems);
                lemma_wf_elems_index(ielems);
                lemma_merged_elems_index(belems, ielems);
                lemma_elems_fault_none_ok(belems, ielems);
                assert forall|t: int| 0 <= t < me.len() implies wf(#[trigger] me[t]) by {
                    if t < belems.len() {
                        assert(decreases_to!(ielems => ielems[t]));
                        lemma_hydrate_preserves_wf(belems[t], ielems[t]);
                    }
                }
                lemma_wf_elems_index(me);
            },
            _ => {},
        },
        _ => {},
    }
}

/// When the item carries every base key, nothing is left to fill in from the
/// base.
proof fn lemma_base_fill_all_present(bmems: Seq<MemberView>, imems: Seq<MemberView>)
    requires
        forall|t: int| 0 <= t < bmems.len() ==> has_key(imems, #[trigger] bmems[t].key),
    ensures
        base_fill(bmems, imems) == Seq::<MemberView>::empty(),
    decreases bmems.len(),
{
    if bmems.len() > 0 {
        assert forall|t: int| 0 <= t < bmems.drop_last().len() implies has_key(
            imems,
            #[trigger] bmems.drop_last()[t].key,
        ) by {
            assert(bmems.drop_last()[t] == bmems[t]);
        }
        lemma_base_fill_all_present(bmems.drop_last(), imems);
        assert(has_key(imems, bmems.last().key));
        assert(base_fill(bmems, imems) =~= Seq::<MemberView>::empty());
    }
}

} // verus!
