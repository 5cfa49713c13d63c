//! Executable tree documents.
//!
//! [`TreeValue`] is the closed document model the merge operates on: objects,
//! arrays, and scalars.  Its ghost view is [`crate::model::TreeView`].

use vstd::prelude::*;

use crate::model::{MemberView, Mismatch, TreeView};

verus! {

/// A dynamically typed document node.
///
/// Objects are ordered member lists; key order is insertion order and is
/// preserved by hydration.  Numeric scalars carry their exact decimal text:
/// the merge never inspects a number, so the text form is lossless and keeps
/// the core free of floating point.
#[derive(Debug, PartialEq, Eq)]
pub enum TreeValue {
    Null,
    Bool(bool),
    Number(String),
    Text(String),
    Array(Vec<TreeValue>),
    Object(Vec<Member>),
}

/// One member of an object: a key and the value stored under it.
#[derive(Debug, PartialEq, Eq)]
pub struct Member {
    pub key: String,
    pub value: TreeValue,
}

/// The one failure hydration can report: at some position the item is an
/// object or an array while the base is neither the same shape nor null.
/// The two conflicting sibling values are carried for diagnostics.
#[derive(Debug, PartialEq, Eq)]
pub enum MergeError {
    TypeMismatch { base: TreeValue, item: TreeValue },
}

/// Ghost model of a node.
pub open spec fn tree_view(v: TreeValue) -> TreeView
    decreases v, 2nat,
{
    match v {
        TreeValue::Null => TreeView::Null,
        TreeValue::Bool(b) => TreeView::Bool(b),
        TreeValue::Number(s) => TreeView::Number(s@),
        TreeValue::Text(s) => TreeView::Text(s@),
        TreeValue::Array(es) => TreeView::Array(elems_view(es@)),
        TreeValue::Object(ms) => TreeView::Object(members_view(ms@)),
    }
}

/// Ghost model of an array's element list.
pub open spec fn elems_view(es: Seq<TreeValue>) -> Seq<TreeView>
    decreases es, 1nat,
{
    if es.len() == 0 {
        Seq::empty()
    } else {
        seq![tree_view(es[0])] + elems_view(es.drop_first())
    }
}

/// Ghost model of an object's member list.
pub open spec fn members_view(ms: Seq<Member>) -> Seq<MemberView>
    decreases ms, 1nat,
{
    if ms.len() == 0 {
        Seq::empty()
    } else {
        seq![member_view(ms[0])] + members_view(ms.drop_first())
    }
}

/// Ghost model of one object member.
pub open spec fn member_view(m: Member) -> MemberView
    decreases m, 2nat,
{
    MemberView { key: m.key@, value: tree_view(m.value) }
}

impl View for TreeValue {
    type V = TreeView;

    open spec fn view(&self) -> TreeView {
        tree_view(*self)
    }
}

impl View for Member {
    type V = MemberView;

    open spec fn view(&self) -> MemberView {
        member_view(*self)
    }
}

impl View for MergeError {
    type V = Mismatch;

    open spec fn view(&self) -> Mismatch {
        match *self {
            MergeError::TypeMismatch { base, item } => Mismatch {
                base: tree_view(base),
                item: tree_view(item),
            },
        }
    }
}

/// `elems_view` maps `tree_view` over the elements.
pub broadcast proof fn lemma_elems_view(es: Seq<TreeValue>)
    ensures
        (#[trigger] elems_view(es)).len() == es.len(),
        forall|i: int| 0 <= i < es.len() ==> #[trigger] elems_view(es)[i] == tree_view(es[i]),
    decreases es.len(),
{
    if es.len() > 0 {
        lemma_elems_view(es.drop_first());
        assert forall|i: int| 0 <= i < es.len()
            implies #[trigger] elems_view(es)[i] == tree_view(es[i]) by {
            if i > 0 {
                assert(es.drop_first()[i - 1] == es[i]);
                assert(elems_view(es.drop_first())[i - 1] == tree_view(es.drop_first()[i - 1]));
            }
        }
    }
}

/// `members_view` maps `member_view` over the members.
pub broadcast proof fn lemma_members_view(ms: Seq<Member>)
    ensures
        (#[trigger] members_view(ms)).len() == ms.len(),
        forall|i: int| 0 <= i < ms.len() ==> #[trigger] members_view(ms)[i] == member_view(ms[i]),
    decreases ms.len(),
{
    if ms.len() > 0 {
        lemma_members_view(ms.drop_first());
        assert forall|i: int| 0 <= i < ms.len()
            implies #[trigger] members_view(ms)[i] == member_view(ms[i]) by {
            if i > 0 {
                assert(ms.drop_first()[i - 1] == ms[i]);
                assert(members_view(ms.drop_first())[i - 1] == member_view(ms.drop_first()[i - 1]));
            }
        }
    }
}

impl Clone for TreeValue {
    /// A deep copy: the result models the same document and shares no storage
    /// with the original.
    #[verifier::loop_isolation(false)]
    fn clone(&self) -> (out: Self)
        ensures
            out@ == self@,
        decreases *self,
    {
        match self {
            TreeValue::Null => TreeValue::Null,
            TreeValue::Bool(b) => TreeValue::Bool(*b),
            TreeValue::Number(s) => TreeValue::Number(s.clone()),
            TreeValue::Text(s) => TreeValue::Text(s.clone()),
            TreeValue::Array(es) => {
                let mut out: Vec<TreeValue> = Vec::new();
                let mut i: usize = 0;
                while i < es.len()
                    invariant
                        i <= es.len(),
                        out@.len() == i as int,
                        forall|j: int| 0 <= j < i ==> tree_view(#[trigger] out@[j])
                            == tree_view(es@[j]),
                    decreases es.len() - i,
                {
                    proof {
                        assert((*self)->Array_0 == *es);
                        assert(decreases_to!(*self => (*self)->Array_0));
                        assert(decreases_to!(*es => es@));
                        assert(decreases_to!(es@ => es@[i as int]));
                    }
                    let e = &es[i];
                    out.push(e.clone());
                    i = i + 1;
                }
                proof {
                    lemma_elems_view(out@);
                    lemma_elems_view(es@);
                    assert(elems_view(out@) =~= elems_view(es@));
                }
                TreeValue::Array(out)
            },
            TreeValue::Object(ms) => {
                let mut out: Vec<Member> = Vec::new();
                let mut i: usize = 0;
                while i < ms.len()
                    invariant
                        i <= ms.len(),
                        out@.len() == i as int,
                        forall|j: int| 0 <= j < i ==> member_view(#[trigger] out@[j])
                            == member_view(ms@[j]),
                    decreases ms.len() - i,
                {
                    proof {
                        assert((*self)->Object_0 == *ms);
                        assert(decreases_to!(*self => (*self)->Object_0));
                        assert(decreases_to!(*ms => ms@));
                        assert(decreases_to!(ms@ => ms@[i as int]));
                        assert(decreases_to!(ms@[i as int] => ms@[i as int].value));
                    }
                    let m = &ms[i];
                    let v = m.value.clone();
                    out.push(Member { key: m.key.clone(), value: v });
                    i = i + 1;
                }
                proof {
                    lemma_members_view(out@);
                    lemma_members_view(ms@);
                    assert(members_view(out@) =~= members_view(ms@));
                }
                TreeValue::Object(out)
            },
        }
    }
}

impl Clone for Member {
    /// A deep copy: same key text, same modelled value.
    fn clone(&self) -> (out: Self)
        ensures
            out@ == self@,
    {
        Member { key: self.key.clone(), value: self.value.clone() }
    }
}

} // verus!
