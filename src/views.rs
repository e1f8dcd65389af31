//! What the pages show: active items classified into the four quadrants of
//! the Eisenhower matrix, deleted items newest deletion first, and the blank
//! form for a new item.
use vstd::prelude::*;

use crate::error::RepoError;
use crate::item::ItemView;
use crate::repo::views;

verus! {

broadcast use vstd::seq_lib::group_seq_properties;

/// The four quadrants, by the (important, urgent) flags.
#[derive(PartialEq, Eq, Structural, Clone, Copy, Debug)]
pub enum Quadrant {
    ImportantAndUrgent,
    Important,
    Urgent,
    Other,
}

pub open spec fn quadrant_of(x: ItemView) -> Quadrant {
    if x.important && x.urgent {
        Quadrant::ImportantAndUrgent
    } else if x.important {
        Quadrant::Important
    } else if x.urgent {
        Quadrant::Urgent
    } else {
        Quadrant::Other
    }
}

/// The items of quadrant `q`, in the order given.
pub open spec fn bucket(s: Seq<ItemView>, q: Quadrant) -> Seq<ItemView> {
    s.filter(|x: ItemView| quadrant_of(x) == q)
}

pub open spec fn ref_views<'a>(s: Seq<&'a crate::item::Item>) -> Seq<ItemView> {
    s.map_values(|r: &'a crate::item::Item| r@)
}

pub open spec fn all_active(s: Seq<ItemView>) -> bool {
    forall|i: int| 0 <= i < s.len() ==> (#[trigger] s[i]).is_active()
}

/// Active items by quadrant.
pub struct ItemsList<'a> {
    important_and_urgent: Vec<&'a crate::item::Item>,
    important: Vec<&'a crate::item::Item>,
    urgent: Vec<&'a crate::item::Item>,
    other: Vec<&'a crate::item::Item>,
}

impl<'a> ItemsList<'a> {
    pub closed spec fn quadrant(&self, q: Quadrant) -> Seq<ItemView> {
        match q {
            Quadrant::ImportantAndUrgent => ref_views(self.important_and_urgent@),
            Quadrant::Important => ref_views(self.important@),
            Quadrant::Urgent => ref_views(self.urgent@),
            Quadrant::Other => ref_views(self.other@),
        }
    }

    /// Classifies active items into their quadrants, keeping their order
    /// within each. A deleted item among them is an internal inconsistency.
    pub fn from_items(items: &'a Vec<crate::item::Item>) -> (r: Result<ItemsList<'a>, RepoError>)
        ensures
            match r {
                Ok(l) => all_active(views(items@)) && forall|q: Quadrant|
                    #[trigger] l.quadrant(q) == bucket(views(items@), q),
                Err(e) => !all_active(views(items@)) && e is InternalInconsistency,
            },
    {
        let mut k: usize = 0;
        while k < items.len()
            invariant
                k <= items.len(),
                forall|j: int| 0 <= j < k ==> (#[trigger] items@[j])@.is_active(),
            decreases items.len() - k,
        {
            if !items[k].is_active() {
                proof {
                    assert(!views(items@)[k as int].is_active());
                }
                return Err(
                    RepoError::InternalInconsistency(String::from_str("deleted item ended up in list of items")),
                );
            }
            k = k + 1;
        }
        let mut l = ItemsList {
            important_and_urgent: Vec::new(),
            important: Vec::new(),
            urgent: Vec::new(),
            other: Vec::new(),
        };
        let mut i: usize = 0;
        while i < items.len()
            invariant
                i <= items.len(),
                forall|q: Quadrant| #[trigger] l.quadrant(q) == bucket(views(items@.take(i as int)), q),
            decreases items.len() - i,
        {
            let item = &items[i];
            let ghost before = l;
            proof {
                assert(views(items@.take(i + 1)) =~= views(items@.take(i as int)).push(item@));
            }
            if item.important && item.urgent {
                l.important_and_urgent.push(item);
            } else if item.important {
                l.important.push(item);
            } else if item.urgent {
                l.urgent.push(item);
            } else {
                l.other.push(item);
            }
            proof {
                let s = views(items@.take(i as int));
                assert forall|q: Quadrant| #[trigger] l.quadrant(q) == bucket(views(items@.take(i + 1)), q) by {
                    s.lemma_filter_push(item@, |x: ItemView| quadrant_of(x) == q);
                    assert(ref_views(before.important_and_urgent@.push(item)) =~= ref_views(before.important_and_urgent@).push(item@));
                    assert(ref_views(before.important@.push(item)) =~= ref_views(before.important@).push(item@));
                    assert(ref_views(before.urgent@.push(item)) =~= ref_views(before.urgent@).push(item@));
                    assert(ref_views(before.other@.push(item)) =~= ref_views(before.other@).push(item@));
                    if q == quadrant_of(item@) {
                        assert(l.quadrant(q) == before.quadrant(q).push(item@));
                    } else {
                        assert(l.quadrant(q) == before.quadrant(q));
                    }
                }
            }
            i = i + 1;
        }
        proof {
            assert(items@.take(items.len() as int) =~= items@);
            assert(all_active(views(items@)));
        }
        Ok(l)
    }

    pub fn important_and_urgent(&self) -> (r: &Vec<&'a crate::item::Item>)
        ensures
            ref_views(r@) == self.quadrant(Quadrant::ImportantAndUrgent),
    {
        &self.important_and_urgent
    }

    pub fn important(&self) -> (r: &Vec<&'a crate::item::Item>)
        ensures
            ref_views(r@) == self.quadrant(Quadrant::Important),
    {
        &self.important
    }

    pub fn urgent(&self) -> (r: &Vec<&'a crate::item::Item>)
        ensures
            ref_views(r@) == self.quadrant(Quadrant::Urgent),
    {
        &self.urgent
    }

    pub fn other(&self) -> (r: &Vec<&'a crate::item::Item>)
        ensures
            ref_views(r@) == self.quadrant(Quadrant::Other),
    {
        &self.other
    }
}

/// Classifying a list of items loses none and doubles none: the four buckets
/// together are as long as the list, and no item lies in two of them.
pub proof fn lemma_quadrants_complete(s: Seq<ItemView>)
    ensures
        bucket(s, Quadrant::ImportantAndUrgent).len() + bucket(s, Quadrant::Important).len() + bucket(
            s,
            Quadrant::Urgent,
        ).len() + bucket(s, Quadrant::Other).len() == s.len(),
        forall|x: ItemView, q1: Quadrant, q2: Quadrant|
            q1 != q2 && #[trigger] bucket(s, q1).contains(x) ==> !#[trigger] bucket(s, q2).contains(x),
    decreases s.len(),
{
    if s.len() > 0 {
        let t = s.drop_last();
        lemma_quadrants_complete(t);
        assert(s =~= t.push(s.last()));
        t.lemma_filter_push(s.last(), |x: ItemView| quadrant_of(x) == Quadrant::ImportantAndUrgent);
        t.lemma_filter_push(s.last(), |x: ItemView| quadrant_of(x) == Quadrant::Important);
        t.lemma_filter_push(s.last(), |x: ItemView| quadrant_of(x) == Quadrant::Urgent);
        t.lemma_filter_push(s.last(), |x: ItemView| quadrant_of(x) == Quadrant::Other);
    }
    assert forall|x: ItemView, q1: Quadrant, q2: Quadrant|
        q1 != q2 && #[trigger] bucket(s, q1).contains(x) implies !#[trigger] bucket(s, q2).contains(x) by {
        broadcast use vstd::seq_lib::group_filter_ensures;
        assert(quadrant_of(x) == q1);
    }
}

/// When an item was deleted; items that are not deleted sort as at time zero.
pub open spec fn deletion_time(x: ItemView) -> int {
    match x.deleted {
        Some(t) => t as int,
        None => 0,
    }
}

pub open spec fn all_deleted(s: Seq<ItemView>) -> bool {
    forall|i: int| 0 <= i < s.len() ==> !(#[trigger] s[i]).is_active()
}

/// Most recently deleted first.
pub open spec fn newest_first(s: Seq<ItemView>) -> bool {
    forall|i: int, j: int| 0 <= i < j < s.len() ==> deletion_time(#[trigger] s[i]) >= deletion_time(#[trigger] s[j])
}

fn deletion_key(it: &crate::item::Item) -> (r: i64)
    ensures
        r as int == deletion_time(it@),
{
    match it.deleted {
        Some(t) => t,
        None => 0,
    }
}

/// Deleted items, most recently deleted first.
pub struct DeletedItems {
    items: Vec<crate::item::Item>,
}

impl DeletedItems {
    pub closed spec fn listed(&self) -> Seq<ItemView> {
        views(self.items@)
    }

    /// Orders deleted items newest deletion first. An active item among them
    /// is an internal inconsistency.
    pub fn try_from(items: Vec<crate::item::Item>) -> (r: Result<DeletedItems, RepoError>)
        ensures
            match r {
                Ok(d) => {
                    &&& all_deleted(views(items@))
                    &&& d.listed().to_multiset() == views(items@).to_multiset()
                    &&& newest_first(d.listed())
                },
                Err(e) => !all_deleted(views(items@)) && e is InternalInconsistency,
            },
    {
        broadcast use vstd::seq_lib::group_to_multiset_ensures;

        let mut k: usize = 0;
        while k < items.len()
            invariant
                k <= items.len(),
                forall|j: int| 0 <= j < k ==> !(#[trigger] items@[j])@.is_active(),
            decreases items.len() - k,
        {
            if items[k].is_active() {
                proof {
                    assert(views(items@)[k as int].is_active());
                }
                return Err(
                    RepoError::InternalInconsistency(String::from_str("active item ended up in deleted list")),
                );
            }
            k = k + 1;
        }
        proof {
            assert(all_deleted(views(items@)));
        }
        let ghost whole = views(items@).to_multiset();
        let mut rest = items;
        let mut out: Vec<crate::item::Item> = Vec::new();
        while rest.len() > 0
            invariant
                views(rest@).to_multiset().add(views(out@).to_multiset()) == whole,
                newest_first(views(out@)),
                forall|i: int, j: int|
                    0 <= i < out.len() && 0 <= j < rest.len() ==> deletion_time((#[trigger] out@[i])@)
                        >= deletion_time((#[trigger] rest@[j])@),
            decreases rest.len(),
        {
            let mut best: usize = 0;
            let mut j: usize = 1;
            while j < rest.len()
                invariant
                    0 < rest.len(),
                    best < rest.len(),
                    j <= rest.len(),
                    forall|m: int| 0 <= m < j ==> deletion_time((#[trigger] rest@[m])@) <= deletion_time(rest@[best as int]@),
                decreases rest.len() - j,
            {
                if deletion_key(&rest[j]) > deletion_key(&rest[best]) {
                    best = j;
                }
                j = j + 1;
            }
            let ghost old_rest = rest@;
            let ghost old_out = out@;
            let it = rest.remove(best);
            out.push(it);
            proof {
                assert(views(rest@) =~= views(old_rest).remove(best as int));
                assert(views(out@) =~= views(old_out).push(it@));
                assert(views(old_rest)[best as int] == it@);
                assert(views(rest@).to_multiset().add(views(out@).to_multiset()) =~= whole);
                assert forall|i: int, m: int|
                    0 <= i < out.len() && 0 <= m < rest.len() implies deletion_time((#[trigger] out@[i])@)
                    >= deletion_time((#[trigger] rest@[m])@) by {
                    if m < best {
                        assert(rest@[m] == old_rest[m]);
                    } else {
                        assert(rest@[m] == old_rest[m + 1]);
                    }
                    if i < old_out.len() {
                        assert(out@[i] == old_out[i]);
                    }
                }
                assert forall|a: int, b: int| 0 <= a < b < out.len() implies deletion_time(
                    #[trigger] views(out@)[a],
                ) >= deletion_time(#[trigger] views(out@)[b]) by {
                    if b < old_out.len() {
                        assert(views(out@)[a] == views(old_out)[a]);
                        assert(views(out@)[b] == views(old_out)[b]);
                    } else {
                        assert(out@[a] == old_out[a]);
                    }
                }
            }
        }
        proof {
            assert(views(rest@) =~= Seq::<ItemView>::empty());
            assert(views(rest@).to_multiset() =~= vstd::multiset::Multiset::empty());
            assert(views(out@).to_multiset() =~= whole);
        }
        Ok(DeletedItems { items: out })
    }

    pub fn items(&self) -> (r: &Vec<crate::item::Item>)
        ensures
            views(r@) == self.listed(),
    {
        &self.items
    }
}

/// The blank form for a new item, or one filled in again after a failed
/// submission.
pub struct NewItem<'a> {
    pub title: Option<&'a str>,
    pub body: Option<&'a str>,
    pub important: Option<bool>,
    pub urgent: Option<bool>,
}

impl<'a> Default for NewItem<'a> {
    fn default() -> (r: NewItem<'a>)
        ensures
            r.title is None && r.body is None && r.important is None && r.urgent is None,
    {
        NewItem { title: None, body: None, important: None, urgent: None }
    }
}

/// An active item, to show.
pub struct Item {
    item: crate::item::Item,
}

impl Item {
    pub closed spec fn shown(&self) -> ItemView {
        self.item@
    }

    pub fn try_from(item: crate::item::Item) -> (r: Result<Item, RepoError>)
        ensures
            match r {
                Ok(p) => item@.is_active() && p.shown() == item@,
                Err(e) => !(item@.is_active()) && e is InternalInconsistency,
            },
    {
        if item.is_active() {
            Ok(Item { item })
        } else {
            Err(RepoError::InternalInconsistency(String::from_str("tried to render a deleted item")))
        }
    }

    pub fn item(&self) -> (r: &crate::item::Item)
        ensures
            r@ == self.shown(),
    {
        &self.item
    }
}

/// An active item, to edit.
pub struct EditItem {
    item: crate::item::Item,
}

impl EditItem {
    pub closed spec fn shown(&self) -> ItemView {
        self.item@
    }

    pub fn try_from(item: crate::item::Item) -> (r: Result<EditItem, RepoError>)
        ensures
            match r {
                Ok(p) => item@.is_active() && p.shown() == item@,
                Err(e) => !(item@.is_active()) && e is InternalInconsistency,
            },
    {
        if item.is_active() {
            Ok(EditItem { item })
        } else {
            Err(RepoError::InternalInconsistency(String::from_str("tried to edit a deleted item")))
        }
    }

    pub fn item(&self) -> (r: &crate::item::Item)
        ensures
            r@ == self.shown(),
    {
        &self.item
    }
}

/// A deleted item, to show before it is restored.
pub struct DeletedItem {
    item: crate::item::Item,
}

impl DeletedItem {
    pub closed spec fn shown(&self) -> ItemView {
        self.item@
    }

    pub fn try_from(item: crate::item::Item) -> (r: Result<DeletedItem, RepoError>)
        ensures
            match r {
                Ok(p) => !item@.is_active() && p.shown() == item@,
                Err(e) => !(!item@.is_active()) && e is InternalInconsistency,
            },
    {
        if !item.is_active() {
            Ok(DeletedItem { item })
        } else {
            Err(RepoError::InternalInconsistency(String::from_str("tried to render an active item as deleted")))
        }
    }

    pub fn item(&self) -> (r: &crate::item::Item)
        ensures
            r@ == self.shown(),
    {
        &self.item
    }
}

} // verus!
