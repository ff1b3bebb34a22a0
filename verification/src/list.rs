//! Small ordered bags of tag ids, with the set-style matching combinators
//! evaluated against a registry. Storage is a `smallvec::SmallVec`, so a bag
//! of few ids lives inline and only larger bags spill to the heap.

use smallvec::SmallVec;
use vstd::prelude::*;

use crate::registry::TagRegistry;
use crate::TagId;

verus! {

/// A small ordered bag of tag ids: insertion order kept, duplicates allowed,
/// stored inline up to a handful of elements (a `smallvec::SmallVec`, opaque
/// to the verifier; the trusted wrappers below state what its methods do).
#[verifier::external_body]
pub struct TagList {
    items: SmallVec<[TagId; 8]>,
}

/// What a bag holds: the raw id values, in insertion order.
pub uninterp spec fn tag_list_elems(l: TagList) -> Seq<u16>;

impl View for TagList {
    type V = Seq<u16>;

    open spec fn view(&self) -> Seq<u16> {
        tag_list_elems(*self)
    }
}

/// Some element of `elems` is the tag `t` or a descendant of it.
pub open spec fn spec_any_match(reg: TagRegistry, elems: Seq<u16>, t: u16) -> bool {
    exists|i: int| 0 <= i < elems.len() && reg.spec_is_match(elems[i] as int, t as int)
}

/// Some element of `ts` is matched by some element of `elems`.
pub open spec fn spec_any_match_from(reg: TagRegistry, elems: Seq<u16>, ts: Seq<u16>) -> bool {
    exists|j: int| 0 <= j < ts.len() && spec_any_match(reg, elems, ts[j])
}

/// Every element of `ts` is matched by some element of `elems`.
pub open spec fn spec_all_match_from(reg: TagRegistry, elems: Seq<u16>, ts: Seq<u16>) -> bool {
    forall|j: int| 0 <= j < ts.len() ==> spec_any_match(reg, elems, ts[j])
}

/// All ids among `elems` were issued by `reg`.
pub open spec fn list_ids_in_range(reg: TagRegistry, elems: Seq<u16>) -> bool {
    forall|i: int| 0 <= i < elems.len() ==> (#[trigger] elems[i]) < reg.spec_len()
}

impl TagList {
    /// An empty bag.
    ///
    /// Relies on `SmallVec::new`: constructs an empty vector.
    #[verifier::external_body]
    pub fn new() -> (r: TagList)
        ensures
            r@ == Seq::<u16>::empty(),
    {
        TagList { items: SmallVec::new() }
    }

    /// How many ids the bag holds.
    ///
    /// Relies on `SmallVec::len`: the number of elements stored.
    #[verifier::external_body]
    pub fn len(&self) -> (r: usize)
        ensures
            r as int == self@.len(),
    {
        self.items.len()
    }

    /// The id at position `i`, in insertion order.
    ///
    /// Relies on the slice indexing `SmallVec` offers through `Deref`.
    #[verifier::external_body]
    pub fn get(&self, i: usize) -> (r: TagId)
        requires
            i < self@.len(),
        ensures
            r.0 == self@[i as int],
    {
        self.items[i]
    }

    /// Relies on `SmallVec::push`: appends one element at the end.
    #[verifier::external_body]
    fn push_id(&mut self, t: TagId)
        ensures
            tag_list_elems(*final(self)) == tag_list_elems(*old(self)).push(t.0),
    {
        self.items.push(t);
    }

    /// Relies on `SmallVec::remove`: removes the element at the given position
    /// and shifts everything after it one place to the left.
    #[verifier::external_body]
    fn remove_at(&mut self, i: usize)
        requires
            i < tag_list_elems(*old(self)).len(),
        ensures
            tag_list_elems(*final(self)) == tag_list_elems(*old(self)).remove(i as int),
    {
        self.items.remove(i);
    }

    /// Exact-id membership (not hierarchical matching).
    pub fn has(&self, tag: TagId) -> (r: bool)
        ensures
            r == self@.contains(tag.0),
    {
        let n = self.len();
        let mut i: usize = 0;
        while i < n
            invariant
                i <= n,
                n as int == self@.len(),
                forall|t: int| 0 <= t < i as int ==> self@[t] != tag.0,
            decreases n - i,
        {
            let e = self.get(i);
            if e.0 == tag.0 {
                return true;
            }
            i = i + 1;
        }
        false
    }

    /// Append `tag` unless an equal id is already present; reports whether it
    /// was added.
    pub fn add(&mut self, tag: TagId) -> (added: bool)
        ensures
            added == !old(self)@.contains(tag.0),
            final(self)@ == if old(self)@.contains(tag.0) {
                old(self)@
            } else {
                old(self)@.push(tag.0)
            },
    {
        if self.has(tag) {
            false
        } else {
            self.push_id(tag);
            true
        }
    }

    /// Remove the first element equal to `tag`; reports whether anything was
    /// removed.
    pub fn remove(&mut self, tag: TagId) -> (removed: bool)
        ensures
            removed == old(self)@.contains(tag.0),
            final(self)@ == match old(self)@.index_of_first(tag.0) {
                Some(i) => old(self)@.remove(i),
                None => old(self)@,
            },
    {
        proof {
            old(self)@.index_of_first_ensures(tag.0);
        }
        let n = self.len();
        let mut i: usize = 0;
        while i < n
            invariant
                i <= n,
                *self == *old(self),
                n as int == self@.len(),
                forall|t: int| 0 <= t < i as int ==> self@[t] != tag.0,
            decreases n - i,
        {
            let e = self.get(i);
            if e.0 == tag.0 {
                proof {
                    old(self)@.index_of_first_ensures(tag.0);
                    assert(old(self)@.contains(tag.0));
                    let idx = old(self)@.index_of_first(tag.0)->0;
                    assert(old(self)@[i as int] == tag.0);
                    assert(idx == i as int);
                }
                self.remove_at(i);
                return true;
            }
            i = i + 1;
        }
        proof {
            old(self)@.index_of_first_ensures(tag.0);
            if old(self)@.contains(tag.0) {
                let w = choose|w: int| 0 <= w < old(self)@.len() && old(self)@[w] == tag.0;
                assert(false);
            }
        }
        false
    }

    /// A bag holding the given ids, duplicates and order preserved.
    pub fn from_ids(ids: &Vec<TagId>) -> (r: TagList)
        ensures
            r@ == ids@.map_values(|t: TagId| t.0),
    {
        let mut r = TagList::new();
        let mut i: usize = 0;
        while i < ids.len()
            invariant
                i <= ids@.len(),
                r@ == ids@.subrange(0, i as int).map_values(|t: TagId| t.0),
            decreases ids@.len() - i,
        {
            let ghost before = r@;
            r.push_id(ids[i]);
            proof {
                assert(ids@.subrange(0, i as int + 1) =~= ids@.subrange(0, i as int).push(
                    ids@[i as int],
                ));
                assert(ids@.subrange(0, i as int + 1).map_values(|t: TagId| t.0) =~= before.push(
                    ids@[i as int].0,
                ));
            }
            i = i + 1;
        }
        proof {
            assert(ids@.subrange(0, ids@.len() as int) =~= ids@);
        }
        r
    }

    /// True iff some tag in this bag is `tag` or a descendant of it.
    pub fn any_match(&self, tag: TagId, registry: &TagRegistry) -> (r: bool)
        requires
            registry.wf(),
            registry.id_in_range(tag),
            list_ids_in_range(*registry, self@),
        ensures
            r == spec_any_match(*registry, self@, tag.0),
    {
        registry.any_match(self, tag)
    }

    /// True iff no tag in this bag is `tag` or a descendant of it.
    pub fn none_match(&self, tag: TagId, registry: &TagRegistry) -> (r: bool)
        requires
            registry.wf(),
            registry.id_in_range(tag),
            list_ids_in_range(*registry, self@),
        ensures
            r == !spec_any_match(*registry, self@, tag.0),
    {
        registry.none_match(self, tag)
    }

    /// True iff some tag of `tags` is matched by some tag in this bag.
    pub fn any_match_from(&self, tags: &TagList, registry: &TagRegistry) -> (r: bool)
        requires
            registry.wf(),
            list_ids_in_range(*registry, self@),
            list_ids_in_range(*registry, tags@),
        ensures
            r == spec_any_match_from(*registry, self@, tags@),
    {
        registry.any_match_from(self, tags)
    }

    /// True iff no tag of `tags` is matched by any tag in this bag.
    pub fn none_match_from(&self, tags: &TagList, registry: &TagRegistry) -> (r: bool)
        requires
            registry.wf(),
            list_ids_in_range(*registry, self@),
            list_ids_in_range(*registry, tags@),
        ensures
            r == !spec_any_match_from(*registry, self@, tags@),
    {
        registry.none_match_from(self, tags)
    }

    /// True iff every tag of `tags` is matched by some tag in this bag.
    pub fn all_match_from(&self, tags: &TagList, registry: &TagRegistry) -> (r: bool)
        requires
            registry.wf(),
            list_ids_in_range(*registry, self@),
            list_ids_in_range(*registry, tags@),
        ensures
            r == spec_all_match_from(*registry, self@, tags@),
    {
        registry.all_match_from(self, tags)
    }
}

impl TagRegistry {
    /// True iff some tag in `list` is `tag` or a descendant of it.
    pub fn any_match(&self, list: &TagList, tag: TagId) -> (r: bool)
        requires
            self.wf(),
            self.id_in_range(tag),
            list_ids_in_range(*self, list@),
        ensures
            r == spec_any_match(*self, list@, tag.0),
    {
        let n = list.len();
        let mut i: usize = 0;
        while i < n
            invariant
                i <= n,
                n as int == list@.len(),
                self.wf(),
                self.id_in_range(tag),
                list_ids_in_range(*self, list@),
                forall|t: int|
                    0 <= t < i as int ==> !self.spec_is_match(list@[t] as int, tag.0 as int),
            decreases n - i,
        {
            let e = list.get(i);
            if self.is_match(e, tag) {
                return true;
            }
            i = i + 1;
        }
        false
    }

    /// True iff no tag in `list` is `tag` or a descendant of it: the exact
    /// negation of [`TagRegistry::any_match`].
    pub fn none_match(&self, list: &TagList, tag: TagId) -> (r: bool)
        requires
            self.wf(),
            self.id_in_range(tag),
            list_ids_in_range(*self, list@),
        ensures
            r == !spec_any_match(*self, list@, tag.0),
    {
        !self.any_match(list, tag)
    }

    /// True iff some tag of `tags` is matched by some tag in `list`.
    pub fn any_match_from(&self, list: &TagList, tags: &TagList) -> (r: bool)
        requires
            self.wf(),
            list_ids_in_range(*self, list@),
            list_ids_in_range(*self, tags@),
        ensures
            r == spec_any_match_from(*self, list@, tags@),
    {
        let n = tags.len();
        let mut j: usize = 0;
        while j < n
            invariant
                j <= n,
                n as int == tags@.len(),
                self.wf(),
                list_ids_in_range(*self, list@),
                list_ids_in_range(*self, tags@),
                forall|t: int| 0 <= t < j as int ==> !spec_any_match(*self, list@, tags@[t]),
            decreases n - j,
        {
            let tag = tags.get(j);
            if self.any_match(list, tag) {
                return true;
            }
            j = j + 1;
        }
        false
    }

    /// True iff no tag of `tags` is matched by any tag in `list`: the exact
    /// negation of [`TagRegistry::any_match_from`].
    pub fn none_match_from(&self, list: &TagList, tags: &TagList) -> (r: bool)
        requires
            self.wf(),
            list_ids_in_range(*self, list@),
            list_ids_in_range(*self, tags@),
        ensures
            r == !spec_any_match_from(*self, list@, tags@),
    {
        !self.any_match_from(list, tags)
    }

    /// True iff every tag of `tags` is matched by some tag in `list`.
    pub fn all_match_from(&self, list: &TagList, tags: &TagList) -> (r: bool)
        requires
            self.wf(),
            list_ids_in_range(*self, list@),
            list_ids_in_range(*self, tags@),
        ensures
            r == spec_all_match_from(*self, list@, tags@),
    {
        let n = tags.len();
        let mut j: usize = 0;
        while j < n
            invariant
                j <= n,
                n as int == tags@.len(),
                self.wf(),
                list_ids_in_range(*self, list@),
                list_ids_in_range(*self, tags@),
                forall|t: int| 0 <= t < j as int ==> spec_any_match(*self, list@, tags@[t]),
            decreases n - j,
        {
            let tag = tags.get(j);
            if !self.any_match(list, tag) {
                return false;
            }
            j = j + 1;
        }
        true
    }
}

impl Default for TagList {
    /// An empty bag.
    fn default() -> (r: TagList)
        ensures
            r@ == Seq::<u16>::empty(),
    {
        TagList::new()
    }
}

} // verus!
