//! The tag registry: a capacity-bounded table of hierarchy nodes, a lookup
//! from every registered dotted path (prefixes included) to its id, and the
//! constant-time ancestry test backed by precomputed ancestor sets.

use vstd::hash_map::StringHashMap;
use vstd::prelude::*;

use crate::node::{lemma_num_words, num_words, TagNode};
use crate::paths::{
    canon, fold_char, is_dotted_prefix, lemma_canon_idempotent, lemma_canon_valid,
    lemma_dotted_prefix_antisym, lemma_dotted_prefix_canon, lemma_dotted_prefix_refl,
    lemma_dotted_prefix_trans, lemma_dotted_prefix_valid, lemma_filter_all_false,
    lemma_filter_push, lemma_prefix_ancestors, lemma_prefixes_characterize, lemma_prefixes_from,
    prefixes, prefixes_from, seg_end, valid_path,
};
use crate::{TagId, MAX_TAGS};

verus! {

/// Failure of a registration attempt.
#[derive(Copy, Clone, PartialEq, Eq, Structural, Debug)]
pub enum TagError {
    /// The registry already holds its configured maximum number of tags.
    CapacityExceeded,
}

/// The registry of the tag hierarchy. Paths are stored case-folded; every
/// dotted prefix of a registered path is itself registered.
pub struct TagRegistry {
    nodes: Vec<TagNode>,
    lookup: StringHashMap<TagId>,
    capacity: usize,
    paths: Ghost<Seq<Seq<char>>>,
}

impl TagRegistry {
    /// The canonical path of each registered tag, in id order.
    pub closed spec fn spec_paths(self) -> Seq<Seq<char>> {
        self.paths@
    }

    /// The number of tags registered so far.
    pub open spec fn spec_len(self) -> int {
        self.spec_paths().len() as int
    }

    /// The maximum number of tags this registry may ever hold.
    pub closed spec fn spec_capacity(self) -> int {
        self.capacity as int
    }

    pub closed spec fn spec_lookup(self) -> Map<Seq<char>, TagId> {
        self.lookup@
    }

    /// Whether the canonical path `p` is registered.
    pub open spec fn has_path(self, p: Seq<char>) -> bool {
        self.spec_lookup().contains_key(p)
    }

    /// The id registered for the canonical path `p`.
    pub open spec fn id_at(self, p: Seq<char>) -> int {
        self.spec_lookup()[p].idx()
    }

    /// The canonical path of id `i`.
    pub open spec fn path_of(self, i: int) -> Seq<char> {
        self.spec_paths()[i]
    }

    /// Whether `id` was issued by this registry.
    pub open spec fn id_in_range(self, id: TagId) -> bool {
        0 <= id.idx() < self.spec_len()
    }

    /// `a` names the same node as `d` or an ancestor of it.
    pub open spec fn spec_is_match(self, d: int, a: int) -> bool {
        is_dotted_prefix(self.path_of(a), self.path_of(d))
    }

    /// Internal consistency: dense ids, canonical well-formed paths, a lookup
    /// that is exactly the path-to-id bijection, prefix closure, and ancestor
    /// sets that hold precisely each node's dotted prefixes.
    pub closed spec fn wf(self) -> bool {
        &&& self.capacity <= 0x10000
        &&& self.nodes@.len() == self.paths@.len()
        &&& self.paths@.len() <= self.capacity
        &&& forall|i: int|
            0 <= i < self.paths@.len() ==> valid_path(#[trigger] self.paths@[i]) && canon(
                self.paths@[i],
            ) == self.paths@[i]
        &&& forall|i: int|
            0 <= i < self.paths@.len() ==> self.lookup@.contains_key(#[trigger] self.paths@[i])
                && self.lookup@[self.paths@[i]].0 as int == i
        &&& forall|p: Seq<char>|
            #[trigger] self.lookup@.contains_key(p) ==> exists|i: int|
                0 <= i < self.paths@.len() && self.paths@[i] == p
        &&& forall|i: int|
            0 <= i < self.nodes@.len() ==> (#[trigger] self.nodes@[i]).word_count() == num_words(
                self.capacity as int,
            )
        &&& forall|i: int, a: int|
            0 <= i < self.paths@.len() ==> ((#[trigger] self.nodes@[i].spec_has(a)) <==> (0 <= a
                < self.paths@.len() && is_dotted_prefix(self.paths@[a], self.paths@[i])))
        &&& forall|i: int, p: Seq<char>|
            0 <= i < self.paths@.len() && #[trigger] is_dotted_prefix(p, self.paths@[i])
                ==> self.lookup@.contains_key(p)
    }

    /// An empty registry that may hold at most `capacity` distinct tags.
    pub fn with_capacity(capacity: usize) -> (r: TagRegistry)
        requires
            capacity <= 0x10000,
        ensures
            r.wf(),
            r.spec_len() == 0,
            r.spec_capacity() == capacity as int,
            forall|p: Seq<char>| !r.has_path(p),
    {
        TagRegistry {
            nodes: Vec::new(),
            lookup: StringHashMap::new(),
            capacity,
            paths: Ghost(Seq::empty()),
        }
    }

    /// An empty registry with the default capacity of [`MAX_TAGS`] tags.
    pub fn new() -> (r: TagRegistry)
        ensures
            r.wf(),
            r.spec_len() == 0,
            r.spec_capacity() == MAX_TAGS as int,
            forall|p: Seq<char>| !r.has_path(p),
    {
        TagRegistry::with_capacity(MAX_TAGS)
    }

    /// How many tags are registered.
    pub fn len(&self) -> (r: usize)
        requires
            self.wf(),
        ensures
            r as int == self.spec_len(),
    {
        self.nodes.len()
    }

    /// The configured maximum number of tags.
    pub fn capacity(&self) -> (r: usize)
        ensures
            r as int == self.spec_capacity(),
    {
        self.capacity
    }

    /// Look an id up by path, after case folding. A miss is a normal outcome,
    /// not an error.
    pub fn id_of(&self, path: &str) -> (r: Option<TagId>)
        ensures
            match r {
                Some(id) => self.has_path(canon(path@)) && id.0 as int == self.id_at(canon(path@)),
                None => !self.has_path(canon(path@)),
            },
    {
        let key = normalize(path);
        match self.lookup.get(key.as_str()) {
            Some(id) => Some(*id),
            None => None,
        }
    }

    /// Whether `ancestor` names the same node as `descendant` or one of its
    /// ancestors: a single bit probe of `descendant`'s ancestor set.
    pub fn is_match(&self, descendant: TagId, ancestor: TagId) -> (r: bool)
        requires
            self.wf(),
            self.id_in_range(descendant),
            self.id_in_range(ancestor),
        ensures
            r == self.spec_is_match(descendant.idx(), ancestor.idx()),
    {
        proof {
            lemma_num_words(self.capacity as int);
        }
        let node = &self.nodes[descendant.0 as usize];
        node.get_bit(ancestor.0 as usize)
    }
}

/// The test for a path not yet present in registry `r`.
pub open spec fn absent_pred(r: TagRegistry) -> spec_fn(Seq<char>) -> bool {
    |q: Seq<char>| !r.has_path(q)
}

/// The dotted prefixes of `np` that registry `r` does not hold yet, shortest
/// first: exactly the nodes a registration of `np` has to create.
pub open spec fn missing_prefixes(r: TagRegistry, np: Seq<char>) -> Seq<Seq<char>> {
    prefixes(np).filter(absent_pred(r))
}

/// A registered path's id indexes that path: the lookup and the path table
/// are inverse to each other.
pub proof fn lemma_id_at_range(r: TagRegistry, p: Seq<char>)
    requires
        r.wf(),
        r.has_path(p),
    ensures
        0 <= r.id_at(p) < r.spec_len(),
        r.path_of(r.id_at(p)) == p,
{
    let i = choose|i: int| 0 <= i < r.spec_paths().len() && r.spec_paths()[i] == p;
    assert(r.spec_lookup()[r.spec_paths()[i]].0 as int == i);
}

/// Matching is a partial order on the ids a well-formed registry issued:
/// every tag matches itself; two tags matching each other are the same tag;
/// and a descendant of a descendant is a descendant.
pub proof fn lemma_is_match_partial_order(r: TagRegistry, x: int, y: int, z: int)
    requires
        r.wf(),
        0 <= x < r.spec_len(),
        0 <= y < r.spec_len(),
        0 <= z < r.spec_len(),
    ensures
        r.spec_is_match(x, x),
        r.spec_is_match(x, y) && r.spec_is_match(y, x) ==> x == y,
        r.spec_is_match(x, y) && r.spec_is_match(y, z) ==> r.spec_is_match(x, z),
{
    lemma_dotted_prefix_refl(r.path_of(x));
    if r.spec_is_match(x, y) && r.spec_is_match(y, x) {
        lemma_dotted_prefix_antisym(r.path_of(y), r.path_of(x));
        assert(r.spec_lookup()[r.spec_paths()[x]].0 as int == x);
        assert(r.spec_lookup()[r.spec_paths()[y]].0 as int == y);
    }
    if r.spec_is_match(x, y) && r.spec_is_match(y, z) {
        lemma_dotted_prefix_trans(r.path_of(z), r.path_of(y), r.path_of(x));
    }
}

/// Distinct registered paths carry distinct ids.
pub proof fn lemma_distinct_paths_distinct_ids(r: TagRegistry, p: Seq<char>, q: Seq<char>)
    requires
        r.wf(),
        r.has_path(p),
        r.has_path(q),
        p != q,
    ensures
        r.id_at(p) != r.id_at(q),
{
    lemma_id_at_range(r, p);
    lemma_id_at_range(r, q);
}

/// Case insensitivity: two spellings with the same case-folded form resolve
/// to the same entry, since registration and lookup both go through `canon`.
pub proof fn lemma_case_insensitive(r: TagRegistry, s: Seq<char>, t: Seq<char>)
    requires
        canon(s) == canon(t),
    ensures
        r.has_path(canon(s)) == r.has_path(canon(t)),
        r.id_at(canon(s)) == r.id_at(canon(t)),
{
}

/// Prefix closure: every dotted prefix of a registered path is registered.
pub proof fn lemma_prefix_closure(r: TagRegistry, p: Seq<char>, q: Seq<char>)
    requires
        r.wf(),
        r.has_path(q),
        is_dotted_prefix(p, q),
    ensures
        r.has_path(p),
{
    lemma_id_at_range(r, q);
    assert(is_dotted_prefix(p, r.spec_paths()[r.id_at(q)]));
}

impl TagRegistry {
    /// Register a dotted path, case-insensitively, creating every prefix of it
    /// that is not yet known; registering a known path returns its id and
    /// changes nothing. Fails, changing nothing, when the nodes that would
    /// have to be created do not all fit within the configured capacity.
    #[verifier::rlimit(100)]
    pub fn register(&mut self, path: &str) -> (res: Result<TagId, TagError>)
        requires
            old(self).wf(),
            valid_path(path@),
        ensures
            final(self).wf(),
            final(self).spec_capacity() == old(self).spec_capacity(),
            match res {
                Ok(id) => {
                    let np = canon(path@);
                    &&& final(self).spec_paths() == old(self).spec_paths() + missing_prefixes(
                        *old(self),
                        np,
                    )
                    &&& final(self).has_path(np)
                    &&& final(self).id_in_range(id)
                    &&& id.0 as int == final(self).id_at(np)
                    &&& forall|p: Seq<char>|
                        is_dotted_prefix(p, np) ==> final(self).has_path(p)
                    &&& forall|p: Seq<char>|
                        old(self).has_path(p) ==> final(self).has_path(p) && final(self).id_at(p)
                            == old(self).id_at(p)
                    &&& forall|p: Seq<char>|
                        final(self).has_path(p) ==> old(self).has_path(p) || is_dotted_prefix(
                            p,
                            np,
                        )
                    &&& (old(self).has_path(np) ==> *final(self) == *old(self))
                },
                Err(e) => {
                    &&& e == TagError::CapacityExceeded
                    &&& *final(self) == *old(self)
                },
            },
            res is Ok <==> old(self).spec_len() + missing_prefixes(*old(self), canon(path@)).len()
                <= old(self).spec_capacity(),
    {
        let ghost oldr = *old(self);
        let ghost np = canon(path@);
        proof {
            lemma_canon_valid(path@);
            lemma_canon_idempotent(path@);
            lemma_prefixes_from(np, 0);
        }
        let key: String = normalize(path);
        let existing: Option<TagId> = match self.lookup.get(key.as_str()) {
            Some(id) => Some(*id),
            None => None,
        };
        if let Some(id) = existing {
            proof {
                let i0 = choose|i: int|
                    0 <= i < oldr.spec_paths().len() && oldr.spec_paths()[i] == np;
                assert forall|t: int| 0 <= t < prefixes(np).len() implies !absent_pred(oldr)(
                    #[trigger] prefixes(np)[t],
                ) by {
                    let q = prefixes(np)[t];
                    assert(prefixes(np).contains(q));
                    lemma_prefixes_characterize(np, q);
                    assert(is_dotted_prefix(q, oldr.spec_paths()[i0]));
                }
                lemma_filter_all_false(prefixes(np), absent_pred(oldr));
                assert(oldr.spec_paths() + missing_prefixes(oldr, np) =~= oldr.spec_paths());
                lemma_id_at_range(oldr, np);
            }
            return Ok(id);
        }
        let prefs: Vec<String> = split_prefixes(&key);
        let ghost pf = prefixes(np);
        let ghost pred = absent_pred(oldr);

        // count the nodes this registration would have to create
        let mut missing_count: usize = 0;
        let mut j: usize = 0;
        while j < prefs.len()
            invariant
                j <= prefs.len(),
                prefs@.map_values(|t: String| t@) == pf,
                pf == prefixes(np),
                pred == absent_pred(oldr),
                *self == oldr,
                oldr.wf(),
                missing_count as int == pf.subrange(0, j as int).filter(pred).len(),
                missing_count <= j,
            decreases prefs.len() - j,
        {
            let present = self.lookup.contains_key(prefs[j].as_str());
            if !present {
                missing_count = missing_count + 1;
            }
            proof {
                let pj = pf[j as int];
                assert(prefs@.map_values(|t: String| t@)[j as int] == prefs@[j as int]@);
                assert(pf.subrange(0, j as int + 1) =~= pf.subrange(0, j as int).push(pj));
                lemma_filter_push(pf.subrange(0, j as int), pj, pred);
            }
            j = j + 1;
        }
        proof {
            assert(pf.subrange(0, prefs@.len() as int) =~= pf);
            assert(missing_count as int == missing_prefixes(oldr, np).len());
        }

        if missing_count > self.capacity - self.nodes.len() {
            return Err(TagError::CapacityExceeded);
        }

        // commit: walk the prefixes, creating each one that is not yet known
        let mut parent: Option<TagId> = None;
        let mut k: usize = 0;
        while k < prefs.len()
            invariant
                k <= prefs.len(),
                prefs@.map_values(|t: String| t@) == pf,
                pf == prefixes(np),
                pred == absent_pred(oldr),
                valid_path(np),
                canon(np) == np,
                oldr.wf(),
                !oldr.has_path(np),
                self.wf(),
                self.capacity == oldr.capacity,
                oldr.spec_len() + missing_prefixes(oldr, np).len() <= oldr.spec_capacity(),
                self.spec_paths() == oldr.spec_paths() + pf.subrange(0, k as int).filter(pred),
                forall|p: Seq<char>|
                    oldr.has_path(p) ==> self.has_path(p) && self.id_at(p) == oldr.id_at(p),
                forall|p: Seq<char>|
                    self.has_path(p) ==> oldr.has_path(p) || pf.subrange(0, k as int).contains(p),
                forall|t: int| 0 <= t < k as int ==> self.has_path(#[trigger] pf[t]),
                k == 0 ==> parent is None,
                k > 0 ==> (parent matches Some(pid) && self.has_path(pf[k - 1]) && pid.0 as int
                    == self.id_at(pf[k - 1])),
            decreases prefs.len() - k,
        {
            let ghost selfpre = *self;
            let ghost pj = pf[k as int];
            proof {
                lemma_prefixes_from(np, 0);
                assert(prefs@.map_values(|t: String| t@)[k as int] == prefs@[k as int]@);
                assert(pf.subrange(0, k as int + 1) =~= pf.subrange(0, k as int).push(pj));
                lemma_filter_push(pf.subrange(0, k as int), pj, pred);
                // this prefix names an ancestor chain entry of `np`
                assert(is_dotted_prefix(pj, np));
                lemma_dotted_prefix_valid(pj, np);
                lemma_dotted_prefix_canon(pj, np);
            }
            let existing_id: Option<TagId> = match self.lookup.get(prefs[k].as_str()) {
                Some(id) => Some(*id),
                None => None,
            };
            match existing_id {
                Some(id) => {
                    parent = Some(id);
                    proof {
                        // a prefix found in the table was there before this call:
                        // earlier chain entries are strictly shorter
                        if pf.subrange(0, k as int).contains(pj) {
                            let t = choose|t: int|
                                0 <= t < k as int && pf.subrange(0, k as int)[t] == pj;
                            assert(pf[t].len() < pf[k as int].len());
                            assert(false);
                        }
                        assert(!pred(pj));
                        assert(forall|p: Seq<char>|
                            self.has_path(p) ==> oldr.has_path(p) || pf.subrange(
                                0,
                                k as int + 1,
                            ).contains(p));
                    }
                },
                None => {
                    proof {
                        assert(pred(pj));
                        // the new node still fits: the whole chain fits
                        assert(pf =~= pf.subrange(0, k as int + 1) + pf.subrange(
                            k as int + 1,
                            pf.len() as int,
                        ));
                        Seq::filter_distributes_over_add(
                            pf.subrange(0, k as int + 1),
                            pf.subrange(k as int + 1, pf.len() as int),
                            pred,
                        );
                        assert(pf.subrange(0, k as int + 1).filter(pred).len() <= pf.filter(
                            pred,
                        ).len());
                        assert(self.spec_paths().len() + 1 <= oldr.spec_capacity());
                    }
                    let keyk: String = prefs[k].clone();
                    let id = self.create_entry(keyk, parent, Ghost(np), Ghost(k as int));
                    parent = Some(id);
                    proof {
                        assert(self.spec_paths() == selfpre.spec_paths().push(pj));
                        assert(self.spec_paths() == oldr.spec_paths() + pf.subrange(
                            0,
                            k as int + 1,
                        ).filter(pred));
                    }
                },
            }
            k = k + 1;
        }
        proof {
            assert(pf.subrange(0, prefs@.len() as int) =~= pf);
            assert(pf[pf.len() - 1] == np);
            lemma_id_at_range(*self, np);
            assert forall|p: Seq<char>| is_dotted_prefix(p, np) implies self.has_path(p) by {
                lemma_prefixes_characterize(np, p);
                let t = choose|t: int| 0 <= t < pf.len() && pf[t] == p;
                assert(self.has_path(pf[t]));
            }
            assert forall|p: Seq<char>|
                self.has_path(p) implies oldr.has_path(p) || is_dotted_prefix(p, np) by {
                if !oldr.has_path(p) {
                    assert(pf.contains(p));
                    lemma_prefixes_characterize(np, p);
                }
            }
        }
        let out = parent.unwrap();
        Ok(out)
    }

    /// Create the node for chain entry `k` of `np`: its ancestor set is its
    /// parent's (the previous chain entry's) with its own bit added, its path
    /// becomes the next lookup entry, and its id is the next dense index.
    fn create_entry(
        &mut self,
        keyk: String,
        parent: Option<TagId>,
        Ghost(np): Ghost<Seq<char>>,
        Ghost(k): Ghost<int>,
    ) -> (id: TagId)
        requires
            old(self).wf(),
            valid_path(np),
            canon(np) == np,
            0 <= k < prefixes(np).len(),
            keyk@ == prefixes(np)[k],
            !old(self).has_path(prefixes(np)[k]),
            old(self).spec_len() < old(self).spec_capacity(),
            k == 0 <==> parent is None,
            k > 0 ==> (parent matches Some(pid) && old(self).has_path(prefixes(np)[k - 1])
                && pid.0 as int == old(self).id_at(prefixes(np)[k - 1])),
            forall|t: int| 0 <= t < k ==> old(self).has_path(#[trigger] prefixes(np)[t]),
        ensures
            final(self).wf(),
            final(self).capacity == old(self).capacity,
            final(self).spec_paths() == old(self).spec_paths().push(prefixes(np)[k]),
            forall|p: Seq<char>|
                old(self).has_path(p) ==> final(self).has_path(p) && final(self).id_at(p) == old(
                    self,
                ).id_at(p),
            forall|p: Seq<char>|
                final(self).has_path(p) ==> old(self).has_path(p) || p == prefixes(np)[k],
            final(self).has_path(prefixes(np)[k]),
            id.0 as int == final(self).id_at(prefixes(np)[k]),
    {
        proof {
            lemma_num_words(self.capacity as int);
        }
        let ghost selfpre = *self;
        let id_val: u16 = self.nodes.len() as u16;
        let mut node: TagNode = match &parent {
            Some(p) => {
                proof {
                    lemma_id_at_range(selfpre, prefixes(np)[k - 1]);
                }
                self.nodes[p.0 as usize].duplicate()
            },
            None => TagNode::empty((self.capacity + 63) / 64),
        };
        node.set_bit(id_val as usize);
        self.nodes.push(node);
        self.lookup.insert(keyk, TagId(id_val));
        self.paths = Ghost(self.paths@.push(prefixes(np)[k]));
        proof {
            lemma_restore_wf(selfpre, *self, np, k, id_val);
        }
        TagId(id_val)
    }
}

/// After one node is created for chain entry `k` of `np` — its ancestor set
/// copied from its parent (the previous chain entry), its own bit added — the
/// registry is well-formed again and extended by exactly that path.
proof fn lemma_restore_wf(
    prev: TagRegistry,
    cur: TagRegistry,
    np: Seq<char>,
    k: int,
    id_val: u16,
)
    requires
        prev.wf(),
        valid_path(np),
        canon(np) == np,
        0 <= k < prefixes(np).len(),
        !prev.has_path(prefixes(np)[k]),
        id_val as int == prev.spec_len(),
        prev.spec_len() < prev.spec_capacity(),
        // how `cur` extends `prev`
        cur.capacity == prev.capacity,
        cur.spec_paths() == prev.spec_paths().push(prefixes(np)[k]),
        cur.spec_lookup() == prev.spec_lookup().insert(prefixes(np)[k], TagId(id_val)),
        cur.nodes@ == prev.nodes@.push(cur.nodes@.last()),
        cur.nodes@.last().word_count() == num_words(prev.spec_capacity()),
        forall|a: int|
            cur.nodes@.last().spec_has(a) <==> (a == id_val as int || (k > 0
                && prev.nodes@[prev.id_at(prefixes(np)[k - 1])].spec_has(a))),
        k > 0 ==> prev.has_path(prefixes(np)[k - 1]),
        // every earlier chain entry is present in `prev`
        forall|t: int| 0 <= t < k ==> prev.has_path(#[trigger] prefixes(np)[t]),
    ensures
        cur.wf(),
        forall|p: Seq<char>|
            prev.has_path(p) ==> cur.has_path(p) && cur.id_at(p) == prev.id_at(p),
        forall|p: Seq<char>|
            cur.has_path(p) ==> prev.has_path(p) || p == prefixes(np)[k],
        cur.has_path(prefixes(np)[k]),
        cur.id_at(prefixes(np)[k]) == id_val as int,
{
    let pf = prefixes(np);
    let pj = pf[k];
    let n0 = prev.spec_len();
    lemma_prefixes_from(np, 0);
    assert(is_dotted_prefix(pj, np));
    lemma_dotted_prefix_valid(pj, np);
    lemma_dotted_prefix_canon(pj, np);
    lemma_dotted_prefix_refl(pj);

    // the new path was nowhere in the old table
    assert forall|i: int| 0 <= i < n0 implies prev.spec_paths()[i] != pj by {
        if prev.spec_paths()[i] == pj {
            assert(prev.spec_lookup().contains_key(prev.spec_paths()[i]));
        }
    }

    // lookup bijection
    assert forall|i: int| 0 <= i < cur.spec_paths().len() implies cur.spec_lookup().contains_key(
        #[trigger] cur.spec_paths()[i],
    ) && cur.spec_lookup()[cur.spec_paths()[i]].0 as int == i by {
        if i < n0 {
            assert(cur.spec_paths()[i] == prev.spec_paths()[i]);
        } else {
            assert(cur.spec_paths()[i] == pj);
        }
    }
    assert forall|p: Seq<char>| #[trigger] cur.spec_lookup().contains_key(p) implies exists|i: int|
        0 <= i < cur.spec_paths().len() && cur.spec_paths()[i] == p by {
        if p == pj {
            assert(cur.spec_paths()[n0] == p);
        } else {
            let i = choose|i: int| 0 <= i < n0 && prev.spec_paths()[i] == p;
            assert(cur.spec_paths()[i] == p);
        }
    }

    // ancestor sets
    if k > 0 {
        lemma_id_at_range(prev, pf[k - 1]);
    }
    assert forall|i: int, a: int| 0 <= i < cur.spec_paths().len() implies ((
    #[trigger] cur.nodes@[i].spec_has(a)) <==> (0 <= a < cur.spec_paths().len()
        && is_dotted_prefix(cur.spec_paths()[a], cur.spec_paths()[i]))) by {
        lemma_prefix_ancestors(np, k, if 0 <= a < cur.spec_paths().len() {
            cur.spec_paths()[a]
        } else {
            Seq::empty()
        });
        if i < n0 {
            assert(cur.nodes@[i] == prev.nodes@[i]);
            assert(cur.spec_paths()[i] == prev.spec_paths()[i]);
            if 0 <= a < n0 {
                assert(cur.spec_paths()[a] == prev.spec_paths()[a]);
            } else if a == n0 {
                // the new path is no ancestor of an old node: ancestors of old
                // nodes are all registered in `prev`, and `pj` was not
                assert(cur.spec_paths()[a] == pj);
                if is_dotted_prefix(pj, prev.spec_paths()[i]) {
                    assert(prev.spec_lookup().contains_key(pj));
                }
                assert(!prev.nodes@[i].spec_has(a));
            } else {
                assert(!prev.nodes@[i].spec_has(a));
            }
        } else {
            assert(i == n0);
            assert(cur.nodes@[i] == cur.nodes@.last());
            assert(cur.spec_paths()[i] == pj);
            if 0 <= a < n0 {
                assert(cur.spec_paths()[a] == prev.spec_paths()[a]);
                assert(cur.spec_paths()[a] != pj);
                if k > 0 {
                    let pid = prev.id_at(pf[k - 1]);
                    assert(prev.spec_paths()[pid] == pf[k - 1]);
                    assert(prev.nodes@[pid].spec_has(a) <==> (0 <= a < n0
                        && is_dotted_prefix(prev.spec_paths()[a], pf[k - 1])));
                }
            } else if a == n0 {
                assert(cur.spec_paths()[a] == pj);
            }
        }
    }

    // prefix closure
    assert forall|i: int, p: Seq<char>|
        0 <= i < cur.spec_paths().len() && #[trigger] is_dotted_prefix(p, cur.spec_paths()[i])
            implies cur.spec_lookup().contains_key(p) by {
        if i < n0 {
            assert(cur.spec_paths()[i] == prev.spec_paths()[i]);
        } else {
            assert(cur.spec_paths()[i] == pj);
            lemma_prefix_ancestors(np, k, p);
            if p != pj {
                assert(k > 0 && is_dotted_prefix(p, pf[k - 1]));
                let i1 = prev.id_at(pf[k - 1]);
                lemma_id_at_range(prev, pf[k - 1]);
                assert(is_dotted_prefix(p, prev.spec_paths()[i1]));
            }
        }
    }
}

#[verifier::external_body]
fn push_char(s: &mut String, c: char)
    ensures
        final(s)@ == old(s)@.push(c),
{
    s.push(c);
}

fn fold_char_exec(c: char) -> (r: char)
    ensures
        r == fold_char(c),
{
    let code = c as u32;
    if 65 <= code && code <= 90 {
        ((code + 32) as u8) as char
    } else {
        c
    }
}

/// The canonical (case-folded) form of a path.
fn normalize(path: &str) -> (r: String)
    ensures
        r@ == canon(path@),
{
    let n = path.unicode_len();
    let mut out = String::new();
    let mut i: usize = 0;
    while i < n
        invariant
            n as int == path@.len(),
            i <= n,
            out@ == canon(path@.subrange(0, i as int)),
        decreases n - i,
    {
        let c = path.get_char(i);
        let f = fold_char_exec(c);
        push_char(&mut out, f);
        proof {
            let s = path@;
            assert(s.subrange(0, i + 1) =~= s.subrange(0, i as int).push(s[i as int]));
            assert(canon(s.subrange(0, i + 1)) =~= canon(s.subrange(0, i as int)).push(
                fold_char(s[i as int]),
            ));
        }
        i = i + 1;
    }
    proof {
        assert(path@.subrange(0, n as int) =~= path@);
    }
    out
}

/// The end of the segment of `s` that starts at `from`.
fn seg_end_exec(s: &str, from: usize) -> (e: usize)
    requires
        from as int <= s@.len(),
    ensures
        e as int == seg_end(s@, from as int),
        from <= e,
        e as int <= s@.len(),
{
    let n = s.unicode_len();
    let mut i = from;
    while i < n
        invariant
            from <= i <= n,
            n as int == s@.len(),
            seg_end(s@, from as int) == seg_end(s@, i as int),
        decreases n - i,
    {
        let c = s.get_char(i);
        if c == '.' {
            return i;
        }
        i = i + 1;
    }
    n
}

/// Every dotted prefix of `s` as its own string, shortest first.
fn split_prefixes(s: &String) -> (r: Vec<String>)
    ensures
        r@.map_values(|t: String| t@) == prefixes(s@),
{
    let n = s.as_str().unicode_len();
    let mut r: Vec<String> = Vec::new();
    let mut from: usize = 0;
    loop
        invariant
            from as int <= s@.len(),
            n as int == s@.len(),
            prefixes(s@) == r@.map_values(|t: String| t@) + prefixes_from(s@, from as int),
        decreases s@.len() - from,
    {
        let e = seg_end_exec(s.as_str(), from);
        if e >= n {
            let whole = s.clone();
            r.push(whole);
            proof {
                assert(prefixes_from(s@, from as int) =~= seq![s@]);
                assert(r@.map_values(|t: String| t@) =~= prefixes(s@));
            }
            return r;
        }
        let p = s.as_str().substring_char(0, e).to_owned();
        let ghost r_before = r@;
        r.push(p);
        proof {
            assert(prefixes_from(s@, from as int) == seq![s@.subrange(0, e as int)]
                + prefixes_from(s@, e as int + 1));
            assert(r@.map_values(|t: String| t@) =~= r_before.map_values(|t: String| t@).push(
                s@.subrange(0, e as int),
            ));
            assert(prefixes(s@) =~= r@.map_values(|t: String| t@) + prefixes_from(
                s@,
                e as int + 1,
            ));
        }
        from = e + 1;
    }
}

} // verus!

