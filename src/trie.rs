use std::collections::HashMap;
use std::hash::Hash;
use vstd::prelude::*;
use vstd::std_specs::hash::obeys_key_model;

verus! {

broadcast use vstd::std_specs::hash::group_hash_axioms;

/// A map from key sequences to values.
///
/// `contents` is the abstract map from key views to stored values; `get` reads
/// it and `insert` overwrites one entry of it, handing back the value that the
/// key held before.
pub trait Trie<K: View, V>: Sized {
    /// The internal invariant that every operation keeps.
    spec fn well_formed(&self) -> bool;

    /// The stored entries, keyed by the view of each key.
    spec fn contents(&self) -> Map<K::V, V>;

    fn get(&self, key: K) -> (r: Option<&V>)
        requires
            self.well_formed(),
        ensures
            match r {
                Some(v) => self.contents().contains_key(key@) && *v == self.contents()[key@],
                None => !self.contents().contains_key(key@),
            },
    ;

    fn insert(&mut self, key: K, value: V) -> (r: Option<V>)
        requires
            old(self).well_formed(),
        ensures
            final(self).well_formed(),
            final(self).contents() == old(self).contents().insert(key@, value),
            r == old(self).contents().get(key@),
    ;
}

/// One node of the tree: the payload of the key that ends here, if any, and
/// the position in the arena of the child reached by each next element.
#[verifier::reject_recursive_types(KE)]
struct ElementaryElement<KE, V> {
    value: Option<V>,
    children: HashMap<KE, usize>,
}

/// A trie whose nodes live in one arena; the root is the node at position 0.
///
/// The ghost map `index` gives, for every key path that the tree has a node
/// for, the position of that node.
#[verifier::reject_recursive_types(KE)]
pub struct ElementaryTrie<KE, V> where KE: Eq + Hash {
    nodes: Vec<ElementaryElement<KE, V>>,
    index: Ghost<Map<Seq<KE>, int>>,
}

impl<KE, V> ElementaryTrie<KE, V> where KE: Eq + Hash {
    /// The structural invariant of the arena and its path index.
    pub closed spec fn inv(&self) -> bool {
        let idx = self.index@;
        let nodes = self.nodes@;
        &&& obeys_key_model::<KE>()
        &&& idx.contains_key(Seq::empty())
        &&& idx[Seq::empty()] == 0
        &&& forall|p: Seq<KE>| #[trigger] idx.contains_key(p) ==> 0 <= idx[p] < nodes.len()
        &&& forall|p: Seq<KE>, m: int|
            idx.contains_key(p) && 0 <= m <= p.len() ==> #[trigger] idx.contains_key(p.take(m))
        &&& forall|p: Seq<KE>, q: Seq<KE>|
            #[trigger] idx.contains_key(p) && #[trigger] idx.contains_key(q) && idx[p] == idx[q]
                ==> p == q
        &&& forall|p: Seq<KE>, k: KE|
            #![trigger nodes[idx[p]].children@.contains_key(k)]
            #![trigger idx.contains_key(p.push(k))]
            idx.contains_key(p) ==> (nodes[idx[p]].children@.contains_key(k)
                <==> idx.contains_key(p.push(k)))
        &&& forall|p: Seq<KE>, k: KE|
            idx.contains_key(p) && #[trigger] idx.contains_key(p.push(k))
                ==> nodes[idx[p]].children@[k] == idx[p.push(k)]
    }

    /// The stored entries: each key path whose node holds a payload, mapped
    /// to that payload.
    pub closed spec fn entries(&self) -> Map<Seq<KE>, V> {
        Map::new(
            |p: Seq<KE>|
                self.index@.contains_key(p) && self.nodes@[self.index@[p]].value is Some,
            |p: Seq<KE>| self.nodes@[self.index@[p]].value->Some_0,
        )
    }

    /// An empty trie: a root without payload or children.
    pub fn new() -> (t: Self)
        requires
            obeys_key_model::<KE>(),
        ensures
            t.well_formed(),
            t.contents() == Map::<Seq<KE>, V>::empty(),
    {
        let t = ElementaryTrie {
            nodes: vec![Self::new_elementary_element()],
            index: Ghost(Map::empty().insert(Seq::empty(), 0)),
        };
        proof {
            let idx = t.index@;
            assert forall|p: Seq<KE>, m: int|
                idx.contains_key(p) && 0 <= m <= p.len() implies #[trigger] idx.contains_key(
                p.take(m)) by {
                assert(p.take(m) =~= Seq::<KE>::empty());
            }
            assert forall|p: Seq<KE>, k: KE| #[trigger] idx.contains_key(p.push(k)) implies false by {
                assert(p.push(k).len() > 0);
            }
            assert(t.entries() =~= Map::<Seq<KE>, V>::empty());
        }
        t
    }

    /// A fresh node, with no payload and no children.
    fn new_elementary_element() -> (e: ElementaryElement<KE, V>)
        ensures
            e.value is None,
            e.children@ == Map::<KE, usize>::empty(),
    {
        ElementaryElement { value: None, children: HashMap::new() }
    }

    /// Walks from the root along `key`, creating each missing node on the
    /// way, and returns the position of the node for the whole key. At most
    /// one node is added per element of `key`.
    fn get_or_create_element(&mut self, key: Vec<KE>) -> (r: usize)
        requires
            old(self).inv(),
        ensures
            final(self).inv(),
            final(self).entries() == old(self).entries(),
            final(self).index@.contains_key(key@),
            final(self).index@[key@] == r,
            final(self).nodes@.len() <= old(self).nodes@.len() + key@.len(),
    {
        let ghost k = key@;
        let ghost before = self.entries();
        let ghost start = self.nodes@.len();
        let mut element: usize = 0;
        proof {
            assert(k.take(0) =~= Seq::<KE>::empty());
        }
        for e in it: key.into_iter()
            invariant
                self.inv(),
                self.entries() == before,
                self.nodes@.len() <= start + it.index(),
                it.seq() == k,
                self.index@.contains_key(k.take(it.index() as int)),
                self.index@[k.take(it.index() as int)] == element as int,
        {
            let ghost p = k.take(it.index() as int);
            proof {
                assert(k.take(it.index() + 1) =~= p.push(e));
            }
            let n = self.nodes.len();
            let found: Option<usize> = match self.nodes[element].children.get(&e) {
                Some(c) => Some(*c),
                None => None,
            };
            match found {
                Some(c) => {
                    element = c;
                },
                None => {
                    let ghost old_trie = *self;
                    self.nodes[element].children.insert(e, n);
                    self.nodes.push(Self::new_elementary_element());
                    self.index = Ghost(self.index@.insert(p.push(e), n as int));
                    proof {
                        Self::lemma_extend(old_trie, *self, p, e, n);
                    }
                    element = n;
                },
            }
        }
        proof {
            assert(k.take(k.len() as int) =~= k);
        }
        element
    }

    /// The edge from `r` along `k` after `lemma_extend`'s step.
    proof fn lemma_extend_edge(a: Self, b: Self, p: Seq<KE>, e: KE, n: usize, r: Seq<KE>, k: KE)
        requires
            a.inv(),
            n == a.nodes@.len(),
            a.index@.contains_key(p),
            !a.index@.contains_key(p.push(e)),
            b.index@ == a.index@.insert(p.push(e), a.nodes@.len() as int),
            b.nodes@.len() == a.nodes@.len() + 1,
            b.nodes@[a.nodes@.len() as int].children@ == Map::<KE, usize>::empty(),
            b.nodes@[a.index@[p]].children@
                == a.nodes@[a.index@[p]].children@.insert(e, n),
            forall|i: int|
                0 <= i < a.nodes@.len() && i != a.index@[p] ==> #[trigger] b.nodes@[i]
                    == a.nodes@[i],
            b.index@.contains_key(r),
        ensures
            b.nodes@[b.index@[r]].children@.contains_key(k) <==> b.index@.contains_key(r.push(k)),
            b.index@.contains_key(r.push(k)) ==> b.nodes@[b.index@[r]].children@[k]
                == b.index@[r.push(k)],
    {
        let q = p.push(e);
        let ai = a.index@;
        assert(q.drop_last() =~= p);
        assert(r.push(k).drop_last() =~= r);
        assert(q.last() == e);
        assert(r.push(k).last() == k);
        if r == q {
            assert(!ai.contains_key(q.push(k))) by {
                if ai.contains_key(q.push(k)) {
                    assert(q.push(k).take(q.len() as int) =~= q);
                }
            }
            assert(r.push(k) != q);
        } else {
            assert(ai.contains_key(r));
            assert(ai[r] < n);
            if r == p {
                assert(r.push(k) == q <==> k == e);
            } else {
                assert(ai[r] != ai[p]);
                assert(b.nodes@[ai[r]] == a.nodes@[ai[r]]);
                assert(r.push(k) != q);
            }
        }
    }

    /// Adding a node for `p.push(e)` under the node for `p` keeps the
    /// invariant and the stored entries.
    proof fn lemma_extend(a: Self, b: Self, p: Seq<KE>, e: KE, n: usize)
        requires
            a.inv(),
            n == a.nodes@.len(),
            a.index@.contains_key(p),
            !a.index@.contains_key(p.push(e)),
            b.index@ == a.index@.insert(p.push(e), a.nodes@.len() as int),
            b.nodes@.len() == a.nodes@.len() + 1,
            b.nodes@[a.nodes@.len() as int].value is None,
            b.nodes@[a.nodes@.len() as int].children@ == Map::<KE, usize>::empty(),
            b.nodes@[a.index@[p]].value == a.nodes@[a.index@[p]].value,
            b.nodes@[a.index@[p]].children@
                == a.nodes@[a.index@[p]].children@.insert(e, n),
            forall|i: int|
                0 <= i < a.nodes@.len() && i != a.index@[p] ==> #[trigger] b.nodes@[i]
                    == a.nodes@[i],
        ensures
            b.inv(),
            b.entries() == a.entries(),
    {
        let q = p.push(e);
        let ai = a.index@;
        let bi = b.index@;
        assert forall|r: Seq<KE>, m: int| bi.contains_key(r) && 0 <= m <= r.len() implies
            #[trigger] bi.contains_key(r.take(m)) by {
            if r == q && m <= p.len() {
                assert(q.take(m) =~= p.take(m));
            }
            if r == q && m == q.len() {
                assert(q.take(m) =~= q);
            }
        }
        assert forall|r: Seq<KE>, k: KE|
            #![trigger b.nodes@[bi[r]].children@.contains_key(k)]
            #![trigger bi.contains_key(r.push(k))]
            bi.contains_key(r) implies (
            b.nodes@[bi[r]].children@.contains_key(k) <==> bi.contains_key(r.push(k))) by {
            Self::lemma_extend_edge(a, b, p, e, n, r, k);
        }
        assert forall|r: Seq<KE>, k: KE| bi.contains_key(r) && #[trigger] bi.contains_key(r.push(k))
            implies b.nodes@[bi[r]].children@[k] == bi[r.push(k)] by {
            Self::lemma_extend_edge(a, b, p, e, n, r, k);
        }
        assert(b.entries() =~= a.entries());
    }
}

impl<KE, V> Trie<Vec<KE>, V> for ElementaryTrie<KE, V> where KE: Eq + Hash {
    open spec fn well_formed(&self) -> bool {
        self.inv()
    }

    open spec fn contents(&self) -> Map<Seq<KE>, V> {
        self.entries()
    }

    fn get(&self, key: Vec<KE>) -> (r: Option<&V>) {
        let ghost k = key@;
        let mut element: usize = 0;
        proof {
            assert(k.take(0) =~= Seq::<KE>::empty());
        }
        for e in it: key.into_iter()
            invariant
                self.inv(),
                it.seq() == k,
                self.index@.contains_key(k.take(it.index() as int)),
                self.index@[k.take(it.index() as int)] == element as int,
        {
            let ghost p = k.take(it.index() as int);
            proof {
                assert(k.take(it.index() + 1) =~= p.push(e));
            }
            if let Some(c) = self.nodes[element].children.get(&e) {
                element = *c;
            } else {
                proof {
                    if self.index@.contains_key(k) {
                        assert(self.index@.contains_key(k.take(it.index() + 1)));
                    }
                }
                return None;
            }
        }
        proof {
            assert(k.take(k.len() as int) =~= k);
        }
        self.nodes[element].value.as_ref()
    }

    fn insert(&mut self, key: Vec<KE>, value: V) -> (r: Option<V>) {
        let ghost k = key@;
        let mut alt = Some(value);
        let element = self.get_or_create_element(key);
        let ghost mid = *self;
        std::mem::swap(&mut self.nodes[element].value, &mut alt);
        proof {
            assert forall|p: Seq<KE>| #[trigger] self.index@.contains_key(p) && p != k
                implies self.index@[p] != element as int by {}
            assert(self.entries() =~= mid.entries().insert(k, value));
        }
        alt
    }
}

} // verus!
