//! Laws of lookup and insertion, stated over the abstract contents of an
//! `ElementaryTrie`.
//!
//! `get` returns the value that `contents()` holds for the key, and `insert`
//! replaces `contents()` by `contents().insert(key@, value)`, returning
//! `contents().get(key@)` from before the call. The laws below follow a trie's
//! contents through such calls.
use std::hash::Hash;
use vstd::prelude::*;

use crate::trie::{ElementaryTrie, Trie};

verus! {

/// The contents reached from `m` by inserting each `(key, value)` of `ops`, in order.
pub open spec fn after_inserts<KE, V>(m: Map<Seq<KE>, V>, ops: Seq<(Seq<KE>, V)>) -> Map<Seq<KE>, V>
    decreases ops.len(),
{
    if ops.len() == 0 {
        m
    } else {
        after_inserts(m, ops.drop_last()).insert(ops.last().0, ops.last().1)
    }
}

/// The value of the last pair in `ops` whose key is `k`, if there is one.
pub open spec fn last_write<KE, V>(ops: Seq<(Seq<KE>, V)>, k: Seq<KE>) -> Option<V>
    decreases ops.len(),
{
    if ops.len() == 0 {
        None
    } else if ops.last().0 == k {
        Some(ops.last().1)
    } else {
        last_write(ops.drop_last(), k)
    }
}

/// No key occurs twice in `ops`.
pub open spec fn keys_distinct<KE, V>(ops: Seq<(Seq<KE>, V)>) -> bool {
    forall|i: int, j: int| 0 <= i < j < ops.len() ==> ops[i].0 != ops[j].0
}

/// Overwrite: the first insertion of a key finds no previous value, a second
/// insertion of it gets back the first value, and afterwards the key holds
/// only the newer value.
pub proof fn lemma_insert_overwrites<KE: Eq + Hash, V>(
    t: ElementaryTrie<KE, V>,
    key: Seq<KE>,
    v1: V,
    v2: V,
)
    requires
        t.well_formed(),
        !t.contents().contains_key(key),
    ensures
        t.contents().get(key) is None,
        t.contents().insert(key, v1).get(key) == Some(v1),
        t.contents().insert(key, v1).insert(key, v2).get(key) == Some(v2),
        t.contents().insert(key, v1).insert(key, v2) == t.contents().insert(key, v2),
{
    assert(t.contents().insert(key, v1).insert(key, v2) =~= t.contents().insert(key, v2));
}

/// Isolation: inserting one key leaves what every other key holds unchanged,
/// whether or not one of the two keys is a prefix of the other.
pub proof fn lemma_insert_isolated<KE: Eq + Hash, V>(
    t: ElementaryTrie<KE, V>,
    key: Seq<KE>,
    value: V,
    other: Seq<KE>,
)
    requires
        t.well_formed(),
        other != key,
    ensures
        t.contents().insert(key, value).get(other) == t.contents().get(other),
{
}

/// The empty key is a key like any other: after inserting it, it holds the
/// value, and no non-empty key is affected.
pub proof fn lemma_empty_key_independent<KE: Eq + Hash, V>(
    t: ElementaryTrie<KE, V>,
    value: V,
    other: Seq<KE>,
)
    requires
        t.well_formed(),
        other.len() > 0,
    ensures
        t.contents().insert(Seq::empty(), value).get(Seq::empty()) == Some(value),
        t.contents().insert(Seq::empty(), value).get(other) == t.contents().get(other),
{
}

/// After inserting a sequence of pairs, each key holds the value of its last
/// insertion, and a key never inserted holds what it held before.
pub proof fn lemma_last_write_wins<KE, V>(m: Map<Seq<KE>, V>, ops: Seq<(Seq<KE>, V)>, k: Seq<KE>)
    ensures
        after_inserts(m, ops).get(k) == match last_write(ops, k) {
            Some(v) => Some(v),
            None => m.get(k),
        },
    decreases ops.len(),
{
    if ops.len() > 0 {
        lemma_last_write_wins(m, ops.drop_last(), k);
    }
}

/// Absence: starting from an empty trie, a key that no insertion used is
/// absent, even when it is a prefix or an extension of an inserted key.
pub proof fn lemma_never_inserted_absent<KE: Eq + Hash, V>(
    t: ElementaryTrie<KE, V>,
    ops: Seq<(Seq<KE>, V)>,
    k: Seq<KE>,
)
    requires
        t.well_formed(),
        t.contents() == Map::<Seq<KE>, V>::empty(),
        forall|i: int| 0 <= i < ops.len() ==> (#[trigger] ops[i]).0 != k,
    ensures
        !after_inserts(t.contents(), ops).contains_key(k),
{
    lemma_last_write_wins(t.contents(), ops, k);
    lemma_last_write_none(ops, k);
}

proof fn lemma_last_write_none<KE, V>(ops: Seq<(Seq<KE>, V)>, k: Seq<KE>)
    requires
        forall|i: int| 0 <= i < ops.len() ==> (#[trigger] ops[i]).0 != k,
    ensures
        last_write(ops, k) is None,
    decreases ops.len(),
{
    if ops.len() > 0 {
        assert(ops[ops.len() - 1].0 != k);
        assert forall|i: int| 0 <= i < ops.drop_last().len() implies (
        #[trigger] ops.drop_last()[i]).0 != k by {
            assert(ops.drop_last()[i] == ops[i]);
        }
        lemma_last_write_none(ops.drop_last(), k);
    }
}

/// Prefix independence: in an empty trie, inserting `key.push(e)` alone
/// leaves `key` absent while `key.push(e)` holds the value.
pub proof fn lemma_prefix_not_created<KE: Eq + Hash, V>(
    t: ElementaryTrie<KE, V>,
    key: Seq<KE>,
    e: KE,
    value: V,
)
    requires
        t.well_formed(),
        t.contents() == Map::<Seq<KE>, V>::empty(),
    ensures
        !t.contents().insert(key.push(e), value).contains_key(key),
        t.contents().insert(key.push(e), value).get(key.push(e)) == Some(value),
{
    assert(key.push(e).len() != key.len());
}

/// With distinct keys, the last write of a key is the one pair of `ops` that
/// has it.
proof fn lemma_last_write_distinct<KE, V>(ops: Seq<(Seq<KE>, V)>, k: Seq<KE>, v: V)
    requires
        keys_distinct(ops),
    ensures
        last_write(ops, k) == Some(v) <==> ops.contains((k, v)),
    decreases ops.len(),
{
    if ops.len() > 0 {
        let init = ops.drop_last();
        assert(keys_distinct(init)) by {
            assert forall|i: int, j: int| 0 <= i < j < init.len() implies init[i].0
                != init[j].0 by {
                assert(init[i] == ops[i] && init[j] == ops[j]);
            }
        }
        lemma_last_write_distinct(init, k, v);
        if ops.contains((k, v)) {
            let i = choose|i: int| 0 <= i < ops.len() && ops[i] == (k, v);
            if i < ops.len() - 1 {
                assert(init[i] == (k, v));
                assert(ops.last().0 != k);
            }
        }
        if init.contains((k, v)) {
            let i = choose|i: int| 0 <= i < init.len() && init[i] == (k, v);
            assert(ops[i] == (k, v));
        }
        if ops.last().0 == k {
            assert(!init.contains((k, v))) by {
                if init.contains((k, v)) {
                    let i = choose|i: int| 0 <= i < init.len() && init[i] == (k, v);
                    assert(ops[i].0 == ops[ops.len() - 1].0);
                }
            }
            assert(ops[ops.len() - 1] == ops.last());
        }
    }
}

/// Order does not matter: two orders of the same pairs, with no key repeated,
/// lead from the same contents to the same contents.
pub proof fn lemma_insert_order_irrelevant<KE: Eq + Hash, V>(
    t: ElementaryTrie<KE, V>,
    ops1: Seq<(Seq<KE>, V)>,
    ops2: Seq<(Seq<KE>, V)>,
)
    requires
        t.well_formed(),
        keys_distinct(ops1),
        keys_distinct(ops2),
        ops1.to_set() == ops2.to_set(),
    ensures
        after_inserts(t.contents(), ops1) == after_inserts(t.contents(), ops2),
{
    let m = t.contents();
    assert forall|k: Seq<KE>| #[trigger] after_inserts(m, ops1).get(k) == after_inserts(m, ops2).get(k) by {
        lemma_last_write_wins(m, ops1, k);
        lemma_last_write_wins(m, ops2, k);
        match last_write(ops1, k) {
            Some(v) => {
                lemma_last_write_distinct(ops1, k, v);
                lemma_last_write_distinct(ops2, k, v);
                assert(ops1.to_set().contains((k, v)));
            },
            None => {
                match last_write(ops2, k) {
                    Some(v) => {
                        lemma_last_write_distinct(ops1, k, v);
                        lemma_last_write_distinct(ops2, k, v);
                        assert(ops2.to_set().contains((k, v)));
                    },
                    None => {},
                }
            },
        }
    }
    assert(after_inserts(m, ops1) =~= after_inserts(m, ops2)) by {
        assert forall|k: Seq<KE>| #[trigger] after_inserts(m, ops1).contains_key(k) <==> after_inserts(m, ops2).contains_key(k) by {
            assert(after_inserts(m, ops1).get(k) == after_inserts(m, ops2).get(k));
        }
        assert forall|k: Seq<KE>| #[trigger] after_inserts(m, ops1).contains_key(k) implies after_inserts(m, ops1)[k] == after_inserts(m, ops2)[k] by {
            assert(after_inserts(m, ops1).get(k) == after_inserts(m, ops2).get(k));
        }
    }
}

} // verus!
