//! Adapters over sequences of results, and moving values into collections.

use std::collections::HashMap;
use std::hash::Hash;
use vstd::prelude::*;

verus! {

broadcast use vstd::std_specs::hash::group_hash_axioms;

/// A pull-based stream of results whose errors go through `map_op` as they are
/// taken; values pass unchanged. Nothing is buffered beyond the input.
pub struct MapErrs<V, E, F> {
    rest: Vec<Result<V, E>>,
    map_op: F,
}

impl<V, E, E2, F: Fn(E) -> E2> MapErrs<V, E, F> {
    /// The results still to come, in order.
    pub closed spec fn remaining(&self) -> Seq<Result<V, E>> {
        self.rest@.reverse()
    }

    /// The function applied to errors.
    pub closed spec fn op(&self) -> F {
        self.map_op
    }

    /// A stream of `items` whose errors go through `map_op`.
    pub fn new(items: Vec<Result<V, E>>, map_op: F) -> (r: MapErrs<V, E, F>)
        ensures
            r.remaining() == items@,
            r.op() == map_op,
    {
        let ghost all = items@;
        let mut items = items;
        let mut rest: Vec<Result<V, E>> = Vec::new();
        while items.len() > 0
            invariant
                all == items@ + rest@.reverse(),
            decreases items.len(),
        {
            let ghost before = items@;
            let item = items.pop().unwrap();
            rest.push(item);
            assert(before == items@.push(item));
            assert(all =~= items@ + rest@.reverse());
        }
        assert(all =~= rest@.reverse());
        MapErrs { rest, map_op }
    }

    /// Takes the next result, with its error mapped.
    pub fn next(&mut self) -> (r: Option<Result<V, E2>>)
        requires
            forall|e: E| #[trigger] old(self).op().requires((e,)),
        ensures
            final(self).op() == old(self).op(),
            old(self).remaining().len() == 0 ==> r is None && final(self).remaining() == old(
                self,
            ).remaining(),
            old(self).remaining().len() > 0 ==> final(self).remaining() == old(
                self,
            ).remaining().drop_first(),
            old(self).remaining().len() > 0 ==> (r matches Some(m) && match old(self).remaining()[0] {
                Ok(v) => m == Ok::<V, E2>(v),
                Err(e) => (m matches Err(e2) && old(self).op().ensures((e,), e2)),
            }),
    {
        let ghost before = self.rest@;
        match self.rest.pop() {
            None => None,
            Some(item) => {
                assert(before == self.rest@.push(item));
                assert(before.reverse()[0] == item);
                assert(self.rest@.reverse() =~= before.reverse().drop_first());
                match item {
                    Ok(v) => Some(Ok(v)),
                    Err(e) => {
                        assert(old(self).op().requires((e,)));
                        Some(Err((self.map_op)(e)))
                    },
                }
            },
        }
    }
}

/// Gives `map_errs` to a sequence of results.
pub trait MapErrsExt<V, E, E2, F: Fn(E) -> E2>: Sized {
    spec fn results(&self) -> Seq<Result<V, E>>;

    /// A stream of these results whose errors go through `f`.
    fn map_errs(self, f: F) -> (r: MapErrs<V, E, F>)
        ensures
            r.remaining() == self.results(),
            r.op() == f,
    ;
}

impl<V, E, E2, F: Fn(E) -> E2> MapErrsExt<V, E, E2, F> for Vec<Result<V, E>> {
    open spec fn results(&self) -> Seq<Result<V, E>> {
        self@
    }

    fn map_errs(self, f: F) -> (r: MapErrs<V, E, F>) {
        MapErrs::new(self, f)
    }
}

/// `m` after inserting the pairs `kvs` in order; a later pair wins.
pub open spec fn with_pairs<K, V>(m: Map<K, V>, kvs: Seq<(K, V)>) -> Map<K, V>
    decreases kvs.len(),
{
    if kvs.len() == 0 {
        m
    } else {
        with_pairs(m, kvs.drop_last()).insert(kvs.last().0, kvs.last().1)
    }
}

/// Moves values into a collection that grows by them.
pub trait ExtendTo<R>: Sized {
    /// Whether `after` is `before` extended by these values.
    spec fn extends(&self, before: R, after: R) -> bool;

    /// Moves the values into `target`.
    fn extend_to(self, target: &mut R)
        ensures
            self.extends(*old(target), *final(target)),
    ;
}

impl<T> ExtendTo<Vec<T>> for Vec<T> {
    open spec fn extends(&self, before: Vec<T>, after: Vec<T>) -> bool {
        after@ == before@ + self@
    }

    fn extend_to(self, target: &mut Vec<T>) {
        let mut values = self;
        target.append(&mut values);
    }
}

impl<K: Eq + Hash, V> ExtendTo<HashMap<K, V>> for Vec<(K, V)> {
    /// Where the key type behaves as a hash key, the map gains the pairs in order.
    open spec fn extends(&self, before: HashMap<K, V>, after: HashMap<K, V>) -> bool {
        vstd::std_specs::hash::obeys_key_model::<K>() ==> after@ == with_pairs(before@, self@)
    }

    fn extend_to(self, target: &mut HashMap<K, V>) {
        let ghost all = self@;
        let ghost start = target@;
        for kv in it: self.into_iter()
            invariant
                it.seq() == all,
                vstd::std_specs::hash::obeys_key_model::<K>() ==> target@ == with_pairs(
                    start,
                    all.take(it.index() as int),
                ),
        {
            proof {
                assert(all.take(it.index() + 1).drop_last() =~= all.take(it.index() as int));
            }
            let (k, v) = kv;
            target.insert(k, v);
        }
        assert(all.take(all.len() as int) =~= all);
    }
}

} // verus!
