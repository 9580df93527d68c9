//! Zipping maps over the sorted union of their key sets.

use std::collections::HashMap;
use vstd::prelude::*;

verus! {

/// The keys of `m`, in unspecified order. Relies on `HashMap::keys`: the
/// iterator yields each key of the map exactly once.
#[verifier::external_body]
fn keys_vec(m: &HashMap<i64, i64>) -> (r: Vec<i64>)
    ensures
        forall|k: i64| #[trigger] r@.contains(k) <==> m@.contains_key(k),
        forall|i: int, j: int| 0 <= i < j < r@.len() ==> r@[i] != r@[j],
{
    m.keys().copied().collect()
}

/// The value stored under `k`.
fn map_value(m: &HashMap<i64, i64>, k: i64) -> (r: Option<i64>)
    ensures
        r == (if m@.contains_key(k) {
            Option::Some(m@[k])
        } else {
            Option::<i64>::None
        }),
{
    match m.get(&k) {
        Option::Some(v) => Option::Some(*v),
        Option::None => Option::None,
    }
}

/// Inserts every key of `extra` that is not yet present into the sorted
/// key list.
fn merge_keys(keys: &mut Vec<i64>, extra: &Vec<i64>)
    requires
        forall|i: int, j: int| 0 <= i < j < old(keys)@.len() ==> old(keys)@[i] < old(keys)@[j],
    ensures
        forall|i: int, j: int|
            0 <= i < j < final(keys)@.len() ==> final(keys)@[i] < final(keys)@[j],
        forall|k: i64| #[trigger]
            final(keys)@.contains(k) <==> (old(keys)@.contains(k) || extra@.contains(k)),
{
    let n = extra.len();
    for t in 0..n
        invariant
            n == extra@.len(),
            forall|i: int, j: int| 0 <= i < j < keys@.len() ==> keys@[i] < keys@[j],
            forall|k: i64| #[trigger]
                keys@.contains(k) <==> (old(keys)@.contains(k) || extra@.subrange(
                    0,
                    t as int,
                ).contains(k)),
    {
        let x = extra[t];
        let mut pos: usize = 0;
        let m = keys.len();
        while pos < m && keys[pos] < x
            invariant
                m == keys@.len(),
                pos <= m,
                forall|i: int| 0 <= i < pos ==> keys@[i] < x,
            decreases m - pos,
        {
            pos = pos + 1;
        }
        let present = pos < m && keys[pos] == x;
        proof {
            if present {
                assert(keys@[pos as int] == x);
                assert(keys@.contains(x));
            }
        }
        let ghost before = keys@;
        if !present {
            proof {
                assert(forall|i: int| pos <= i < keys@.len() ==> x < #[trigger] keys@[i]) by {
                    if pos < keys@.len() {
                        assert(!(keys@[pos as int] < x) && keys@[pos as int] != x);
                        assert(forall|i: int|
                            pos < i < keys@.len() ==> keys@[pos as int] < #[trigger] keys@[i]);
                    }
                }
            }
            keys.insert(pos, x);
            proof {
                assert forall|a: int, b: int| 0 <= a < b < keys@.len() implies keys@[a] < keys@[
                b] by {
                    let pi = pos as int;
                    assert(keys@[a] == if a < pi {
                        before[a]
                    } else if a == pi {
                        x
                    } else {
                        before[a - 1]
                    });
                    assert(keys@[b] == if b < pi {
                        before[b]
                    } else if b == pi {
                        x
                    } else {
                        before[b - 1]
                    });
                }
            }
        }
        proof {
            let sub = extra@.subrange(0, t + 1 as int);
            assert forall|k: i64| #[trigger]
                keys@.contains(k) <==> (old(keys)@.contains(k) || sub.contains(k)) by {
                assert(extra@.subrange(0, t as int) =~= sub.drop_last());
                if keys@.contains(k) {
                    let i = choose|i: int| 0 <= i < keys@.len() && keys@[i] == k;
                    if !present && pos as int <= i {
                        if i == pos as int {
                            assert(sub[t as int] == x);
                        } else {
                            assert(before[i - 1] == k);
                            assert(before.contains(k));
                        }
                    } else {
                        if !present {
                            assert(before[i] == k);
                        }
                        assert(before.contains(k));
                    }
                }
                if before.contains(k) {
                    let i = choose|i: int| 0 <= i < before.len() && before[i] == k;
                    if !present && pos as int <= i {
                        assert(keys@[i + 1] == k);
                    } else if !present {
                        assert(keys@[i] == k);
                    }
                    assert(keys@.contains(k));
                }
                if sub.contains(k) {
                    let i = choose|i: int| 0 <= i < sub.len() && sub[i] == k;
                    if i < t as int {
                        assert(sub.drop_last()[i] == k);
                        assert(extra@.subrange(0, t as int).contains(k));
                    } else {
                        assert(k == x);
                        if present {
                            assert(before.contains(x));
                            let w = choose|w: int| 0 <= w < before.len() && before[w] == x;
                            assert(keys@.contains(x)) by {
                                assert(keys@ == before);
                                assert(keys@[w] == x);
                            }
                        } else {
                            assert(keys@[pos as int] == x);
                            assert(keys@.contains(x));
                        }
                    }
                }
                if extra@.subrange(0, t as int).contains(k) {
                    let i = choose|i: int|
                        0 <= i < t as int && extra@.subrange(0, t as int)[i] == k;
                    assert(sub[i] == k);
                    assert(sub.contains(k));
                }
            }
        }
    }
    proof {
        assert(extra@.subrange(0, n as int) =~= extra@);
    }
}

/// `K` is the key type, `M` is the map type that maps keys of type `K` to
/// values.
pub trait UnionZip<K, M> {
    /// What `union_zip` is allowed to return.
    spec fn union_zip_post(&self, other: &M, r: UnionZipped<K, M>) -> bool;

    fn union_zip<'a>(&'a self, other: &'a M) -> (r: UnionZipped<'a, K, M>)
        ensures
            self.union_zip_post(other, r),
    ;
}

pub trait IntoUnionZip<'a, K, M> {
    /// When `into_union_zip` may be called.
    spec fn into_union_zip_req(self, other: &M) -> bool;

    /// What `into_union_zip` is allowed to return.
    spec fn into_union_zip_post(self, other: &M, r: UnionZipped<'a, K, M>) -> bool;

    fn into_union_zip(self, other: &'a M) -> (r: UnionZipped<'a, K, M>)
        requires
            self.into_union_zip_req(other),
        ensures
            self.into_union_zip_post(other, r),
    ;
}

/// The sorted union of the key sets of several maps, ready for iteration.
pub struct UnionZipped<'a, K, M> {
    pub keys: Vec<K>,
    pub maps: Vec<&'a M>,
}

pub struct UnionZippedIter<'a, K, M> {
    pub keys: Vec<K>,
    pub pos: usize,
    pub maps: Vec<&'a M>,
}

/// The value a map associates with `k`, if any.
pub open spec fn spec_lookup(m: Map<i64, i64>, k: i64) -> Option<i64> {
    if m.contains_key(k) {
        Option::Some(m[k])
    } else {
        Option::None
    }
}

/// The sorted-key-union invariant over `i64`-keyed hash maps.
pub open spec fn union_keys_ok(keys: Seq<i64>, maps: Seq<&HashMap<i64, i64>>) -> bool {
    &&& forall|i: int, j: int| 0 <= i < j < keys.len() ==> keys[i] < keys[j]
    &&& forall|k: i64| #[trigger]
        keys.contains(k) <==> exists|m: int| 0 <= m < maps.len() && (#[trigger] maps[m])@.contains_key(k)
}

impl UnionZip<i64, HashMap<i64, i64>> for HashMap<i64, i64> {
    open spec fn union_zip_post(
        &self,
        other: &HashMap<i64, i64>,
        r: UnionZipped<i64, HashMap<i64, i64>>,
    ) -> bool {
        &&& r.maps@.len() == 2
        &&& r.maps@[0]@ == self@
        &&& r.maps@[1]@ == other@
        &&& union_keys_ok(r.keys@, r.maps@)
    }

    /// Takes the sorted union of the two maps' key sets for future iteration.
    fn union_zip<'a>(&'a self, other: &'a HashMap<i64, i64>) -> (r: UnionZipped<
        'a,
        i64,
        HashMap<i64, i64>,
    >) {
        let mut keys: Vec<i64> = Vec::new();
        let self_keys = keys_vec(self);
        let other_keys = keys_vec(other);
        merge_keys(&mut keys, &self_keys);
        merge_keys(&mut keys, &other_keys);
        let mut maps: Vec<&HashMap<i64, i64>> = Vec::new();
        maps.push(self);
        maps.push(other);
        proof {
            assert forall|k: i64| #[trigger]
                keys@.contains(k) <==> exists|m: int|
                    0 <= m < maps@.len() && (#[trigger] maps@[m])@.contains_key(k) by {
                if self@.contains_key(k) {
                    assert(maps@[0]@.contains_key(k));
                }
                if other@.contains_key(k) {
                    assert(maps@[1]@.contains_key(k));
                }
            }
        }
        UnionZipped { keys, maps }
    }
}

impl<'a> IntoUnionZip<'a, i64, HashMap<i64, i64>> for UnionZipped<'a, i64, HashMap<i64, i64>> {
    open spec fn into_union_zip_req(self, other: &HashMap<i64, i64>) -> bool {
        forall|i: int, j: int| 0 <= i < j < self.keys@.len() ==> self.keys@[i] < self.keys@[j]
    }

    open spec fn into_union_zip_post(
        self,
        other: &HashMap<i64, i64>,
        r: UnionZipped<'a, i64, HashMap<i64, i64>>,
    ) -> bool {
        &&& r.maps@ == self.maps@.push(other)
        &&& (union_keys_ok(self.keys@, self.maps@) ==> union_keys_ok(r.keys@, r.maps@))
    }

    /// Extends the key union with one more map's keys.
    fn into_union_zip(self, other: &'a HashMap<i64, i64>) -> (r: UnionZipped<
        'a,
        i64,
        HashMap<i64, i64>,
    >) {
        let mut keys = self.keys;
        let mut maps = self.maps;
        let ghost old_keys = keys@;
        let ghost old_maps = maps@;
        let other_keys = keys_vec(other);
        merge_keys(&mut keys, &other_keys);
        maps.push(other);
        proof {
            if union_keys_ok(old_keys, old_maps) {
                assert forall|k: i64| #[trigger]
                    keys@.contains(k) <==> exists|m: int|
                        0 <= m < maps@.len() && (#[trigger] maps@[m])@.contains_key(k) by {
                    if keys@.contains(k) {
                        if old_keys.contains(k) {
                            let m = choose|m: int|
                                0 <= m < old_maps.len() && (#[trigger] old_maps[m])@.contains_key(
                                k);
                            assert(maps@[m]@.contains_key(k));
                        } else {
                            assert(other@.contains_key(k));
                            assert(maps@[maps@.len() - 1]@.contains_key(k));
                        }
                    }
                    if exists|m: int|
                        0 <= m < maps@.len() && (#[trigger] maps@[m])@.contains_key(k) {
                        let m = choose|m: int|
                            0 <= m < maps@.len() && (#[trigger] maps@[m])@.contains_key(k);
                        if m < old_maps.len() {
                            assert(old_maps[m]@.contains_key(k));
                            assert(old_keys.contains(k));
                        } else {
                            assert(other_keys@.contains(k));
                        }
                    }
                }
            }
        }
        UnionZipped { keys, maps }
    }
}

impl<'a> UnionZipped<'a, i64, HashMap<i64, i64>> {
    /// Starts iterating over the key union in ascending order.
    pub fn into_iter(self) -> (r: UnionZippedIter<'a, i64, HashMap<i64, i64>>)
        ensures
            r.keys@ == self.keys@,
            r.maps@ == self.maps@,
            r.pos == 0,
    {
        UnionZippedIter { keys: self.keys, pos: 0, maps: self.maps }
    }
}

impl<'a> UnionZippedIter<'a, i64, HashMap<i64, i64>> {
    /// Yields the next key of the union together with each map's value under
    /// that key.
    pub fn next(&mut self) -> (r: Option<(i64, Vec<Option<i64>>)>)
        requires
            old(self).pos <= old(self).keys@.len(),
        ensures
            final(self).keys@ == old(self).keys@,
            final(self).maps@ == old(self).maps@,
            match r {
                Option::None => old(self).pos == old(self).keys@.len() && final(self).pos == old(
                    self,
                ).pos,
                Option::Some(out) => {
                    &&& final(self).pos == old(self).pos + 1
                    &&& out.0 == old(self).keys@[old(self).pos as int]
                    &&& out.1@.len() == old(self).maps@.len()
                    &&& forall|m: int|
                        0 <= m < old(self).maps@.len() ==> #[trigger] out.1@[m] == spec_lookup(
                            old(self).maps@[m]@,
                            out.0,
                        )
                },
            },
    {
        if self.pos >= self.keys.len() {
            return Option::None;
        }
        let k = self.keys[self.pos];
        let n = self.maps.len();
        let mut mapped: Vec<Option<i64>> = Vec::new();
        for m in 0..n
            invariant
                n == self.maps@.len(),
                self.pos < self.keys@.len(),
                k == self.keys@[self.pos as int],
                mapped@.len() == m,
                forall|t: int|
                    0 <= t < m ==> #[trigger] mapped@[t] == spec_lookup(self.maps@[t]@, k),
        {
            let v = map_value(self.maps[m], k);
            mapped.push(v);
        }
        self.pos = self.pos + 1;
        Option::Some((k, mapped))
    }
}

} // verus!
