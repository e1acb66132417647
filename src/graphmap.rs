use vstd::prelude::*;
use std::collections::HashMap;
use crate::expr::{ref_words, ExprRef, ExprTag};
use crate::exprset::{word_children, ExprSet};
use crate::expr::word_tag;

verus! {

broadcast use vstd::std_specs::hash::group_hash_axioms;

/// A pending node: its handle, cache key, children to visit and the next child's index.
type Frame = (ExprRef, u32, Vec<ExprRef>, usize);

/// The key function gives one key per node.
pub open spec fn key_is_function<K: Fn(ExprRef) -> u32>(mk_key: K) -> bool {
    forall|x: ExprRef, k1: u32, k2: u32|
        call_ensures(mk_key, (x,), k1) && call_ensures(mk_key, (x,), k2) ==> k1 == k2
}

/// The cache holds a result for `x`'s key.
pub open spec fn has_result<V, K: Fn(ExprRef) -> u32>(mk_key: K, cache: Map<u32, V>, x: ExprRef) -> bool {
    exists|k: u32| call_ensures(mk_key, (x,), k) && #[trigger] cache.contains_key(k)
}

/// `keys` are the keys of the nodes `xs`, each cached, and `m` holds, in
/// order, clones of their cached results.
pub open spec fn results_at<V: Clone, K: Fn(ExprRef) -> u32>(
    mk_key: K,
    cache: Map<u32, V>,
    xs: Seq<ExprRef>,
    keys: Seq<u32>,
    m: Seq<V>,
) -> bool {
    &&& keys.len() == xs.len()
    &&& m.len() == xs.len()
    &&& forall|i: int|
        #![trigger keys[i]]
        0 <= i < xs.len() ==> call_ensures(mk_key, (xs[i],), keys[i]) && cache.contains_key(keys[i])
            && cloned(cache[keys[i]], m[i])
}

/// `m` holds, in order, clones of the cached results of the nodes `xs`.
pub open spec fn child_results<V: Clone, K: Fn(ExprRef) -> u32>(
    mk_key: K,
    cache: Map<u32, V>,
    xs: Seq<ExprRef>,
    m: Seq<V>,
) -> bool {
    exists|keys: Seq<u32>| results_at(mk_key, cache, xs, keys, m)
}

/// Each entry of `b` that `a` lacks is the result of `process` at a node
/// of `s` with that key, handed the cached results of the node's
/// traversal children in order.
pub open spec fn processed_entries<V: Clone, K: Fn(ExprRef) -> u32, F: Fn(&ExprSet, &Vec<V>, ExprRef) -> V>(
    s: &ExprSet,
    check: bool,
    mk_key: K,
    process: F,
    a: Map<u32, V>,
    b: Map<u32, V>,
) -> bool {
    forall|k: u32|
        #[trigger] b.contains_key(k) && !a.contains_key(k) ==> exists|x: ExprRef, m: Vec<V>|
            s.valid_ref(x) && call_ensures(mk_key, (x,), k) && child_results(
                mk_key,
                b,
                s.traversal_children(x, check),
                m@,
            ) && call_ensures(process, (s, &m, x), b[k])
}

/// Entries of `a` are kept, with their values, in `b`.
pub open spec fn cache_grows<V>(a: Map<u32, V>, b: Map<u32, V>) -> bool {
    forall|k: u32| #[trigger] a.contains_key(k) ==> b.contains_key(k) && b[k] == a[k]
}

pub open spec fn frame_ok(s: &ExprSet, check: bool, f: Frame) -> bool {
    &&& s.valid_ref(f.0)
    &&& f.3 <= f.2@.len()
    &&& f.2@ == s.traversal_children(f.0, check)
    &&& forall|j: int| 0 <= j < f.2@.len() ==> s.valid_ref(#[trigger] f.2@[j]) && f.2@[j].0 < f.0.0
}

pub open spec fn top_remaining(frames: Seq<Frame>) -> int {
    if frames.len() > 0 {
        frames.last().2@.len() - frames.last().3
    } else {
        0
    }
}

proof fn lemma_child_results_grow<V: Clone, K: Fn(ExprRef) -> u32>(
    mk_key: K,
    a: Map<u32, V>,
    b: Map<u32, V>,
    xs: Seq<ExprRef>,
    m: Seq<V>,
)
    requires
        child_results(mk_key, a, xs, m),
        cache_grows(a, b),
    ensures
        child_results(mk_key, b, xs, m),
{
    let keys = choose|keys: Seq<u32>| results_at(mk_key, a, xs, keys, m);
    assert forall|i: int| #![trigger keys[i]] 0 <= i < xs.len() implies call_ensures(mk_key, (xs[i],), keys[i])
        && b.contains_key(keys[i]) && cloned(b[keys[i]], m[i]) by {
        assert(a.contains_key(keys[i]));
    }
    assert(results_at(mk_key, b, xs, keys, m));
}

proof fn lemma_results_push<V: Clone, K: Fn(ExprRef) -> u32>(
    mk_key: K,
    cache: Map<u32, V>,
    xs: Seq<ExprRef>,
    keys: Seq<u32>,
    m: Seq<V>,
    x: ExprRef,
    v: V,
    k: u32,
)
    requires
        results_at(mk_key, cache, xs, keys, m),
        call_ensures(mk_key, (x,), k),
        cache.contains_key(k),
        cloned(cache[k], v),
    ensures
        results_at(mk_key, cache, xs.push(x), keys.push(k), m.push(v)),
{
    let xs2 = xs.push(x);
    let m2 = m.push(v);
    let keys2 = keys.push(k);
    assert forall|i: int| #![trigger keys2[i]] 0 <= i < xs2.len() implies call_ensures(mk_key, (xs2[i],), keys2[i])
        && cache.contains_key(keys2[i]) && cloned(cache[keys2[i]], m2[i]) by {
        if i < xs.len() {
            assert(m2[i] == m[i]);
            assert(xs2[i] == xs[i]);
            assert(keys2[i] == keys[i]);
        }
    }
}

proof fn lemma_has_result_grow<V, K: Fn(ExprRef) -> u32>(
    mk_key: K,
    a: Map<u32, V>,
    b: Map<u32, V>,
    x: ExprRef,
)
    requires
        has_result(mk_key, a, x),
        cache_grows(a, b),
    ensures
        has_result(mk_key, b, x),
{
    let k = choose|k: u32| call_ensures(mk_key, (x,), k) && #[trigger] a.contains_key(k);
    assert(b.contains_key(k));
}

impl ExprSet {
    /// Number of leading children a pruned traversal visits: up to and
    /// including the first one that is not nullable.
    pub open spec fn pruned_len(&self, cs: Seq<u32>) -> int
        decreases cs.len(),
    {
        if cs.len() == 0 {
            0
        } else if !self.nullable_at(ExprRef(cs[0])) {
            1
        } else {
            1 + self.pruned_len(cs.drop_first())
        }
    }

    /// The children a traversal visits: all of them, or, when `check` is set
    /// and `x` is a concatenation, those up to and including the first one
    /// that is not nullable.
    pub open spec fn traversal_children(&self, x: ExprRef, check: bool) -> Seq<ExprRef> {
        let cs = word_children(self.words(x));
        let n = if check && word_tag(self.words(x)[0]) == 9 {
            self.pruned_len(cs)
        } else {
            cs.len() as int
        };
        Seq::new(n as nat, |i: int| ExprRef(cs[i]))
    }

    proof fn lemma_pruned_len(&self, cs: Seq<u32>, i: int)
        requires
            0 <= i <= cs.len(),
            forall|j: int| 0 <= j < i ==> self.nullable_at(ExprRef(#[trigger] cs[j])),
            i < cs.len() ==> !self.nullable_at(ExprRef(cs[i])),
        ensures
            self.pruned_len(cs) == if i < cs.len() {
                i + 1
            } else {
                cs.len() as int
            },
        decreases cs.len(),
    {
        if cs.len() > 0 && i > 0 {
            assert(self.nullable_at(ExprRef(cs[0])));
            assert forall|j: int| 0 <= j < i - 1 implies self.nullable_at(ExprRef(#[trigger] cs.drop_first()[j])) by {
                assert(cs.drop_first()[j] == cs[j + 1]);
            }
            self.lemma_pruned_len(cs.drop_first(), i - 1);
        }
    }

    fn traversal_args(&self, id: ExprRef, concat_nullable_check: bool) -> (r: Vec<ExprRef>)
        requires
            self.wf(),
            self.valid_ref(id),
        ensures
            r@ == self.traversal_children(id, concat_nullable_check),
            forall|j: int| 0 <= j < r@.len() ==> self.valid_ref(#[trigger] r@[j]) && r@[j].0 < id.0,
    {
        let args = self.get_args(id);
        let is_concat = concat_nullable_check && self.get_tag(id) == ExprTag::Concat;
        let ghost cs = word_children(self.words(id));
        proof {
            self.lemma_children_below(id);
            assert forall|j: int| 0 <= j < args@.len() implies args@[j] == ExprRef(cs[j]) by {
                assert(ref_words(args@)[j] == args@[j].0);
            }
        }
        let mut r: Vec<ExprRef> = Vec::new();
        let mut i: usize = 0;
        let mut stopped = false;
        while i < args.len() && !stopped
            invariant
                self.wf(),
                self.valid_ref(id),
                ref_words(args@) == cs,
                args@.len() == cs.len(),
                forall|j: int| 0 <= j < args@.len() ==> args@[j] == ExprRef(cs[j]),
                forall|j: int| 0 <= j < args@.len() ==> self.valid_ref(#[trigger] args@[j]),
                forall|j: int| 0 <= j < cs.len() ==> #[trigger] cs[j] < id.0,
                i <= args@.len(),
                r@ == args@.subrange(0, i as int),
                is_concat ==> forall|j: int| 0 <= j < i && !(stopped && j == i - 1) ==> self.nullable_at(ExprRef(#[trigger] cs[j])),
                stopped ==> i > 0 && is_concat && !self.nullable_at(ExprRef(cs[i - 1])),
            decreases args@.len() - i,
        {
            let a = args[i];
            r.push(a);
            i = i + 1;
            assert(r@ =~= args@.subrange(0, i as int));
            if is_concat && !self.is_nullable(a) {
                stopped = true;
            }
        }
        proof {
            if is_concat {
                if stopped {
                    self.lemma_pruned_len(cs, i - 1);
                } else {
                    self.lemma_pruned_len(cs, cs.len() as int);
                }
            }
            assert(r@ =~= self.traversal_children(id, concat_nullable_check));
        }
        r
    }

    /// The result of `process` at `r`. Nodes are taken from an explicit
    /// stack, children before parents, so deep graphs do not exhaust the call
    /// stack; `process` runs only for keys the cache lacks, once per key, and
    /// is handed the cached results of the node's traversal children in order.
    pub fn map<V: Clone>(
        &self,
        r: ExprRef,
        cache: &mut HashMap<u32, V>,
        concat_nullable_check: bool,
        mk_key: impl Fn(ExprRef) -> u32,
        process: impl Fn(&ExprSet, &Vec<V>, ExprRef) -> V,
    ) -> (res: V)
        requires
            self.wf(),
            self.valid_ref(r),
            forall|x: ExprRef| call_requires(mk_key, (x,)),
            key_is_function(mk_key),
            forall|s: &ExprSet, m: &Vec<V>, x: ExprRef| call_requires(process, (s, m, x)),
        ensures
            cache_grows(old(cache)@, final(cache)@),
            processed_entries(self, concat_nullable_check, mk_key, process, old(cache)@, final(cache)@),
            exists|k: u32|
                call_ensures(mk_key, (r,), k) && final(cache)@.contains_key(k) && cloned(
                    #[trigger] final(cache)@[k],
                    res,
                ),
    {
        let k0 = mk_key(r);
        if let Some(d) = cache.get(&k0) {
            return d.clone();
        }
        let n = self.len();
        let mut visited: Vec<bool> = vec![false; n];
        visited.set(r.0 as usize, true);
        let ghost mut vis: Set<int> = set![r.0 as int];
        let mut frames: Vec<Frame> = Vec::new();
        frames.push((r, k0, self.traversal_args(r, concat_nullable_check), 0));
        proof {
            vstd::set_lib::lemma_int_range(0, n as int);
            assert forall|x: ExprRef| x.0 < n && #[trigger] visited@[x.0 as int] implies has_result(mk_key, cache@, x) || exists|j: int|
                0 <= j < frames@.len() && #[trigger] frames@[j].0 == x by {
                assert(x.0 == r.0);
                assert(frames@[0].0 == x);
            }
        }
        while frames.len() > 0
            invariant
                self.wf(),
                forall|x: ExprRef| call_requires(mk_key, (x,)),
                key_is_function(mk_key),
                forall|s: &ExprSet, m: &Vec<V>, x: ExprRef| call_requires(process, (s, m, x)),
                call_ensures(mk_key, (r,), k0),
                n == self@.len(),
                visited@.len() == n,
                vis.finite(),
                vis.subset_of(vstd::set_lib::set_int_range(0, n as int)),
                vstd::set_lib::set_int_range(0, n as int).finite(),
                vstd::set_lib::set_int_range(0, n as int).len() == n,
                forall|i: int| 0 <= i < n ==> (#[trigger] visited@[i] <==> vis.contains(i)),
                forall|j: int| 0 <= j < frames@.len() ==> frame_ok(self, concat_nullable_check, #[trigger] frames@[j]),
                forall|j: int| 0 <= j < frames@.len() ==> call_ensures(mk_key, (#[trigger] frames@[j].0,), frames@[j].1),
                forall|j: int, l: int| 0 <= j < l < frames@.len() ==> #[trigger] frames@[l].0.0 < #[trigger] frames@[j].0.0,
                forall|j: int, i: int|
                    0 <= j < frames@.len() && 0 <= i < frames@[j].3 ==> has_result(mk_key, cache@, #[trigger] frames@[j].2@[i])
                        || (j + 1 < frames@.len() && i == frames@[j].3 - 1 && frames@[j + 1].0 == frames@[j].2@[i]),
                forall|x: ExprRef|
                    x.0 < n && #[trigger] visited@[x.0 as int] ==> has_result(mk_key, cache@, x) || exists|j: int|
                        0 <= j < frames@.len() && #[trigger] frames@[j].0 == x,
                frames@.len() > 0 ==> frames@[0].0 == r && frames@[0].1 == k0,
                frames@.len() == 0 ==> cache@.contains_key(k0),
                cache_grows(old(cache)@, cache@),
                processed_entries(self, concat_nullable_check, mk_key, process, old(cache)@, cache@),
            decreases n - vis.len(), frames@.len(), top_remaining(frames@),
        {
            proof {
                vstd::set_lib::lemma_len_subset(vis, vstd::set_lib::set_int_range(0, n as int));
            }
            let ghost before = frames@;
            let ghost cache0 = cache@;
            let (id, key, args, idx) = frames.pop().unwrap();
            assert(frame_ok(self, concat_nullable_check, before[before.len() - 1]));
            if idx < args.len() {
                let c = args[idx];
                frames.push((id, key, args, idx + 1));
                assert(frames@.len() == before.len());
                assert(top_remaining(frames@) < top_remaining(before));
                if !visited[c.0 as usize] {
                    let ck = mk_key(c);
                    if !cache.contains_key(&ck) {
                        visited.set(c.0 as usize, true);
                        proof {
                            assert(!vis.contains(c.0 as int));
                            vis = vis.insert(c.0 as int);
                            vstd::set_lib::lemma_len_subset(
                                vis,
                                vstd::set_lib::set_int_range(0, n as int),
                            );
                        }
                        let cargs = self.traversal_args(c, concat_nullable_check);
                        frames.push((c, ck, cargs, 0));
                        proof {
                            assert(frames@[frames@.len() - 1].0 == c);
                        }
                    } else {
                        assert(has_result(mk_key, cache@, c));
                    }
                } else {
                    proof {
                        assert(visited@[c.0 as int]);
                        if !has_result(mk_key, cache@, c) {
                            let j = choose|j: int| 0 <= j < before.len() && #[trigger] before[j].0 == c;
                            if j < before.len() - 1 {
                                assert(before[before.len() - 1].0.0 < before[j].0.0);
                            }
                            assert(c.0 < id.0);
                        }
                    }
                }
                proof {
                    let t = before.len() - 1;
                    assert forall|j: int, i: int|
                        0 <= j < frames@.len() && 0 <= i < frames@[j].3 implies has_result(mk_key, cache@, #[trigger] frames@[j].2@[i])
                            || (j + 1 < frames@.len() && i == frames@[j].3 - 1 && frames@[j + 1].0 == frames@[j].2@[i]) by {
                        if j < t {
                            assert(frames@[j] == before[j]);
                            assert(frames@[j + 1].0 == before[j + 1].0);
                        } else if j == t {
                            assert(frames@[j].2@ == args@);
                            if i < idx {
                                assert(before[t].2@[i] == args@[i]);
                            }
                        }
                    }
                    assert forall|x: ExprRef| x.0 < n && #[trigger] visited@[x.0 as int] implies has_result(mk_key, cache@, x) || exists|j: int|
                        0 <= j < frames@.len() && #[trigger] frames@[j].0 == x by {
                        if x == c && frames@.len() > before.len() {
                            assert(frames@[frames@.len() - 1].0 == x);
                        } else if !has_result(mk_key, cache@, x) {
                            assert(before.len() > 0);
                            let j = choose|j: int| 0 <= j < before.len() && #[trigger] before[j].0 == x;
                            assert(frames@[j].0 == x);
                        }
                    }
                }
            } else {
                if !cache.contains_key(&key) {
                    let mut mapped: Vec<V> = Vec::new();
                    let mut j: usize = 0;
                    proof {
                        assert forall|i: int| 0 <= i < args@.len() implies has_result(mk_key, cache@, #[trigger] args@[i]) by {
                            assert(before[before.len() - 1].2@[i] == args@[i]);
                        }
                        assert(results_at(mk_key, cache@, args@.subrange(0, 0), Seq::<u32>::empty(), mapped@));
                    }
                    let ghost mut keys: Seq<u32> = Seq::empty();
                    while j < args.len()
                        invariant
                            forall|x: ExprRef| call_requires(mk_key, (x,)),
                            key_is_function(mk_key),
                            j <= args@.len(),
                            forall|i: int| 0 <= i < args@.len() ==> has_result(mk_key, cache@, #[trigger] args@[i]),
                            results_at(mk_key, cache@, args@.subrange(0, j as int), keys, mapped@),
                        decreases args@.len() - j,
                    {
                        let kj = mk_key(args[j]);
                        proof {
                            assert(has_result(mk_key, cache@, args@[j as int]));
                            let k1 = choose|k1: u32| call_ensures(mk_key, (args@[j as int],), k1) && #[trigger] cache@.contains_key(k1);
                            assert(k1 == kj);
                        }
                        let got = cache.get(&kj).unwrap();
                        let v = got.clone();
                        proof {
                            assert(*got == cache@[kj]);
                            assert(cloned(cache@[kj], v));
                            lemma_results_push(mk_key, cache@, args@.subrange(0, j as int), keys, mapped@, args@[j as int], v, kj);
                            assert(args@.subrange(0, j as int).push(args@[j as int]) =~= args@.subrange(0, j + 1));
                            keys = keys.push(kj);
                        }
                        mapped.push(v);
                        j = j + 1;
                    }
                    assert(args@.subrange(0, args@.len() as int) =~= args@);
                    assert(child_results(mk_key, cache@, args@, mapped@));
                    let v = process(self, &mapped, id);
                    let ghost prev = cache@;
                    cache.insert(key, v);
                    proof {
                        assert(cache@ == prev.insert(key, v));
                        assert(cache_grows(prev, cache@));
                        lemma_child_results_grow(mk_key, prev, cache@, args@, mapped@);
                        assert forall|k: u32|
                            #[trigger] cache@.contains_key(k) && !old(cache)@.contains_key(k) implies exists|
                            x: ExprRef,
                            m: Vec<V>,
                        | self.valid_ref(x) && call_ensures(mk_key, (x,), k) && child_results(
                            mk_key,
                            cache@,
                            self.traversal_children(x, concat_nullable_check),
                            m@,
                        ) && call_ensures(process, (self, &m, x), cache@[k]) by {
                            if k == key {
                                assert(self.valid_ref(id) && call_ensures(mk_key, (id,), k));
                            } else {
                                assert(prev.contains_key(k));
                                let (x, m) = choose|x: ExprRef, m: Vec<V>|
                                    self.valid_ref(x) && call_ensures(mk_key, (x,), k) && child_results(
                                        mk_key,
                                        prev,
                                        self.traversal_children(x, concat_nullable_check),
                                        m@,
                                    ) && call_ensures(process, (self, &m, x), prev[k]);
                                lemma_child_results_grow(mk_key, prev, cache@, self.traversal_children(x, concat_nullable_check), m@);
                            }
                        }
                    }
                }
                proof {
                    assert(call_ensures(mk_key, (before[before.len() - 1].0,), before[before.len() - 1].1));
                    assert(cache@.contains_key(key));
                    assert(has_result(mk_key, cache@, id));
                    assert(frames@ =~= before.drop_last());
                    assert forall|j: int, i: int|
                        0 <= j < frames@.len() && 0 <= i < frames@[j].3 implies has_result(mk_key, cache@, #[trigger] frames@[j].2@[i])
                            || (j + 1 < frames@.len() && i == frames@[j].3 - 1 && frames@[j + 1].0 == frames@[j].2@[i]) by {
                        assert(frames@[j] == before[j]);
                        if has_result(mk_key, cache0, before[j].2@[i]) {
                            lemma_has_result_grow(mk_key, cache0, cache@, before[j].2@[i]);
                        }
                    }
                    assert forall|x: ExprRef| x.0 < n && #[trigger] visited@[x.0 as int] implies has_result(mk_key, cache@, x) || exists|j: int|
                        0 <= j < frames@.len() && #[trigger] frames@[j].0 == x by {
                        if has_result(mk_key, cache0, x) {
                            lemma_has_result_grow(mk_key, cache0, cache@, x);
                        } else if x != id {
                            let j = choose|j: int| 0 <= j < before.len() && #[trigger] before[j].0 == x;
                            assert(frames@[j].0 == x);
                        }
                    }
                }
            }
        }
        cache.get(&k0).unwrap().clone()
    }

    /// `map` with a fresh cache keyed by the node's own identifier, and no pruning.
    pub fn simple_map<V: Clone>(
        &self,
        r: ExprRef,
        process: impl Fn(&ExprSet, &Vec<V>, ExprRef) -> V,
    ) -> (res: V)
        requires
            self.wf(),
            self.valid_ref(r),
            forall|s: &ExprSet, m: &Vec<V>, x: ExprRef| call_requires(process, (s, m, x)),
        ensures
            exists|m: Vec<V>, v: V|
                m@.len() == self.traversal_children(r, false).len() && call_ensures(
                    process,
                    (self, &m, r),
                    v,
                ) && cloned(v, res),
    {
        let mut cache: HashMap<u32, V> = HashMap::new();
        let key = |e: ExprRef| -> (k: u32)
            ensures
                k == e.0,
            { e.0 };
        let ghost empty = cache@;
        let res = self.map(r, &mut cache, false, key, process);
        proof {
            let k = choose|k: u32| call_ensures(key, (r,), k) && cache@.contains_key(k) && cloned(
                #[trigger] cache@[k],
                res,
            );
            assert(!empty.contains_key(k));
            let (x, m) = choose|x: ExprRef, m: Vec<V>|
                self.valid_ref(x) && call_ensures(key, (x,), k) && child_results(
                    key,
                    cache@,
                    self.traversal_children(x, false),
                    m@,
                ) && call_ensures(process, (self, &m, x), cache@[k]);
            assert(x == r);
            assert(cloned(cache@[k], res));
        }
        res
    }
}

} // verus!
