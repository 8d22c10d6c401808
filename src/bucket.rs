use vstd::prelude::*;

use std::collections::BTreeMap;

use crate::comparator::{Comparator, ExactGroupComparator, GroupComparator, JsonGroupComparator};
use vstd::std_specs::cmp::OrdSpec;
use vstd::std_specs::iter::IteratorSpec;

verus! {

/// The files of one size that one comparator judges: the unit within which
/// duplicates are looked for.
#[derive(Debug)]
pub struct Bucket {
    pub size: u64,
    pub comparator: Comparator,
    pub files: Vec<String>,
}

impl Bucket {
    pub open spec fn paths(&self) -> Seq<Seq<char>> {
        self.files@.map_values(|s: String| s@)
    }
}

/// Bucket keys are processed from the largest size down; for one size,
/// from the last comparator name down.
pub open spec fn key_before(s1: u64, c1: Comparator, s2: u64, c2: Comparator) -> bool {
    s1 > s2 || (s1 == s2 && c1.rank() > c2.rank())
}

/// Strictly ordered by key: every key at most once.
pub open spec fn keys_sorted(bs: Seq<Bucket>) -> bool {
    forall|i: int, j: int|
        0 <= i < j < bs.len() ==> key_before(
            #[trigger] bs[i].size,
            bs[i].comparator,
            #[trigger] bs[j].size,
            bs[j].comparator,
        )
}

/// The paths, in the order found, of the files of `size` bytes that `comp`
/// judges, where `size` is at least `min_size`.
pub open spec fn bucket_files(
    found: Seq<(u64, String)>,
    min_size: u64,
    size: u64,
    comp: Comparator,
) -> Seq<Seq<char>>
    decreases found.len(),
{
    if found.len() == 0 {
        Seq::empty()
    } else {
        let rest = bucket_files(found.drop_last(), min_size, size, comp);
        let e = found.last();
        if e.0 == size && size >= min_size && comp.spec_can_analyse(e.1@) {
            rest.push(e.1@)
        } else {
            rest
        }
    }
}

/// Some bucket has the key `(size, comp)`.
pub open spec fn has_key(bs: Seq<Bucket>, size: u64, comp: Comparator) -> bool {
    exists|i: int| 0 <= i < bs.len() && (#[trigger] bs[i]).size == size && bs[i].comparator == comp
}

proof fn lemma_bucket_files_step(
    found: Seq<(u64, String)>,
    k: int,
    min_size: u64,
    size: u64,
    comp: Comparator,
)
    requires
        0 <= k < found.len(),
    ensures
        bucket_files(found.take(k + 1), min_size, size, comp) == if found[k].0 == size && size
            >= min_size && comp.spec_can_analyse(found[k].1@) {
            bucket_files(found.take(k), min_size, size, comp).push(found[k].1@)
        } else {
            bucket_files(found.take(k), min_size, size, comp)
        },
{
    assert(found.take(k + 1).drop_last() =~= found.take(k));
}

/// Comparators in strictly increasing order of name.
pub open spec fn ranks_increasing(cs: Seq<Comparator>) -> bool {
    forall|i: int, j: int| 0 <= i < j < cs.len() ==> #[trigger] cs[i].rank() < #[trigger] cs[j].rank()
}

proof fn lemma_rank_determines(a: Comparator, b: Comparator)
    requires
        a.rank() == b.rank(),
    ensures
        a == b,
{
    match (a, b) {
        (Comparator::Exact(x), Comparator::Exact(y)) => {
            assert(x == y);
        },
        (Comparator::Json(x), Comparator::Json(y)) => {
            assert(x == y);
        },
        _ => {},
    }
}

/// The paths of the bucket with key `(size, comp)`; none where there is no
/// such bucket.
pub open spec fn key_paths(bs: Seq<Bucket>, size: u64, comp: Comparator) -> Seq<Seq<char>> {
    if has_key(bs, size, comp) {
        let i = choose|i: int|
            0 <= i < bs.len() && (#[trigger] bs[i]).size == size && bs[i].comparator == comp;
        bs[i].paths()
    } else {
        Seq::empty()
    }
}

pub(crate) proof fn lemma_key_paths(bs: Seq<Bucket>, i: int)
    requires
        keys_sorted(bs),
        0 <= i < bs.len(),
    ensures
        key_paths(bs, bs[i].size, bs[i].comparator) == bs[i].paths(),
{
    let j = choose|j: int|
        0 <= j < bs.len() && (#[trigger] bs[j]).size == bs[i].size && bs[j].comparator
            == bs[i].comparator;
    if j < i {
        assert(key_before(bs[j].size, bs[j].comparator, bs[i].size, bs[i].comparator));
    } else if j > i {
        assert(key_before(bs[i].size, bs[i].comparator, bs[j].size, bs[j].comparator));
    }
}

/// One above the rank of the `j`-th comparator, the comparators before it
/// having been handled.
spec fn rank_bound(cs: Seq<Comparator>, j: int) -> nat {
    if j < cs.len() {
        cs[j].rank()
    } else {
        2
    }
}

/// The files of the bucket `(size, comp)` once entry `k` has been handled
/// for the comparators before the `j`-th.
spec fn files_at(
    found: Seq<(u64, String)>,
    k: int,
    cs: Seq<Comparator>,
    j: int,
    min_size: u64,
    size: u64,
    comp: Comparator,
) -> Seq<Seq<char>> {
    if comp.rank() < rank_bound(cs, j) {
        bucket_files(found.take(k + 1), min_size, size, comp)
    } else {
        bucket_files(found.take(k), min_size, size, comp)
    }
}

proof fn lemma_files_at_step(
    found: Seq<(u64, String)>,
    k: int,
    cs: Seq<Comparator>,
    j: int,
    min_size: u64,
    s: u64,
    comp: Comparator,
)
    requires
        0 <= k < found.len(),
        0 <= j < cs.len(),
        ranks_increasing(cs),
        cs.contains(comp),
    ensures
        files_at(found, k, cs, j + 1, min_size, s, comp) == if comp == cs[j] && s == found[k].0
            && s >= min_size && comp.spec_can_analyse(found[k].1@) {
            files_at(found, k, cs, j, min_size, s, comp).push(found[k].1@)
        } else {
            files_at(found, k, cs, j, min_size, s, comp)
        },
{
    let m = choose|m: int| 0 <= m < cs.len() && cs[m] == comp;
    lemma_bucket_files_step(found, k, min_size, s, comp);
    if m > j {
        assert(cs[j].rank() < comp.rank());
        if j + 1 < cs.len() && m > j + 1 {
            assert(cs[j + 1].rank() < comp.rank());
        }
    }
    if comp.rank() == cs[j].rank() {
        lemma_rank_determines(comp, cs[j]);
    }
}


/// The comparator whose name has position `r` in name order.
pub open spec fn comparator_of_rank(r: u8) -> Comparator {
    if r == 0 {
        Comparator::Exact(ExactGroupComparator {  })
    } else {
        Comparator::Json(JsonGroupComparator {  })
    }
}

fn comparator_from_rank(r: u8) -> (c: Comparator)
    ensures
        c == comparator_of_rank(r),
{
    if r == 0 {
        Comparator::Exact(ExactGroupComparator {  })
    } else {
        Comparator::Json(JsonGroupComparator {  })
    }
}

proof fn lemma_rank_roundtrip(c: Comparator)
    ensures
        c.rank() < 2,
        comparator_of_rank(c.rank() as u8) == c,
        comparator_of_rank(c.rank() as u8).rank() == c.rank(),
{
    lemma_rank_determines(comparator_of_rank(c.rank() as u8), c);
}

/// The paths that `m` holds under the key of `(size, comp)`.
spec fn map_paths(m: Map<(u64, u8), Vec<String>>, size: u64, comp: Comparator) -> Seq<Seq<char>> {
    let k = (size, comp.rank() as u8);
    if m.contains_key(k) {
        m[k]@.map_values(|x: String| x@)
    } else {
        Seq::empty()
    }
}

/// The keys of `m` name registered comparators and hold paths.
spec fn map_keys_ok(m: Map<(u64, u8), Vec<String>>, cs: Seq<Comparator>) -> bool {
    forall|k: (u64, u8)|
        #[trigger] m.contains_key(k) ==> m[k]@.len() >= 1 && k.1 < 2 && cs.contains(
            comparator_of_rank(k.1),
        )
}

/// The paths of every key, in the order found.
fn collect_paths(found: &Vec<(u64, String)>, min_size: u64, comparators: &Vec<Comparator>) -> (r:
    BTreeMap<(u64, u8), Vec<String>>)
    requires
        ranks_increasing(comparators@),
    ensures
        map_keys_ok(r@, comparators@),
        forall|s: u64, comp: Comparator|
            comparators@.contains(comp) ==> #[trigger] map_paths(r@, s, comp) == bucket_files(
                found@,
                min_size,
                s,
                comp,
            ),
{
    broadcast use vstd::std_specs::btree::group_btree_axioms;

    let mut map: BTreeMap<(u64, u8), Vec<String>> = BTreeMap::new();
    proof {
        broadcast use vstd::laws_cmp::group_laws_cmp;

        assert(vstd::laws_cmp::obeys_cmp::<(u64, u8)>());
    }
    let mut k: usize = 0;
    while k < found.len()
        invariant
            0 <= k <= found@.len(),
            ranks_increasing(comparators@),
            vstd::laws_cmp::obeys_cmp::<(u64, u8)>(),
            map_keys_ok(map@, comparators@),
            forall|s: u64, comp: Comparator|
                comparators@.contains(comp) ==> #[trigger] map_paths(map@, s, comp)
                    == bucket_files(found@.take(k as int), min_size, s, comp),
        decreases found@.len() - k,
    {
        let size = found[k].0;
        let mut j: usize = 0;
        while j < comparators.len()
            invariant
                0 <= k < found@.len(),
                0 <= j <= comparators@.len(),
                size == found@[k as int].0,
                ranks_increasing(comparators@),
                vstd::laws_cmp::obeys_cmp::<(u64, u8)>(),
                map_keys_ok(map@, comparators@),
                forall|s: u64, comp: Comparator|
                    comparators@.contains(comp) ==> #[trigger] map_paths(map@, s, comp)
                        == files_at(found@, k as int, comparators@, j as int, min_size, s, comp),
            decreases comparators@.len() - j,
        {
            let c = comparators[j];
            let ghost old_m = map@;
            let hit = size >= min_size && c.can_analyse(found[k].1.as_str());
            proof {
                assert(comparators@.contains(c)) by {
                    assert(comparators@[j as int] == c);
                }
                lemma_rank_roundtrip(c);
            }
            if hit {
                let key = (size, c.rank_of());
                let mut paths = match map.remove(&key) {
                    Some(v) => v,
                    None => Vec::new(),
                };
                let ghost before = paths@;
                paths.push(found[k].1.clone());
                map.insert(key, paths);
                proof {
                    assert(old_m.contains_key(key) ==> before == old_m[key]@);
                    assert(!old_m.contains_key(key) ==> before.len() == 0);
                    assert(map@ == old_m.remove(key).insert(key, paths));
                    assert forall|s: u64, comp: Comparator| comparators@.contains(comp) implies #[trigger] map_paths(
                        map@,
                        s,
                        comp,
                    ) == if s == size && comp == c {
                        map_paths(old_m, s, comp).push(found@[k as int].1@)
                    } else {
                        map_paths(old_m, s, comp)
                    } by {
                        lemma_rank_roundtrip(comp);
                        if comp.rank() == c.rank() {
                            lemma_rank_determines(comp, c);
                        }
                        if s == size && comp == c {
                            assert(paths@.map_values(|x: String| x@) =~= map_paths(
                                old_m,
                                s,
                                comp,
                            ).push(found@[k as int].1@));
                        }
                    }
                    assert forall|kk: (u64, u8)| #[trigger] map@.contains_key(kk) implies map@[kk]@.len()
                        >= 1 && kk.1 < 2 && comparators@.contains(comparator_of_rank(kk.1)) by {
                        if kk != key {
                            assert(old_m.contains_key(kk));
                        }
                    }
                }
            }
            proof {
                assert forall|s: u64, comp: Comparator| comparators@.contains(comp) implies #[trigger] map_paths(
                    map@,
                    s,
                    comp,
                ) == files_at(found@, k as int, comparators@, j + 1, min_size, s, comp) by {
                    lemma_files_at_step(found@, k as int, comparators@, j as int, min_size, s, comp);
                    assert(map_paths(old_m, s, comp) == files_at(
                        found@,
                        k as int,
                        comparators@,
                        j as int,
                        min_size,
                        s,
                        comp,
                    ));
                }
            }
            j = j + 1;
        }
        proof {
            assert forall|s: u64, comp: Comparator| comparators@.contains(comp) implies #[trigger] map_paths(
                map@,
                s,
                comp,
            ) == bucket_files(found@.take(k + 1), min_size, s, comp) by {
                assert(map_paths(map@, s, comp) == files_at(
                    found@,
                    k as int,
                    comparators@,
                    j as int,
                    min_size,
                    s,
                    comp,
                ));
            }
        }
        k = k + 1;
    }
    proof {
        assert(found@.take(k as int) =~= found@);
    }
    map
}

/// The keys of `m`, in increasing order.
fn sorted_keys(m: &BTreeMap<(u64, u8), Vec<String>>) -> (r: Vec<(u64, u8)>)
    ensures
        forall|i: int| 0 <= i < r@.len() ==> m@.contains_key(#[trigger] r@[i]),
        forall|k: (u64, u8)| #[trigger] m@.contains_key(k) ==> r@.contains(k),
        forall|i: int, j: int|
            0 <= i < j < r@.len() ==> (#[trigger] r@[i].0 < #[trigger] r@[j].0 || (r@[i].0
                == r@[j].0 && r@[i].1 < r@[j].1)),
{
    broadcast use vstd::std_specs::btree::group_btree_axioms;

    let mut out: Vec<(u64, u8)> = Vec::new();
    let iter = m.iter();
    let ghost pairs = iter.remaining();
    let ghost keys = pairs.map_values(|kv: (&(u64, u8), &Vec<String>)| *kv.0);
    proof {
        broadcast use vstd::laws_cmp::group_laws_cmp;

        assert(vstd::laws_cmp::obeys_cmp::<(u64, u8)>());
        assert(vstd::std_specs::btree::increasing_seq(keys));
        assert(forall|i: int, j: int|
            0 <= i < j < keys.len() ==> #[trigger] keys[i].cmp_spec(&keys[j]) is Less);
    }
    for kv in it: iter
        invariant
            out@.len() == it.index(),
            it.seq() == pairs,
            keys == pairs.map_values(|kv: (&(u64, u8), &Vec<String>)| *kv.0),
            forall|i: int| 0 <= i < out@.len() ==> out@[i] == *it.seq()[i].0,
    {
        out.push(*kv.0);
    }
    proof {
        assert(out@ =~= keys);
        assert forall|i: int| 0 <= i < out@.len() implies m@.contains_key(#[trigger] out@[i]) by {
            assert(m@.contains_key(*pairs[i].0));
        }
        assert forall|k: (u64, u8)| #[trigger] m@.contains_key(k) implies out@.contains(k) by {
            assert(pairs.contains((&k, &m@[k])));
            let t = choose|t: int| 0 <= t < pairs.len() && pairs[t] == (&k, &m@[k]);
            assert(out@[t] == k);
        }
        assert forall|i: int, j: int| 0 <= i < j < out@.len() implies (#[trigger] out@[i].0
            < #[trigger] out@[j].0 || (out@[i].0 == out@[j].0 && out@[i].1 < out@[j].1)) by {
            assert(keys[i].cmp_spec(&keys[j]) is Less);
        }
    }
    out
}

/// Every bucket of the files found, singletons included, in key order.
pub(crate) fn collect_buckets(found: &Vec<(u64, String)>, min_size: u64, comparators: &Vec<Comparator>) -> (r: Vec<
    Bucket,
>)
    requires
        ranks_increasing(comparators@),
    ensures
        keys_sorted(r@),
        forall|i: int|
            0 <= i < r@.len() ==> (#[trigger] r@[i]).paths().len() >= 1 && comparators@.contains(
                r@[i].comparator,
            ),
        forall|s: u64, comp: Comparator|
            comparators@.contains(comp) ==> #[trigger] key_paths(r@, s, comp) == bucket_files(
                found@,
                min_size,
                s,
                comp,
            ),
{
    broadcast use vstd::std_specs::btree::group_btree_axioms;

    let mut map = collect_paths(found, min_size, comparators);
    let keys = sorted_keys(&map);
    let ghost orig = map@;
    proof {
        broadcast use vstd::laws_cmp::group_laws_cmp;

        assert(vstd::laws_cmp::obeys_cmp::<(u64, u8)>());
    }
    let n = keys.len();
    let mut out: Vec<Bucket> = Vec::new();
    let mut i = n;
    while i > 0
        invariant
            0 <= i <= n,
            n == keys@.len(),
            vstd::laws_cmp::obeys_cmp::<(u64, u8)>(),
            forall|t: int| 0 <= t < n ==> orig.contains_key(#[trigger] keys@[t]),
            forall|a: int, b: int|
                0 <= a < b < n ==> (#[trigger] keys@[a].0 < #[trigger] keys@[b].0 || (keys@[a].0
                    == keys@[b].0 && keys@[a].1 < keys@[b].1)),
            forall|t: int| 0 <= t < i ==> #[trigger] map@.contains_key(keys@[t]) && map@[keys@[t]] == orig[keys@[t]],
            out@.len() == n - i,
            forall|o: int|
                0 <= o < out@.len() ==> {
                    &&& (#[trigger] out@[o]).size == keys@[n - 1 - o].0
                    &&& out@[o].comparator == comparator_of_rank(keys@[n - 1 - o].1)
                    &&& out@[o].files == orig[keys@[n - 1 - o]]
                },
        decreases i,
    {
        i = i - 1;
        let key = keys[i];
        let ghost before = map@;
        let files = match map.remove(&key) {
            Some(v) => v,
            None => Vec::new(),
        };
        proof {
            assert forall|t: int| 0 <= t < i implies #[trigger] map@.contains_key(keys@[t]) && map@[keys@[t]]
                == orig[keys@[t]] by {
                assert(keys@[t].0 < keys@[i as int].0 || (keys@[t].0 == keys@[i as int].0
                    && keys@[t].1 < keys@[i as int].1));
                assert(keys@[t] != key);
                assert(before.contains_key(keys@[t]));
            }
        }
        let b = Bucket { size: key.0, comparator: comparator_from_rank(key.1), files };
        let ghost prev = out@;
        out.push(b);
        proof {
            assert forall|o: int| 0 <= o < out@.len() implies {
                &&& (#[trigger] out@[o]).size == keys@[n - 1 - o].0
                &&& out@[o].comparator == comparator_of_rank(keys@[n - 1 - o].1)
                &&& out@[o].files == orig[keys@[n - 1 - o]]
            } by {
                if o < prev.len() {
                    assert(out@[o] == prev[o]);
                }
            }
        }
    }
    proof {
        assert forall|o: int| 0 <= o < out@.len() implies (#[trigger] out@[o]).paths().len() >= 1
            && comparators@.contains(out@[o].comparator) by {
            assert(orig.contains_key(keys@[n - 1 - o]));
        }
        assert forall|a: int, b: int| 0 <= a < b < out@.len() implies key_before(
            #[trigger] out@[a].size,
            out@[a].comparator,
            #[trigger] out@[b].size,
            out@[b].comparator,
        ) by {
            let ka = keys@[n - 1 - a];
            let kb = keys@[n - 1 - b];
            assert(orig.contains_key(ka) && orig.contains_key(kb));
            assert(kb.0 < ka.0 || (kb.0 == ka.0 && kb.1 < ka.1));
            assert(comparator_of_rank(ka.1).rank() == ka.1 as nat);
            assert(comparator_of_rank(kb.1).rank() == kb.1 as nat);
        }
        assert forall|s: u64, comp: Comparator| comparators@.contains(comp) implies #[trigger] key_paths(
            out@,
            s,
            comp,
        ) == bucket_files(found@, min_size, s, comp) by {
            lemma_rank_roundtrip(comp);
            let key = (s, comp.rank() as u8);
            assert(map_paths(orig, s, comp) == bucket_files(found@, min_size, s, comp));
            if orig.contains_key(key) {
                assert(keys@.contains(key));
                let t = choose|t: int| 0 <= t < n && keys@[t] == key;
                let o = n - 1 - t;
                assert(out@[o].size == s && out@[o].comparator == comp);
                lemma_key_paths(out@, o);
            } else if has_key(out@, s, comp) {
                let o = choose|o: int|
                    0 <= o < out@.len() && (#[trigger] out@[o]).size == s && out@[o].comparator == comp;
                let ko = keys@[n - 1 - o];
                assert(orig.contains_key(ko));
                lemma_rank_roundtrip(comparator_of_rank(ko.1));
                assert(ko.1 < 2);
                assert(comparator_of_rank(ko.1).rank() == ko.1 as nat);
                assert(ko == key);
            }
        }
    }
    out
}

/// Two key-ordered bucket lists with the same keys list them in the same
/// order.
pub proof fn lemma_same_keys_same_order(a: Seq<Bucket>, b: Seq<Bucket>)
    requires
        keys_sorted(a),
        keys_sorted(b),
        forall|i: int| 0 <= i < a.len() ==> has_key(b, (#[trigger] a[i]).size, a[i].comparator),
        forall|j: int| 0 <= j < b.len() ==> has_key(a, (#[trigger] b[j]).size, b[j].comparator),
    ensures
        a.len() == b.len(),
        forall|i: int|
            0 <= i < a.len() ==> (#[trigger] a[i]).size == b[i].size && a[i].comparator
                == b[i].comparator,
    decreases a.len() + b.len(),
{
    if a.len() > 0 && b.len() > 0 {
        let j0 = choose|j: int|
            0 <= j < b.len() && (#[trigger] b[j]).size == a[0].size && b[j].comparator == a[0].comparator;
        let i0 = choose|i: int|
            0 <= i < a.len() && (#[trigger] a[i]).size == b[0].size && a[i].comparator == b[0].comparator;
        if j0 > 0 && i0 > 0 {
            assert(key_before(b[0].size, b[0].comparator, b[j0].size, b[j0].comparator));
            assert(key_before(a[0].size, a[0].comparator, a[i0].size, a[i0].comparator));
            assert(false);
        }
        if j0 > 0 {
            assert(key_before(b[0].size, b[0].comparator, b[j0].size, b[j0].comparator));
        }
        if i0 > 0 {
            assert(key_before(a[0].size, a[0].comparator, a[i0].size, a[i0].comparator));
        }
        assert(a[0].size == b[0].size && a[0].comparator == b[0].comparator);
        let a1 = a.drop_first();
        let b1 = b.drop_first();
        assert forall|i: int| 0 <= i < a1.len() implies has_key(b1, (#[trigger] a1[i]).size, a1[i].comparator) by {
            assert(a1[i] == a[i + 1]);
            let j = choose|j: int|
                0 <= j < b.len() && (#[trigger] b[j]).size == a[i + 1].size && b[j].comparator == a[i + 1].comparator;
            assert(key_before(a[0].size, a[0].comparator, a[i + 1].size, a[i + 1].comparator));
            if j == 0 {
                assert(false);
            }
            assert(b1[j - 1] == b[j]);
        }
        assert forall|j: int| 0 <= j < b1.len() implies has_key(a1, (#[trigger] b1[j]).size, b1[j].comparator) by {
            assert(b1[j] == b[j + 1]);
            let i = choose|i: int|
                0 <= i < a.len() && (#[trigger] a[i]).size == b[j + 1].size && a[i].comparator == b[j + 1].comparator;
            assert(key_before(b[0].size, b[0].comparator, b[j + 1].size, b[j + 1].comparator));
            if i == 0 {
                assert(false);
            }
            assert(a1[i - 1] == a[i]);
        }
        assert forall|x: int, y: int| 0 <= x < y < a1.len() implies key_before(
            #[trigger] a1[x].size, a1[x].comparator, #[trigger] a1[y].size, a1[y].comparator) by {
            assert(a1[x] == a[x + 1] && a1[y] == a[y + 1]);
        }
        assert forall|x: int, y: int| 0 <= x < y < b1.len() implies key_before(
            #[trigger] b1[x].size, b1[x].comparator, #[trigger] b1[y].size, b1[y].comparator) by {
            assert(b1[x] == b[x + 1] && b1[y] == b[y + 1]);
        }
        lemma_same_keys_same_order(a1, b1);
        assert forall|i: int| 0 <= i < a.len() implies (#[trigger] a[i]).size == b[i].size && a[i].comparator
            == b[i].comparator by {
            if i > 0 {
                assert(a[i] == a1[i - 1] && b[i] == b1[i - 1]);
            }
        }
    } else if a.len() > 0 {
        assert(has_key(b, a[0].size, a[0].comparator));
    } else if b.len() > 0 {
        assert(has_key(a, b[0].size, b[0].comparator));
    }
}

} // verus!
