use vstd::prelude::*;

use crate::bucket::{
    bucket_files, collect_buckets, has_key, key_before, key_paths, keys_sorted, ranks_increasing,
    Bucket,
};
use crate::comparator::{Comparator, ExactGroupComparator, GroupComparator, JsonGroupComparator};
use crate::config::Config;

verus! {

/// Why a scan cannot start.
#[derive(Debug, PartialEq, Eq)]
pub enum ConfigError {
    /// Two registered comparators share this name.
    DuplicateComparator(String),
}

/// The depth to which a root is walked: the root's own entries only, or
/// the whole tree.
pub fn walk_depth(non_recursive: bool) -> (r: usize)
    ensures
        r == if non_recursive {
            1
        } else {
            usize::MAX
        },
{
    if non_recursive {
        1
    } else {
        usize::MAX
    }
}

/// No two comparators share a name.
pub open spec fn names_unique(cs: Seq<Comparator>) -> bool {
    forall|i: int, j: int|
        0 <= i < j < cs.len() ==> #[trigger] cs[i].spec_name() != #[trigger] cs[j].spec_name()
}

/// The comparators of a scan, by name; each at most once.
pub struct DupeScanner {
    config: Config,
    group_comparators: Vec<Comparator>,
}

proof fn lemma_names_differ()
    ensures
        Comparator::Exact(ExactGroupComparator {  }).spec_name() != Comparator::Json(
            JsonGroupComparator {  },
        ).spec_name(),
{
    reveal_strlit("exact");
    reveal_strlit("json");
    assert("exact"@.len() != "json"@.len());
}

/// Two comparators share a name exactly when they are of the same kind.
proof fn lemma_same_name(a: Comparator, b: Comparator)
    ensures
        (a.spec_name() == b.spec_name()) == (a.rank() == b.rank()),
{
    lemma_names_differ();
}

impl DupeScanner {
    /// The registered comparators, in the order of their names.
    pub closed spec fn registry(&self) -> Seq<Comparator> {
        self.group_comparators@
    }

    pub closed spec fn spec_config(&self) -> &Config {
        &self.config
    }

    /// The smallest file size the scan considers: the config's.
    pub open spec fn spec_min_size(&self) -> u64 {
        self.spec_config().min_size
    }

    /// The registry is in name order, each comparator at most once.
    pub closed spec fn wf(&self) -> bool {
        ranks_increasing(self.group_comparators@)
    }

    /// The settings of the scan.
    pub fn config(&self) -> (r: &Config)
        ensures
            r == self.spec_config(),
    {
        &self.config
    }

    /// The registered comparators, in name order.
    pub fn comparators(&self) -> (r: &Vec<Comparator>)
        ensures
            r@ == self.registry(),
    {
        &self.group_comparators
    }

    /// A scanner for `config` with the comparators `group_comparators`;
    /// refused where two of them share a name.
    pub fn new(config: Config, group_comparators: Vec<Comparator>) -> (r: Result<
        Self,
        ConfigError,
    >)
        ensures
            names_unique(group_comparators@) <==> r is Ok,
            r matches Ok(s) ==> {
                &&& s.wf()
                &&& s.spec_config() == &config
                &&& s.registry().to_set() == group_comparators@.to_set()
                &&& forall|i: int, j: int|
                    0 <= i < j < s.registry().len() ==> #[trigger] s.registry()[i].rank()
                        < #[trigger] s.registry()[j].rank()
            },
            r matches Err(ConfigError::DuplicateComparator(name)) ==> exists|i: int, j: int|
                0 <= i < j < group_comparators@.len() && #[trigger] group_comparators@[i].spec_name()
                    == #[trigger] group_comparators@[j].spec_name() && name@
                    == group_comparators@[i].spec_name(),
    {
        let mut exact: Option<Comparator> = None;
        let mut json: Option<Comparator> = None;
        let mut i: usize = 0;
        let ghost mut ex_k: int = 0;
        let ghost mut js_k: int = 0;
        while i < group_comparators.len()
            invariant
                0 <= i <= group_comparators@.len(),
                names_unique(group_comparators@.take(i as int)),
                exact matches Some(e) ==> e is Exact && 0 <= ex_k < i && group_comparators@[ex_k] == e,
                json matches Some(e) ==> e is Json && 0 <= js_k < i && group_comparators@[js_k] == e,
                forall|j: int|
                    0 <= j < i ==> (#[trigger] group_comparators@[j] is Exact ==> exact
                        == Some(group_comparators@[j])) && (group_comparators@[j] is Json ==> json
                        == Some(group_comparators@[j])),
            decreases group_comparators@.len() - i,
        {
            let c = group_comparators[i];
            let seen = match c {
                Comparator::Exact(_) => exact.is_some(),
                Comparator::Json(_) => json.is_some(),
            };
            if seen {
                proof {
                    let w = if c is Exact {
                        exact.unwrap()
                    } else {
                        json.unwrap()
                    };
                    let k = if c is Exact {
                        ex_k
                    } else {
                        js_k
                    };
                    lemma_same_name(group_comparators@[k], c);
                }
                return Err(ConfigError::DuplicateComparator(c.name().to_owned()));
            }
            match c {
                Comparator::Exact(_) => {
                    exact = Some(c);
                    proof {
                        ex_k = i as int;
                    }
                },
                Comparator::Json(_) => {
                    json = Some(c);
                    proof {
                        js_k = i as int;
                    }
                },
            }
            proof {
                assert forall|a: int, b: int|
                    0 <= a < b < i + 1 implies #[trigger] group_comparators@.take(i + 1)[a].spec_name()
                    != #[trigger] group_comparators@.take(i + 1)[b].spec_name() by {
                    lemma_same_name(group_comparators@[a], group_comparators@[b]);
                    if b < i {
                        assert(group_comparators@.take(i as int)[a] == group_comparators@[a]);
                        assert(group_comparators@.take(i as int)[b] == group_comparators@[b]);
                    }
                }
                assert(group_comparators@.take(i as int).push(c) =~= group_comparators@.take(
                    i + 1,
                ));
            }
            i = i + 1;
        }
        let mut registry: Vec<Comparator> = Vec::new();
        if let Some(e) = exact {
            registry.push(e);
        }
        if let Some(j) = json {
            registry.push(j);
        }
        proof {
            assert(group_comparators@.take(i as int) =~= group_comparators@);
            assert forall|x: Comparator| registry@.contains(x) <==> group_comparators@.contains(
                x,
            ) by {
                if group_comparators@.contains(x) {
                    let k = choose|k: int| 0 <= k < group_comparators@.len() && group_comparators@[k] == x;
                    assert(group_comparators@[k] == x);
                    if x is Exact {
                        assert(registry@[0] == x);
                    } else {
                        assert(registry@[registry@.len() - 1] == x);
                    }
                }
                if registry@.contains(x) {
                    let k = choose|k: int| 0 <= k < registry@.len() && registry@[k] == x;
                    if x is Exact {
                        assert(group_comparators@[ex_k] == x);
                    } else {
                        assert(group_comparators@[js_k] == x);
                    }
                }
            }
            assert(registry@.to_set() =~= group_comparators@.to_set());
        }
        Ok(DupeScanner { config, group_comparators: registry })
    }

    /// `bs` are the buckets of the files found: in key order, each with the
    /// paths of its size and comparator in the order found, those of two
    /// files or more, all of them.
    pub open spec fn buckets_of(&self, found: Seq<(u64, String)>, bs: Seq<Bucket>) -> bool {
        &&& keys_sorted(bs)
        &&& forall|i: int|
            0 <= i < bs.len() ==> {
                &&& (#[trigger] bs[i]).paths() == bucket_files(
                    found,
                    self.spec_min_size(),
                    bs[i].size,
                    bs[i].comparator,
                )
                &&& bs[i].paths().len() >= 2
                &&& self.registry().contains(bs[i].comparator)
            }
        &&& forall|size: u64, comp: Comparator|
            self.registry().contains(comp) && (#[trigger] bucket_files(
                found,
                self.spec_min_size(),
                size,
                comp,
            )).len() >= 2 ==> has_key(bs, size, comp)
    }

    /// The buckets of the files found are determined by them: two lists
    /// that are both their buckets agree, bucket by bucket.
    pub proof fn lemma_buckets_determined(
        &self,
        found: Seq<(u64, String)>,
        a: Seq<Bucket>,
        b: Seq<Bucket>,
    )
        requires
            self.buckets_of(found, a),
            self.buckets_of(found, b),
        ensures
            a.len() == b.len(),
            forall|i: int|
                0 <= i < a.len() ==> (#[trigger] a[i]).size == b[i].size && a[i].comparator
                    == b[i].comparator && a[i].paths() == b[i].paths(),
    {
        assert forall|i: int| 0 <= i < a.len() implies has_key(b, (#[trigger] a[i]).size, a[i].comparator) by {
            assert(bucket_files(found, self.spec_min_size(), a[i].size, a[i].comparator).len() >= 2);
        }
        assert forall|j: int| 0 <= j < b.len() implies has_key(a, (#[trigger] b[j]).size, b[j].comparator) by {
            assert(bucket_files(found, self.spec_min_size(), b[j].size, b[j].comparator).len() >= 2);
        }
        crate::bucket::lemma_same_keys_same_order(a, b);
        assert forall|i: int| 0 <= i < a.len() implies (#[trigger] a[i]).size == b[i].size && a[i].comparator
            == b[i].comparator && a[i].paths() == b[i].paths() by {
            assert(a[i].paths() == bucket_files(found, self.spec_min_size(), a[i].size, a[i].comparator));
            assert(b[i].paths() == bucket_files(found, self.spec_min_size(), b[i].size, b[i].comparator));
        }
    }

    /// The buckets of the files found (`(size, path)`, in the order the
    /// walk met them): for each size of at least the minimum and each
    /// comparator that judges some of them, the paths of those files, in
    /// the order found. Only buckets of two files or more are kept, from
    /// the largest size down, and for one size from the last comparator
    /// name down.
    pub fn find_files(&self, found: &Vec<(u64, String)>) -> (r: Vec<Bucket>)
        requires
            self.wf(),
        ensures
            self.buckets_of(found@, r@),
    {
        let min_size = self.config.min_size;
        let mut all = collect_buckets(found, min_size, &self.group_comparators);
        let ghost orig = all@;
        let mut out: Vec<Bucket> = Vec::new();
        let mut i: usize = 0;
        while i < all.len()
            invariant
                0 <= i <= all@.len(),
                all@.len() == orig.len(),
                keys_sorted(orig),
                forall|j: int| i <= j < all@.len() ==> #[trigger] all@[j] == orig[j],
                forall|j: int|
                    0 <= j < orig.len() ==> (#[trigger] orig[j]).paths().len() >= 1
                        && self.group_comparators@.contains(orig[j].comparator),
                forall|s: u64, comp: Comparator|
                    self.group_comparators@.contains(comp) ==> #[trigger] key_paths(orig, s, comp)
                        == bucket_files(found@, min_size, s, comp),
                keys_sorted(out@),
                forall|o: int, j: int|
                    0 <= o < out@.len() && i <= j < orig.len() ==> key_before(
                        #[trigger] out@[o].size,
                        out@[o].comparator,
                        #[trigger] orig[j].size,
                        orig[j].comparator,
                    ),
                forall|o: int|
                    0 <= o < out@.len() ==> {
                        &&& (#[trigger] out@[o]).paths() == key_paths(
                            orig,
                            out@[o].size,
                            out@[o].comparator,
                        )
                        &&& out@[o].paths().len() >= 2
                        &&& self.group_comparators@.contains(out@[o].comparator)
                    },
                forall|j: int|
                    0 <= j < i && (#[trigger] orig[j]).paths().len() >= 2 ==> has_key(
                        out@,
                        orig[j].size,
                        orig[j].comparator,
                    ),
            decreases all@.len() - i,
        {
            if all[i].files.len() > 1 {
                let mut files: Vec<String> = Vec::new();
                core::mem::swap(&mut all[i].files, &mut files);
                let b = Bucket { size: all[i].size, comparator: all[i].comparator, files };
                let ghost prev = out@;
                out.push(b);
                proof {
                    crate::bucket::lemma_key_paths(orig, i as int);
                    assert(b.paths() == orig[i as int].paths());
                    assert forall|o: int, j: int|
                        0 <= o < out@.len() && i + 1 <= j < orig.len() implies key_before(
                        #[trigger] out@[o].size,
                        out@[o].comparator,
                        #[trigger] orig[j].size,
                        orig[j].comparator,
                    ) by {
                        if o < prev.len() {
                            assert(out@[o] == prev[o]);
                        }
                    }
                    assert forall|a: int, c: int| 0 <= a < c < out@.len() implies key_before(
                        #[trigger] out@[a].size,
                        out@[a].comparator,
                        #[trigger] out@[c].size,
                        out@[c].comparator,
                    ) by {
                        if c == prev.len() {
                            assert(out@[a] == prev[a]);
                        } else {
                            assert(out@[a] == prev[a]);
                            assert(out@[c] == prev[c]);
                        }
                    }
                    assert forall|j: int|
                        0 <= j < i + 1 && (#[trigger] orig[j]).paths().len() >= 2 implies has_key(
                        out@,
                        orig[j].size,
                        orig[j].comparator,
                    ) by {
                        if j < i {
                            let o = choose|o: int|
                                0 <= o < prev.len() && (#[trigger] prev[o]).size == orig[j].size
                                    && prev[o].comparator == orig[j].comparator;
                            assert(out@[o] == prev[o]);
                        } else {
                            assert(out@[prev.len() as int] == b);
                        }
                    }
                }
            }
            i = i + 1;
        }
        proof {
            assert forall|s: u64, comp: Comparator|
                self.group_comparators@.contains(comp) && (#[trigger] bucket_files(
                    found@,
                    min_size,
                    s,
                    comp,
                )).len() >= 2 implies has_key(out@, s, comp) by {
                assert(key_paths(orig, s, comp) == bucket_files(found@, min_size, s, comp));
                let j = choose|j: int|
                    0 <= j < orig.len() && (#[trigger] orig[j]).size == s && orig[j].comparator
                        == comp;
                crate::bucket::lemma_key_paths(orig, j);
            }
        }
        out
    }
}

} // verus!
