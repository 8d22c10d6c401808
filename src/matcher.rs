use vstd::prelude::*;

use crate::checksum::same_bytes;
use crate::comparator::Comparator;
use crate::group::{
    full_fingerprint, partial_fingerprint, partial_len, FdupesGroup, Fingerprint, BLOCK_SIZE,
};
use crate::message::DupeMessage;
use crate::model::{
    group_paths, grouping, identical, lemma_reported_take, place, rep_path, reported, Contents,
};

verus! {

/// How many bytes of each stream one step of the exact comparison reads.
pub const CHUNK_SIZE: u64 = 8192;

/// A read, as the contracts see it.
pub enum ReadView {
    Prefix(Seq<char>, nat),
    Whole(Seq<char>),
    Chunk(Seq<char>, nat, nat),
}

/// A read that the matcher asks of whoever drives it.
#[derive(Debug, PartialEq, Eq)]
pub enum Request {
    /// The first `len` bytes of the stream of `path`; all of it where it is
    /// shorter.
    Prefix(String, u64),
    /// The whole stream of `path`.
    Whole(String),
    /// `len` bytes of the stream of `path` from `offset` on; fewer where it
    /// ends sooner, none where it ends before `offset`.
    Chunk(String, u64, u64),
    /// Nothing more to read: the bucket is matched.
    Done,
}

impl Request {
    pub open spec fn read_view(self) -> Option<ReadView> {
        match self {
            Request::Prefix(p, len) => Some(ReadView::Prefix(p@, len as nat)),
            Request::Whole(p) => Some(ReadView::Whole(p@)),
            Request::Chunk(p, off, len) => Some(ReadView::Chunk(p@, off as nat, len as nat)),
            Request::Done => None,
        }
    }
}

/// The first `len` bytes of `x`, or all of it.
pub open spec fn head(x: Seq<u8>, len: nat) -> Seq<u8> {
    if x.len() <= len {
        x
    } else {
        x.take(len as int)
    }
}

/// The bytes of `x` from `off` on, `len` of them at most.
pub open spec fn slice_at(x: Seq<u8>, off: nat, len: nat) -> Seq<u8> {
    let lo = if off <= x.len() {
        off
    } else {
        x.len()
    };
    let hi = if off + len <= x.len() {
        off + len
    } else {
        x.len()
    };
    x.subrange(lo as int, hi as int)
}

/// `data` is what `read` gives when every path holds what `c` says.
pub open spec fn answers(c: Contents, read: ReadView, data: Option<Seq<u8>>) -> bool {
    match read {
        ReadView::Prefix(p, len) => data == match c(p) {
            None => None,
            Some(x) => Some(head(x, len)),
        },
        ReadView::Whole(p) => data == c(p),
        ReadView::Chunk(p, off, len) => data == match c(p) {
            None => None,
            Some(x) => Some(slice_at(x, off, len)),
        },
    }
}

/// `c` agrees with every answer given so far, and its streams have lengths
/// that fit in a `u64`.
pub open spec fn consistent(c: Contents, history: Seq<(ReadView, Option<Seq<u8>>)>) -> bool {
    &&& forall|p: Seq<char>| #[trigger] c(p) is Some ==> c(p).unwrap().len() <= u64::MAX
    &&& forall|i: int| 0 <= i < history.len() ==> answers(c, #[trigger] history[i].0, history[i].1)
}

/// Above the stage of any comparison.
pub open spec fn RANK_BOUND() -> nat {
    2 * 0x1_0000_0000_0000_0000 + 6
}

/// `a` comes before `b` in lexicographic order.
pub open spec fn lex_less(a: (nat, nat, nat), b: (nat, nat, nat)) -> bool {
    ||| a.0 < b.0
    ||| a.0 == b.0 && a.1 < b.1
    ||| a.0 == b.0 && a.1 == b.1 && a.2 < b.2
}

/// The answer to a read, as the contracts see it.
pub open spec fn data_view(data: Option<Vec<u8>>) -> Option<Seq<u8>> {
    match data {
        None => None,
        Some(d) => Some(d@),
    }
}

enum Phase {
    CandidatePrefix,
    GroupPrefix,
    CandidateWhole,
    GroupWhole,
    CandidateChunk(u64),
    GroupChunk(u64, Vec<u8>),
    Finished,
}

/// Builds the groups of one bucket (files of one size, under one
/// comparator). Each file in turn is matched against the groups formed so
/// far, in the order they were formed; the first match wins, and a file
/// that matches none starts a group. A match is decided in stages, the
/// cheapest first: partial fingerprints, full fingerprints, then an exact
/// comparison of the two streams, which alone can accept. A failed read
/// counts as a mismatch. The matcher asks for each read it needs through
/// `request` and takes the answer through `step`.
pub struct BucketMatcher {
    size: u64,
    comparator: Comparator,
    files: Vec<String>,
    groups: Vec<FdupesGroup>,
    next: usize,
    candidate: Option<FdupesGroup>,
    at: usize,
    phase: Phase,
    members: Ghost<Seq<Seq<int>>>,
    history: Ghost<Seq<(ReadView, Option<Seq<u8>>)>>,
}

impl BucketMatcher {
    /// The bucket's paths.
    pub closed spec fn paths(&self) -> Seq<Seq<char>> {
        self.files@.map_values(|s: String| s@)
    }

    pub closed spec fn spec_size(&self) -> u64 {
        self.size
    }

    pub closed spec fn spec_comparator(&self) -> Comparator {
        self.comparator
    }

    /// Every read asked so far, with its answer.
    pub closed spec fn history(&self) -> Seq<(ReadView, Option<Seq<u8>>)> {
        self.history@
    }

    pub closed spec fn finished(&self) -> bool {
        self.phase is Finished
    }

    /// The groups formed so far, as positions in the bucket.
    pub closed spec fn spec_members(&self) -> Seq<Seq<int>> {
        self.members@
    }

    /// The file under comparison.
    closed spec fn cand_path(&self) -> Seq<char> {
        self.paths()[self.next as int]
    }

    /// The representative of the group under comparison.
    closed spec fn group_rep(&self) -> Seq<char> {
        rep_path(self.paths(), self.members@[self.at as int])
    }

    /// The read that the matcher waits for.
    pub closed spec fn pending_read(&self) -> ReadView {
        match self.phase {
            Phase::CandidatePrefix => ReadView::Prefix(self.cand_path(), partial_len(self.size)),
            Phase::GroupPrefix => ReadView::Prefix(self.group_rep(), partial_len(self.size)),
            Phase::CandidateWhole => ReadView::Whole(self.cand_path()),
            Phase::GroupWhole => ReadView::Whole(self.group_rep()),
            Phase::CandidateChunk(off) => ReadView::Chunk(
                self.cand_path(),
                off as nat,
                CHUNK_SIZE as nat,
            ),
            Phase::GroupChunk(off, _) => ReadView::Chunk(
                self.group_rep(),
                off as nat,
                CHUNK_SIZE as nat,
            ),
            Phase::Finished => ReadView::Whole(Seq::empty()),
        }
    }

    /// The shape of the state, whatever the files hold.
    closed spec fn shape(&self) -> bool {
        let n = self.files@.len();
        &&& n <= usize::MAX
        &&& self.next <= n
        &&& self.groups@.len() <= self.next
        &&& self.groups@.len() == self.members@.len()
        &&& self.at <= self.groups@.len()
        &&& forall|g: int| 0 <= g < self.groups@.len() ==> #[trigger] self.members@[g].len() > 0
        &&& forall|g: int|
            0 <= g < self.groups@.len() ==> {
                &&& (#[trigger] self.groups@[g]).names() == group_paths(
                    self.paths(),
                    self.members@[g],
                )
                &&& self.groups@[g].size == self.size
                &&& self.groups@[g].comparator == self.comparator
                &&& self.groups@[g].caches_ordered()
            }
        &&& (self.next < n <==> self.candidate is Some)
        &&& self.candidate matches Some(cand) ==> {
            &&& cand.caches_ordered()
            &&& cand.names() == seq![self.cand_path()]
            &&& cand.size == self.size
            &&& cand.comparator == self.comparator
        }
    }

    /// What the phase tells of the state.
    closed spec fn phase_shape(&self) -> bool {
        &&& (self.phase is Finished <==> self.next == self.files@.len())
        &&& !(self.phase is Finished) ==> self.at < self.groups@.len()
        &&& self.candidate matches Some(cand) ==> match self.phase {
            Phase::CandidatePrefix => cand.partial() is Pending,
            Phase::GroupPrefix => {
                &&& cand.partial() is Known
                &&& self.groups@[self.at as int].partial() is Pending
            },
            Phase::CandidateWhole => {
                &&& cand.partial() is Known
                &&& self.groups@[self.at as int].partial() == cand.partial()
                &&& cand.full() is Pending
            },
            Phase::GroupWhole => {
                &&& cand.partial() is Known
                &&& self.groups@[self.at as int].partial() == cand.partial()
                &&& cand.full() is Known
                &&& self.groups@[self.at as int].full() is Pending
            },
            Phase::CandidateChunk(_) | Phase::GroupChunk(_, _) => {
                &&& cand.partial() is Known
                &&& self.groups@[self.at as int].partial() == cand.partial()
                &&& cand.full() is Known
                &&& self.groups@[self.at as int].full() == cand.full()
            },
            Phase::Finished => true,
        }
    }

    /// How far the comparison under way has got.
    closed spec fn rank(&self) -> nat {
        match self.phase {
            Phase::CandidatePrefix => 0,
            Phase::GroupPrefix => 1,
            Phase::CandidateWhole => 2,
            Phase::GroupWhole => 3,
            Phase::CandidateChunk(off) => 4 + 2 * (off as nat),
            Phase::GroupChunk(off, _) => 5 + 2 * (off as nat),
            Phase::Finished => 0,
        }
    }

    /// The stage at which the comparison of the candidate with group `at`
    /// starts, given the fingerprints cached.
    closed spec fn cache_rank(&self) -> nat {
        let cand = self.candidate.unwrap();
        let g = self.groups@[self.at as int];
        if cand.partial() is Pending {
            0
        } else if g.partial() is Pending {
            1
        } else if cand.full() is Pending {
            2
        } else if g.full() is Pending {
            3
        } else {
            4
        }
    }

    /// The group the candidate is being compared with.
    pub closed spec fn comparing(&self) -> nat {
        self.at as nat
    }

    /// The file being placed.
    pub open spec fn candidate_path(&self) -> Seq<char> {
        self.paths()[self.placed() as int]
    }

    /// The representative (first member) of group `g`.
    pub open spec fn representative(&self, g: int) -> Seq<char> {
        rep_path(self.paths(), self.spec_members()[g])
    }

    /// What is left to do: files to place, groups to compare the candidate
    /// with, and stages of the comparison under way. It decreases, in
    /// lexicographic order, with every answer.
    pub closed spec fn remaining(&self) -> (nat, nat, nat) {
        if self.phase is Finished {
            (0, 0, 0)
        } else {
            (
                (self.files@.len() - self.next) as nat,
                (self.groups@.len() - self.at) as nat,
                (RANK_BOUND() - self.rank()) as nat,
            )
        }
    }

    /// What holds of the state when the files hold what `c` says.
    closed spec fn holds_for(&self, c: Contents) -> bool {
        let files = self.paths();
        &&& self.members@ == grouping(c, files, self.next as nat)
        &&& forall|g: int|
            0 <= g < self.groups@.len() ==> (#[trigger] self.groups@[g]).fingerprints_of(
                c(rep_path(files, self.members@[g])),
            )
        &&& self.candidate matches Some(cand) ==> {
            &&& cand.fingerprints_of(c(self.cand_path()))
            &&& forall|j: int|
                0 <= j < self.at ==> !identical(
                    c,
                    #[trigger] rep_path(files, self.members@[j]),
                    self.cand_path(),
                )
        }
    }

    /// What the exact comparison has established when the files hold what
    /// `c` says.
    closed spec fn phase_holds_for(&self, c: Contents) -> bool {
        match self.phase {
            Phase::CandidateChunk(off) => (c(self.cand_path()) is Some && c(
                self.group_rep(),
            ) is Some) ==> {
                &&& off <= c(self.cand_path()).unwrap().len()
                &&& off <= c(self.group_rep()).unwrap().len()
                &&& c(self.cand_path()).unwrap().take(off as int) == c(
                    self.group_rep(),
                ).unwrap().take(off as int)
            },
            Phase::GroupChunk(off, chunk) => {
                &&& c(self.cand_path()) is Some
                &&& chunk@ == slice_at(c(self.cand_path()).unwrap(), off as nat, CHUNK_SIZE as nat)
                &&& c(self.group_rep()) is Some ==> {
                    &&& off <= c(self.cand_path()).unwrap().len()
                    &&& off <= c(self.group_rep()).unwrap().len()
                    &&& c(self.cand_path()).unwrap().take(off as int) == c(
                        self.group_rep(),
                    ).unwrap().take(off as int)
                }
            },
            _ => true,
        }
    }

    /// The matcher's invariant: its state is what the answers so far make
    /// of the bucket, for every content of the files that agrees with them.
    pub closed spec fn wf(&self) -> bool {
        &&& self.shape()
        &&& self.phase_shape()
        &&& forall|c: Contents| #[trigger]
            consistent(c, self.history@) ==> self.holds_for(c) && self.phase_holds_for(c)
    }

    /// Decides every comparison that the cached fingerprints settle, and
    /// stops at the first read that is needed, or when the bucket is done.
    fn advance(&mut self)
        requires
            old(self).shape(),
            forall|c: Contents| #[trigger]
                consistent(c, old(self).history@) ==> old(self).holds_for(c),
        ensures
            final(self).wf(),
            final(self).history@ == old(self).history@,
            final(self).files@ == old(self).files@,
            final(self).size == old(self).size,
            final(self).comparator == old(self).comparator,
            final(self).next >= old(self).next,
            final(self).next == old(self).next ==> {
                &&& final(self).groups@.len() == old(self).groups@.len()
                &&& final(self).at >= old(self).at
                &&& (final(self).at == old(self).at && !(final(self).phase is Finished))
                    ==> final(self).rank() >= old(self).cache_rank()
            },
    {
        loop
            invariant
                self.shape(),
                self.history@ == old(self).history@,
                self.files@ == old(self).files@,
                self.size == old(self).size,
                self.comparator == old(self).comparator,
                forall|c: Contents| #[trigger] consistent(c, self.history@) ==> self.holds_for(c),
                self.next >= old(self).next,
                self.next == old(self).next ==> {
                    &&& self.groups@ == old(self).groups@
                    &&& self.candidate == old(self).candidate
                    &&& self.at >= old(self).at
                },
            ensures
                self.wf(),
                self.next == old(self).next && self.at == old(self).at && !(self.phase is Finished)
                    ==> self.rank() == self.cache_rank(),
            decreases self.files@.len() - self.next, self.groups@.len() - self.at,
        {
            let n = self.files.len();
            if self.next == n {
                self.phase = Phase::Finished;
                assert forall|c: Contents| #[trigger]
                    consistent(c, self.history@) implies self.holds_for(c) && self.phase_holds_for(
                    c,
                ) by {}
                break ;
            }
            if self.at == self.groups.len() {
                self.start_group();
                continue ;
            }
            let at = self.at;
            let (cp, cf) = match &self.candidate {
                Some(cand) => (cand.partialcrc, cand.fullcrc),
                None => (Fingerprint::Failed, Fingerprint::Failed),
            };
            let gp = self.groups[at].partialcrc;
            let gf = self.groups[at].fullcrc;
            proof {
                assert forall|c: Contents| #[trigger] consistent(c, self.history@) implies {
                    let cc = c(self.cand_path());
                    let gc = c(self.group_rep());
                    &&& cp == self.candidate.unwrap().partial()
                    &&& cf == self.candidate.unwrap().full()
                    &&& (cp is Pending || cp == partial_fingerprint(self.size, cc))
                    &&& (cf is Pending || cf == full_fingerprint(self.size, cc))
                    &&& (gp is Pending || gp == partial_fingerprint(self.size, gc))
                    &&& (gf is Pending || gf == full_fingerprint(self.size, gc))
                } by {
                    assert(self.holds_for(c));
                    assert(self.groups@[at as int].fingerprints_of(
                        c(rep_path(self.paths(), self.members@[at as int])),
                    ));
                }
            }
            let decided = match (cp, gp) {
                (Fingerprint::Pending, _) => {
                    self.phase = Phase::CandidatePrefix;
                    false
                },
                (Fingerprint::Failed, _) => true,
                (_, Fingerprint::Pending) => {
                    self.phase = Phase::GroupPrefix;
                    false
                },
                (_, Fingerprint::Failed) => true,
                (Fingerprint::Known(a), Fingerprint::Known(b)) => {
                    if a != b {
                        true
                    } else {
                        match (cf, gf) {
                            (Fingerprint::Pending, _) => {
                                self.phase = Phase::CandidateWhole;
                                false
                            },
                            (Fingerprint::Failed, _) => true,
                            (_, Fingerprint::Pending) => {
                                self.phase = Phase::GroupWhole;
                                false
                            },
                            (_, Fingerprint::Failed) => true,
                            (Fingerprint::Known(x), Fingerprint::Known(y)) => {
                                if x != y {
                                    true
                                } else {
                                    self.phase = Phase::CandidateChunk(0);
                                    assert(self.rank() == 4);
                                    false
                                }
                            },
                        }
                    }
                },
            };
            if decided {
                proof {
                    assert forall|c: Contents| #[trigger] consistent(c, self.history@) implies !identical(
                        c,
                        self.group_rep(),
                        self.cand_path(),
                    ) by {}
                }
                self.reject();
            } else {
                assert forall|c: Contents| #[trigger]
                    consistent(c, self.history@) implies self.holds_for(c) && self.phase_holds_for(
                    c,
                ) by {
                    assert(c(self.cand_path()).unwrap().take(0) =~= c(
                        self.group_rep(),
                    ).unwrap().take(0));
                }
                break ;
            }
        }
    }

    /// The candidate matches no group: it starts one of its own, and the
    /// next file becomes the candidate.
    fn start_group(&mut self)
        requires
            old(self).shape(),
            old(self).next < old(self).files@.len(),
            old(self).at == old(self).groups@.len(),
            forall|c: Contents| #[trigger]
                consistent(c, old(self).history@) ==> old(self).holds_for(c),
        ensures
            final(self).shape(),
            final(self).next == old(self).next + 1,
            final(self).history@ == old(self).history@,
            final(self).files@ == old(self).files@,
            final(self).size == old(self).size,
            final(self).comparator == old(self).comparator,
            forall|c: Contents| #[trigger]
                consistent(c, final(self).history@) ==> final(self).holds_for(c),
    {
        let ghost files = self.paths();
        let ghost k = self.next as int;
        let ghost old_members = self.members@;
        let cand = self.candidate.take().unwrap();
        self.groups.push(cand);
        self.members = Ghost(self.members@.push(seq![k]));
        self.next = self.next + 1;
        if self.next < self.files.len() {
            let g = FdupesGroup::new(self.files[self.next].as_str(), self.size, self.comparator);
            self.candidate = Some(g);
        }
        self.at = 0;
        proof {
            assert(group_paths(files, seq![k]) =~= seq![files[k]]);
            assert(self.groups@[self.groups@.len() - 1].names() == group_paths(files, self.members@[self.groups@.len() - 1]));
            assert forall|c: Contents| #[trigger] consistent(c, self.history@) implies self.holds_for(
                c,
            ) by {
                assert(old(self).holds_for(c));
                crate::model::lemma_first_match_none(c, files, old_members, k);
                assert(grouping(c, files, (k + 1) as nat) == place(c, files, old_members, k));
            }
        }
    }

    /// The candidate does not match the group under comparison: the next
    /// group is tried.
    fn reject(&mut self)
        requires
            old(self).shape(),
            old(self).next < old(self).files@.len(),
            old(self).at < old(self).groups@.len(),
            forall|c: Contents| #[trigger]
                consistent(c, old(self).history@) ==> old(self).holds_for(c) && !identical(
                    c,
                    old(self).group_rep(),
                    old(self).cand_path(),
                ),
        ensures
            final(self).shape(),
            final(self).next == old(self).next,
            final(self).at == old(self).at + 1,
            final(self).groups@ == old(self).groups@,
            final(self).candidate == old(self).candidate,
            final(self).history@ == old(self).history@,
            final(self).files@ == old(self).files@,
            final(self).size == old(self).size,
            final(self).comparator == old(self).comparator,
            forall|c: Contents| #[trigger]
                consistent(c, final(self).history@) ==> final(self).holds_for(c),
    {
        self.at = self.at + 1;
        proof {
            assert forall|c: Contents| #[trigger] consistent(c, self.history@) implies self.holds_for(
                c,
            ) by {
                assert(old(self).holds_for(c));
            }
        }
    }

    /// The candidate matches the group under comparison: it joins it, and
    /// the next file becomes the candidate.
    fn accept(&mut self)
        requires
            old(self).shape(),
            old(self).next < old(self).files@.len(),
            old(self).at < old(self).groups@.len(),
            forall|c: Contents| #[trigger]
                consistent(c, old(self).history@) ==> old(self).holds_for(c) && identical(
                    c,
                    old(self).group_rep(),
                    old(self).cand_path(),
                ),
        ensures
            final(self).shape(),
            final(self).next == old(self).next + 1,
            final(self).history@ == old(self).history@,
            final(self).files@ == old(self).files@,
            final(self).size == old(self).size,
            final(self).comparator == old(self).comparator,
            forall|c: Contents| #[trigger]
                consistent(c, final(self).history@) ==> final(self).holds_for(c),
    {
        let ghost files = self.paths();
        let ghost k = self.next as int;
        let ghost i = self.at as int;
        let ghost old_members = self.members@;
        let at = self.at;
        self.groups[at].add(self.files[self.next].as_str());
        self.members = Ghost(self.members@.update(i, self.members@[i].push(k)));
        self.candidate = None;
        self.next = self.next + 1;
        if self.next < self.files.len() {
            let g = FdupesGroup::new(self.files[self.next].as_str(), self.size, self.comparator);
            self.candidate = Some(g);
        }
        self.at = 0;
        proof {
            assert(group_paths(files, self.members@[i]) =~= group_paths(files, old_members[i]).push(
                files[k],
            ));
            assert forall|g: int| 0 <= g < self.groups@.len() implies #[trigger] self.members@[g].len()
                > 0 && rep_path(files, self.members@[g]) == rep_path(files, old_members[g]) by {
                if g == i {
                    assert(self.members@[g][0] == old_members[g][0]);
                }
            }
            assert forall|c: Contents| #[trigger] consistent(c, self.history@) implies self.holds_for(
                c,
            ) by {
                assert(old(self).holds_for(c));
                crate::model::lemma_first_match_at(c, files, old_members, k, i);
                assert(grouping(c, files, (k + 1) as nat) == place(c, files, old_members, k));
            }
        }
    }

    /// A matcher for the bucket of `files`, each of `size` bytes, judged by
    /// `comparator`. Nothing has been read yet.
    pub fn new(size: u64, comparator: Comparator, files: Vec<String>) -> (r: Self)
        ensures
            r.wf(),
            r.paths() == files@.map_values(|s: String| s@),
            r.spec_size() == size,
            r.spec_comparator() == comparator,
            r.history() == Seq::<(ReadView, Option<Seq<u8>>)>::empty(),
    {
        let candidate = if files.len() > 0 {
            Some(FdupesGroup::new(files[0].as_str(), size, comparator))
        } else {
            None
        };
        let mut m = BucketMatcher {
            size,
            comparator,
            files,
            groups: Vec::new(),
            next: 0,
            candidate,
            at: 0,
            phase: Phase::Finished,
            members: Ghost(Seq::empty()),
            history: Ghost(Seq::empty()),
        };
        proof {
            assert forall|c: Contents| #[trigger] consistent(c, m.history@) implies m.holds_for(
                c,
            ) by {
                assert(grouping(c, m.paths(), 0) == Seq::<Seq<int>>::empty());
            }
        }
        m.advance();
        m
    }

    /// The comparator of the bucket.
    pub fn comparator(&self) -> (r: Comparator)
        ensures
            r == self.spec_comparator(),
    {
        self.comparator
    }

    /// Whether the bucket is matched.
    pub fn is_done(&self) -> (r: bool)
        requires
            self.wf(),
        ensures
            r == self.finished(),
    {
        match self.phase {
            Phase::Finished => true,
            _ => false,
        }
    }

    /// The read that the matcher needs next, or `Done`.
    pub fn request(&self) -> (r: Request)
        requires
            self.wf(),
        ensures
            self.finished() ==> r == Request::Done,
            !self.finished() ==> r.read_view() == Some(self.pending_read()),
    {
        let prefix = if self.size <= crate::group::BLOCK_SIZE {
            self.size
        } else {
            crate::group::BLOCK_SIZE
        };
        match &self.phase {
            Phase::Finished => Request::Done,
            Phase::CandidatePrefix => Request::Prefix(self.files[self.next].clone(), prefix),
            Phase::CandidateWhole => Request::Whole(self.files[self.next].clone()),
            Phase::CandidateChunk(off) => Request::Chunk(
                self.files[self.next].clone(),
                *off,
                CHUNK_SIZE,
            ),
            Phase::GroupPrefix => {
                proof {
                    self.lemma_rep_name(self.at as int);
                }
                Request::Prefix(self.groups[self.at].filenames[0].clone(), prefix)
            },
            Phase::GroupWhole => {
                proof {
                    self.lemma_rep_name(self.at as int);
                }
                Request::Whole(self.groups[self.at].filenames[0].clone())
            },
            Phase::GroupChunk(off, _) => {
                proof {
                    self.lemma_rep_name(self.at as int);
                }
                Request::Chunk(self.groups[self.at].filenames[0].clone(), *off, CHUNK_SIZE)
            },
        }
    }

    proof fn lemma_rep_name(&self, g: int)
        requires
            self.shape(),
            0 <= g < self.groups@.len(),
        ensures
            self.groups@[g].filenames@.len() > 0,
            self.groups@[g].filenames@[0]@ == rep_path(self.paths(), self.members@[g]),
    {
        let grp = self.groups@[g];
        assert(self.members@[g].len() > 0);
        assert(grp.names() == group_paths(self.paths(), self.members@[g]));
        assert(grp.names().len() == grp.filenames@.len());
        assert(grp.names()[0] == grp.filenames@[0]@);
    }

    /// Takes the answer to the pending read (`None` where it failed) and
    /// goes on to the next read that is needed, deciding on the way every
    /// comparison that needs no more reading.
    pub fn step(&mut self, data: Option<Vec<u8>>)
        requires
            old(self).wf(),
            !old(self).finished(),
        ensures
            final(self).wf(),
            final(self).history() == old(self).history().push(
                (old(self).pending_read(), data_view(data)),
            ),
            final(self).paths() == old(self).paths(),
            final(self).spec_size() == old(self).spec_size(),
            final(self).spec_comparator() == old(self).spec_comparator(),
            lex_less(final(self).remaining(), old(self).remaining()),
    {
        let ghost read = self.pending_read();
        let ghost dv = data_view(data);
        let ghost old_hist = self.history@;
        let ghost cand_path = self.cand_path();
        let ghost rep = self.group_rep();
        self.history = Ghost(self.history@.push((read, dv)));
        proof {
            assert forall|c: Contents| #[trigger] consistent(c, self.history@) implies consistent(
                c,
                old_hist,
            ) && answers(c, read, dv) && old(self).holds_for(c) && old(self).phase_holds_for(c) by {
                assert forall|i: int| 0 <= i < old_hist.len() implies answers(
                    c,
                    #[trigger] old_hist[i].0,
                    old_hist[i].1,
                ) by {
                    assert(self.history@[i] == old_hist[i]);
                }
                assert(self.history@[old_hist.len() as int] == (read, dv));
                let last = old_hist.len() as int;
                assert(answers(c, self.history@[last].0, self.history@[last].1));
                assert(consistent(c, old_hist));
                assert(answers(c, read, dv));
                assert(consistent(c, old(self).history@));
                assert(old(self).holds_for(c));
            }
        }
        let mut phase = Phase::Finished;
        core::mem::swap(&mut self.phase, &mut phase);
        let at = self.at;
        match phase {
            Phase::CandidatePrefix => {
                let mut cand = self.candidate.take().unwrap();
                cand.record_partial(data);
                self.candidate = Some(cand);
                proof {
                    assert forall|c: Contents| #[trigger] consistent(c, self.history@) implies self.holds_for(
                        c,
                    ) by {
                        assert(old(self).holds_for(c));
                    }
                }
                self.advance();
            },
            Phase::GroupPrefix => {
                self.groups[at].record_partial(data);
                proof {
                    assert forall|c: Contents| #[trigger] consistent(c, self.history@) implies self.holds_for(
                        c,
                    ) by {
                        assert(old(self).holds_for(c));
                        assert forall|g: int| 0 <= g < self.groups@.len() implies (
                        #[trigger] self.groups@[g]).fingerprints_of(
                            c(rep_path(self.paths(), self.members@[g])),
                        ) by {
                            assert(old(self).groups@[g].fingerprints_of(
                                c(rep_path(self.paths(), self.members@[g])),
                            ));
                        }
                    }
                }
                self.advance();
            },
            Phase::CandidateWhole => {
                let mut cand = self.candidate.take().unwrap();
                cand.record_full(data);
                self.candidate = Some(cand);
                proof {
                    assert forall|c: Contents| #[trigger] consistent(c, self.history@) implies self.holds_for(
                        c,
                    ) by {
                        assert(old(self).holds_for(c));
                    }
                }
                self.advance();
            },
            Phase::GroupWhole => {
                self.groups[at].record_full(data);
                proof {
                    assert forall|c: Contents| #[trigger] consistent(c, self.history@) implies self.holds_for(
                        c,
                    ) by {
                        assert(old(self).holds_for(c));
                        assert forall|g: int| 0 <= g < self.groups@.len() implies (
                        #[trigger] self.groups@[g]).fingerprints_of(
                            c(rep_path(self.paths(), self.members@[g])),
                        ) by {
                            assert(old(self).groups@[g].fingerprints_of(
                                c(rep_path(self.paths(), self.members@[g])),
                            ));
                        }
                    }
                }
                self.advance();
            },
            Phase::CandidateChunk(off) => {
                match data {
                    None => {
                        self.reject();
                        self.advance();
                    },
                    Some(chunk) => {
                        self.phase = Phase::GroupChunk(off, chunk);
                    },
                }
            },
            Phase::GroupChunk(off, mine) => {
                match data {
                    None => {
                        self.reject();
                        self.advance();
                    },
                    Some(theirs) => {
                        proof {
                            assert forall|c: Contents| #[trigger]
                                consistent(c, self.history@) implies c(rep) is Some && theirs@
                                == slice_at(c(rep).unwrap(), off as nat, CHUNK_SIZE as nat) by {}
                        }
                        if mine.len() != theirs.len() {
                            self.reject();
                            self.advance();
                        } else if mine.len() == 0 {
                            proof {
                                assert forall|c: Contents| #[trigger]
                                    consistent(c, self.history@) implies identical(
                                    c,
                                    rep,
                                    cand_path,
                                ) by {
                                    let xc = c(cand_path).unwrap();
                                    let xr = c(rep).unwrap();
                                    assert(xc.take(off as int) =~= xc);
                                    assert(xr.take(off as int) =~= xr);
                                }
                            }
                            self.accept();
                            self.advance();
                        } else if !same_bytes(mine.as_slice(), theirs.as_slice()) {
                            self.reject();
                            self.advance();
                        } else {
                            match off.checked_add(mine.len() as u64) {
                                None => {
                                    self.reject();
                                    self.advance();
                                },
                                Some(next_off) => {
                                    self.phase = Phase::CandidateChunk(next_off);
                                    proof {
                                        assert forall|c: Contents| #[trigger]
                                            consistent(c, self.history@) implies self.holds_for(c)
                                            && self.phase_holds_for(c) by {
                                            assert(old(self).holds_for(c));
                                            if c(cand_path) is Some && c(rep) is Some {
                                                let xc = c(cand_path).unwrap();
                                                let xr = c(rep).unwrap();
                                                assert(xc.take(next_off as int) =~= xc.take(
                                                    off as int,
                                                ) + mine@);
                                                assert(xr.take(next_off as int) =~= xr.take(
                                                    off as int,
                                                ) + theirs@);
                                            }
                                        }
                                    }
                                },
                            }
                        }
                    },
                }
            },
            Phase::Finished => {},
        }
    }

    /// Which reads the matcher asks for: only of the file being placed and
    /// of the representative of the group it is compared with; a prefix of
    /// the partial fingerprint's length; a whole stream only for files of
    /// more than `BLOCK_SIZE` bytes and only once the partial fingerprints
    /// agree; chunks of the exact comparison only once both fingerprints
    /// agree.
    pub proof fn lemma_pending_read(&self)
        requires
            self.wf(),
            !self.finished(),
        ensures
            self.placed() < self.paths().len(),
            self.comparing() < self.spec_members().len(),
            ({
                let size = self.spec_size();
                let cand = self.candidate_path();
                let rep = self.representative(self.comparing() as int);
                match self.pending_read() {
                    ReadView::Prefix(p, len) => len == partial_len(size) && (p == cand || p == rep),
                    ReadView::Whole(p) => {
                        &&& size > BLOCK_SIZE
                        &&& (p == cand || p == rep)
                        &&& forall|c: Contents| #[trigger]
                            consistent(c, self.history()) ==> partial_fingerprint(size, c(cand))
                                is Known && partial_fingerprint(size, c(cand))
                                == partial_fingerprint(size, c(rep))
                    },
                    ReadView::Chunk(p, off, len) => {
                        &&& len == CHUNK_SIZE
                        &&& (p == cand || p == rep)
                        &&& forall|c: Contents| #[trigger]
                            consistent(c, self.history()) ==> {
                                &&& partial_fingerprint(size, c(cand)) is Known
                                &&& partial_fingerprint(size, c(cand)) == partial_fingerprint(
                                    size,
                                    c(rep),
                                )
                                &&& full_fingerprint(size, c(cand)) is Known
                                &&& full_fingerprint(size, c(cand)) == full_fingerprint(size, c(rep))
                            }
                    },
                }
            }),
    {
        let g = self.groups@[self.at as int];
        let cand = self.candidate.unwrap();
        assert(g.caches_ordered() && cand.caches_ordered());
        assert forall|c: Contents| #[trigger] consistent(c, self.history()) implies cand.fingerprints_of(
            c(self.cand_path()),
        ) && g.fingerprints_of(c(self.group_rep())) by {
            assert(self.holds_for(c));
        }
    }

    /// How many files of the bucket have been placed in a group.
    pub closed spec fn placed(&self) -> nat {
        self.next as nat
    }

    /// The groups formed are those that the files' content determines, for
    /// any content that agrees with every answer given.
    pub proof fn lemma_members(&self, c: Contents)
        requires
            self.wf(),
            consistent(c, self.history()),
        ensures
            self.spec_members() == grouping(c, self.paths(), self.placed()),
            self.placed() <= self.paths().len(),
            self.finished() ==> self.placed() == self.paths().len(),
    {
        assert(self.holds_for(c));
    }

    /// `msgs` reports the bucket's groups of more than one file, in the
    /// order the groups were formed, each tagged with the size, the number
    /// of groups reported for the bucket and its position among them.
    pub open spec fn is_report(&self, msgs: Seq<DupeMessage>) -> bool {
        &&& msgs.len() == reported(self.spec_members()).len()
        &&& forall|i: int|
            0 <= i < msgs.len() ==> (#[trigger] msgs[i] matches DupeMessage::Group(
                size,
                t,
                d,
                _,
            ) && size == self.spec_size() && t == msgs.len() && d == i) && msgs[i].filenames_view()
                == group_paths(self.paths(), reported(self.spec_members())[i])
    }

    /// The messages that report the bucket's groups of more than one file,
    /// in the order the groups were formed, each tagged with its position
    /// among them and their number.
    pub fn into_messages(self) -> (r: Vec<DupeMessage>)
        requires
            self.wf(),
            self.finished(),
        ensures
            self.is_report(r@),
    {
        let ghost members = self.members@;
        let ghost paths = self.paths();
        let size = self.size;
        let mut groups = self.groups;
        let mut picked: Vec<Vec<String>> = Vec::new();
        let mut i: usize = 0;
        while i < groups.len()
            invariant
                0 <= i <= groups@.len(),
                groups@.len() == members.len(),
                forall|g: int|
                    i <= g < groups@.len() ==> (#[trigger] groups@[g]).names() == group_paths(
                        paths,
                        members[g],
                    ),
                picked@.len() == reported(members.take(i as int)).len(),
                forall|j: int|
                    0 <= j < picked@.len() ==> (#[trigger] picked@[j])@.map_values(|s: String| s@)
                        == group_paths(paths, reported(members.take(i as int))[j]),
            decreases groups@.len() - i,
        {
            proof {
                lemma_reported_take(members, i as int);
                assert(groups@[i as int].names() == group_paths(paths, members[i as int]));
            }
            if groups[i].len() > 1 {
                let mut names: Vec<String> = Vec::new();
                core::mem::swap(&mut groups[i].filenames, &mut names);
                let ghost prev = picked@;
                picked.push(names);
                proof {
                    assert forall|j: int| 0 <= j < picked@.len() implies (#[trigger] picked@[j])@.map_values(
                        |s: String| s@,
                    ) == group_paths(paths, reported(members.take(i + 1))[j]) by {
                        if j < prev.len() {
                            assert(picked@[j] == prev[j]);
                        }
                    }
                }
            }
            i = i + 1;
        }
        proof {
            assert(members.take(members.len() as int) =~= members);
        }
        let ghost rep = reported(members);
        let n = picked.len();
        let mut out: Vec<DupeMessage> = Vec::new();
        let mut k: usize = 0;
        while k < n
            invariant
                0 <= k <= n,
                n == picked@.len(),
                n == rep.len(),
                forall|j: int|
                    k <= j < n ==> (#[trigger] picked@[j])@.map_values(|s: String| s@)
                        == group_paths(paths, rep[j]),
                out@.len() == k,
                forall|j: int|
                    0 <= j < k ==> (#[trigger] out@[j] matches DupeMessage::Group(s, t, d, _) && s
                        == size && t == n && d == j) && out@[j].filenames_view() == group_paths(
                        paths,
                        rep[j],
                    ),
            decreases n - k,
        {
            let mut names: Vec<String> = Vec::new();
            core::mem::swap(&mut picked[k], &mut names);
            let ghost prev = out@;
            out.push(DupeMessage::Group(size, n, k, names));
            proof {
                assert forall|j: int| 0 <= j < k + 1 implies (#[trigger] out@[j] matches DupeMessage::Group(
                    s,
                    t,
                    d,
                    _,
                ) && s == size && t == n && d == j) && out@[j].filenames_view() == group_paths(
                    paths,
                    rep[j],
                ) by {
                    if j < k {
                        assert(out@[j] == prev[j]);
                    }
                }
            }
            k = k + 1;
        }
        out
    }
}

} // verus!
