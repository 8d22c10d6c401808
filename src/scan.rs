use vstd::prelude::*;

use crate::bucket::{keys_sorted, Bucket};
use crate::comparator::Comparator;
use crate::matcher::{consistent, data_view, lex_less, BucketMatcher, Request};
use crate::message::DupeMessage;
use crate::model::{group_paths, grouping, identical, lemma_reported_large, reported, Contents};
use crate::scanner::DupeScanner;

verus! {

/// `a` comes before `b` in lexicographic order.
pub open spec fn progressed(a: ScanMeasure, b: ScanMeasure) -> bool {
    ||| a.0 < b.0
    ||| a.0 == b.0 && lex_less(a.1, b.1)
    ||| a.0 == b.0 && a.1 == b.1 && a.2 < b.2
    ||| a.0 == b.0 && a.1 == b.1 && a.2 == b.2 && a.3 < b.3
}

/// `a` is `b`, or comes before it.
pub open spec fn at_most(a: ScanMeasure, b: ScanMeasure) -> bool {
    a == b || progressed(a, b)
}

/// What is left of a scan: buckets to start or finish, what is left of the
/// current bucket's matching, messages of the last bucket to hand out, and
/// the end-of-stream message.
pub type ScanMeasure = (nat, (nat, nat, nat), nat, nat);

proof fn lemma_progress_trans(a: ScanMeasure, b: ScanMeasure, c: ScanMeasure)
    ensures
        at_most(a, b) && at_most(b, c) ==> at_most(a, c),
        progressed(a, b) && at_most(b, c) ==> progressed(a, c),
{
}

/// The stages of a scan, in order; none is skipped and `Done` is final.
#[derive(Debug, Clone, Copy, PartialEq, Eq, Structural)]
pub enum ScanPhase {
    Idle,
    Scanning,
    Matching,
    Done,
}

/// What a scan needs next from whoever drives it.
#[derive(Debug, PartialEq, Eq)]
pub enum ScanAction {
    /// Answer this read, of a stream as the comparator sees it, through
    /// `answer`.
    Read(Comparator, Request),
    /// Hand this message to the consumer.
    Send(DupeMessage),
    /// The scan is over: the end-of-stream message has been handed out.
    Finished,
}

/// One run of a scan. The caller walks the roots while it is `Scanning`
/// and hands in what it found; the scan then matches the buckets one after
/// the other, from the first key down, and hands out the reported groups of
/// each bucket as messages tagged with the bucket's position among all,
/// then the end-of-stream message.
pub struct Scan {
    phase: ScanPhase,
    buckets: Vec<Bucket>,
    total: usize,
    started: usize,
    matcher: Option<BucketMatcher>,
    outbox: Vec<DupeMessage>,
    out_pos: usize,
    ended: bool,
    all: Ghost<Seq<Bucket>>,
    finished: Ghost<Seq<BucketMatcher>>,
    reports: Ghost<Seq<Seq<DupeMessage>>>,
    sent: Ghost<Seq<DupeMessage>>,
}

impl Scan {
    pub closed spec fn phase(&self) -> ScanPhase {
        self.phase
    }

    /// The buckets of the scan, in the order they are matched.
    pub closed spec fn bucket_list(&self) -> Seq<Bucket> {
        self.all@
    }

    /// The matchers of the buckets matched so far, as they ended.
    pub closed spec fn matched(&self) -> Seq<BucketMatcher> {
        self.finished@
    }

    /// The messages of each bucket matched so far.
    pub closed spec fn reports(&self) -> Seq<Seq<DupeMessage>> {
        self.reports@
    }

    /// Every message handed out so far, in order.
    pub closed spec fn sent(&self) -> Seq<DupeMessage> {
        self.sent@
    }

    /// The matcher of the bucket being matched.
    pub closed spec fn current(&self) -> BucketMatcher {
        self.matcher.unwrap()
    }

    /// What is left to do. It decreases with every answer and every message
    /// handed out, and never grows.
    pub closed spec fn remaining(&self) -> ScanMeasure {
        (
            (2 * (self.all@.len() - self.started) + if self.matcher is Some {
                1int
            } else {
                0
            }) as nat,
            match self.matcher {
                Some(m) => m.remaining(),
                None => (0, 0, 0),
            },
            (self.outbox@.len() - self.out_pos) as nat,
            if self.ended {
                0
            } else {
                1
            },
        )
    }

    /// A read of the current bucket is awaited.
    pub closed spec fn awaits_answer(&self) -> bool {
        &&& self.out_pos >= self.outbox@.len()
        &&& self.matcher matches Some(m) && !m.finished()
    }

    pub closed spec fn wf(&self) -> bool {
        let all = self.all@;
        let total = all.len();
        &&& self.buckets@.len() == total
        &&& self.total == total
        &&& keys_sorted(all)
        &&& (self.phase is Idle || self.phase is Scanning) ==> {
            &&& total == 0
            &&& self.started == 0
            &&& self.matcher is None
            &&& self.finished@.len() == 0
            &&& self.outbox@.len() == 0
            &&& !self.ended
            &&& self.sent@.len() == 0
        }
        &&& self.started <= total
        &&& forall|j: int| self.started <= j < total ==> #[trigger] self.buckets@[j] == all[j]
        &&& self.finished@.len() == self.reports@.len()
        &&& self.matcher matches Some(m) ==> {
            &&& self.started >= 1
            &&& self.finished@.len() == self.started - 1
            &&& m.wf()
            &&& m.paths() == all[self.started - 1].paths()
            &&& m.spec_size() == all[self.started - 1].size
            &&& m.spec_comparator() == all[self.started - 1].comparator
            &&& self.out_pos == self.outbox@.len()
        }
        &&& self.matcher is None ==> self.finished@.len() == self.started
        &&& forall|i: int|
            0 <= i < self.finished@.len() ==> {
                &&& (#[trigger] self.finished@[i]).wf()
                &&& self.finished@[i].finished()
                &&& self.finished@[i].paths() == all[i].paths()
                &&& self.finished@[i].spec_size() == all[i].size
                &&& self.finished@[i].spec_comparator() == all[i].comparator
                &&& self.finished@[i].is_report(self.reports@[i])
            }
        &&& self.out_pos <= self.outbox@.len()
        &&& self.reports@.len() == 0 ==> self.outbox@.len() == 0 && self.sent@ == (if self.ended {
            seq![DupeMessage::End]
        } else {
            Seq::empty()
        })
        &&& self.reports@.len() > 0 ==> {
            let last = self.reports@.last();
            &&& self.outbox@.len() == last.len()
            &&& forall|j: int| self.out_pos <= j < last.len() ==> #[trigger] self.outbox@[j] == last[j]
            &&& self.sent@ == self.reports@.drop_last().flatten() + last.take(self.out_pos as int)
                + (if self.ended {
                seq![DupeMessage::End]
            } else {
                Seq::empty()
            })
        }
        &&& self.ended ==> {
            &&& self.matcher is None
            &&& self.started == total
            &&& self.out_pos == self.outbox@.len()
        }
        &&& self.phase is Done ==> self.ended
    }

    /// A scan that has not started.
    pub fn new() -> (r: Self)
        ensures
            r.wf(),
            r.phase() == ScanPhase::Idle,
            r.sent() == Seq::<DupeMessage>::empty(),
    {
        Scan {
            phase: ScanPhase::Idle,
            buckets: Vec::new(),
            total: 0,
            started: 0,
            matcher: None,
            outbox: Vec::new(),
            out_pos: 0,
            ended: false,
            all: Ghost(Seq::empty()),
            finished: Ghost(Seq::empty()),
            reports: Ghost(Seq::empty()),
            sent: Ghost(Seq::empty()),
        }
    }

    /// The stage the scan is in.
    pub fn current_phase(&self) -> (r: ScanPhase)
        ensures
            r == self.phase(),
    {
        self.phase
    }

    /// The walk of the roots begins.
    pub fn start(&mut self)
        requires
            old(self).wf(),
            old(self).phase() == ScanPhase::Idle,
        ensures
            final(self).wf(),
            final(self).phase() == ScanPhase::Scanning,
            final(self).sent() == old(self).sent(),
    {
        self.phase = ScanPhase::Scanning;
    }

    /// The walk is over and found `found` (`(size, path)`): the scan moves on
    /// to matching the buckets that `scanner` makes of them.
    pub fn files_found(&mut self, scanner: &DupeScanner, found: &Vec<(u64, String)>)
        requires
            old(self).wf(),
            old(self).phase() == ScanPhase::Scanning,
            scanner.wf(),
        ensures
            final(self).wf(),
            final(self).phase() == ScanPhase::Matching,
            scanner.buckets_of(found@, final(self).bucket_list()),
            final(self).sent() == old(self).sent(),
            final(self).reports().len() == 0,
    {
        let buckets = scanner.find_files(found);
        self.total = buckets.len();
        self.all = Ghost(buckets@);
        self.buckets = buckets;
        self.phase = ScanPhase::Matching;
    }

    /// The next thing to do: a read to answer, a message to hand out, or
    /// nothing more.
    pub fn next_action(&mut self) -> (r: ScanAction)
        requires
            old(self).wf(),
            old(self).phase() == ScanPhase::Matching || old(self).phase() == ScanPhase::Done,
        ensures
            final(self).wf(),
            final(self).bucket_list() == old(self).bucket_list(),
            old(self).reports().len() <= final(self).reports().len(),
            forall|i: int|
                0 <= i < old(self).reports().len() ==> #[trigger] final(self).reports()[i] == old(
                    self,
                ).reports()[i] && final(self).matched()[i] == old(self).matched()[i],
            match r {
                ScanAction::Read(comp, req) => {
                    &&& at_most(final(self).remaining(), old(self).remaining())
                    &&& final(self).awaits_answer()
                    &&& req.read_view() == Some(final(self).current().pending_read())
                    &&& comp == final(self).current().spec_comparator()
                    &&& final(self).phase() == ScanPhase::Matching
                    &&& final(self).sent() == old(self).sent()
                },
                ScanAction::Send(m) => {
                    &&& progressed(final(self).remaining(), old(self).remaining())
                    &&& final(self).phase() == ScanPhase::Matching
                    &&& final(self).sent() == old(self).sent().push(m)
                },
                ScanAction::Finished => {
                    &&& at_most(final(self).remaining(), old(self).remaining())
                    &&& final(self).phase() == ScanPhase::Done
                    &&& final(self).sent() == old(self).sent()
                    &&& final(self).reports().len() == final(self).bucket_list().len()
                    &&& final(self).sent() == final(self).reports().flatten().push(
                        DupeMessage::End,
                    )
                },
            },
    {
        let total = self.total;
        loop
            invariant
                self.wf(),
                self.phase == ScanPhase::Matching || self.phase == ScanPhase::Done,
                self.phase == ScanPhase::Done ==> self.ended,
                total == self.all@.len(),
                self.all@ == old(self).all@,
                self.sent@ == old(self).sent@,
                old(self).reports@.len() <= self.reports@.len(),
                forall|i: int|
                    0 <= i < old(self).reports@.len() ==> #[trigger] self.reports@[i] == old(
                        self,
                    ).reports@[i] && self.finished@[i] == old(self).finished@[i],
                self.phase == old(self).phase,
                at_most(self.remaining(), old(self).remaining()),
            decreases 2 * (total - self.started) + if self.matcher is Some {
                1int
            } else {
                0
            },
        {
            if self.out_pos < self.outbox.len() {
                let ghost before = self.remaining();
                let mut m = DupeMessage::End;
                let pos = self.out_pos;
                core::mem::swap(&mut self.outbox[pos], &mut m);
                let ghost prev = self.sent@;
                self.out_pos = pos + 1;
                self.sent = Ghost(self.sent@.push(m));
                proof {
                    let last = self.reports@.last();
                    assert(m == last[pos as int]);
                    assert(last.take(pos + 1) =~= last.take(pos as int).push(m));
                    assert(!self.ended);
                    lemma_progress_trans(self.remaining(), before, old(self).remaining());
                }
                return ScanAction::Send(m);
            }
            if let Some(m) = &self.matcher {
                if !m.is_done() {
                    return ScanAction::Read(m.comparator(), m.request());
                }
            }
            let ghost before = self.remaining();
            match self.matcher.take() {
                Some(m) => {
                    let ghost snapshot = m;
                    let msgs = m.into_messages();
                    proof {
                        let old_reports = self.reports@;
                        self.reports@ = self.reports@.push(msgs@);
                        self.finished@ = self.finished@.push(snapshot);
                        if old_reports.len() > 0 {
                            assert(old_reports.last().take(old_reports.last().len() as int)
                                =~= old_reports.last());
                            assert(old_reports.drop_last().push(old_reports.last()) =~= old_reports);
                            old_reports.drop_last().lemma_flatten_push(old_reports.last());
                        }
                        assert(self.reports@.drop_last() =~= old_reports);
                        assert(msgs@.take(0) =~= Seq::<DupeMessage>::empty());
                    }
                    self.outbox = msgs;
                    self.out_pos = 0;
                    proof {
                        lemma_progress_trans(self.remaining(), before, old(self).remaining());
                    }
                },
                None => {
                    if self.started < total {
                        let k = self.started;
                        let mut files: Vec<String> = Vec::new();
                        core::mem::swap(&mut self.buckets[k].files, &mut files);
                        let size = self.buckets[k].size;
                        let comparator = self.buckets[k].comparator;
                        proof {
                            assert(self.buckets@[k as int].size == self.all@[k as int].size);
                        }
                        self.matcher = Some(BucketMatcher::new(size, comparator, files));
                        self.started = k + 1;
                        proof {
                            lemma_progress_trans(self.remaining(), before, old(self).remaining());
                            let rs = self.reports@;
                            if rs.len() > 0 {
                                assert(rs.last().take(rs.last().len() as int) =~= rs.last());
                            }
                        }
                    } else if !self.ended {
                        self.ended = true;
                        self.sent = Ghost(self.sent@.push(DupeMessage::End));
                        proof {
                            lemma_progress_trans(self.remaining(), before, old(self).remaining());
                            let rs = self.reports@;
                            if rs.len() > 0 {
                                assert(rs.last().take(rs.last().len() as int) =~= rs.last());
                            }
                        }
                        return ScanAction::Send(DupeMessage::End);
                    } else {
                        self.phase = ScanPhase::Done;
                        proof {
                            let rs = self.reports@;
                            if rs.len() > 0 {
                                assert(rs.last().take(rs.last().len() as int) =~= rs.last());
                                assert(rs.drop_last().push(rs.last()) =~= rs);
                                rs.drop_last().lemma_flatten_push(rs.last());
                            }
                        }
                        return ScanAction::Finished;
                    }
                },
            }
        }
    }

    /// The answer to the awaited read (`None` where it failed).
    pub fn answer(&mut self, data: Option<Vec<u8>>)
        requires
            old(self).wf(),
            old(self).phase() == ScanPhase::Matching,
            old(self).awaits_answer(),
        ensures
            final(self).wf(),
            final(self).phase() == ScanPhase::Matching,
            final(self).sent() == old(self).sent(),
            final(self).reports() == old(self).reports(),
            final(self).matched() == old(self).matched(),
            final(self).bucket_list() == old(self).bucket_list(),
            final(self).current().history() == old(self).current().history().push(
                (old(self).current().pending_read(), data_view(data)),
            ),
            progressed(final(self).remaining(), old(self).remaining()),
    {
        let mut m = self.matcher.take().unwrap();
        m.step(data);
        self.matcher = Some(m);
    }

    /// Each bucket's messages report the groups that its files' content
    /// determines: for any content that agrees with every answer given for
    /// that bucket, they are its reported groups, in order, tagged with the
    /// bucket's size, their number and each one's position.
    pub proof fn lemma_reports(&self, i: int, c: Contents)
        requires
            self.wf(),
            0 <= i < self.reports().len(),
            consistent(c, self.matched()[i].history()),
        ensures
            ({
                let paths = self.bucket_list()[i].paths();
                let groups = reported(grouping(c, paths, paths.len()));
                &&& self.reports()[i].len() == groups.len()
                &&& forall|j: int|
                    0 <= j < groups.len() ==> (#[trigger] self.reports()[i][j] matches DupeMessage::Group(
                        size,
                        t,
                        d,
                        _,
                    ) && size == self.bucket_list()[i].size && t == groups.len() && d == j)
                        && self.reports()[i][j].filenames_view() == group_paths(
                        paths,
                        groups[j],
                    )
            }),
    {
        let m = self.finished@[i];
        assert(m.wf() && m.finished() && m.paths() == self.all@[i].paths());
        assert(m.is_report(self.reports@[i]));
        m.lemma_members(c);
    }

    /// Partition across buckets: files of two different buckets of one
    /// comparator never hold identical content, where each readable file
    /// holds as many bytes as its bucket's size.
    pub proof fn lemma_buckets_apart(&self, i: int, j: int, p: int, q: int, c: Contents)
        requires
            self.wf(),
            0 <= i < self.bucket_list().len(),
            0 <= j < self.bucket_list().len(),
            i != j,
            self.bucket_list()[i].comparator == self.bucket_list()[j].comparator,
            0 <= p < self.bucket_list()[i].paths().len(),
            0 <= q < self.bucket_list()[j].paths().len(),
            c(self.bucket_list()[i].paths()[p]) is Some ==> c(
                self.bucket_list()[i].paths()[p],
            ).unwrap().len() == self.bucket_list()[i].size,
            c(self.bucket_list()[j].paths()[q]) is Some ==> c(
                self.bucket_list()[j].paths()[q],
            ).unwrap().len() == self.bucket_list()[j].size,
        ensures
            !identical(c, self.bucket_list()[i].paths()[p], self.bucket_list()[j].paths()[q]),
    {
        let bs = self.all@;
        if i < j {
            assert(crate::bucket::key_before(bs[i].size, bs[i].comparator, bs[j].size, bs[j].comparator));
        } else {
            assert(crate::bucket::key_before(bs[j].size, bs[j].comparator, bs[i].size, bs[i].comparator));
        }
    }

    /// Each matched bucket's messages are its matcher's report, whatever
    /// the files held: their number, sizes, tags and paths.
    pub proof fn lemma_report_of(&self, i: int)
        requires
            self.wf(),
            0 <= i < self.reports().len(),
        ensures
            self.matched()[i].is_report(self.reports()[i]),
            self.matched()[i].finished(),
            self.matched()[i].paths() == self.bucket_list()[i].paths(),
            self.matched()[i].spec_size() == self.bucket_list()[i].size,
            self.matched()[i].spec_comparator() == self.bucket_list()[i].comparator,
    {
        assert(self.finished@[i].wf());
    }

    /// Over the whole scan, every group message handed out names at least
    /// two files, and its position is below the number of groups of its
    /// bucket.
    pub proof fn lemma_sent_groups_large(&self, k: int)
        requires
            self.wf(),
            0 <= k < self.sent().len(),
            self.sent()[k] is Group,
        ensures
            self.sent()[k].filenames_view().len() >= 2,
            (self.sent()[k] matches DupeMessage::Group(_, t, d, _) && d < t),
    {
        let rs = self.reports@;
        assert forall|i: int, j: int| 0 <= i < rs.len() && 0 <= j < rs[i].len() && (#[trigger] rs[i][j]) is Group implies rs[i][j].filenames_view().len() >= 2
            && (rs[i][j] matches DupeMessage::Group(_, t, d, _) && d < t) by {
            let m = self.finished@[i];
            assert(m.is_report(rs[i]));
            lemma_reported_large(m.spec_members(), j);
        }
        lemma_flatten_members(rs, self.sent@, k, self.out_pos as int, self.ended);
    }
}

/// An element of a flattened sequence of reports comes from one of them.
proof fn lemma_flatten_contains(rs: Seq<Seq<DupeMessage>>, k: int)
    requires
        0 <= k < rs.flatten().len(),
    ensures
        exists|i: int, j: int|
            0 <= i < rs.len() && 0 <= j < rs[i].len() && #[trigger] rs[i][j] == rs.flatten()[k],
    decreases rs.len(),
{
    if rs.len() > 0 {
        let init = rs.drop_last();
        assert(init.push(rs.last()) =~= rs);
        init.lemma_flatten_push(rs.last());
        let a = init.flatten();
        if k < a.len() {
            lemma_flatten_contains(init, k);
            let (i, j) = choose|i: int, j: int|
                0 <= i < init.len() && 0 <= j < init[i].len() && #[trigger] init[i][j] == a[k];
            assert(rs[i][j] == rs.flatten()[k]);
        } else {
            let j = k - a.len();
            assert(rs[rs.len() - 1][j] == rs.flatten()[k]);
        }
    }
}

/// An element of the messages handed out is an element of some report,
/// or the end-of-stream message.
proof fn lemma_flatten_members(
    rs: Seq<Seq<DupeMessage>>,
    sent: Seq<DupeMessage>,
    k: int,
    pos: int,
    ended: bool,
)
    requires
        0 <= k < sent.len(),
        rs.len() == 0 ==> sent == (if ended {
            seq![DupeMessage::End]
        } else {
            Seq::empty()
        }),
        rs.len() > 0 ==> 0 <= pos <= rs.last().len() && sent == rs.drop_last().flatten()
            + rs.last().take(pos) + (if ended {
            seq![DupeMessage::End]
        } else {
            Seq::empty()
        }),
    ensures
        sent[k] is End || exists|i: int, j: int|
            0 <= i < rs.len() && 0 <= j < rs[i].len() && #[trigger] rs[i][j] == sent[k],
{
    if rs.len() > 0 {
        let init = rs.drop_last();
        let a = init.flatten();
        let b = rs.last().take(pos);
        if k < a.len() {
            assert(sent[k] == a[k]);
            lemma_flatten_contains(init, k);
            let (i, j) = choose|i: int, j: int|
                0 <= i < init.len() && 0 <= j < init[i].len() && #[trigger] init[i][j] == a[k];
            assert(rs[i][j] == sent[k]);
        } else if k < a.len() + b.len() {
            assert(sent[k] == b[k - a.len()]);
            assert(rs[rs.len() - 1][k - a.len()] == sent[k]);
        }
    }
}

/// Idempotence: two scans that found the same files, whose files read the
/// same in both (any content `c` that agrees with the answers of both runs
/// for a bucket), report the same groups for that bucket, with the same
/// sizes and tags.
pub proof fn lemma_scans_agree(
    s1: &Scan,
    s2: &Scan,
    scanner: &DupeScanner,
    found: Seq<(u64, String)>,
    i: int,
    c: Contents,
)
    requires
        s1.wf(),
        s2.wf(),
        scanner.buckets_of(found, s1.bucket_list()),
        scanner.buckets_of(found, s2.bucket_list()),
        0 <= i < s1.reports().len(),
        0 <= i < s2.reports().len(),
        consistent(c, s1.matched()[i].history()),
        consistent(c, s2.matched()[i].history()),
    ensures
        s1.bucket_list().len() == s2.bucket_list().len(),
        s1.reports()[i].len() == s2.reports()[i].len(),
        forall|j: int|
            0 <= j < s1.reports()[i].len() ==> (#[trigger] s1.reports()[i][j]).filenames_view()
                == s2.reports()[i][j].filenames_view() && (s1.reports()[i][j] matches DupeMessage::Group(
                z1,
                t1,
                d1,
                _,
            ) && s2.reports()[i][j] matches DupeMessage::Group(z2, t2, d2, _) && z1 == z2 && t1
                == t2 && d1 == d2),
{
    scanner.lemma_buckets_determined(found, s1.bucket_list(), s2.bucket_list());
    s1.lemma_reports(i, c);
    s2.lemma_reports(i, c);
}

} // verus!
