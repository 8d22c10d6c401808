use vstd::prelude::*;

verus! {

/// What a comparator reads for each path: the bytes of its stream, or
/// `None` where the path cannot be opened or read.
pub type Contents = spec_fn(Seq<char>) -> Option<Seq<u8>>;

/// Two paths hold identical content: both can be read, and the bytes agree.
pub open spec fn identical(c: Contents, a: Seq<char>, b: Seq<char>) -> bool {
    c(a) is Some && c(a) == c(b)
}

/// A group is a sequence of positions in the bucket's file list; its first
/// position is its representative.
pub open spec fn rep_path(files: Seq<Seq<char>>, group: Seq<int>) -> Seq<char> {
    files[group[0]]
}

/// The first group, from `from` on, whose representative holds the same
/// content as file `k`; `groups.len()` where none does.
pub open spec fn first_match(
    c: Contents,
    files: Seq<Seq<char>>,
    groups: Seq<Seq<int>>,
    k: int,
    from: nat,
) -> nat
    decreases groups.len() - from,
{
    if from >= groups.len() {
        groups.len()
    } else if identical(c, rep_path(files, groups[from as int]), files[k]) {
        from
    } else {
        first_match(c, files, groups, k, from + 1)
    }
}

/// File `k` joins the first group whose representative it is identical to,
/// or starts a group of its own.
pub open spec fn place(c: Contents, files: Seq<Seq<char>>, groups: Seq<Seq<int>>, k: int) -> Seq<
    Seq<int>,
> {
    let i = first_match(c, files, groups, k, 0);
    if i < groups.len() {
        groups.update(i as int, groups[i as int].push(k))
    } else {
        groups.push(seq![k])
    }
}

/// The groups that matching the first `n` files of a bucket, in order,
/// produces.
pub open spec fn grouping(c: Contents, files: Seq<Seq<char>>, n: nat) -> Seq<Seq<int>>
    decreases n,
{
    if n == 0 {
        Seq::empty()
    } else {
        place(c, files, grouping(c, files, (n - 1) as nat), n - 1)
    }
}

/// The groups that are reported: those with more than one member.
pub open spec fn reported(groups: Seq<Seq<int>>) -> Seq<Seq<int>> {
    groups.filter(|g: Seq<int>| g.len() > 1)
}

/// The paths of a group.
pub open spec fn group_paths(files: Seq<Seq<char>>, group: Seq<int>) -> Seq<Seq<char>> {
    group.map_values(|k: int| files[k])
}

/// Position `k` is a member of some group.
pub open spec fn member_of_some(groups: Seq<Seq<int>>, k: int) -> bool {
    exists|g: int, p: int| 0 <= g < groups.len() && 0 <= p < groups[g].len() && #[trigger] groups[g][p] == k
}

/// Well-formed groups over the first `n` files: every file in exactly one
/// group, members identical to their representative, representatives of
/// distinct groups not identical, and positions in the order of the list.
pub open spec fn groups_wf(
    c: Contents,
    files: Seq<Seq<char>>,
    groups: Seq<Seq<int>>,
    n: nat,
) -> bool {
    &&& n <= files.len()
    &&& forall|g: int| 0 <= g < groups.len() ==> #[trigger] groups[g].len() > 0
    &&& forall|g: int, p: int|
        0 <= g < groups.len() && 0 <= p < groups[g].len() ==> 0 <= #[trigger] groups[g][p] < n
    &&& forall|g1: int, m1: int, g2: int, m2: int|
        0 <= g1 < groups.len() && 0 <= m1 < groups[g1].len() && 0 <= g2 < groups.len() && 0 <= m2
            < groups[g2].len() && #[trigger] groups[g1][m1] == #[trigger] groups[g2][m2] ==> g1
            == g2 && m1 == m2
    &&& forall|k: int| 0 <= k < n ==> #[trigger] member_of_some(groups, k)
    &&& forall|g: int, p: int|
        0 <= g < groups.len() && 0 < p < groups[g].len() ==> identical(
            c,
            rep_path(files, groups[g]),
            files[#[trigger] groups[g][p]],
        )
    &&& forall|g1: int, g2: int|
        0 <= g1 < g2 < groups.len() ==> !identical(
            c,
            #[trigger] rep_path(files, groups[g1]),
            #[trigger] rep_path(files, groups[g2]),
        )
    &&& forall|g: int, m1: int, m2: int|
        0 <= g < groups.len() && 0 <= m1 < m2 < groups[g].len() ==> #[trigger] groups[g][m1]
            < #[trigger] groups[g][m2]
    &&& forall|g1: int, g2: int|
        0 <= g1 < g2 < groups.len() ==> #[trigger] groups[g1][0] < #[trigger] groups[g2][0]
}

proof fn lemma_first_match(
    c: Contents,
    files: Seq<Seq<char>>,
    groups: Seq<Seq<int>>,
    k: int,
    from: nat,
)
    requires
        from <= groups.len(),
    ensures
        from <= first_match(c, files, groups, k, from) <= groups.len(),
        first_match(c, files, groups, k, from) < groups.len() ==> identical(
            c,
            rep_path(files, groups[first_match(c, files, groups, k, from) as int]),
            files[k],
        ),
        forall|j: int|
            from <= j < first_match(c, files, groups, k, from) ==> !identical(
                c,
                #[trigger] rep_path(files, groups[j]),
                files[k],
            ),
    decreases groups.len() - from,
{
    if from < groups.len() && !identical(c, rep_path(files, groups[from as int]), files[k]) {
        lemma_first_match(c, files, groups, k, from + 1);
    }
}

/// One step of matching keeps the groups a partition by content: placing
/// file `n` into well-formed groups of the first `n` files gives
/// well-formed groups of the first `n + 1` (every file in exactly one
/// group, members identical to their representative, representatives of
/// distinct groups not identical).
pub proof fn lemma_place_wf(c: Contents, files: Seq<Seq<char>>, groups: Seq<Seq<int>>, n: nat)
    requires
        groups_wf(c, files, groups, n),
        n < files.len(),
    ensures
        groups_wf(c, files, place(c, files, groups, n as int), n + 1),
{
    let k = n as int;
    lemma_first_match(c, files, groups, k, 0);
    let i = first_match(c, files, groups, k, 0);
    let ng = place(c, files, groups, k);
    if i < groups.len() {
        assert(ng == groups.update(i as int, groups[i as int].push(k)));
        assert forall|g: int, p: int|
            0 <= g < ng.len() && 0 <= p < ng[g].len() implies ng[g][p] == (if g == i && p
                == groups[g].len() {
                k
            } else {
                groups[g][p]
            }) by {}
        assert forall|kk: int| 0 <= kk < n + 1 implies #[trigger] member_of_some(ng, kk) by {
            if kk == k {
                assert(ng[i as int][groups[i as int].len() as int] == kk);
            } else {
                assert(member_of_some(groups, kk));
                let (g, p) = choose|g: int, p: int|
                    0 <= g < groups.len() && 0 <= p < groups[g].len() && #[trigger] groups[g][p]
                        == kk;
                assert(ng[g][p] == kk);
            }
        }
        assert forall|g: int| 0 <= g < ng.len() implies rep_path(files, #[trigger] ng[g])
            == rep_path(files, groups[g]) by {
            assert(ng[g][0] == groups[g][0]);
        }
    } else {
        assert(ng == groups.push(seq![k]));
        assert forall|kk: int| 0 <= kk < n + 1 implies #[trigger] member_of_some(ng, kk) by {
            if kk == k {
                assert(ng[groups.len() as int][0] == kk);
            } else {
                assert(member_of_some(groups, kk));
                let (g, p) = choose|g: int, p: int|
                    0 <= g < groups.len() && 0 <= p < groups[g].len() && #[trigger] groups[g][p]
                        == kk;
                assert(ng[g][p] == kk);
            }
        }
        assert forall|g: int| 0 <= g < groups.len() implies rep_path(files, #[trigger] ng[g])
            == rep_path(files, groups[g]) by {}
    }
}

/// The groups of the first `n` files are well formed.
pub proof fn lemma_grouping_wf(c: Contents, files: Seq<Seq<char>>, n: nat)
    requires
        n <= files.len(),
    ensures
        groups_wf(c, files, grouping(c, files, n), n),
    decreases n,
{
    if n > 0 {
        lemma_grouping_wf(c, files, (n - 1) as nat);
        lemma_place_wf(c, files, grouping(c, files, (n - 1) as nat), (n - 1) as nat);
    }
}

/// Members of a group hold the content of its representative.
proof fn lemma_member_content(
    c: Contents,
    files: Seq<Seq<char>>,
    groups: Seq<Seq<int>>,
    n: nat,
    g: int,
    p: int,
)
    requires
        groups_wf(c, files, groups, n),
        0 <= g < groups.len(),
        0 <= p < groups[g].len(),
    ensures
        c(files[groups[g][p]]) == c(rep_path(files, groups[g])),
        groups[g].len() > 1 ==> c(rep_path(files, groups[g])) is Some,
{
    if p > 0 {
        assert(identical(c, rep_path(files, groups[g]), files[groups[g][p]]));
    }
    if groups[g].len() > 1 {
        assert(identical(c, rep_path(files, groups[g]), files[groups[g][1]]));
    }
}

/// Partition: no path of one finished group is identical to a path of
/// another group of the same bucket.
pub proof fn lemma_groups_partition(
    c: Contents,
    files: Seq<Seq<char>>,
    g1: int,
    m1: int,
    g2: int,
    m2: int,
)
    requires
        0 <= g1 < grouping(c, files, files.len()).len(),
        0 <= g2 < grouping(c, files, files.len()).len(),
        g1 != g2,
        0 <= m1 < grouping(c, files, files.len())[g1].len(),
        0 <= m2 < grouping(c, files, files.len())[g2].len(),
    ensures
        !identical(
            c,
            files[grouping(c, files, files.len())[g1][m1]],
            files[grouping(c, files, files.len())[g2][m2]],
        ),
{
    let gs = grouping(c, files, files.len());
    lemma_grouping_wf(c, files, files.len());
    lemma_member_content(c, files, gs, files.len(), g1, m1);
    lemma_member_content(c, files, gs, files.len(), g2, m2);
    if g1 < g2 {
        assert(!identical(c, rep_path(files, gs[g1]), rep_path(files, gs[g2])));
    } else {
        assert(!identical(c, rep_path(files, gs[g2]), rep_path(files, gs[g1])));
    }
}

/// Completeness: two files of a bucket with identical content end up in
/// the same group.
pub proof fn lemma_groups_complete(c: Contents, files: Seq<Seq<char>>, k1: int, k2: int)
    requires
        0 <= k1 < files.len(),
        0 <= k2 < files.len(),
        identical(c, files[k1], files[k2]),
    ensures
        exists|g: int, m1: int, m2: int|
            0 <= g < grouping(c, files, files.len()).len() && 0 <= m1 < grouping(
                c,
                files,
                files.len(),
            )[g].len() && 0 <= m2 < grouping(c, files, files.len())[g].len()
                && grouping(c, files, files.len())[g][m1] == k1 && grouping(
                c,
                files,
                files.len(),
            )[g][m2] == k2,
{
    let gs = grouping(c, files, files.len());
    lemma_grouping_wf(c, files, files.len());
    assert(member_of_some(gs, k1));
    assert(member_of_some(gs, k2));
    let (g1, m1) = choose|g: int, p: int|
        0 <= g < gs.len() && 0 <= p < gs[g].len() && #[trigger] gs[g][p] == k1;
    let (g2, m2) = choose|g: int, p: int|
        0 <= g < gs.len() && 0 <= p < gs[g].len() && #[trigger] gs[g][p] == k2;
    if g1 != g2 {
        lemma_groups_partition(c, files, g1, m1, g2, m2);
    }
    assert(gs[g1][m1] == k1 && gs[g1][m2] == k2);
}

/// Only identical content shares a group: any two members of a group of
/// more than one file hold the same bytes, whatever their fingerprints.
pub proof fn lemma_groups_identical(c: Contents, files: Seq<Seq<char>>, g: int, m1: int, m2: int)
    requires
        0 <= g < grouping(c, files, files.len()).len(),
        grouping(c, files, files.len())[g].len() > 1,
        0 <= m1 < grouping(c, files, files.len())[g].len(),
        0 <= m2 < grouping(c, files, files.len())[g].len(),
    ensures
        identical(
            c,
            files[grouping(c, files, files.len())[g][m1]],
            files[grouping(c, files, files.len())[g][m2]],
        ),
{
    let gs = grouping(c, files, files.len());
    lemma_grouping_wf(c, files, files.len());
    lemma_member_content(c, files, gs, files.len(), g, m1);
    lemma_member_content(c, files, gs, files.len(), g, m2);
}

/// Singleton suppression: a file whose content no other file of its bucket
/// shares appears in no reported group (one of more than one member).
pub proof fn lemma_unique_not_reported(c: Contents, files: Seq<Seq<char>>, k: int, g: int)
    requires
        0 <= k < files.len(),
        forall|j: int| 0 <= j < files.len() && j != k ==> !identical(c, files[j], files[k]),
        0 <= g < grouping(c, files, files.len()).len(),
        grouping(c, files, files.len())[g].len() > 1,
    ensures
        !group_paths(files, grouping(c, files, files.len())[g]).contains(files[k]),
{
    let gs = grouping(c, files, files.len());
    lemma_grouping_wf(c, files, files.len());
    if group_paths(files, gs[g]).contains(files[k]) {
        let p = choose|p: int| 0 <= p < gs[g].len() && group_paths(files, gs[g])[p] == files[k];
        let q = if p == 0 { 1int } else { 0int };
        lemma_groups_identical(c, files, g, p, q);
        lemma_groups_identical(c, files, g, q, p);
        let j = gs[g][p];
        let m = gs[g][q];
        assert(j != m);
        if m != k {
            assert(identical(c, files[m], files[j]));
            assert(files[j] == files[k]);
            assert(identical(c, files[m], files[k]));
        } else {
            assert(identical(c, files[j], files[m]));
            assert(files[j] == files[k]);
        }
    }
}

proof fn lemma_first_match_agree(
    c1: Contents,
    c2: Contents,
    files: Seq<Seq<char>>,
    groups: Seq<Seq<int>>,
    k: int,
    from: nat,
    n: nat,
)
    requires
        groups_wf(c1, files, groups, n),
        0 <= k < files.len(),
        c1(files[k]) == c2(files[k]),
        forall|j: int| 0 <= j < n ==> c1(files[j]) == c2(files[j]),
    ensures
        first_match(c1, files, groups, k, from) == first_match(c2, files, groups, k, from),
    decreases groups.len() - from,
{
    if from < groups.len() {
        assert(0 <= groups[from as int][0] < n);
        lemma_first_match_agree(c1, c2, files, groups, k, from + 1, n);
    }
}

/// Idempotence: two scans of a bucket whose files read the same both times
/// produce the same groups.
pub proof fn lemma_grouping_stable(c1: Contents, c2: Contents, files: Seq<Seq<char>>, n: nat)
    requires
        n <= files.len(),
        forall|j: int| 0 <= j < n ==> c1(files[j]) == c2(files[j]),
    ensures
        grouping(c1, files, n) == grouping(c2, files, n),
    decreases n,
{
    if n > 0 {
        let m = (n - 1) as nat;
        lemma_grouping_stable(c1, c2, files, m);
        lemma_grouping_wf(c1, files, m);
        lemma_first_match_agree(c1, c2, files, grouping(c1, files, m), m as int, 0, m);
    }
}

/// A file identical to no representative starts a group of its own.
pub proof fn lemma_first_match_none(
    c: Contents,
    files: Seq<Seq<char>>,
    groups: Seq<Seq<int>>,
    k: int,
)
    requires
        forall|j: int|
            0 <= j < groups.len() ==> !identical(c, #[trigger] rep_path(files, groups[j]), files[k]),
    ensures
        first_match(c, files, groups, k, 0) == groups.len(),
        place(c, files, groups, k) == groups.push(seq![k]),
{
    lemma_first_match(c, files, groups, k, 0);
}

/// A file identical to the representative of group `i`, and to none
/// before it, joins group `i`.
pub proof fn lemma_first_match_at(
    c: Contents,
    files: Seq<Seq<char>>,
    groups: Seq<Seq<int>>,
    k: int,
    i: int,
)
    requires
        0 <= i < groups.len(),
        identical(c, rep_path(files, groups[i]), files[k]),
        forall|j: int|
            0 <= j < i ==> !identical(c, #[trigger] rep_path(files, groups[j]), files[k]),
    ensures
        first_match(c, files, groups, k, 0) == i,
        place(c, files, groups, k) == groups.update(i, groups[i].push(k)),
{
    lemma_first_match(c, files, groups, k, 0);
}

/// The groups reported among the first `i + 1` are those among the first
/// `i`, and group `i` if it has more than one member.
pub proof fn lemma_reported_take(groups: Seq<Seq<int>>, i: int)
    requires
        0 <= i < groups.len(),
    ensures
        reported(groups.take(i + 1)) == if groups[i].len() > 1 {
            reported(groups.take(i)).push(groups[i])
        } else {
            reported(groups.take(i))
        },
{
    reveal(Seq::filter);
    assert(groups.take(i + 1).drop_last() =~= groups.take(i));
    assert(groups.take(i + 1).last() == groups[i]);
}

/// Every reported group has more than one member.
pub proof fn lemma_reported_large(groups: Seq<Seq<int>>, i: int)
    requires
        0 <= i < reported(groups).len(),
    ensures
        reported(groups)[i].len() > 1,
{
    groups.lemma_filter_pred(|g: Seq<int>| g.len() > 1, i);
}

/// A pair of files with identical content, every other file of the bucket
/// (unreadable ones included) differing from them, forms a group of
/// exactly those two, in bucket order, which is therefore reported; an
/// unreadable file is reported in no group.
pub proof fn lemma_pair_group(c: Contents, files: Seq<Seq<char>>, ka: int, kb: int)
    requires
        0 <= ka < kb < files.len(),
        identical(c, files[ka], files[kb]),
        forall|k: int|
            0 <= k < files.len() && k != ka && k != kb ==> !identical(c, #[trigger] files[k], files[ka]),
    ensures
        exists|g: int|
            0 <= g < grouping(c, files, files.len()).len() && #[trigger] grouping(
                c,
                files,
                files.len(),
            )[g] == seq![ka, kb],
{
    let gs = grouping(c, files, files.len());
    lemma_grouping_wf(c, files, files.len());
    lemma_groups_complete(c, files, ka, kb);
    let (g, pa, pb) = choose|g: int, m1: int, m2: int|
        0 <= g < gs.len() && 0 <= m1 < gs[g].len() && 0 <= m2 < gs[g].len() && gs[g][m1] == ka
            && gs[g][m2] == kb;
    let grp = gs[g];
    assert forall|m: int| 0 <= m < grp.len() implies grp[m] == ka || grp[m] == kb by {
        let k = grp[m];
        if k != ka && k != kb {
            lemma_groups_identical(c, files, g, m, pa);
            assert(0 <= k < files.len());
            assert(identical(c, files[k], files[ka]));
        }
    }
    assert(pa < pb) by {
        if pb < pa {
            assert(grp[pb] < grp[pa]);
        }
    }
    assert(grp.len() == 2) by {
        if grp.len() > 2 {
            let m = if pa != 0 && pb != 0 {
                0int
            } else if pa != 1 && pb != 1 {
                1int
            } else {
                2int
            };
            assert(grp[m] == ka || grp[m] == kb);
            if grp[m] == ka {
                assert(m == pa);
            } else {
                assert(m == pb);
            }
        }
    }
    assert(pa == 0 && pb == 1);
    assert(grp =~= seq![ka, kb]);
}

} // verus!
