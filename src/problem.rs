//! A proxy-representation problem to solve.
use crate::member::{ids, member_of, MemberId, MemberInfo};
use crate::metrics::ProxyMetrics;
use crate::lottery::lottery_placement;
use crate::placement::settled;
use crate::solution::{ProxySolution, LOTTERY_SEED};
use vstd::prelude::*;

verus! {

/// A proxy-representation problem to solve.
pub struct ProxyProblem {
    /// How many absent members each present member may represent.
    pub capacity: usize,
    /// All members, present and absent.
    pub members: Vec<MemberInfo>,
    /// Present members only, who can represent absent members.
    pub members_present: Vec<MemberId>,
}

/// The raw records, as plain values.
pub open spec fn infos_view(m: Seq<MemberInfo>) -> Seq<(Seq<char>, Seq<Seq<char>>)> {
    m.map_values(|x: MemberInfo| x@)
}

/// `acc` with each id of `s` that it lacks added at the end, in order.
pub open spec fn insert_all(acc: Seq<Seq<char>>, s: Seq<Seq<char>>) -> Seq<Seq<char>>
    decreases s.len(),
{
    if s.len() == 0 {
        acc
    } else {
        let before = insert_all(acc, s.drop_last());
        if before.contains(s.last()) {
            before
        } else {
            before.push(s.last())
        }
    }
}

/// The hosts of a problem: its present ids, each once, in first-seen order.
pub open spec fn hosts_of(present: Seq<Seq<char>>) -> Seq<Seq<char>> {
    insert_all(Seq::empty(), present)
}

/// Some member among `absent` has id `id`.
pub open spec fn holds_id(
    absent: Seq<(Seq<char>, Seq<Seq<char>>, Seq<Seq<char>>)>,
    id: Seq<char>,
) -> bool {
    exists|j: int| 0 <= j < absent.len() && (#[trigger] absent[j]).0 == id
}

/// The absent members of a problem, built from every record whose id is not a
/// host's. A member listed twice keeps their first place and their last record.
pub open spec fn absent_of(
    members: Seq<(Seq<char>, Seq<Seq<char>>)>,
    hosts: Seq<Seq<char>>,
) -> Seq<(Seq<char>, Seq<Seq<char>>, Seq<Seq<char>>)>
    decreases members.len(),
{
    if members.len() == 0 {
        Seq::empty()
    } else {
        let before = absent_of(members.drop_last(), hosts);
        let info = members.last();
        if hosts.contains(info.0) {
            before
        } else if holds_id(before, info.0) {
            before.update(
                choose|j: int| 0 <= j < before.len() && (#[trigger] before[j]).0 == info.0,
                member_of(info, hosts),
            )
        } else {
            before.push(member_of(info, hosts))
        }
    }
}

/// The ids of absent members, in order.
pub open spec fn member_ids(absent: Seq<(Seq<char>, Seq<Seq<char>>, Seq<Seq<char>>)>) -> Seq<
    Seq<char>,
> {
    absent.map_values(|m: (Seq<char>, Seq<Seq<char>>, Seq<Seq<char>>)| m.0)
}

impl ProxyProblem {
    /// The hosts of this problem.
    pub open spec fn hosts(&self) -> Seq<Seq<char>> {
        hosts_of(ids(self.members_present@))
    }

    /// The absent members of this problem.
    pub open spec fn absentees(&self) -> Seq<(Seq<char>, Seq<Seq<char>>, Seq<Seq<char>>)> {
        absent_of(infos_view(self.members@), self.hosts())
    }

    /// Counts of the problem before any solution has been attempted. Absent
    /// members are counted once each, as loading the problem finds them.
    pub fn metrics(&self) -> (r: ProxyMetrics)
        ensures
            r.capacity == self.capacity,
            r.total == self.members@.len(),
            r.present == self.members_present@.len(),
            r.absent == self.absentees().len(),
            r.represented == 0,
            r.unrepresented == 0,
    {
        let loaded = ProxySolution::from_problem(self);
        ProxyMetrics {
            capacity: self.capacity,
            total: self.members.len(),
            present: self.members_present.len(),
            absent: loaded.absent_count(),
            represented: 0,
            unrepresented: 0,
        }
    }
}

/// `r` is the id of a member of the problem who is not present.
pub open spec fn is_absent(problem: &ProxyProblem, r: Seq<char>) -> bool {
    &&& exists|m: int| 0 <= m < problem.members@.len() && (#[trigger] problem.members@[m]).id@ == r
    &&& !ids(problem.members_present@).contains(r)
}

/// An id is among the hosts exactly when it is among the present ids.
pub proof fn lemma_insert_all(acc: Seq<Seq<char>>, s: Seq<Seq<char>>)
    ensures
        forall|x: Seq<char>| #[trigger] insert_all(acc, s).contains(x) <==> (acc.contains(x) || s.contains(x)),
    decreases s.len(),
{
    if s.len() > 0 {
        lemma_insert_all(acc, s.drop_last());
        let before = insert_all(acc, s.drop_last());
        assert forall|x: Seq<char>| #[trigger] insert_all(acc, s).contains(x) <==> (acc.contains(x)
            || s.contains(x)) by {
            if s.drop_last().contains(x) {
                let k = choose|k: int| 0 <= k < s.drop_last().len() && s.drop_last()[k] == x;
                assert(s[k] == x);
            }
            if s.contains(x) {
                let k = choose|k: int| 0 <= k < s.len() && s[k] == x;
                if k < s.len() - 1 {
                    assert(s.drop_last()[k] == x);
                }
            }
            if !before.contains(s.last()) {
                if before.push(s.last()).contains(x) {
                    let k = choose|k: int| 0 <= k < before.len() + 1 && before.push(s.last())[k] == x;
                    if k < before.len() {
                        assert(before[k] == x);
                    }
                }
                if before.contains(x) {
                    let k = choose|k: int| 0 <= k < before.len() && before[k] == x;
                    assert(before.push(s.last())[k] == x);
                }
                assert(before.push(s.last())[before.len() as int] == s.last());
            }
        }
    }
}

/// Each absent member comes from a record of the problem whose id is not a
/// host's, and each such record gives an absent member.
pub proof fn lemma_absent_of(members: Seq<(Seq<char>, Seq<Seq<char>>)>, hosts: Seq<Seq<char>>)
    ensures
        forall|j: int|
            0 <= j < absent_of(members, hosts).len() ==> exists|m: int|
                0 <= m < members.len() && !hosts.contains(members[m].0) && #[trigger] absent_of(
                    members,
                    hosts,
                )[j] == member_of(members[m], hosts),
        forall|m: int|
            0 <= m < members.len() && !hosts.contains(#[trigger] members[m].0) ==> holds_id(
                absent_of(members, hosts),
                members[m].0,
            ),
    decreases members.len(),
{
    if members.len() > 0 {
        let rest = members.drop_last();
        let before = absent_of(rest, hosts);
        let info = members.last();
        let last = members.len() - 1;
        let a = absent_of(members, hosts);
        lemma_absent_of(rest, hosts);
        assert(members[last] == info);
        assert forall|m: int| 0 <= m < rest.len() implies #[trigger] rest[m] == members[m] by {}
        if hosts.contains(info.0) {
            assert forall|j: int| 0 <= j < a.len() implies exists|m: int|
                0 <= m < members.len() && !hosts.contains(members[m].0) && #[trigger] a[j]
                    == member_of(members[m], hosts) by {
                let m = choose|m: int|
                    0 <= m < rest.len() && !hosts.contains(rest[m].0) && #[trigger] before[j]
                        == member_of(rest[m], hosts);
                assert(rest[m] == members[m]);
            }
            assert forall|m: int|
                0 <= m < members.len() && !hosts.contains(#[trigger] members[m].0) implies holds_id(
                a,
                members[m].0,
            ) by {
                assert(rest[m] == members[m]);
            }
        } else if holds_id(before, info.0) {
            let jj = choose|j: int| 0 <= j < before.len() && (#[trigger] before[j]).0 == info.0;
            assert(a == before.update(jj, member_of(info, hosts)));
            assert forall|j: int| 0 <= j < a.len() implies exists|m: int|
                0 <= m < members.len() && !hosts.contains(members[m].0) && #[trigger] a[j]
                    == member_of(members[m], hosts) by {
                if j == jj {
                    assert(a[j] == member_of(members[last], hosts));
                } else {
                    let m = choose|m: int|
                        0 <= m < rest.len() && !hosts.contains(rest[m].0) && #[trigger] before[j]
                            == member_of(rest[m], hosts);
                    assert(rest[m] == members[m]);
                }
            }
            assert forall|m: int|
                0 <= m < members.len() && !hosts.contains(#[trigger] members[m].0) implies holds_id(
                a,
                members[m].0,
            ) by {
                if m == last {
                    assert(a[jj].0 == info.0);
                } else {
                    assert(rest[m] == members[m]);
                    let j = choose|j: int| 0 <= j < before.len() && (#[trigger] before[j]).0 == members[m].0;
                    assert(a[j].0 == members[m].0);
                }
            }
        } else {
            assert(a == before.push(member_of(info, hosts)));
            assert forall|j: int| 0 <= j < a.len() implies exists|m: int|
                0 <= m < members.len() && !hosts.contains(members[m].0) && #[trigger] a[j]
                    == member_of(members[m], hosts) by {
                if j == before.len() {
                    assert(a[j] == member_of(members[last], hosts));
                } else {
                    let m = choose|m: int|
                        0 <= m < rest.len() && !hosts.contains(rest[m].0) && #[trigger] before[j]
                            == member_of(rest[m], hosts);
                    assert(rest[m] == members[m]);
                }
            }
            assert forall|m: int|
                0 <= m < members.len() && !hosts.contains(#[trigger] members[m].0) implies holds_id(
                a,
                members[m].0,
            ) by {
                if m == last {
                    assert(a[before.len() as int].0 == info.0);
                } else {
                    assert(rest[m] == members[m]);
                    let j = choose|j: int| 0 <= j < before.len() && (#[trigger] before[j]).0 == members[m].0;
                    assert(a[j].0 == members[m].0);
                }
            }
        }
    }
}

/// `solution` is the solution of `problem` with the lottery drawn from
/// `seed`: loaded from the problem, with the outcome of the lottery's
/// placement, sorted by id.
pub open spec fn solves(problem: &ProxyProblem, seed: u64, solution: &ProxySolution) -> bool {
    &&& solution.capacity == problem.capacity
    &&& solution.hosts() == problem.hosts()
    &&& solution.absentees() == problem.absentees()
    &&& settled(
        solution.represented(),
        solution.unrepresented(),
        problem.absentees(),
        problem.hosts(),
        problem.capacity as nat,
        lottery_placement(seed, problem.absentees(), problem.hosts(), problem.capacity),
    )
}

/// Solves the given [`ProxyProblem`], with the fixed lottery seed.
pub fn solve(problem: &ProxyProblem) -> (r: ProxySolution)
    ensures
        solves(problem, LOTTERY_SEED, &r),
{
    let mut solution = ProxySolution::from_problem(problem);
    solution.solve();
    solution
}

} // verus!
