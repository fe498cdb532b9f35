//! What holds of every solution of every problem.
use crate::member::{ids, lemma_acceptable_within};
use crate::order::{ascending_by, id_lt, lemma_ascending_unique};
use crate::placement::{accepts, assigned, hosted, leftover, lemma_hosted_len, lemma_take_up, outcome};
use crate::problem::{
    infos_view, is_absent, lemma_absent_of, lemma_insert_all, member_ids, solves, ProxyProblem,
};
use crate::solution::ProxySolution;
use vstd::prelude::*;

verus! {

/// The absent members' ids are the ids of the problem's members who are not
/// present.
proof fn lemma_absent_ids(problem: &ProxyProblem)
    ensures
        forall|r: Seq<char>|
            #[trigger] member_ids(problem.absentees()).contains(r) <==> is_absent(problem, r),
{
    let infos = infos_view(problem.members@);
    let hosts = problem.hosts();
    let absent = problem.absentees();
    lemma_absent_of(infos, hosts);
    lemma_insert_all(Seq::empty(), ids(problem.members_present@));
    assert forall|r: Seq<char>| #[trigger]
        member_ids(absent).contains(r) <==> is_absent(problem, r) by {
        if member_ids(absent).contains(r) {
            let j = choose|j: int| 0 <= j < member_ids(absent).len() && member_ids(absent)[j] == r;
            assert(absent[j].0 == r);
            let m = choose|m: int|
                0 <= m < infos.len() && !hosts.contains(infos[m].0) && #[trigger] absent[j]
                    == crate::member::member_of(infos[m], hosts);
            assert(problem.members@[m].id@ == r);
        }
        if is_absent(problem, r) {
            let m = choose|m: int|
                0 <= m < problem.members@.len() && (#[trigger] problem.members@[m]).id@ == r;
            assert(infos[m].0 == r);
            assert(!hosts.contains(infos[m].0));
            let j = choose|j: int| 0 <= j < absent.len() && (#[trigger] absent[j]).0 == r;
            assert(member_ids(absent)[j] == r);
        }
    }
}

/// The represented pairs of a solution are those of its outcome.
proof fn lemma_represented(problem: &ProxyProblem, seed: u64, solution: &ProxySolution)
    requires
        solves(problem, seed, solution),
    ensures
        forall|k: int|
            0 <= k < solution.represented().len() ==> outcome(
                problem.absentees(),
                problem.hosts(),
                problem.capacity as nat,
                crate::lottery::lottery_placement(
                    seed,
                    problem.absentees(),
                    problem.hosts(),
                    problem.capacity,
                ),
            ).contains(#[trigger] solution.represented()[k]),
{
    let o = outcome(
        problem.absentees(),
        problem.hosts(),
        problem.capacity as nat,
        crate::lottery::lottery_placement(
            seed,
            problem.absentees(),
            problem.hosts(),
            problem.capacity,
        ),
    );
    assert forall|k: int| 0 <= k < solution.represented().len() implies o.contains(
        #[trigger] solution.represented()[k],
    ) by {
        assert(solution.represented().to_set().contains(solution.represented()[k]));
    }
}

/// Every member who is not present is either represented or unrepresented,
/// never both, and nobody else is either.
pub proof fn law_coverage(problem: &ProxyProblem, seed: u64, solution: &ProxySolution)
    requires
        solves(problem, seed, solution),
    ensures
        forall|r: Seq<char>|
            (assigned(solution.represented(), r) || solution.unrepresented().contains(r))
                <==> #[trigger] is_absent(problem, r),
        forall|r: Seq<char>|
            !(#[trigger] assigned(solution.represented(), r) && solution.unrepresented().contains(
                r,
            )),
{
    let absent = problem.absentees();
    let pl = crate::lottery::lottery_placement(seed, absent, problem.hosts(), problem.capacity);
    let o = outcome(absent, problem.hosts(), problem.capacity as nat, pl);
    let rep = solution.represented();
    let unrep = solution.unrepresented();
    lemma_absent_ids(problem);
    lemma_represented(problem, seed, solution);
    lemma_take_up(crate::placement::candidates(problem.hosts(), pl), absent, problem.capacity as nat);
    assert forall|r: Seq<char>| assigned(rep, r) <==> assigned(o, r) by {
        if assigned(rep, r) {
            let k = choose|k: int| 0 <= k < rep.len() && (#[trigger] rep[k]).0 == r;
            let i = choose|i: int| 0 <= i < o.len() && o[i] == rep[k];
            assert(o[i].0 == r);
        }
        if assigned(o, r) {
            let i = choose|i: int| 0 <= i < o.len() && (#[trigger] o[i]).0 == r;
            assert(o.to_set().contains(o[i]));
            assert(rep.to_set().contains(o[i]));
            let k = choose|k: int| 0 <= k < rep.len() && rep[k] == o[i];
            assert(rep[k].0 == r);
        }
    }
    assert forall|r: Seq<char>|
        (assigned(rep, r) || unrep.contains(r)) <==> #[trigger] is_absent(problem, r) by {
        assert(unrep.contains(r) <==> unrep.to_set().contains(r));
        assert(assigned(rep, r) == assigned(o, r));
        assert(member_ids(absent).contains(r) == is_absent(problem, r));
        assert(leftover(absent, o).contains(r) == (member_ids(absent).contains(r) && !assigned(o, r)));
        if assigned(o, r) {
            let i = choose|i: int| 0 <= i < o.len() && (#[trigger] o[i]).0 == r;
            assert(accepts(absent, o[i].0, o[i].1));
            let j = choose|j: int|
                0 <= j < absent.len() && (#[trigger] absent[j]).0 == r && absent[j].1.contains(
                    o[i].1,
                );
            assert(member_ids(absent)[j] == r);
        }
    }
    assert forall|r: Seq<char>|
        !(#[trigger] assigned(rep, r) && unrep.contains(r)) by {
        assert(unrep.contains(r) <==> unrep.to_set().contains(r));
        assert(assigned(rep, r) == assigned(o, r));
        assert(leftover(absent, o).contains(r) == (member_ids(absent).contains(r) && !assigned(o, r)));
    }
}

/// No host represents more members than the capacity.
pub proof fn law_capacity(problem: &ProxyProblem, seed: u64, solution: &ProxySolution)
    requires
        solves(problem, seed, solution),
    ensures
        forall|h: Seq<char>| #[trigger] hosted(solution.represented(), h).len() <= problem.capacity,
{
    let absent = problem.absentees();
    let pl = crate::lottery::lottery_placement(seed, absent, problem.hosts(), problem.capacity);
    let o = outcome(absent, problem.hosts(), problem.capacity as nat, pl);
    lemma_take_up(crate::placement::candidates(problem.hosts(), pl), absent, problem.capacity as nat);
    assert forall|h: Seq<char>| #[trigger]
        hosted(solution.represented(), h).len() <= problem.capacity by {
        lemma_hosted_len(o, h);
        assert(hosted(solution.represented(), h) == hosted(o, h));
    }
}

/// A member is represented only by a host in their preferences, as kept
/// when the problem was loaded.
pub proof fn law_preferences(problem: &ProxyProblem, seed: u64, solution: &ProxySolution)
    requires
        solves(problem, seed, solution),
    ensures
        forall|k: int|
            0 <= k < solution.represented().len() ==> accepts(
                problem.absentees(),
                (#[trigger] solution.represented()[k]).0,
                solution.represented()[k].1,
            ),
{
    let absent = problem.absentees();
    let pl = crate::lottery::lottery_placement(seed, absent, problem.hosts(), problem.capacity);
    let o = outcome(absent, problem.hosts(), problem.capacity as nat, pl);
    lemma_represented(problem, seed, solution);
    lemma_take_up(crate::placement::candidates(problem.hosts(), pl), absent, problem.capacity as nat);
    assert forall|k: int| 0 <= k < solution.represented().len() implies accepts(
        absent,
        (#[trigger] solution.represented()[k]).0,
        solution.represented()[k].1,
    ) by {
        let i = choose|i: int| 0 <= i < o.len() && o[i] == solution.represented()[k];
        assert(accepts(absent, o[i].0, o[i].1));
    }
}

/// A member is never represented by a host that their own record does not
/// list.
pub proof fn law_no_excluded_host(problem: &ProxyProblem, seed: u64, solution: &ProxySolution)
    requires
        solves(problem, seed, solution),
    ensures
        forall|k: int|
            0 <= k < solution.represented().len() ==> exists|m: int|
                0 <= m < problem.members@.len() && problem.members@[m].id@
                    == (#[trigger] solution.represented()[k]).0 && ids(
                    problem.members@[m].preferences@,
                ).contains(solution.represented()[k].1),
{
    let absent = problem.absentees();
    let hosts = problem.hosts();
    let infos = infos_view(problem.members@);
    law_preferences(problem, seed, solution);
    lemma_absent_of(infos, hosts);
    assert forall|k: int| 0 <= k < solution.represented().len() implies exists|m: int|
        0 <= m < problem.members@.len() && problem.members@[m].id@ == (
        #[trigger] solution.represented()[k]).0 && ids(problem.members@[m].preferences@).contains(
            solution.represented()[k].1,
        ) by {
        let e = solution.represented()[k];
        let j = choose|j: int|
            0 <= j < absent.len() && (#[trigger] absent[j]).0 == e.0 && absent[j].1.contains(e.1);
        let m = choose|m: int|
            0 <= m < infos.len() && !hosts.contains(infos[m].0) && #[trigger] absent[j]
                == crate::member::member_of(infos[m], hosts);
        lemma_acceptable_within(infos[m].1, hosts, e.1);
        assert(infos[m] == problem.members@[m]@);
    }
}

/// A problem has one solution for each seed: solving it twice gives the same
/// result, in the same order.
pub proof fn law_deterministic(
    problem: &ProxyProblem,
    seed: u64,
    first: &ProxySolution,
    second: &ProxySolution,
)
    requires
        solves(problem, seed, first),
        solves(problem, seed, second),
    ensures
        first.represented() == second.represented(),
        first.unrepresented() == second.unrepresented(),
{
    lemma_ascending_unique(
        first.represented(),
        second.represented(),
        |e: (Seq<char>, Seq<char>)| e.0,
    );
    lemma_ascending_unique(first.unrepresented(), second.unrepresented(), |r: Seq<char>| r);
}

/// Represented members ascend strictly by id, and so do unrepresented ones.
pub proof fn law_ordering(problem: &ProxyProblem, seed: u64, solution: &ProxySolution)
    requires
        solves(problem, seed, solution),
    ensures
        forall|i: int, j: int|
            0 <= i < j < solution.represented().len() ==> id_lt(
                #[trigger] solution.represented()[i].0,
                #[trigger] solution.represented()[j].0,
            ),
        forall|i: int, j: int|
            0 <= i < j < solution.unrepresented().len() ==> id_lt(
                #[trigger] solution.unrepresented()[i],
                #[trigger] solution.unrepresented()[j],
            ),
{
    let rep = solution.represented();
    let unrep = solution.unrepresented();
    let by_member = |e: (Seq<char>, Seq<char>)| e.0;
    let by_id = |r: Seq<char>| r;
    assert(ascending_by(rep, by_member));
    assert(ascending_by(unrep, by_id));
    assert forall|i: int, j: int| 0 <= i < j < rep.len() implies id_lt(
        #[trigger] rep[i].0,
        #[trigger] rep[j].0,
    ) by {
        assert(id_lt(by_member(rep[i]), by_member(rep[j])));
    }
    assert forall|i: int, j: int| 0 <= i < j < unrep.len() implies id_lt(
        #[trigger] unrep[i],
        #[trigger] unrep[j],
    ) by {
        assert(id_lt(by_id(unrep[i]), by_id(unrep[j])));
    }
}

} // verus!
