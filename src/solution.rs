//! A pending or computed solution to a [`ProxyProblem`].
use crate::indexed::{
    entries_of, id_map_insert, id_map_len, id_map_new, id_map_sort_keys, id_set_at, id_set_contains,
    id_set_insert_full, id_set_len, id_set_new, id_set_sort, id_set_swap_remove, items_of, key_le,
    absent_members, member_map_get, member_map_insert, member_map_len, member_map_new, members_of,
};
use crate::lottery::{lottery_match, lottery_placement, placement_view};
use crate::member::{contains_id, ids, Member, MemberId, MemberInfo};
use crate::order::{ascending_by, id_le, lemma_sorted_rearrangement};
use crate::placement::{
    accepts, admissible, assigned, candidates, candidates_upto, lemma_load_none, leftover, load,
    pairs_with, settled, take_up,
};
use crate::metrics::ProxyMetrics;
use crate::problem::{absent_of, holds_id, infos_view, insert_all, member_ids, ProxyProblem};
use indexmap::{IndexMap, IndexSet};
use vstd::prelude::*;

verus! {

/// A pending or computed solution to a [`ProxyProblem`].
pub struct ProxySolution {
    /// How many absent members each present member may represent.
    pub capacity: usize,
    /// The present members, who can each represent up to `capacity` others.
    pub members_present: IndexSet<MemberId>,
    /// The absent members, who need representation, keyed by id.
    pub members_absent: IndexMap<MemberId, Member>,
    /// `A` → `P` for absent member `A` represented by present member `P`.
    pub members_represented: IndexMap<MemberId, MemberId>,
    /// Absent members who are not represented in this solution.
    pub members_unrepresented: IndexSet<MemberId>,
}

impl ProxySolution {
    /// The hosts: present members, in order.
    pub open spec fn hosts(&self) -> Seq<Seq<char>> {
        items_of(self.members_present)
    }

    /// The absent members, as plain values.
    pub open spec fn absentees(&self) -> Seq<(Seq<char>, Seq<Seq<char>>, Seq<Seq<char>>)> {
        absent_members(self.members_absent)
    }

    /// Each absent member is kept under their own id.
    pub open spec fn keyed_by_id(&self) -> bool {
        forall|i: int|
            0 <= i < members_of(self.members_absent).len() ==> (#[trigger] members_of(
                self.members_absent,
            )[i]).0 == members_of(self.members_absent)[i].1.0
    }

    /// Who represents whom, as (absent, present) pairs in the map's order.
    pub open spec fn represented(&self) -> Seq<(Seq<char>, Seq<char>)> {
        entries_of(self.members_represented)
    }

    /// The absent members left unrepresented, in the set's order.
    pub open spec fn unrepresented(&self) -> Seq<Seq<char>> {
        items_of(self.members_unrepresented)
    }

    /// Loaded and not yet solved: hosts and absent members are each listed
    /// once, nobody is represented yet and every absent member waits.
    pub open spec fn loaded(&self) -> bool {
        &&& self.hosts().no_duplicates()
        &&& member_ids(self.absentees()).no_duplicates()
        &&& self.keyed_by_id()
        &&& self.represented().len() == 0
        &&& self.unrepresented() == member_ids(self.absentees())
    }

    /// An empty solution for the given capacity.
    pub fn new(capacity: usize) -> (r: ProxySolution)
        ensures
            r.capacity == capacity,
            r.hosts().len() == 0,
            r.absentees().len() == 0,
            r.represented().len() == 0,
            r.unrepresented().len() == 0,
    {
        ProxySolution {
            capacity,
            members_present: id_set_new(),
            members_absent: member_map_new(),
            members_represented: id_map_new(),
            members_unrepresented: id_set_new(),
        }
    }

    /// Loads the constraints of a [`ProxyProblem`] to be solved.
    pub fn from_problem(problem: &ProxyProblem) -> (r: ProxySolution)
        ensures
            r.capacity == problem.capacity,
            r.hosts() == problem.hosts(),
            r.absentees() == problem.absentees(),
            r.loaded(),
    {
        let mut solution = ProxySolution::new(problem.capacity);
        assert(solution.hosts() =~= Seq::<Seq<char>>::empty());
        solution.load_attendance(&problem.members_present);
        solution.load_preferences(&problem.members);
        solution
    }

    /// How many absent members there are.
    pub fn absent_count(&self) -> (r: usize)
        ensures
            r == self.absentees().len(),
    {
        member_map_len(&self.members_absent)
    }

    /// Counts of the solution in its current state, solved or not.
    pub fn metrics(&self) -> (r: ProxyMetrics)
        requires
            self.hosts().len() + self.absentees().len() <= usize::MAX,
        ensures
            r.capacity == self.capacity,
            r.total == self.hosts().len() + self.absentees().len(),
            r.present == self.hosts().len(),
            r.absent == self.absentees().len(),
            r.represented == self.represented().len(),
            r.unrepresented == self.unrepresented().len(),
    {
        let present = id_set_len(&self.members_present);
        ProxyMetrics {
            capacity: self.capacity,
            total: present + self.absent_count(),
            present,
            absent: self.absent_count(),
            represented: id_map_len(&self.members_represented),
            unrepresented: id_set_len(&self.members_unrepresented),
        }
    }

    /// Sets the presence constraints: each present id becomes a host, once.
    fn load_attendance(&mut self, members_present: &Vec<MemberId>)
        requires
            old(self).hosts().no_duplicates(),
        ensures
            final(self).hosts() == insert_all(old(self).hosts(), ids(members_present@)),
            final(self).hosts().no_duplicates(),
            final(self).capacity == old(self).capacity,
            final(self).members_absent == old(self).members_absent,
            final(self).members_represented == old(self).members_represented,
            final(self).members_unrepresented == old(self).members_unrepresented,
    {
        let ghost start = self.hosts();
        let ghost present = ids(members_present@);
        let mut i: usize = 0;
        while i < members_present.len()
            invariant
                i <= present.len(),
                present == ids(members_present@),
                self.hosts() == insert_all(start, present.take(i as int)),
                self.hosts().no_duplicates(),
                self.capacity == old(self).capacity,
                self.members_absent == old(self).members_absent,
                self.members_represented == old(self).members_represented,
                self.members_unrepresented == old(self).members_unrepresented,
            decreases present.len() - i,
        {
            let id = &members_present[i];
            assert(present.take(i + 1).drop_last() =~= present.take(i as int));
            assert(present.take(i + 1).last() == id@);
            id_set_insert_full(&mut self.members_present, id.clone());
            i += 1;
        }
        assert(present.take(present.len() as int) =~= present);
    }

    /// Sets the preference constraints: every member who is not a host
    /// becomes an absent member, and waits unrepresented.
    fn load_preferences(&mut self, members: &Vec<MemberInfo>)
        requires
            old(self).absentees().len() == 0,
            old(self).unrepresented().len() == 0,
        ensures
            final(self).absentees() == absent_of(infos_view(members@), old(self).hosts()),
            final(self).unrepresented() == member_ids(final(self).absentees()),
            member_ids(final(self).absentees()).no_duplicates(),
            final(self).keyed_by_id(),
            final(self).capacity == old(self).capacity,
            final(self).members_present == old(self).members_present,
            final(self).members_represented == old(self).members_represented,
    {
        let ghost hosts = self.hosts();
        let ghost infos = infos_view(members@);
        assert(member_ids(self.absentees()) =~= self.unrepresented());
        let mut i: usize = 0;
        while i < members.len()
            invariant
                i <= infos.len(),
                infos == infos_view(members@),
                hosts == self.hosts(),
                self.absentees() == absent_of(infos.take(i as int), hosts),
                self.unrepresented() == member_ids(self.absentees()),
                member_ids(self.absentees()).no_duplicates(),
                self.keyed_by_id(),
                self.capacity == old(self).capacity,
                self.members_present == old(self).members_present,
                self.members_represented == old(self).members_represented,
            decreases infos.len() - i,
        {
            let info = &members[i];
            let ghost before = self.absentees();
            assert(infos.take(i + 1).drop_last() =~= infos.take(i as int));
            assert(infos.take(i + 1).last() == info@);
            if !id_set_contains(&self.members_present, &info.id) {
                let member = Member::from_info(info, &self.members_present);
                let ghost entries = members_of(self.members_absent);
                let ghost mv = member@;
                assert(mv.0 == info.id@);
                member_map_insert(&mut self.members_absent, info.id.clone(), member);
                proof {
                    if holds_id(before, info.id@) {
                        let j = choose|j: int| 0 <= j < before.len() && (#[trigger] before[j]).0 == info.id@;
                        assert(entries[j].0 == info.id@);
                        assert(member_ids(before)[j] == info.id@);
                        assert(self.absentees() =~= before.update(j, mv));
                        assert(member_ids(self.absentees()) =~= member_ids(before));
                    } else {
                        assert forall|k: int| 0 <= k < entries.len() implies #[trigger] entries[k].0 != info.id@ by {
                            assert(before[k].0 == entries[k].0);
                        }
                        assert forall|k: int| 0 <= k < member_ids(before).len() implies member_ids(before)[k] != info.id@ by {
                            assert(before[k].0 == member_ids(before)[k]);
                        }
                        assert(self.absentees() =~= before.push(mv));
                        assert(member_ids(self.absentees()) =~= member_ids(before).push(info.id@));
                    }
                }
                id_set_insert_full(&mut self.members_unrepresented, info.id.clone());
            }
            i += 1;
        }
        assert(infos.take(infos.len() as int) =~= infos);
    }
}


/// The seed of the lottery that breaks ties between absent members.
pub const LOTTERY_SEED: u64 = 0;

/// Swapping the last item into a removed item's place keeps a sequence free
/// of duplicates and drops just that item.
proof fn lemma_swap_remove(s: Seq<Seq<char>>, i: int)
    requires
        s.no_duplicates(),
        0 <= i < s.len(),
    ensures
        s.update(i, s.last()).drop_last().no_duplicates(),
        forall|r: Seq<char>|
            #[trigger] s.update(i, s.last()).drop_last().contains(r) <==> (s.contains(r) && r
                != s[i]),
{
    let t = s.update(i, s.last()).drop_last();
    assert forall|a: int, b: int| 0 <= a < t.len() && 0 <= b < t.len() && a != b implies t[a]
        != t[b] by {
        let pa = if a == i {
            s.len() - 1
        } else {
            a
        };
        let pb = if b == i {
            s.len() - 1
        } else {
            b
        };
        assert(t[a] == s[pa]);
        assert(t[b] == s[pb]);
    }
    assert forall|r: Seq<char>| t.contains(r) <==> (s.contains(r) && r != s[i]) by {
        if t.contains(r) {
            let a = choose|a: int| 0 <= a < t.len() && t[a] == r;
            let pa = if a == i {
                s.len() - 1
            } else {
                a
            };
            assert(s[pa] == r);
        }
        if s.contains(r) && r != s[i] {
            let a = choose|a: int| 0 <= a < s.len() && s[a] == r;
            if a == s.len() - 1 {
                assert(t[i] == r);
            } else {
                assert(t[a] == r);
            }
        }
    }
}

impl ProxySolution {
    /// The hosts, as a list.
    fn host_list(&self) -> (r: Vec<MemberId>)
        ensures
            ids(r@) == self.hosts(),
    {
        let n = id_set_len(&self.members_present);
        let mut r: Vec<MemberId> = Vec::new();
        let mut i: usize = 0;
        while i < n
            invariant
                i <= n,
                n == self.hosts().len(),
                ids(r@) == self.hosts().take(i as int),
            decreases n - i,
        {
            let h: MemberId = id_set_at(&self.members_present, i).clone();
            assert(h@ == self.hosts()[i as int]);
            let ghost before = r@;
            assert(ids(before).len() == before.len());
            assert(self.hosts().take(i as int).len() == i);
            r.push(h);
            assert forall|k: int| 0 <= k < i implies ids(r@)[k] == self.hosts()[k] by {
                assert(r@[k] == before[k]);
                assert(ids(before)[k] == self.hosts().take(i as int)[k]);
            }
            assert(ids(r@) =~= self.hosts().take(i + 1));
            i += 1;
        }
        assert(self.hosts().take(n as int) =~= self.hosts());
        r
    }

    /// Takes a placement: for each host, in order, the ids of the absent
    /// members placed with it. A placed member is represented by that host
    /// when they prefer it, have no host yet, and the host has room; the
    /// others stay unrepresented. Both results are then sorted by id.
    pub fn assign(&mut self, placement: &Vec<Vec<MemberId>>)
        requires
            old(self).loaded(),
        ensures
            final(self).capacity == old(self).capacity,
            final(self).members_present == old(self).members_present,
            final(self).members_absent == old(self).members_absent,
            settled(
                final(self).represented(),
                final(self).unrepresented(),
                old(self).absentees(),
                old(self).hosts(),
                old(self).capacity as nat,
                placement_view(placement@),
            ),
    {
        let ghost hosts = self.hosts();
        let ghost absent = self.absentees();
        let ghost pl = placement_view(placement@);
        let ghost cap = self.capacity as nat;
        let n = id_set_len(&self.members_present);
        assert(self.represented() =~= take_up(candidates_upto(hosts, pl, 0), absent, cap));
        assert forall|r: Seq<char>|
            self.unrepresented().contains(r) <==> (member_ids(absent).contains(r) && !assigned(
                self.represented(),
                r,
            )) by {}
        let mut i: usize = 0;
        while i < n && i < placement.len()
            invariant
                n == hosts.len(),
                i <= n,
                i <= placement@.len(),
                pl == placement_view(placement@),
                hosts == self.hosts(),
                hosts.no_duplicates(),
                absent == self.absentees(),
                member_ids(absent).no_duplicates(),
                self.keyed_by_id(),
                cap == self.capacity,
                self.capacity == old(self).capacity,
                self.members_present == old(self).members_present,
                self.members_absent == old(self).members_absent,
                self.represented() == take_up(candidates_upto(hosts, pl, i as nat), absent, cap),
                forall|a: int, b: int|
                    0 <= a < self.represented().len() && 0 <= b < self.represented().len() && a
                        != b ==> (#[trigger] self.represented()[a]).0 != (
                    #[trigger] self.represented()[b]).0,
                forall|k: int|
                    0 <= k < self.represented().len() ==> exists|m: int|
                        0 <= m < i && (#[trigger] self.represented()[k]).1 == hosts[m],
                self.unrepresented().no_duplicates(),
                forall|r: Seq<char>|
                    #[trigger] self.unrepresented().contains(r) <==> (member_ids(absent).contains(r)
                        && !assigned(self.represented(), r)),
            decreases n - i,
        {
            let host = id_set_at(&self.members_present, i).clone();
            let names = &placement[i];
            let ghost base = candidates_upto(hosts, pl, i as nat);
            let ghost row = pl[i as int];
            assert(row == ids(names@));
            proof {
                assert forall|k: int| 0 <= k < self.represented().len() implies (
                #[trigger] self.represented()[k]).1 != host@ by {
                    let m = choose|m: int| 0 <= m < i && self.represented()[k].1 == hosts[m];
                    assert(hosts[m] != hosts[i as int]);
                }
                lemma_load_none(self.represented(), host@);
                assert(base + pairs_with(row.take(0), host@) =~= base);
            }
            let mut taken: usize = 0;
            let mut j: usize = 0;
            while j < names.len()
                invariant
                    n == hosts.len(),
                    i < n,
                    i < placement@.len(),
                    pl == placement_view(placement@),
                    names == placement@[i as int],
                    row == pl[i as int],
                    row == ids(names@),
                    j <= names@.len(),
                    base == candidates_upto(hosts, pl, i as nat),
                    host@ == hosts[i as int],
                    hosts == self.hosts(),
                    hosts.no_duplicates(),
                    absent == self.absentees(),
                    member_ids(absent).no_duplicates(),
                    self.keyed_by_id(),
                self.keyed_by_id(),
                    cap == self.capacity,
                    self.capacity == old(self).capacity,
                    self.members_present == old(self).members_present,
                    self.members_absent == old(self).members_absent,
                    self.represented() == take_up(
                        base + pairs_with(row.take(j as int), host@),
                        absent,
                        cap,
                    ),
                    load(self.represented(), host@) == taken,
                    taken <= cap,
                    forall|a: int, b: int|
                        0 <= a < self.represented().len() && 0 <= b < self.represented().len()
                            && a != b ==> (#[trigger] self.represented()[a]).0 != (
                        #[trigger] self.represented()[b]).0,
                    forall|k: int|
                        0 <= k < self.represented().len() ==> exists|m: int|
                            0 <= m <= i && (#[trigger] self.represented()[k]).1 == hosts[m],
                    self.unrepresented().no_duplicates(),
                    forall|r: Seq<char>|
                        #[trigger] self.unrepresented().contains(r) <==> (member_ids(
                            absent,
                        ).contains(r) && !assigned(self.represented(), r)),
                decreases names@.len() - j,
            {
                let name = &names[j];
                let ghost rep = self.represented();
                let ghost cur = base + pairs_with(row.take(j as int), host@);
                let ghost next = base + pairs_with(row.take(j + 1), host@);
                let ghost c = (name@, host@);
                assert(row[j as int] == name@);
                assert(next =~= cur.push(c));
                assert(next.drop_last() =~= cur);
                assert(next.last() == c);
                let mut took = false;
                if taken < self.capacity && id_set_contains(&self.members_unrepresented, name) {
                    match member_map_get(&self.members_absent, name) {
                        Some(member) => {
                            let ghost k = choose|k: int|
                                0 <= k < members_of(self.members_absent).len()
                                    && #[trigger] members_of(self.members_absent)[k] == (name@, member@);
                            assert(self.keyed_by_id());
                            assert(absent[k] == member@);
                            assert(absent[k].0 == name@);
                            if contains_id(&member.preferences, &host) {
                                assert(accepts(absent, name@, host@));
                                assert(admissible(rep, c, absent, cap));
                                proof {
                                    let ix = choose|ix: int|
                                        0 <= ix < self.unrepresented().len()
                                            && self.unrepresented()[ix] == name@;
                                    lemma_swap_remove(self.unrepresented(), ix);
                                }
                                id_map_insert(
                                    &mut self.members_represented,
                                    name.clone(),
                                    host.clone(),
                                );
                                assert(self.represented() == rep.push(c));
                                id_set_swap_remove(&mut self.members_unrepresented, name);
                                assert(rep.push(c).drop_last() =~= rep);
                                assert(load(self.represented(), host@) == taken + 1);
                                taken += 1;
                                took = true;
                                assert forall|r: Seq<char>|
                                    #[trigger] self.unrepresented().contains(r) <==> (member_ids(
                                        absent,
                                    ).contains(r) && !assigned(self.represented(), r)) by {
                                    if assigned(self.represented(), r) && r != name@ {
                                        let q = choose|q: int|
                                            0 <= q < self.represented().len()
                                                && (#[trigger] self.represented()[q]).0 == r;
                                        assert(rep[q].0 == r);
                                    }
                                    if r == name@ {
                                        assert(self.represented()[rep.len() as int].0 == r);
                                    }
                                }
                                assert forall|q: int|
                                    0 <= q < self.represented().len() implies exists|m: int|
                                    0 <= m <= i && (#[trigger] self.represented()[q]).1
                                        == hosts[m] by {
                                    if q < rep.len() {
                                        assert(self.represented()[q] == rep[q]);
                                    } else {
                                        assert(self.represented()[q].1 == hosts[i as int]);
                                    }
                                }
                            } else {
                                assert forall|jj: int|
                                    0 <= jj < absent.len() && (#[trigger] absent[jj]).0
                                        == name@ implies !absent[jj].1.contains(host@) by {
                                    assert(member_ids(absent)[jj] == member_ids(absent)[k]);
                                }
                            }
                        },
                        None => {
                            assert(self.keyed_by_id());
                            assert forall|k: int| 0 <= k < absent.len() implies (
                            #[trigger] absent[k]).0 != name@ by {
                                assert(members_of(self.members_absent)[k].0 != name@);
                            }
                        },
                    }
                }
                if !took {
                    proof {
                        if accepts(absent, name@, host@) {
                            let jj = choose|jj: int|
                                0 <= jj < absent.len() && (#[trigger] absent[jj]).0 == name@
                                    && absent[jj].1.contains(host@);
                            assert(member_ids(absent)[jj] == name@);
                            assert(holds_id(absent, name@));
                        }
                    }
                    assert(!admissible(rep, c, absent, cap));
                }
                j += 1;
            }
            assert(row.take(row.len() as int) =~= row);
            assert(candidates_upto(hosts, pl, (i + 1) as nat) == base + pairs_with(row, host@));
            i += 1;
        }
        assert(candidates(hosts, pl) == candidates_upto(hosts, pl, i as nat));
        let ghost rep = self.represented();
        let ghost unrep = self.unrepresented();
        assert(unrep.to_set() =~= leftover(absent, rep));
        id_map_sort_keys(&mut self.members_represented);
        id_set_sort(&mut self.members_unrepresented);
        proof {
            lemma_sorted_rearrangement(
                rep,
                self.represented(),
                |e: (Seq<char>, Seq<char>)| e.0,
                |a: (Seq<char>, Seq<char>), b: (Seq<char>, Seq<char>)| key_le(a, b),
            );
            lemma_sorted_rearrangement(
                unrep,
                self.unrepresented(),
                |r: Seq<char>| r,
                |a: Seq<char>, b: Seq<char>| id_le(a, b),
            );
            assert(self.represented().to_set() == rep.to_set());
            assert(ascending_by(self.represented(), |e: (Seq<char>, Seq<char>)| e.0));
            assert(self.unrepresented().to_set() == leftover(absent, rep));
            assert(ascending_by(self.unrepresented(), |r: Seq<char>| r));
        }
    }

    /// Computes the solution of the loaded problem, with the lottery drawn
    /// from `seed`.
    pub fn solve_seeded(&mut self, seed: u64)
        requires
            old(self).loaded(),
        ensures
            final(self).capacity == old(self).capacity,
            final(self).members_present == old(self).members_present,
            final(self).members_absent == old(self).members_absent,
            settled(
                final(self).represented(),
                final(self).unrepresented(),
                old(self).absentees(),
                old(self).hosts(),
                old(self).capacity as nat,
                lottery_placement(seed, old(self).absentees(), old(self).hosts(), old(self).capacity),
            ),
    {
        let hosts = self.host_list();
        let placement = lottery_match(&self.members_absent, &hosts, self.capacity, seed);
        self.assign(&placement);
    }

    /// Computes the solution of the loaded problem, with the fixed lottery
    /// seed, so that a problem always gets the same solution.
    pub fn solve(&mut self)
        requires
            old(self).loaded(),
        ensures
            final(self).capacity == old(self).capacity,
            final(self).members_present == old(self).members_present,
            final(self).members_absent == old(self).members_absent,
            settled(
                final(self).represented(),
                final(self).unrepresented(),
                old(self).absentees(),
                old(self).hosts(),
                old(self).capacity as nat,
                lottery_placement(
                    LOTTERY_SEED,
                    old(self).absentees(),
                    old(self).hosts(),
                    old(self).capacity,
                ),
            ),
    {
        self.solve_seeded(LOTTERY_SEED);
    }
}

} // verus!
