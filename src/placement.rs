//! What a placement comes to: the rules by which a host's placed members are
//! taken, and what the solution then holds.
use crate::order::ascending_by;
use crate::problem::member_ids;
use vstd::prelude::*;

verus! {

/// The names placed with one host, each paired with that host.
pub open spec fn pairs_with(names: Seq<Seq<char>>, host: Seq<char>) -> Seq<(Seq<char>, Seq<char>)> {
    names.map_values(|r: Seq<char>| (r, host))
}

/// The (member, host) pairs that the first `n` hosts' placements propose.
pub open spec fn candidates_upto(
    hosts: Seq<Seq<char>>,
    placement: Seq<Seq<Seq<char>>>,
    n: nat,
) -> Seq<(Seq<char>, Seq<char>)>
    decreases n,
{
    if n == 0 {
        Seq::empty()
    } else {
        candidates_upto(hosts, placement, (n - 1) as nat) + pairs_with(
            placement[n - 1],
            hosts[n - 1],
        )
    }
}

/// The (member, host) pairs that a placement proposes, host by host.
pub open spec fn candidates(hosts: Seq<Seq<char>>, placement: Seq<Seq<Seq<char>>>) -> Seq<
    (Seq<char>, Seq<char>),
> {
    let n = if hosts.len() <= placement.len() {
        hosts.len()
    } else {
        placement.len()
    };
    candidates_upto(hosts, placement, n)
}

/// Member `r` has a host in `a`.
pub open spec fn assigned(a: Seq<(Seq<char>, Seq<char>)>, r: Seq<char>) -> bool {
    exists|k: int| 0 <= k < a.len() && (#[trigger] a[k]).0 == r
}

/// How many members `a` gives to host `h`.
pub open spec fn load(a: Seq<(Seq<char>, Seq<char>)>, h: Seq<char>) -> nat
    decreases a.len(),
{
    if a.len() == 0 {
        0
    } else {
        load(a.drop_last(), h) + if a.last().1 == h {
            1nat
        } else {
            0nat
        }
    }
}

/// Absent member `r` lists host `h` among their preferences.
pub open spec fn accepts(
    absent: Seq<(Seq<char>, Seq<Seq<char>>, Seq<Seq<char>>)>,
    r: Seq<char>,
    h: Seq<char>,
) -> bool {
    exists|j: int| 0 <= j < absent.len() && (#[trigger] absent[j]).0 == r && absent[j].1.contains(h)
}

/// Pair `c` may join `a`: its member is absent and prefers its host, has no
/// host yet, and its host has room.
pub open spec fn admissible(
    a: Seq<(Seq<char>, Seq<char>)>,
    c: (Seq<char>, Seq<char>),
    absent: Seq<(Seq<char>, Seq<Seq<char>>, Seq<Seq<char>>)>,
    capacity: nat,
) -> bool {
    &&& accepts(absent, c.0, c.1)
    &&& !assigned(a, c.0)
    &&& load(a, c.1) < capacity
}

/// The pairs taken from `cands`, in order, each one that may join those
/// before it.
pub open spec fn take_up(
    cands: Seq<(Seq<char>, Seq<char>)>,
    absent: Seq<(Seq<char>, Seq<Seq<char>>, Seq<Seq<char>>)>,
    capacity: nat,
) -> Seq<(Seq<char>, Seq<char>)>
    decreases cands.len(),
{
    if cands.len() == 0 {
        Seq::empty()
    } else {
        let before = take_up(cands.drop_last(), absent, capacity);
        if admissible(before, cands.last(), absent, capacity) {
            before.push(cands.last())
        } else {
            before
        }
    }
}

/// Who represents whom, once a placement has been taken.
pub open spec fn outcome(
    absent: Seq<(Seq<char>, Seq<Seq<char>>, Seq<Seq<char>>)>,
    hosts: Seq<Seq<char>>,
    capacity: nat,
    placement: Seq<Seq<Seq<char>>>,
) -> Seq<(Seq<char>, Seq<char>)> {
    take_up(candidates(hosts, placement), absent, capacity)
}

/// The absent members whom `a` leaves without a host.
pub open spec fn leftover(
    absent: Seq<(Seq<char>, Seq<Seq<char>>, Seq<Seq<char>>)>,
    a: Seq<(Seq<char>, Seq<char>)>,
) -> Set<Seq<char>> {
    Set::new(|r: Seq<char>| member_ids(absent).contains(r) && !assigned(a, r))
}

/// `represented` and `unrepresented` are what a placement comes to: the
/// pairs of its outcome ascending by member, and the members it leaves out,
/// ascending.
pub open spec fn settled(
    represented: Seq<(Seq<char>, Seq<char>)>,
    unrepresented: Seq<Seq<char>>,
    absent: Seq<(Seq<char>, Seq<Seq<char>>, Seq<Seq<char>>)>,
    hosts: Seq<Seq<char>>,
    capacity: nat,
    placement: Seq<Seq<Seq<char>>>,
) -> bool {
    &&& represented.to_set() == outcome(absent, hosts, capacity, placement).to_set()
    &&& ascending_by(represented, |e: (Seq<char>, Seq<char>)| e.0)
    &&& unrepresented.to_set() == leftover(absent, outcome(absent, hosts, capacity, placement))
    &&& ascending_by(unrepresented, |r: Seq<char>| r)
}

/// The pairs of `rep` that give a member to host `h`.
pub open spec fn hosted(rep: Seq<(Seq<char>, Seq<char>)>, h: Seq<char>) -> Set<(Seq<char>, Seq<char>)> {
    rep.to_set().filter(|e: (Seq<char>, Seq<char>)| e.1 == h)
}

/// Pairs whose members are all distinct.
pub open spec fn distinct_members(a: Seq<(Seq<char>, Seq<char>)>) -> bool {
    forall|i: int, j: int|
        0 <= i < a.len() && 0 <= j < a.len() && i != j ==> (#[trigger] a[i]).0 != (#[trigger] a[j]).0
}

/// What `take_up` takes: pairs of an absent member and a host they prefer,
/// no member twice, no host beyond capacity.
pub proof fn lemma_take_up(
    cands: Seq<(Seq<char>, Seq<char>)>,
    absent: Seq<(Seq<char>, Seq<Seq<char>>, Seq<Seq<char>>)>,
    capacity: nat,
)
    ensures
        forall|k: int|
            0 <= k < take_up(cands, absent, capacity).len() ==> accepts(
                absent,
                (#[trigger] take_up(cands, absent, capacity)[k]).0,
                take_up(cands, absent, capacity)[k].1,
            ),
        distinct_members(take_up(cands, absent, capacity)),
        forall|h: Seq<char>| #[trigger] load(take_up(cands, absent, capacity), h) <= capacity,
    decreases cands.len(),
{
    if cands.len() > 0 {
        let before = take_up(cands.drop_last(), absent, capacity);
        let e = cands.last();
        lemma_take_up(cands.drop_last(), absent, capacity);
        if admissible(before, e, absent, capacity) {
            let a = before.push(e);
            assert(a.drop_last() =~= before);
            assert forall|k: int| 0 <= k < a.len() implies accepts(absent, (#[trigger] a[k]).0, a[k].1) by {
                if k < before.len() {
                    assert(a[k] == before[k]);
                }
            }
            assert forall|i: int, j: int|
                0 <= i < a.len() && 0 <= j < a.len() && i != j implies (#[trigger] a[i]).0 != (
            #[trigger] a[j]).0 by {
                if i < before.len() && j < before.len() {
                    assert(a[i] == before[i] && a[j] == before[j]);
                } else if i < before.len() {
                    assert(a[i] == before[i]);
                } else {
                    assert(a[j] == before[j]);
                }
            }
            assert forall|h: Seq<char>| #[trigger] load(a, h) <= capacity by {
                assert(load(a, h) == load(before, h) + if e.1 == h { 1nat } else { 0nat });
            }
        }
    }
}

/// For pairs with distinct members, the pairs that give a member to a host
/// are as many as its load.
pub proof fn lemma_hosted_len(a: Seq<(Seq<char>, Seq<char>)>, h: Seq<char>)
    requires
        distinct_members(a),
    ensures
        hosted(a, h).finite(),
        hosted(a, h).len() == load(a, h),
    decreases a.len(),
{
    if a.len() == 0 {
        assert(hosted(a, h) =~= Set::empty());
    } else {
        let b = a.drop_last();
        let e = a.last();
        assert forall|i: int, j: int|
            0 <= i < b.len() && 0 <= j < b.len() && i != j implies (#[trigger] b[i]).0 != (
        #[trigger] b[j]).0 by {
            assert(b[i] == a[i] && b[j] == a[j]);
        }
        lemma_hosted_len(b, h);
        assert(a =~= b.push(e));
        assert(!b.contains(e)) by {
            if b.contains(e) {
                let k = choose|k: int| 0 <= k < b.len() && b[k] == e;
                assert(a[k] == e && a[a.len() - 1] == e);
            }
        }
        assert forall|x: (Seq<char>, Seq<char>)| a.contains(x) <==> (b.contains(x) || x == e) by {
            if a.contains(x) {
                let k = choose|k: int| 0 <= k < a.len() && a[k] == x;
                if k < b.len() {
                    assert(b[k] == x);
                }
            }
            if b.contains(x) {
                let k = choose|k: int| 0 <= k < b.len() && b[k] == x;
                assert(a[k] == x);
            }
            if x == e {
                assert(a[a.len() - 1] == x);
            }
        }
        if e.1 == h {
            assert(hosted(a, h) =~= hosted(b, h).insert(e));
        } else {
            assert(hosted(a, h) =~= hosted(b, h));
        }
    }
}

/// A host that no pair names carries no load.
pub proof fn lemma_load_none(a: Seq<(Seq<char>, Seq<char>)>, h: Seq<char>)
    requires
        forall|k: int| 0 <= k < a.len() ==> (#[trigger] a[k]).1 != h,
    ensures
        load(a, h) == 0,
    decreases a.len(),
{
    if a.len() > 0 {
        assert(a.last() == a[a.len() - 1]);
        lemma_load_none(a.drop_last(), h);
    }
}

} // verus!
