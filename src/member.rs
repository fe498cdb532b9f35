//! Members and their ids: the raw record a member is given as, and the absent
//! member built from it, who needs a present member to represent them.
use crate::indexed::{id_set_at, id_set_contains, id_set_len, items_of};
use indexmap::IndexSet;
use vstd::prelude::*;

verus! {

/// An opaque string that uniquely keys a member.
pub type MemberId = String;

/// The ids held by a sequence of strings.
pub open spec fn ids(v: Seq<String>) -> Seq<Seq<char>> {
    v.map_values(|s: String| s@)
}

/// A member's raw record: their id, and a ranked list of the members who may
/// represent them.
pub struct MemberInfo {
    /// The member's id.
    pub id: MemberId,
    /// Ids of the members who may represent this one, most preferred first.
    pub preferences: Vec<MemberId>,
}

impl View for MemberInfo {
    type V = (Seq<char>, Seq<Seq<char>>);

    open spec fn view(&self) -> Self::V {
        (self.id@, ids(self.preferences@))
    }
}

/// An absent member, who may be represented only by a present member that
/// they list, and never by one in `exclusion`.
pub struct Member {
    /// The member's id.
    pub id: MemberId,
    /// Present members who may represent this one, most preferred first.
    pub preferences: Vec<MemberId>,
    /// Present members who must not represent this one.
    pub exclusion: Vec<MemberId>,
}

impl View for Member {
    type V = (Seq<char>, Seq<Seq<char>>, Seq<Seq<char>>);

    open spec fn view(&self) -> Self::V {
        (self.id@, ids(self.preferences@), ids(self.exclusion@))
    }
}

/// The preferences that name a present member, each once, in the order given.
pub open spec fn acceptable(raw: Seq<Seq<char>>, hosts: Seq<Seq<char>>) -> Seq<Seq<char>>
    decreases raw.len(),
{
    if raw.len() == 0 {
        Seq::empty()
    } else {
        let kept = acceptable(raw.drop_last(), hosts);
        if hosts.contains(raw.last()) && !kept.contains(raw.last()) {
            kept.push(raw.last())
        } else {
            kept
        }
    }
}

/// The present members that the raw preferences do not name, in their order.
pub open spec fn excluded(raw: Seq<Seq<char>>, hosts: Seq<Seq<char>>) -> Seq<Seq<char>>
    decreases hosts.len(),
{
    if hosts.len() == 0 {
        Seq::empty()
    } else {
        let rest = excluded(raw, hosts.drop_last());
        if raw.contains(hosts.last()) {
            rest
        } else {
            rest.push(hosts.last())
        }
    }
}

/// The absent member built from a raw record, given the present members.
pub open spec fn member_of(info: (Seq<char>, Seq<Seq<char>>), hosts: Seq<Seq<char>>) -> (
    Seq<char>,
    Seq<Seq<char>>,
    Seq<Seq<char>>,
) {
    (info.0, acceptable(info.1, hosts), excluded(info.1, hosts))
}

/// What `acceptable` keeps is named by the raw list and by the hosts.
pub proof fn lemma_acceptable_within(raw: Seq<Seq<char>>, hosts: Seq<Seq<char>>, h: Seq<char>)
    requires
        acceptable(raw, hosts).contains(h),
    ensures
        raw.contains(h),
        hosts.contains(h),
    decreases raw.len(),
{
    if raw.len() > 0 {
        let kept = acceptable(raw.drop_last(), hosts);
        if kept.contains(h) {
            lemma_acceptable_within(raw.drop_last(), hosts, h);
            let k = choose|k: int| 0 <= k < raw.drop_last().len() && raw.drop_last()[k] == h;
            assert(raw[k] == h);
        } else {
            assert(h == raw.last());
            assert(raw[raw.len() - 1] == h);
        }
    }
}

/// `x` is among the ids of `v`.
pub fn contains_id(v: &Vec<MemberId>, x: &MemberId) -> (r: bool)
    ensures
        r == ids(v@).contains(x@),
{
    let mut i: usize = 0;
    while i < v.len()
        invariant
            i <= v@.len(),
            forall|k: int| 0 <= k < i ==> v@[k]@ != x@,
        decreases v@.len() - i,
    {
        if v[i] == *x {
            assert(ids(v@)[i as int] == x@);
            return true;
        }
        i += 1;
    }
    assert forall|k: int| 0 <= k < ids(v@).len() implies ids(v@)[k] != x@ by {
        assert(ids(v@)[k] == v@[k]@);
    }
    false
}

impl Member {
    /// Builds the absent member of a raw record. Their preferences keep, in
    /// order and once each, the ids of present members; every other present
    /// member is excluded.
    pub fn from_info(info: &MemberInfo, present: &IndexSet<MemberId>) -> (r: Member)
        ensures
            r@ == member_of(info@, items_of(*present)),
    {
        let ghost hosts = items_of(*present);
        let ghost raw = info@.1;
        let mut preferences: Vec<MemberId> = Vec::new();
        let mut i: usize = 0;
        while i < info.preferences.len()
            invariant
                i <= raw.len(),
                raw == ids(info.preferences@),
                hosts == items_of(*present),
                ids(preferences@) == acceptable(raw.take(i as int), hosts),
            decreases raw.len() - i,
        {
            let id = &info.preferences[i];
            assert(raw.take(i + 1).drop_last() =~= raw.take(i as int));
            assert(raw.take(i + 1).last() == id@);
            if id_set_contains(present, id) && !contains_id(&preferences, id) {
                preferences.push(id.clone());
                assert(ids(preferences@) =~= acceptable(raw.take(i + 1), hosts));
            }
            i += 1;
        }
        assert(raw.take(raw.len() as int) =~= raw);
        let mut exclusion: Vec<MemberId> = Vec::new();
        let n = id_set_len(present);
        let mut j: usize = 0;
        while j < n
            invariant
                j <= n,
                n == hosts.len(),
                raw == ids(info.preferences@),
                hosts == items_of(*present),
                ids(exclusion@) == excluded(raw, hosts.take(j as int)),
            decreases n - j,
        {
            let host = id_set_at(present, j);
            assert(hosts.take(j + 1).drop_last() =~= hosts.take(j as int));
            assert(hosts.take(j + 1).last() == host@);
            if !contains_id(&info.preferences, host) {
                exclusion.push(host.clone());
                assert(ids(exclusion@) =~= excluded(raw, hosts.take(j + 1)));
            }
            j += 1;
        }
        assert(hosts.take(n as int) =~= hosts);
        Member { id: info.id.clone(), preferences, exclusion }
    }
}

} // verus!
