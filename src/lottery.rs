//! The matching engine: deferred acceptance with a single lottery tie-break,
//! from the `matchmaker` crate, drawn with a seeded generator from `rand`.
use crate::indexed::absent_members;
use crate::member::{ids, Member};
use indexmap::IndexMap;
use matchmaker::da_stb::match_students;
use matchmaker::{Category, Student};
use rand::rngs::StdRng;
use rand::SeedableRng;
use vstd::prelude::*;

verus! {

/// The placement that deferred acceptance with a single tie-break finds when
/// its lottery is drawn from a generator seeded with `seed`: for each host, in
/// the order of `hosts`, the ids of the members placed with it.
pub uninterp spec fn lottery_placement(
    seed: u64,
    members: Seq<(Seq<char>, Seq<Seq<char>>, Seq<Seq<char>>)>,
    hosts: Seq<Seq<char>>,
    capacity: usize,
) -> Seq<Seq<Seq<char>>>;

/// The ids of a placement, host by host.
pub open spec fn placement_view(p: Seq<Vec<String>>) -> Seq<Seq<Seq<char>>> {
    p.map_values(|v: Vec<String>| ids(v@))
}

/// Relies on `matchmaker::da_stb::match_students`, with `rand`'s `StdRng`
/// seeded by `StdRng::seed_from_u64(seed)`: each host becomes a category of
/// `capacity` places, each absent member, in the map's order, a student with their preferences and
/// exclusions; for each host, the students placed there are read back. The
/// generator is seeded afresh, so the result depends on the arguments alone.
#[verifier::external_body]
pub(crate) fn lottery_match(
    members: &IndexMap<String, Member>,
    hosts: &Vec<String>,
    capacity: usize,
    seed: u64,
) -> (r: Vec<Vec<String>>)
    ensures
        r@.len() == hosts@.len(),
        placement_view(r@) == lottery_placement(seed, absent_members(*members), ids(hosts@), capacity),
{
    let cat = move |h: &String| Category::new(h, capacity);
    let students = members.values().map(|m| Student {
        name: m.id.clone(),
        preferences: m.preferences.iter().map(cat).collect(),
        exclude: m.exclusion.iter().map(cat).collect(),
    }).collect();
    let result = match_students(students, &hosts.iter().map(cat).collect(), &mut StdRng::seed_from_u64(seed));
    let names = |v: &Vec<Student>| v.iter().map(|s| s.name.clone()).collect();
    hosts.iter().map(|h| result.placed.get(h).map_or(Vec::new(), names)).collect()
}

} // verus!
