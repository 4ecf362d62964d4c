use vstd::prelude::*;
use crate::graph::{Entity, Relation, strings_view, pairs_view, copy_strings};

verus! {

/// The counts that `get_stats` reports.
#[derive(Clone, Debug)]
pub struct GraphStats {
    pub entities: usize,
    pub relations: usize,
}

impl GraphStats {
    pub fn from_counts(counts: (usize, usize)) -> (r: GraphStats)
        ensures
            r.entities == counts.0,
            r.relations == counts.1,
    {
        GraphStats { entities: counts.0, relations: counts.1 }
    }
}

#[derive(Clone, Debug)]
pub struct CreateEntitiesRequest {
    pub entities: Vec<Entity>,
}

#[derive(Clone, Debug)]
pub struct CreateRelationsRequest {
    pub relations: Vec<Relation>,
}

#[derive(Clone, Debug)]
pub struct SearchNodesRequest {
    /// The text matched against names, types and observations.
    pub query: String,
    /// The number of results returned at most.
    pub limit: Option<usize>,
}

/// Strings to add to one entity.
#[derive(Clone, Debug)]
pub struct ObservationRequest {
    pub entity_name: String,
    pub contents: Vec<String>,
}

/// Strings to remove from one entity.
#[derive(Clone, Debug)]
pub struct ObservationDeletion {
    pub entity_name: String,
    pub observations: Vec<String>,
}

#[derive(Clone, Debug)]
pub struct AddObservationsRequest {
    pub observations: Vec<ObservationRequest>,
}

#[derive(Clone, Debug)]
pub struct DeleteEntitiesRequest {
    pub entity_names: Vec<String>,
}

#[derive(Clone, Debug)]
pub struct DeleteObservationsRequest {
    pub deletions: Vec<ObservationDeletion>,
}

#[derive(Clone, Debug)]
pub struct DeleteRelationsRequest {
    pub relations: Vec<Relation>,
}

#[derive(Clone, Debug)]
pub struct OpenNodesRequest {
    pub names: Vec<String>,
}

pub open spec fn observation_requests_view(v: Seq<ObservationRequest>) -> Seq<(Seq<char>, Seq<Seq<char>>)> {
    v.map_values(|o: ObservationRequest| (o.entity_name@, strings_view(o.contents@)))
}

pub open spec fn observation_deletions_view(v: Seq<ObservationDeletion>) -> Seq<(Seq<char>, Seq<Seq<char>>)> {
    v.map_values(|o: ObservationDeletion| (o.entity_name@, strings_view(o.observations@)))
}

impl AddObservationsRequest {
    /// The requests as `(entity name, contents)` pairs, in order.
    pub fn to_pairs(&self) -> (r: Vec<(String, Vec<String>)>)
        ensures
            pairs_view(r@) == observation_requests_view(self.observations@),
    {
        let ghost v = observation_requests_view(self.observations@);
        let mut r: Vec<(String, Vec<String>)> = Vec::new();
        let mut i: usize = 0;
        while i < self.observations.len()
            invariant
                i <= self.observations.len(),
                v == observation_requests_view(self.observations@),
                pairs_view(r@) == v.take(i as int),
            decreases self.observations.len() - i,
        {
            let o = &self.observations[i];
            let ghost before = r@;
            let p = (o.entity_name.clone(), copy_strings(&o.contents));
            r.push(p);
            proof {
                assert(r@ == before.push(p));
                assert(pairs_view(r@) =~= pairs_view(before).push((o.entity_name@, strings_view(o.contents@))));
                assert(v.take(i + 1) =~= v.take(i as int).push(v[i as int]));
            }
            i += 1;
        }
        proof {
            assert(v.take(self.observations.len() as int) =~= v);
        }
        r
    }
}

impl DeleteObservationsRequest {
    /// The deletions as `(entity name, observations)` pairs, in order.
    pub fn to_pairs(&self) -> (r: Vec<(String, Vec<String>)>)
        ensures
            pairs_view(r@) == observation_deletions_view(self.deletions@),
    {
        let ghost v = observation_deletions_view(self.deletions@);
        let mut r: Vec<(String, Vec<String>)> = Vec::new();
        let mut i: usize = 0;
        while i < self.deletions.len()
            invariant
                i <= self.deletions.len(),
                v == observation_deletions_view(self.deletions@),
                pairs_view(r@) == v.take(i as int),
            decreases self.deletions.len() - i,
        {
            let o = &self.deletions[i];
            let ghost before = r@;
            let p = (o.entity_name.clone(), copy_strings(&o.observations));
            r.push(p);
            proof {
                assert(r@ == before.push(p));
                assert(pairs_view(r@) =~= pairs_view(before).push((o.entity_name@, strings_view(o.observations@))));
                assert(v.take(i + 1) =~= v.take(i as int).push(v[i as int]));
            }
            i += 1;
        }
        proof {
            assert(v.take(self.deletions.len() as int) =~= v);
        }
        r
    }
}

impl ObservationRequest {
    /// One request per `(entity name, contents)` pair, in order: the form in
    /// which `add_observations` reports what it appended.
    pub fn from_pairs(pairs: Vec<(String, Vec<String>)>) -> (r: Vec<ObservationRequest>)
        ensures
            observation_requests_view(r@) == pairs_view(pairs@),
    {
        let ghost v = pairs_view(pairs@);
        let mut r: Vec<ObservationRequest> = Vec::new();
        let mut i: usize = 0;
        while i < pairs.len()
            invariant
                i <= pairs.len(),
                v == pairs_view(pairs@),
                observation_requests_view(r@) == v.take(i as int),
            decreases pairs.len() - i,
        {
            let ghost before = r@;
            let o = ObservationRequest { entity_name: pairs[i].0.clone(), contents: copy_strings(&pairs[i].1) };
            r.push(o);
            proof {
                assert(r@ == before.push(o));
                assert(observation_requests_view(r@) =~= observation_requests_view(before).push(v[i as int]));
                assert(v.take(i + 1) =~= v.take(i as int).push(v[i as int]));
            }
            i += 1;
        }
        proof {
            assert(v.take(pairs.len() as int) =~= v);
        }
        r
    }
}

} // verus!
