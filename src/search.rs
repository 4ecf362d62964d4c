use vstd::prelude::*;
use crate::graph::{Entity, EntityView, KnowledgeGraph, Relation, RelationView, strings_view, relation_views, entity_views, lemma_filter_take_step};

verus! {

/// What `str::to_lowercase` makes of a string.
pub uninterp spec fn lower_of(s: Seq<char>) -> Seq<char>;

/// Relies on `str::to_lowercase`: the lower-case form of the string, which
/// depends on its characters alone.
#[verifier::external_body]
fn lowercase(s: &str) -> (r: String)
    ensures
        r@ == lower_of(s@),
{
    s.to_lowercase()
}

/// `needle` occurs in `hay` as a contiguous run of characters.
pub open spec fn is_substring(hay: Seq<char>, needle: Seq<char>) -> bool {
    exists|i: int| 0 <= i && i + needle.len() <= hay.len() && #[trigger] hay.subrange(i, i + needle.len()) == needle
}

/// Relies on `str::contains` with a string pattern: whether `needle` occurs in
/// `hay` as a sub-slice.
#[verifier::external_body]
fn text_contains(hay: &str, needle: &str) -> (r: bool)
    ensures
        r == is_substring(hay@, needle@),
{
    hay.contains(needle)
}

/// The matches of one entity against a query, from which its ranking score
/// is combined.
#[derive(Clone, Copy, Debug, PartialEq, Eq, Structural)]
pub struct RelevanceFeatures {
    /// The name equals the query, case aside.
    pub exact_name: bool,
    /// The name holds the query, case aside, without being equal to it.
    pub name_match: bool,
    /// The type holds the query, case aside.
    pub type_match: bool,
    /// How many observations hold the query, case aside.
    pub observation_matches: usize,
    /// How many observations the entity has.
    pub observation_count: usize,
    /// How many relations have the entity at one end or both.
    pub connection_count: usize,
}

/// The observations that hold the lower-case query once lower-cased.
pub open spec fn matching_observations(obs: Seq<Seq<char>>, lq: Seq<char>) -> Seq<Seq<char>> {
    obs.filter(|o: Seq<char>| is_substring(lower_of(o), lq))
}

/// The relations with `name` at one end or both.
pub open spec fn touching(rs: Seq<RelationView>, name: Seq<char>) -> Seq<RelationView> {
    rs.filter(|r: RelationView| r.from == name || r.to == name)
}

/// The matches of entity `e` against query `q`, given the graph's relations.
pub open spec fn features_spec(e: EntityView, q: Seq<char>, rs: Seq<RelationView>) -> RelevanceFeatures {
    let lq = lower_of(q);
    let exact = lower_of(e.name) == lq;
    RelevanceFeatures {
        exact_name: exact,
        name_match: !exact && is_substring(lower_of(e.name), lq),
        type_match: is_substring(lower_of(e.entity_type), lq),
        observation_matches: matching_observations(e.observations, lq).len() as usize,
        observation_count: e.observations.len() as usize,
        connection_count: touching(rs, e.name).len() as usize,
    }
}

impl RelevanceFeatures {
    /// Some term of the score is positive: with positive weights, and the
    /// count terms weighted through `ln(1 + n)`, the score is above zero
    /// exactly then.
    pub open spec fn spec_relevant(self) -> bool {
        self.exact_name || self.name_match || self.type_match || self.observation_matches > 0
            || self.observation_count > 0 || self.connection_count > 0
    }

    /// Whether the entity passes the search's gate.
    pub fn is_relevant(&self) -> (r: bool)
        ensures
            r == self.spec_relevant(),
    {
        self.exact_name || self.name_match || self.type_match || self.observation_matches > 0
            || self.observation_count > 0 || self.connection_count > 0
    }
}

/// Counts the observations that hold `lq` once lower-cased.
fn count_matching_observations(obs: &Vec<String>, lq: &String) -> (n: usize)
    ensures
        n == matching_observations(strings_view(obs@), lq@).len(),
{
    let ghost ov = strings_view(obs@);
    let ghost p = |o: Seq<char>| is_substring(lower_of(o), lq@);
    let mut n: usize = 0;
    let mut i: usize = 0;
    while i < obs.len()
        invariant
            i <= obs.len(),
            ov == strings_view(obs@),
            p == (|o: Seq<char>| is_substring(lower_of(o), lq@)),
            n == ov.take(i as int).filter(p).len(),
            n <= i,
        decreases obs.len() - i,
    {
        proof {
            assert(ov[i as int] == obs@[i as int]@);
            lemma_filter_take_step(ov, p, i as int);
        }
        let lo = lowercase(obs[i].as_str());
        if text_contains(lo.as_str(), lq.as_str()) {
            n += 1;
        }
        i += 1;
    }
    proof {
        assert(ov.take(obs.len() as int) =~= ov);
    }
    n
}

/// Counts the relations with `name` at one end or both.
fn count_touching(rs: &Vec<Relation>, name: &String) -> (n: usize)
    ensures
        n == touching(relation_views(rs@), name@).len(),
{
    let ghost rv = relation_views(rs@);
    let ghost p = |r: RelationView| r.from == name@ || r.to == name@;
    let mut n: usize = 0;
    let mut i: usize = 0;
    while i < rs.len()
        invariant
            i <= rs.len(),
            rv == relation_views(rs@),
            p == (|r: RelationView| r.from == name@ || r.to == name@),
            n == rv.take(i as int).filter(p).len(),
            n <= i,
        decreases rs.len() - i,
    {
        proof {
            assert(rv[i as int] == rs@[i as int]@);
            lemma_filter_take_step(rv, p, i as int);
        }
        if rs[i].from == *name || rs[i].to == *name {
            n += 1;
        }
        i += 1;
    }
    proof {
        assert(rv.take(rs.len() as int) =~= rv);
    }
    n
}

/// The matches of `entity` against `query`, given the graph's relations.
pub fn text_relevance_features(entity: &Entity, query: &str, relations: &Vec<Relation>) -> (f: RelevanceFeatures)
    ensures
        f == features_spec(entity@, query@, relation_views(relations@)),
{
    let lq = lowercase(query);
    let ln = lowercase(entity.name.as_str());
    let exact = ln == lq;
    let name_match = !exact && text_contains(ln.as_str(), lq.as_str());
    let lt = lowercase(entity.entity_type.as_str());
    let type_match = text_contains(lt.as_str(), lq.as_str());
    let observation_matches = count_matching_observations(&entity.observations, &lq);
    let connection_count = count_touching(relations, &entity.name);
    proof {
        assert(strings_view(entity.observations@).len() == entity.observations@.len());
    }
    RelevanceFeatures {
        exact_name: exact,
        name_match,
        type_match,
        observation_matches,
        observation_count: entity.observations.len(),
        connection_count,
    }
}


/// How often `x` is linked to the listed names: once for each relation from a
/// listed name to `x`, and once for each relation from `x` to a listed name.
pub open spec fn link_count(rs: Seq<RelationView>, names: Seq<Seq<char>>, x: Seq<char>) -> nat
    decreases rs.len(),
{
    if rs.len() == 0 {
        0
    } else {
        let r = rs.last();
        link_count(rs.drop_last(), names, x) + (if names.contains(r.from) && r.to == x { 1nat } else { 0nat })
            + (if names.contains(r.to) && r.from == x { 1nat } else { 0nat })
    }
}

/// `x` is listed, or linked at least twice to the listed names.
pub open spec fn in_expanded(rs: Seq<RelationView>, names: Seq<Seq<char>>, x: Seq<char>) -> bool {
    names.contains(x) || link_count(rs, names, x) >= 2
}

/// The relations kept by the relation filter in each of its three modes.
pub open spec fn filter_relations_spec(rs: Seq<RelationView>, names: Seq<Seq<char>>, show_all: bool, include_related: bool) -> Seq<RelationView> {
    if show_all {
        rs.filter(|r: RelationView| names.contains(r.from) || names.contains(r.to))
    } else if include_related {
        rs.filter(|r: RelationView| in_expanded(rs, names, r.from) && in_expanded(rs, names, r.to))
    } else {
        rs.filter(|r: RelationView| names.contains(r.from) && names.contains(r.to))
    }
}

/// Whether `x` is linked at least twice to the listed names.
fn linked_twice(rs: &Vec<Relation>, names: &Vec<String>, x: &String) -> (r: bool)
    ensures
        r == (link_count(relation_views(rs@), strings_view(names@), x@) >= 2),
{
    let ghost rv = relation_views(rs@);
    let ghost nv = strings_view(names@);
    let mut c: usize = 0;
    let mut i: usize = 0;
    while i < rs.len()
        invariant
            i <= rs.len(),
            rv == relation_views(rs@),
            nv == strings_view(names@),
            c <= 2,
            c == (if link_count(rv.take(i as int), nv, x@) >= 2 { 2 } else { link_count(rv.take(i as int), nv, x@) }),
        decreases rs.len() - i,
    {
        proof {
            assert(rv.take(i + 1).drop_last() =~= rv.take(i as int));
            assert(rv.take(i + 1).last() == rs@[i as int]@);
        }
        let r = &rs[i];
        if crate::graph::contains_string(names, &r.from) && r.to == *x && c < 2 {
            c += 1;
        }
        if crate::graph::contains_string(names, &r.to) && r.from == *x && c < 2 {
            c += 1;
        }
        i += 1;
    }
    proof {
        assert(rv.take(rs.len() as int) =~= rv);
    }
    c >= 2
}

pub open spec fn scored_view(v: Seq<(Entity, u32)>) -> Seq<(EntityView, u32)> {
    v.map_values(|p: (Entity, u32)| (p.0@, p.1))
}

/// The first position of `s` whose key is below `k` (the length if none).
pub open spec fn first_below(s: Seq<(EntityView, u32)>, k: u32) -> int
    decreases s.len(),
{
    if s.len() == 0 {
        0
    } else if s[0].1 < k {
        0
    } else {
        1 + first_below(s.drop_first(), k)
    }
}

/// Inserts `x` after every item whose key is at least its own.
pub open spec fn insert_ranked(s: Seq<(EntityView, u32)>, x: (EntityView, u32)) -> Seq<(EntityView, u32)> {
    s.insert(first_below(s, x.1), x)
}

/// The items of positive key, by key from the highest down; items of equal
/// key keep their order.
pub open spec fn rank_spec(s: Seq<(EntityView, u32)>) -> Seq<(EntityView, u32)>
    decreases s.len(),
{
    if s.len() == 0 {
        s
    } else {
        let prev = rank_spec(s.drop_last());
        if s.last().1 == 0 {
            prev
        } else {
            insert_ranked(prev, s.last())
        }
    }
}

/// The number of results that a search returns at most.
pub open spec fn limit_spec(limit: Option<usize>) -> int {
    match limit {
        Some(n) => n as int,
        None => 10,
    }
}

/// The ranked entities, cut to the limit.
pub open spec fn search_spec(scored: Seq<(EntityView, u32)>, limit: Option<usize>) -> Seq<EntityView> {
    let ranked = rank_spec(scored);
    let n = if limit_spec(limit) < ranked.len() { limit_spec(limit) } else { ranked.len() as int };
    ranked.take(n).map_values(|p: (EntityView, u32)| p.0)
}

pub open spec fn sorted_desc(s: Seq<(EntityView, u32)>) -> bool {
    forall|i: int, j: int| 0 <= i < j < s.len() ==> (#[trigger] s[i]).1 >= (#[trigger] s[j]).1
}

proof fn lemma_first_below(s: Seq<(EntityView, u32)>, k: u32, p: int)
    requires
        0 <= p <= s.len(),
        forall|q: int| 0 <= q < p ==> (#[trigger] s[q]).1 >= k,
        p == s.len() || s[p].1 < k,
    ensures
        first_below(s, k) == p,
    decreases p,
{
    if p > 0 {
        let t = s.drop_first();
        assert forall|q: int| 0 <= q < p - 1 implies (#[trigger] t[q]).1 >= k by {
            assert(t[q] == s[q + 1]);
        }
        if p < s.len() {
            assert(t[p - 1] == s[p]);
        }
        lemma_first_below(t, k, p - 1);
    }
}

proof fn lemma_first_below_bounds(s: Seq<(EntityView, u32)>, k: u32)
    ensures
        0 <= first_below(s, k) <= s.len(),
        forall|q: int| 0 <= q < first_below(s, k) ==> (#[trigger] s[q]).1 >= k,
        first_below(s, k) < s.len() ==> s[first_below(s, k)].1 < k,
    decreases s.len(),
{
    if s.len() > 0 && s[0].1 >= k {
        let t = s.drop_first();
        lemma_first_below_bounds(t, k);
        assert forall|q: int| 0 <= q < first_below(s, k) implies (#[trigger] s[q]).1 >= k by {
            if q > 0 {
                assert(s[q] == t[q - 1]);
            }
        }
    }
}

/// A search ranks by key from the highest down, and keeps no item of key
/// zero.
pub proof fn lemma_rank_sorted(s: Seq<(EntityView, u32)>)
    ensures
        sorted_desc(rank_spec(s)),
        forall|i: int| 0 <= i < rank_spec(s).len() ==> (#[trigger] rank_spec(s)[i]).1 > 0,
    decreases s.len(),
{
    if s.len() > 0 {
        let prev = rank_spec(s.drop_last());
        lemma_rank_sorted(s.drop_last());
        if s.last().1 != 0 {
            let x = s.last();
            let p = first_below(prev, x.1);
            lemma_first_below_bounds(prev, x.1);
            let r = prev.insert(p, x);
            assert forall|i: int, j: int| 0 <= i < j < r.len() implies (#[trigger] r[i]).1 >= (#[trigger] r[j]).1 by {
                if j < p {
                    assert(r[i] == prev[i] && r[j] == prev[j]);
                } else if j == p {
                    assert(r[i] == prev[i]);
                } else if i < p {
                    assert(r[i] == prev[i] && r[j] == prev[j - 1]);
                } else if i == p {
                    assert(r[j] == prev[j - 1]);
                    assert(prev[p].1 < x.1);
                    if j - 1 > p {
                        assert(prev[p].1 >= prev[j - 1].1);
                    }
                } else {
                    assert(r[i] == prev[i - 1] && r[j] == prev[j - 1]);
                }
            }
            assert forall|i: int| 0 <= i < r.len() implies (#[trigger] r[i]).1 > 0 by {
                if i < p {
                    assert(r[i] == prev[i]);
                } else if i > p {
                    assert(r[i] == prev[i - 1]);
                }
            }
        }
    }
}

/// Every ranked item is an item of the input with a positive key.
pub proof fn lemma_rank_members(s: Seq<(EntityView, u32)>)
    ensures
        forall|i: int| 0 <= i < rank_spec(s).len() ==> s.contains(#[trigger] rank_spec(s)[i]),
    decreases s.len(),
{
    if s.len() > 0 {
        let rest = s.drop_last();
        lemma_rank_members(rest);
        let prev = rank_spec(rest);
        let r = rank_spec(s);
        assert forall|i: int| 0 <= i < r.len() implies s.contains(#[trigger] r[i]) by {
            if s.last().1 == 0 {
                assert(rest.contains(prev[i]));
                let k = choose|k: int| 0 <= k < rest.len() && rest[k] == prev[i];
                assert(s[k] == rest[k]);
            } else {
                let p = first_below(prev, s.last().1);
                lemma_first_below_bounds(prev, s.last().1);
                if i == p {
                    assert(r[i] == s[s.len() - 1]);
                } else {
                    let j = if i < p { i } else { i - 1 };
                    assert(r[i] == prev[j]);
                    assert(rest.contains(prev[j]));
                    let k = choose|k: int| 0 <= k < rest.len() && rest[k] == prev[j];
                    assert(s[k] == rest[k]);
                }
            }
        }
    }
}

/// Stateless search over a materialised graph.
#[derive(Clone, Debug)]
pub struct SearchEngine {}

impl SearchEngine {
    pub fn new() -> (r: SearchEngine) {
        SearchEngine {}
    }

    /// Keeps the relations that the mode asks for: with `show_all_relations`,
    /// those with at least one end listed; else with
    /// `include_related_entities`, those with both ends listed or linked at
    /// least twice to the listed names; else those with both ends listed.
    #[verifier::loop_isolation(false)]
    pub fn filter_relations_smart(
        &self,
        relations: &Vec<Relation>,
        entity_names: &Vec<String>,
        show_all_relations: bool,
        include_related_entities: bool,
    ) -> (r: Vec<Relation>)
        ensures
            relation_views(r@) == filter_relations_spec(
                relation_views(relations@),
                strings_view(entity_names@),
                show_all_relations,
                include_related_entities,
            ),
    {
        let ghost rv = relation_views(relations@);
        let ghost nv = strings_view(entity_names@);
        let ghost p = if show_all_relations {
            |r: RelationView| nv.contains(r.from) || nv.contains(r.to)
        } else if include_related_entities {
            |r: RelationView| in_expanded(rv, nv, r.from) && in_expanded(rv, nv, r.to)
        } else {
            |r: RelationView| nv.contains(r.from) && nv.contains(r.to)
        };
        proof {
            assert(filter_relations_spec(rv, nv, show_all_relations, include_related_entities) == rv.filter(p));
        }
        let mut out: Vec<Relation> = Vec::new();
        let mut i: usize = 0;
        while i < relations.len()
            invariant
                i <= relations.len(),
                relation_views(out@) == rv.take(i as int).filter(p),
            decreases relations.len() - i,
        {
            let r = &relations[i];
            let keep = if show_all_relations {
                crate::graph::contains_string(entity_names, &r.from) || crate::graph::contains_string(entity_names, &r.to)
            } else if include_related_entities {
                (crate::graph::contains_string(entity_names, &r.from) || linked_twice(relations, entity_names, &r.from))
                    && (crate::graph::contains_string(entity_names, &r.to) || linked_twice(relations, entity_names, &r.to))
            } else {
                crate::graph::contains_string(entity_names, &r.from) && crate::graph::contains_string(entity_names, &r.to)
            };
            proof {
                assert(rv[i as int] == r@);
                assert(keep == p(r@));
                lemma_filter_take_step(rv, p, i as int);
            }
            if keep {
                let ghost before = out@;
                let c = r.deep_clone();
                out.push(c);
                proof {
                    assert(out@ == before.push(c));
                    assert(relation_views(out@) =~= relation_views(before).push(c@));
                }
            }
            i += 1;
        }
        proof {
            assert(rv.take(relations.len() as int) =~= rv);
        }
        out
    }

    /// Ranks the scored entities: drops those of key zero, orders the rest by
    /// key from the highest down (equal keys keep their order), and keeps the
    /// first `limit` of them (10 where no limit is given). A key is the
    /// entity's score in a form whose integer order is the score's order.
    pub fn enhanced_text_search(&self, scored: &Vec<(Entity, u32)>, limit: Option<usize>) -> (r: Vec<Entity>)
        ensures
            entity_views(r@) == search_spec(scored_view(scored@), limit),
    {
        let ghost sv = scored_view(scored@);
        let mut ranked: Vec<(Entity, u32)> = Vec::new();
        let mut i: usize = 0;
        while i < scored.len()
            invariant
                i <= scored.len(),
                sv == scored_view(scored@),
                scored_view(ranked@) == rank_spec(sv.take(i as int)),
            decreases scored.len() - i,
        {
            proof {
                assert(sv.take(i + 1).drop_last() =~= sv.take(i as int));
                assert(sv.take(i + 1).last() == sv[i as int]);
                assert(sv[i as int] == (scored@[i as int].0@, scored@[i as int].1));
            }
            let key = scored[i].1;
            if key > 0 {
                let ghost rv = scored_view(ranked@);
                let mut p: usize = 0;
                while p < ranked.len() && ranked[p].1 >= key
                    invariant
                        p <= ranked.len(),
                        rv == scored_view(ranked@),
                        forall|q: int| 0 <= q < p ==> (#[trigger] rv[q]).1 >= key,
                    decreases ranked.len() - p,
                {
                    proof {
                        assert(rv[p as int].1 == ranked@[p as int].1);
                    }
                    p += 1;
                }
                proof {
                    if p < ranked.len() {
                        assert(rv[p as int].1 == ranked@[p as int].1);
                    }
                    lemma_first_below(rv, key, p as int);
                }
                let e = scored[i].0.deep_clone();
                ranked.insert(p, (e, key));
                proof {
                    assert(scored_view(ranked@) =~= rv.insert(p as int, (e@, key)));
                }
            }
            i += 1;
        }
        proof {
            assert(sv.take(scored.len() as int) =~= sv);
        }
        let n: usize = match limit {
            Some(l) => if l < ranked.len() { l } else { ranked.len() },
            None => if 10 < ranked.len() { 10 } else { ranked.len() },
        };
        let ghost rk = scored_view(ranked@);
        let mut out: Vec<Entity> = Vec::new();
        let mut j: usize = 0;
        while j < n
            invariant
                j <= n,
                n <= ranked.len(),
                rk == scored_view(ranked@),
                entity_views(out@) == rk.take(j as int).map_values(|p: (EntityView, u32)| p.0),
            decreases n - j,
        {
            let ghost before = out@;
            let c = ranked[j].0.deep_clone();
            out.push(c);
            proof {
                assert(rk[j as int].0 == c@);
                assert(entity_views(out@) =~= entity_views(before).push(c@));
                assert(rk.take(j + 1).map_values(|p: (EntityView, u32)| p.0) =~= rk.take(j as int).map_values(|p: (EntityView, u32)| p.0).push(c@));
            }
            j += 1;
        }
        out
    }

    /// The graph that a search returns: the entities found, and the relations
    /// of the graph with both ends among them.
    pub fn result_graph(&self, graph: &KnowledgeGraph, found: Vec<Entity>) -> (r: KnowledgeGraph)
        ensures
            r@.entities == entity_views(found@),
            r@.relations == filter_relations_spec(
                graph@.relations,
                entity_views(found@).map_values(|e: EntityView| e.name),
                false,
                false,
            ),
    {
        let ghost fv = entity_views(found@);
        let mut names: Vec<String> = Vec::new();
        let mut i: usize = 0;
        while i < found.len()
            invariant
                i <= found.len(),
                fv == entity_views(found@),
                strings_view(names@) == fv.take(i as int).map_values(|e: EntityView| e.name),
            decreases found.len() - i,
        {
            let ghost before = names@;
            let n = found[i].name.clone();
            names.push(n);
            proof {
                assert(names@ == before.push(n));
                assert(strings_view(names@) =~= strings_view(before).push(n@));
                assert(fv.take(i + 1).map_values(|e: EntityView| e.name) =~= fv.take(i as int).map_values(|e: EntityView| e.name).push(n@));
            }
            i += 1;
        }
        proof {
            assert(fv.take(found.len() as int) =~= fv);
        }
        let relations = self.filter_relations_smart(&graph.relations, &names, false, false);
        KnowledgeGraph { entities: found, relations }
    }
}

} // verus!
