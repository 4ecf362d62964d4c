use vstd::prelude::*;
use crate::graph::{
    EntityView, RelationView, GraphView, has_name, has_relation, names_unique, triples_unique,
    create_entities_spec, create_relations_spec, append_new_spec, unnamed_entities,
    relations_avoiding, open_nodes_spec,
};

verus! {

broadcast use vstd::seq_lib::group_filter_ensures;

/// After a batch of creations, every name of the batch is in the graph and
/// names stay unique.
pub proof fn lemma_create_entities_covers(es: Seq<EntityView>, input: Seq<EntityView>)
    requires
        names_unique(es),
    ensures
        names_unique(create_entities_spec(es, input).0),
        forall|i: int| 0 <= i < input.len() ==> has_name(create_entities_spec(es, input).0, (#[trigger] input[i]).name),
        forall|n: Seq<char>| has_name(es, n) ==> has_name(create_entities_spec(es, input).0, n),
    decreases input.len(),
{
    if input.len() > 0 {
        let rest = input.drop_last();
        lemma_create_entities_covers(es, rest);
        let prev = create_entities_spec(es, rest);
        let x = input.last();
        if !has_name(prev.0, x.name) {
            let g = prev.0.push(x);
            assert(g[g.len() - 1].name == x.name);
            assert forall|n: Seq<char>| has_name(prev.0, n) implies has_name(g, n) by {
                let k = choose|k: int| 0 <= k < prev.0.len() && (#[trigger] prev.0[k]).name == n;
                assert(g[k] == prev.0[k]);
            }
        }
        assert forall|i: int| 0 <= i < input.len() implies has_name(create_entities_spec(es, input).0, (#[trigger] input[i]).name) by {
            if i < rest.len() {
                assert(input[i] == rest[i]);
            }
        }
    }
}

/// A batch whose names are all present creates nothing.
pub proof fn lemma_create_entities_present(es: Seq<EntityView>, input: Seq<EntityView>)
    requires
        forall|i: int| 0 <= i < input.len() ==> has_name(es, (#[trigger] input[i]).name),
    ensures
        create_entities_spec(es, input).0 == es,
        create_entities_spec(es, input).1.len() == 0,
    decreases input.len(),
{
    if input.len() > 0 {
        let rest = input.drop_last();
        assert forall|i: int| 0 <= i < rest.len() implies has_name(es, (#[trigger] rest[i]).name) by {
            assert(rest[i] == input[i]);
        }
        lemma_create_entities_present(es, rest);
        assert(has_name(es, input[input.len() - 1].name));
    }
}

/// Creation is idempotent: a second call with the same batch creates nothing
/// and leaves the graph as the first call left it; an entity whose name was
/// absent is created by the first call, and the graph then holds exactly one
/// entity of that name.
pub proof fn lemma_create_entities_idempotent(es: Seq<EntityView>, input: Seq<EntityView>, x: EntityView)
    requires
        names_unique(es),
    ensures
        ({
            let first = create_entities_spec(es, input);
            let second = create_entities_spec(first.0, input);
            &&& second.0 == first.0
            &&& second.1.len() == 0
        }),
        !has_name(es, x.name) ==> create_entities_spec(es, seq![x]).1 == seq![x],
        ({
            let g = create_entities_spec(es, seq![x]).0;
            &&& names_unique(g)
            &&& has_name(g, x.name)
            &&& forall|i: int, j: int| 0 <= i < g.len() && 0 <= j < g.len() && (#[trigger] g[i]).name == x.name
                && (#[trigger] g[j]).name == x.name ==> i == j
        }),
{
    lemma_create_entities_covers(es, input);
    lemma_create_entities_present(create_entities_spec(es, input).0, input);
    lemma_create_entities_covers(es, seq![x]);
    assert(seq![x][0] == x);
    assert(seq![x].drop_last() =~= Seq::<EntityView>::empty());
    assert(create_entities_spec(es, seq![x].drop_last()) == (es, Seq::<EntityView>::empty()));
    assert(Seq::<EntityView>::empty().push(x) =~= seq![x]);
}

/// After a batch of relation creations, every triple of the batch is in the
/// graph and triples stay unique.
pub proof fn lemma_create_relations_covers(rs: Seq<RelationView>, input: Seq<RelationView>)
    requires
        triples_unique(rs),
    ensures
        triples_unique(create_relations_spec(rs, input).0),
        forall|i: int| 0 <= i < input.len() ==> has_relation(create_relations_spec(rs, input).0, #[trigger] input[i]),
        forall|r: RelationView| has_relation(rs, r) ==> has_relation(create_relations_spec(rs, input).0, r),
    decreases input.len(),
{
    if input.len() > 0 {
        let rest = input.drop_last();
        lemma_create_relations_covers(rs, rest);
        let prev = create_relations_spec(rs, rest);
        let x = input.last();
        if !has_relation(prev.0, x) {
            let g = prev.0.push(x);
            assert(g[g.len() - 1] == x);
            assert forall|r: RelationView| has_relation(prev.0, r) implies has_relation(g, r) by {
                let k = choose|k: int| 0 <= k < prev.0.len() && #[trigger] prev.0[k] == r;
                assert(g[k] == prev.0[k]);
            }
        }
        assert forall|i: int| 0 <= i < input.len() implies has_relation(create_relations_spec(rs, input).0, #[trigger] input[i]) by {
            if i < rest.len() {
                assert(input[i] == rest[i]);
            }
        }
    }
}

/// A batch whose triples are all present creates nothing.
pub proof fn lemma_create_relations_present(rs: Seq<RelationView>, input: Seq<RelationView>)
    requires
        forall|i: int| 0 <= i < input.len() ==> has_relation(rs, #[trigger] input[i]),
    ensures
        create_relations_spec(rs, input).0 == rs,
        create_relations_spec(rs, input).1.len() == 0,
    decreases input.len(),
{
    if input.len() > 0 {
        let rest = input.drop_last();
        assert forall|i: int| 0 <= i < rest.len() implies has_relation(rs, #[trigger] rest[i]) by {
            assert(rest[i] == input[i]);
        }
        lemma_create_relations_present(rs, rest);
        assert(has_relation(rs, input[input.len() - 1]));
    }
}

/// A relation's identity is its triple: creating the same triple again adds
/// nothing, while a relation that differs from every present triple (say in
/// its type alone) is added, and both then stand in the graph.
pub proof fn lemma_relation_triple_identity(rs: Seq<RelationView>, x: RelationView, y: RelationView)
    requires
        triples_unique(rs),
    ensures
        ({
            let first = create_relations_spec(rs, seq![x]);
            let again = create_relations_spec(first.0, seq![x]);
            &&& again.0 == first.0
            &&& again.1.len() == 0
        }),
        ({
            let g1 = create_relations_spec(rs, seq![x]).0;
            let second = create_relations_spec(g1, seq![y]);
            &&& (!has_relation(rs, y) && x != y ==> second.1 == seq![y])
            &&& has_relation(second.0, x)
            &&& has_relation(second.0, y)
            &&& triples_unique(second.0)
        }),
{
    let sx = seq![x];
    let sy = seq![y];
    assert(sx[0] == x);
    assert(sy[0] == y);
    assert(sx.drop_last() =~= Seq::<RelationView>::empty());
    assert(sy.drop_last() =~= Seq::<RelationView>::empty());
    assert(create_relations_spec(rs, sx.drop_last()) == (rs, Seq::<RelationView>::empty()));
    assert(Seq::<RelationView>::empty().push(x) =~= sx);
    assert(Seq::<RelationView>::empty().push(y) =~= sy);
    lemma_create_relations_covers(rs, sx);
    let g1 = create_relations_spec(rs, sx).0;
    lemma_create_relations_present(g1, sx);
    lemma_create_relations_covers(g1, sy);
    assert(create_relations_spec(g1, sy.drop_last()) == (g1, Seq::<RelationView>::empty()));
    if !has_relation(rs, y) && x != y {
        if has_relation(g1, y) {
            let k = choose|k: int| 0 <= k < g1.len() && #[trigger] g1[k] == y;
            if !has_relation(rs, x) {
                assert(g1 == rs.push(x));
                if k < rs.len() {
                    assert(rs[k] == y);
                }
            }
        }
    }
}

/// Deleting entities cascades: no entity of a deleted name stays, and no
/// relation with a deleted name at either end stays.
pub proof fn lemma_delete_entities_cascades(g: GraphView, names: Seq<Seq<char>>)
    ensures
        forall|i: int| 0 <= i < unnamed_entities(g.entities, names).len()
            ==> !names.contains((#[trigger] unnamed_entities(g.entities, names)[i]).name),
        forall|i: int| 0 <= i < relations_avoiding(g.relations, names).len() ==> {
            let r = #[trigger] relations_avoiding(g.relations, names)[i];
            !names.contains(r.from) && !names.contains(r.to)
        },
{
}

/// Adding observations drops duplicates: the new list is the old one followed
/// by exactly the strings reported as added; none of those was there before;
/// every string of the request is there afterwards; and a list without
/// duplicates stays without.
pub proof fn lemma_add_observations_dedup(obs: Seq<Seq<char>>, contents: Seq<Seq<char>>)
    ensures
        ({
            let r = append_new_spec(obs, contents);
            &&& r.0 == obs + r.1
            &&& forall|i: int| 0 <= i < r.1.len() ==> !obs.contains(#[trigger] r.1[i])
            &&& forall|i: int| 0 <= i < contents.len() ==> r.0.contains(#[trigger] contents[i])
            &&& (obs.no_duplicates() ==> r.0.no_duplicates())
        }),
    decreases contents.len(),
{
    if contents.len() > 0 {
        let rest = contents.drop_last();
        lemma_add_observations_dedup(obs, rest);
        let prev = append_new_spec(obs, rest);
        let x = contents.last();
        let r = append_new_spec(obs, contents);
        if !prev.0.contains(x) {
            assert(prev.0.push(x) =~= obs + prev.1.push(x));
            assert forall|i: int| 0 <= i < r.1.len() implies !obs.contains(#[trigger] r.1[i]) by {
                if i < prev.1.len() {
                    assert(r.1[i] == prev.1[i]);
                } else {
                    assert(r.1[i] == x);
                    if obs.contains(x) {
                        let k = choose|k: int| 0 <= k < obs.len() && obs[k] == x;
                        assert(prev.0[k] == x);
                    }
                }
            }
            assert(r.0[r.0.len() - 1] == x);
        }
        assert forall|i: int| 0 <= i < contents.len() implies r.0.contains(#[trigger] contents[i]) by {
            if i < rest.len() {
                assert(contents[i] == rest[i]);
                assert(prev.0.contains(rest[i]));
                let k = choose|k: int| 0 <= k < prev.0.len() && prev.0[k] == rest[i];
                assert(r.0[k] == prev.0[k]);
            }
        }
    }
}

/// Opening nodes gives the induced subgraph: every entity kept is listed,
/// every listed entity of the graph is kept, and every relation kept has both
/// ends among the entities kept.
pub proof fn lemma_open_nodes_induced(g: GraphView, names: Seq<Seq<char>>)
    ensures
        ({
            let sub = open_nodes_spec(g, names);
            &&& forall|i: int| 0 <= i < sub.entities.len() ==> names.contains((#[trigger] sub.entities[i]).name)
            &&& forall|i: int| 0 <= i < g.entities.len() && names.contains((#[trigger] g.entities[i]).name)
                ==> sub.entities.contains(g.entities[i])
            &&& forall|i: int| 0 <= i < sub.relations.len() ==> {
                let r = #[trigger] sub.relations[i];
                has_name(sub.entities, r.from) && has_name(sub.entities, r.to)
            }
        }),
{
}

} // verus!
