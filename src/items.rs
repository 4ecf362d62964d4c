use vstd::prelude::*;
use crate::graph::{
    Entity, EntityView, Relation, RelationView, GraphView, KnowledgeGraph, has_name, has_relation,
    index_of_name, find_entity, find_relation,
};

verus! {

/// One record of the durable store: an entity or a relation.
#[derive(Clone, Debug)]
pub enum GraphItem {
    Entity(Entity),
    Relation(Relation),
}

pub enum ItemView {
    Entity(EntityView),
    Relation(RelationView),
}

impl View for GraphItem {
    type V = ItemView;

    open spec fn view(&self) -> ItemView {
        match self {
            GraphItem::Entity(e) => ItemView::Entity(e@),
            GraphItem::Relation(r) => ItemView::Relation(r@),
        }
    }
}

pub open spec fn items_view(v: Seq<GraphItem>) -> Seq<ItemView> {
    v.map_values(|i: GraphItem| i@)
}

/// The records that store a graph: every entity, then every relation.
pub open spec fn save_spec(g: GraphView) -> Seq<ItemView> {
    g.entities.map_values(|e: EntityView| ItemView::Entity(e)) + g.relations.map_values(|r: RelationView| ItemView::Relation(r))
}

pub open spec fn empty_graph() -> GraphView {
    GraphView { entities: Seq::empty(), relations: Seq::empty() }
}

/// The graph that records describe, read in order: a later entity record
/// replaces an earlier one of the same name, and a repeated relation triple
/// is kept once.
pub open spec fn load_spec(items: Seq<ItemView>) -> GraphView
    decreases items.len(),
{
    if items.len() == 0 {
        empty_graph()
    } else {
        let g = load_spec(items.drop_last());
        match items.last() {
            ItemView::Entity(e) => if has_name(g.entities, e.name) {
                GraphView { entities: g.entities.update(index_of_name(g.entities, e.name), e), relations: g.relations }
            } else {
                GraphView { entities: g.entities.push(e), relations: g.relations }
            },
            ItemView::Relation(r) => if has_relation(g.relations, r) {
                g
            } else {
                GraphView { entities: g.entities, relations: g.relations.push(r) }
            },
        }
    }
}

proof fn lemma_load_entities_prefix(g: GraphView, k: int)
    requires
        g.wf(),
        0 <= k <= g.entities.len(),
    ensures
        load_spec(save_spec(g).take(k)) == (GraphView { entities: g.entities.take(k), relations: Seq::empty() }),
    decreases k,
{
    let s = save_spec(g);
    if k == 0 {
        assert(s.take(0) =~= Seq::<ItemView>::empty());
        assert(g.entities.take(0) =~= Seq::<EntityView>::empty());
    } else {
        lemma_load_entities_prefix(g, k - 1);
        assert(s.take(k).drop_last() =~= s.take(k - 1));
        let e = g.entities[k - 1];
        assert(s[k - 1] == ItemView::Entity(e));
        let prev = g.entities.take(k - 1);
        if has_name(prev, e.name) {
            let j = choose|j: int| 0 <= j < prev.len() && (#[trigger] prev[j]).name == e.name;
            assert(g.entities[j].name == e.name);
        }
        assert(g.entities.take(k) =~= prev.push(e));
    }
}

proof fn lemma_load_relations_prefix(g: GraphView, k: int)
    requires
        g.wf(),
        0 <= k <= g.relations.len(),
    ensures
        load_spec(save_spec(g).take(g.entities.len() + k)) == (GraphView { entities: g.entities, relations: g.relations.take(k) }),
    decreases k,
{
    let s = save_spec(g);
    let ne = g.entities.len() as int;
    if k == 0 {
        lemma_load_entities_prefix(g, ne);
        assert(g.entities.take(ne) =~= g.entities);
        assert(g.relations.take(0) =~= Seq::<RelationView>::empty());
    } else {
        lemma_load_relations_prefix(g, k - 1);
        assert(s.take(ne + k).drop_last() =~= s.take(ne + k - 1));
        let r = g.relations[k - 1];
        assert(s[ne + k - 1] == ItemView::Relation(r));
        let prev = g.relations.take(k - 1);
        if has_relation(prev, r) {
            let j = choose|j: int| 0 <= j < prev.len() && #[trigger] prev[j] == r;
            assert(g.relations[j] == r);
        }
        assert(g.relations.take(k) =~= prev.push(r));
    }
}

/// Storing a graph and reading the records back gives the same graph: the
/// same entities and the same relations, in the same order.
pub proof fn lemma_round_trip(g: GraphView)
    requires
        g.wf(),
    ensures
        load_spec(save_spec(g)) == g,
{
    let s = save_spec(g);
    lemma_load_relations_prefix(g, g.relations.len() as int);
    assert(s.take((g.entities.len() + g.relations.len()) as int) =~= s);
    assert(g.relations.take(g.relations.len() as int) =~= g.relations);
}

impl KnowledgeGraph {
    /// The records that store the graph: every entity, then every relation.
    pub fn to_items(&self) -> (r: Vec<GraphItem>)
        ensures
            items_view(r@) == save_spec(self@),
    {
        let ghost s = save_spec(self@);
        let ne = self.entities.len();
        let mut r: Vec<GraphItem> = Vec::new();
        let mut i: usize = 0;
        while i < ne
            invariant
                i <= ne,
                ne == self.entities.len(),
                s == save_spec(self@),
                items_view(r@) == s.take(i as int),
            decreases ne - i,
        {
            let ghost before = r@;
            let item = GraphItem::Entity(self.entities[i].deep_clone());
            r.push(item);
            proof {
                assert(s[i as int] == item@);
                assert(items_view(r@) =~= items_view(before).push(item@));
                assert(s.take(i + 1) =~= s.take(i as int).push(item@));
            }
            i += 1;
        }
        let mut j: usize = 0;
        while j < self.relations.len()
            invariant
                j <= self.relations.len(),
                ne == self.entities.len(),
                s == save_spec(self@),
                items_view(r@) == s.take(ne + j),
            decreases self.relations.len() - j,
        {
            let ghost before = r@;
            let item = GraphItem::Relation(self.relations[j].deep_clone());
            r.push(item);
            proof {
                assert(s[ne + j] == item@);
                assert(items_view(r@) =~= items_view(before).push(item@));
                assert(s.take(ne + j + 1) =~= s.take(ne + j).push(item@));
            }
            j += 1;
        }
        proof {
            assert(s.take(ne + self.relations.len()) =~= s);
        }
        r
    }

    /// The graph that the records describe, read in order.
    pub fn from_items(items: &Vec<GraphItem>) -> (g: KnowledgeGraph)
        ensures
            g@ == load_spec(items_view(items@)),
            g@.wf(),
    {
        let ghost iv = items_view(items@);
        let mut g = KnowledgeGraph::new();
        proof {
            assert(iv.take(0) =~= Seq::<ItemView>::empty());
            assert(g@.entities =~= Seq::<EntityView>::empty());
            assert(g@.relations =~= Seq::<RelationView>::empty());
        }
        let mut i: usize = 0;
        while i < items.len()
            invariant
                i <= items.len(),
                iv == items_view(items@),
                g@.wf(),
                g@ == load_spec(iv.take(i as int)),
            decreases items.len() - i,
        {
            proof {
                assert(iv.take(i + 1).drop_last() =~= iv.take(i as int));
                assert(iv.take(i + 1).last() == items@[i as int]@);
            }
            let ghost cur = g@;
            match &items[i] {
                GraphItem::Entity(e) => {
                    match find_entity(&g.entities, &e.name) {
                        Some(k) => {
                            proof {
                                assert(cur.entities[k as int].name == e@.name);
                                let c = index_of_name(cur.entities, e@.name);
                                assert(c == k);
                            }
                            let _old = g.entities.remove(k);
                            let c = e.deep_clone();
                            g.entities.insert(k, c);
                            proof {
                                assert(g@.entities =~= cur.entities.update(k as int, e@));
                                let es = g@.entities;
                                assert forall|a: int, b: int| 0 <= a < b < es.len() implies (#[trigger] es[a]).name != (#[trigger] es[b]).name by {
                                    assert(cur.entities[a].name != cur.entities[b].name);
                                }
                            }
                        },
                        None => {
                            let c = e.deep_clone();
                            g.entities.push(c);
                            proof {
                                assert(g@.entities =~= cur.entities.push(e@));
                                let es = g@.entities;
                                assert forall|a: int, b: int| 0 <= a < b < es.len() implies (#[trigger] es[a]).name != (#[trigger] es[b]).name by {
                                    if b == es.len() - 1 {
                                        assert(es[a] == cur.entities[a]);
                                    }
                                }
                            }
                        },
                    }
                },
                GraphItem::Relation(r) => {
                    if !find_relation(&g.relations, r) {
                        let c = r.deep_clone();
                        g.relations.push(c);
                        proof {
                            assert(g@.relations =~= cur.relations.push(r@));
                            let rs = g@.relations;
                            assert forall|a: int, b: int| 0 <= a < b < rs.len() implies #[trigger] rs[a] != #[trigger] rs[b] by {
                                if b == rs.len() - 1 {
                                    assert(rs[a] == cur.relations[a]);
                                }
                            }
                        }
                    }
                },
            }
            i += 1;
        }
        proof {
            assert(iv.take(items.len() as int) =~= iv);
        }
        g
    }
}

} // verus!
