use mcp_memory::graph::{Entity, KnowledgeGraph, Relation};
use mcp_memory::items::GraphItem;
use mcp_memory::requests::{
    AddObservationsRequest, DeleteObservationsRequest, GraphStats, ObservationDeletion, ObservationRequest,
};

fn rec_entity(name: &str, observations: &[&str]) -> Entity {
    Entity {
        name: name.to_string(),
        entity_type: "T".to_string(),
        observations: observations.iter().map(|o| o.to_string()).collect(),
    }
}

fn rec_relation(from: &str, to: &str, relation_type: &str) -> Relation {
    Relation {
        from: from.to_string(),
        to: to.to_string(),
        relation_type: relation_type.to_string(),
    }
}

#[test]
fn items_list_entities_then_relations() {
    let mut g = KnowledgeGraph::new();
    g.create_relations(vec![rec_relation("A", "B", "knows")]);
    g.create_entities(vec![rec_entity("A", &["x"]), rec_entity("B", &[])]);
    let items = g.to_items();
    assert_eq!(items.len(), 3);
    assert!(matches!(&items[0], GraphItem::Entity(e) if e.name == "A"));
    assert!(matches!(&items[1], GraphItem::Entity(e) if e.name == "B"));
    assert!(matches!(&items[2], GraphItem::Relation(r) if r.relation_type == "knows"));
}

#[test]
fn items_round_trip() {
    let mut g = KnowledgeGraph::new();
    g.create_entities(vec![rec_entity("B", &["1", "2"]), rec_entity("A", &[])]);
    g.create_relations(vec![rec_relation("A", "B", "knows"), rec_relation("B", "A", "knows")]);
    let back = KnowledgeGraph::from_items(&g.to_items());
    assert_eq!(back.entities.len(), 2);
    assert_eq!(back.entities[0].name, "B");
    assert_eq!(back.entities[0].observations, vec!["1".to_string(), "2".to_string()]);
    assert_eq!(back.entities[1].name, "A");
    assert_eq!(back.relations.len(), 2);
    assert_eq!(back.relations[1].from, "B");
}

#[test]
fn items_later_entity_replaces_earlier() {
    let items = vec![
        GraphItem::Entity(rec_entity("A", &["old"])),
        GraphItem::Relation(rec_relation("A", "B", "r")),
        GraphItem::Entity(rec_entity("A", &["new"])),
        GraphItem::Relation(rec_relation("A", "B", "r")),
    ];
    let g = KnowledgeGraph::from_items(&items);
    assert_eq!(g.entities.len(), 1);
    assert_eq!(g.entities[0].observations, vec!["new".to_string()]);
    assert_eq!(g.relations.len(), 1);
}

#[test]
fn request_pairs() {
    let add = AddObservationsRequest {
        observations: vec![ObservationRequest { entity_name: "E".to_string(), contents: vec!["c".to_string()] }],
    };
    let pairs = add.to_pairs();
    assert_eq!(pairs, vec![("E".to_string(), vec!["c".to_string()])]);
    let back = ObservationRequest::from_pairs(pairs);
    assert_eq!(back[0].entity_name, "E");
    let del = DeleteObservationsRequest {
        deletions: vec![ObservationDeletion { entity_name: "F".to_string(), observations: vec!["d".to_string()] }],
    };
    assert_eq!(del.to_pairs(), vec![("F".to_string(), vec!["d".to_string()])]);
    let stats = GraphStats::from_counts((3, 4));
    assert_eq!((stats.entities, stats.relations), (3, 4));
}
