use mcp_memory::graph::{Entity, KnowledgeGraph, Relation};
use mcp_memory::search::{text_relevance_features, SearchEngine};

fn make_entity(name: &str, entity_type: &str, observations: &[&str]) -> Entity {
    Entity {
        name: name.to_string(),
        entity_type: entity_type.to_string(),
        observations: observations.iter().map(|o| o.to_string()).collect(),
    }
}

fn make_relation(from: &str, to: &str, relation_type: &str) -> Relation {
    Relation {
        from: from.to_string(),
        to: to.to_string(),
        relation_type: relation_type.to_string(),
    }
}

fn names_of(rs: &[Relation]) -> Vec<(String, String)> {
    rs.iter().map(|r| (r.from.clone(), r.to.clone())).collect()
}

#[test]
fn features_gate_alice_and_bob() {
    let alice = make_entity("Alice", "Person", &["Likes coffee"]);
    let bob = make_entity("Bob", "Person", &["Likes tea"]);
    let fa = text_relevance_features(&alice, "coffee", &vec![]);
    assert!(!fa.exact_name && !fa.name_match && !fa.type_match);
    assert_eq!(fa.observation_matches, 1);
    assert_eq!(fa.observation_count, 1);
    assert!(fa.is_relevant());
    let fb = text_relevance_features(&bob, "coffee", &vec![]);
    assert_eq!(fb.observation_matches, 0);
    // Bob's one observation still gives a positive score term.
    assert!(fb.is_relevant());
    let bare = make_entity("Bob", "Person", &[]);
    assert!(!text_relevance_features(&bare, "coffee", &vec![]).is_relevant());
}

#[test]
fn features_are_case_insensitive() {
    let e = make_entity("Alice", "PERSON", &["likes COFFEE", "coffee again", "tea"]);
    let rels = vec![
        make_relation("Alice", "Bob", "knows"),
        make_relation("Carol", "Alice", "knows"),
        make_relation("Bob", "Carol", "knows"),
    ];
    let f = text_relevance_features(&e, "ALICE", &rels);
    assert!(f.exact_name);
    assert!(!f.name_match);
    assert_eq!(f.connection_count, 2);
    let g = text_relevance_features(&e, "lic", &rels);
    assert!(!g.exact_name && g.name_match);
    let h = text_relevance_features(&e, "Coffee", &rels);
    assert_eq!(h.observation_matches, 2);
    assert!(text_relevance_features(&e, "person", &rels).type_match);
}

#[test]
fn ranking_orders_by_key_and_drops_zero() {
    let engine = SearchEngine::new();
    let scored = vec![
        (make_entity("a", "t", &[]), 5u32),
        (make_entity("b", "t", &[]), 0u32),
        (make_entity("c", "t", &[]), 9u32),
        (make_entity("d", "t", &[]), 5u32),
    ];
    let r = engine.enhanced_text_search(&scored, None);
    let names: Vec<&str> = r.iter().map(|e| e.name.as_str()).collect();
    assert_eq!(names, vec!["c", "a", "d"]);
}

#[test]
fn ranking_respects_limit_and_default() {
    let engine = SearchEngine::new();
    let scored: Vec<(Entity, u32)> = (0..15u32).map(|i| (make_entity(&format!("e{i}"), "t", &[]), i + 1)).collect();
    let r = engine.enhanced_text_search(&scored, None);
    assert_eq!(r.len(), 10);
    assert_eq!(r[0].name, "e14");
    let r2 = engine.enhanced_text_search(&scored, Some(2));
    assert_eq!(r2.len(), 2);
    assert_eq!(r2[1].name, "e13");
    assert!(engine.enhanced_text_search(&scored, Some(0)).is_empty());
}

#[test]
fn relation_filter_modes() {
    let engine = SearchEngine::new();
    let rels = vec![
        make_relation("A", "B", "r"),
        make_relation("A", "X", "r"),
        make_relation("B", "X", "r"),
        make_relation("Y", "Z", "r"),
        make_relation("A", "Y", "r"),
    ];
    let found = vec!["A".to_string(), "B".to_string()];
    let strict = engine.filter_relations_smart(&rels, &found, false, false);
    assert_eq!(names_of(&strict), vec![("A".to_string(), "B".to_string())]);
    let all = engine.filter_relations_smart(&rels, &found, true, false);
    assert_eq!(all.len(), 4);
    // X is linked twice to the found names, Y once.
    let related = engine.filter_relations_smart(&rels, &found, false, true);
    assert_eq!(
        names_of(&related),
        vec![
            ("A".to_string(), "B".to_string()),
            ("A".to_string(), "X".to_string()),
            ("B".to_string(), "X".to_string()),
        ]
    );
}

#[test]
fn result_graph_keeps_relations_among_found() {
    let engine = SearchEngine::new();
    let graph = KnowledgeGraph {
        entities: vec![make_entity("A", "t", &[]), make_entity("B", "t", &[]), make_entity("C", "t", &[])],
        relations: vec![make_relation("A", "B", "r"), make_relation("A", "C", "r")],
    };
    let found = vec![make_entity("A", "t", &[]), make_entity("B", "t", &[])];
    let r = engine.result_graph(&graph, found);
    assert_eq!(r.entities.len(), 2);
    assert_eq!(r.relations.len(), 1);
    assert_eq!(r.relations[0].to, "B");
}
