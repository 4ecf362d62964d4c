use mcp_memory::graph::{Entity, GraphError, KnowledgeGraph, Relation};
use mcp_memory::search::{text_relevance_features, RelevanceFeatures, SearchEngine};

fn entity(name: &str, entity_type: &str, observations: &[&str]) -> Entity {
    Entity {
        name: name.to_string(),
        entity_type: entity_type.to_string(),
        observations: observations.iter().map(|o| o.to_string()).collect(),
    }
}

fn relation(from: &str, to: &str, relation_type: &str) -> Relation {
    Relation {
        from: from.to_string(),
        to: to.to_string(),
        relation_type: relation_type.to_string(),
    }
}

fn score(f: &RelevanceFeatures) -> f32 {
    let mut s = 0.0f32;
    if f.exact_name {
        s += 4.0;
    } else if f.name_match {
        s += 2.0;
    }
    if f.type_match {
        s += 1.5;
    }
    s += f.observation_matches as f32;
    s += 0.5 * (f.observation_count as f32).ln_1p();
    s += 0.3 * (f.connection_count as f32).ln_1p();
    s
}

fn search(graph: &KnowledgeGraph, query: &str, limit: Option<usize>) -> KnowledgeGraph {
    let engine = SearchEngine::new();
    let scored: Vec<(Entity, u32)> = graph
        .entities
        .iter()
        .map(|e| {
            let f = text_relevance_features(e, query, &graph.relations);
            let key = if f.is_relevant() { score(&f).to_bits() } else { 0 };
            (e.clone(), key)
        })
        .collect();
    let found = engine.enhanced_text_search(&scored, limit);
    engine.result_graph(graph, found)
}

fn name(s: &str) -> String {
    s.to_string()
}

#[test]
fn test_create_and_read_entities() {
    let mut manager = KnowledgeGraph::new();
    let entities = vec![entity("Alice", "Person", &["Likes coffee"])];

    let created = manager.create_entities(entities.clone());
    assert_eq!(created.len(), 1);
    assert_eq!(created[0].name, "Alice");

    let graph = manager.read_graph();
    assert_eq!(graph.entities.len(), 1);
    let alice = graph.get_entity(&name("Alice")).unwrap();
    assert_eq!(alice.name, "Alice");
}

#[test]
fn test_boxed_manager() {
    let mut manager = Box::new(KnowledgeGraph::new());
    let entities = vec![entity("BoxedEntity", "Test", &["Created with Box"])];

    let created = manager.create_entities(entities);
    assert_eq!(created.len(), 1);
    assert_eq!(created[0].name, "BoxedEntity");
}

#[test]
fn test_large_graph_in_heap() {
    let mut manager = KnowledgeGraph::new();
    let mut large_entities = Vec::new();
    for i in 0..10000 {
        large_entities.push(Entity {
            name: format!("LargeEntity_{i}"),
            entity_type: "TestLarge".to_string(),
            observations: vec![
                format!("Observation 1 for {}", i),
                format!("Observation 2 for {}", i),
                format!("Large data set with ID {}", i),
            ],
        });
    }

    let created = manager.create_entities(large_entities);
    assert_eq!(created.len(), 10000);

    let (entity_count, relation_count) = manager.get_stats();
    assert_eq!(entity_count, 10000);
    assert_eq!(relation_count, 0);

    let search_result = search(&manager, "LargeEntity_9999", None);
    assert!(!search_result.entities.is_empty(), "Should find at least LargeEntity_9999");
    assert!(search_result.contains_entity(&name("LargeEntity_9999")), "Should find LargeEntity_9999");
    let large_entity = search_result.get_entity(&name("LargeEntity_9999")).unwrap();
    assert_eq!(large_entity.name, "LargeEntity_9999");

    let full_graph = manager.read_graph();
    assert_eq!(full_graph.entities.len(), 10000);
}

#[test]
fn test_arc_manager() {
    let mut manager = KnowledgeGraph::new();
    let entities = vec![entity("ArcEntity", "Test", &["Created with Arc"])];

    let created = manager.create_entities(entities);
    assert_eq!(created.len(), 1);

    let shared = std::sync::Arc::new(manager);
    let shared_clone = shared.clone();
    assert_eq!(std::sync::Arc::strong_count(&shared), 2);

    let graph = shared_clone.read_graph();
    assert_eq!(graph.entities.len(), 1);
    let arc_entity = graph.get_entity(&name("ArcEntity")).unwrap();
    assert_eq!(arc_entity.name, "ArcEntity");
}

#[test]
fn test_create_relations() {
    let mut manager = KnowledgeGraph::new();

    let initial_graph = manager.read_graph();
    assert_eq!(initial_graph.relations.len(), 0);

    manager.create_entities(vec![entity("Alice", "Person", &[]), entity("Bob", "Person", &[])]);

    let graph_after_entities = manager.read_graph();
    assert_eq!(graph_after_entities.entities.len(), 2);
    assert_eq!(graph_after_entities.relations.len(), 0);

    let relations = vec![relation("Alice", "Bob", "knows")];
    let created_relations = manager.create_relations(relations.clone());
    assert_eq!(created_relations.len(), 1);

    let graph = manager.read_graph();
    assert_eq!(graph.relations.len(), 1);
    assert_eq!(graph.relations[0].from, "Alice");
    assert_eq!(graph.relations[0].to, "Bob");
}

#[test]
fn test_search_nodes() {
    let mut manager = KnowledgeGraph::new();
    manager.create_entities(vec![
        entity("Alice", "Person", &["Likes coffee"]),
        entity("Bob", "Person", &["Likes tea"]),
    ]);

    let search_result = search(&manager, "coffee", None);
    assert!(!search_result.entities.is_empty(), "Should find at least Alice");
    assert!(search_result.contains_entity(&name("Alice")), "Should find Alice who likes coffee");
    let alice = search_result.get_entity(&name("Alice")).unwrap();
    assert_eq!(alice.name, "Alice");
}

#[test]
fn test_entity_not_found_error() {
    let mut manager = KnowledgeGraph::new();
    let result = manager.add_observations(vec![(
        "NonExistent".to_string(),
        vec!["Some observation".to_string()],
    )]);

    assert!(result.is_err());
    let error_message = result.unwrap_err().message();
    assert!(error_message.contains("NonExistent"));
    assert!(error_message.contains("not found"));
}

#[test]
fn test_stats_and_entity_exists() {
    let mut manager = KnowledgeGraph::new();

    let (initial_entities, initial_relations) = manager.get_stats();
    assert_eq!(initial_entities, 0);
    assert_eq!(initial_relations, 0);

    manager.create_entities(vec![entity("TestEntity1", "Test", &[]), entity("TestEntity2", "Test", &[])]);

    let (updated_entities, updated_relations) = manager.get_stats();
    assert_eq!(updated_entities, 2);
    assert_eq!(updated_relations, 0);
    assert!(manager.contains_entity(&name("TestEntity1")));
    assert!(!manager.contains_entity(&name("TestEntity3")));
}

#[test]
fn create_entities_twice_is_idempotent() {
    let mut g = KnowledgeGraph::new();
    let first = g.create_entities(vec![entity("A", "T", &["x"])]);
    assert_eq!(first.len(), 1);
    let second = g.create_entities(vec![entity("A", "Other", &["y"])]);
    assert!(second.is_empty());
    assert_eq!(g.entities.len(), 1);
    assert_eq!(g.entities[0].entity_type, "T");
}

#[test]
fn create_entities_skips_repeated_name_in_batch() {
    let mut g = KnowledgeGraph::new();
    let created = g.create_entities(vec![entity("A", "T1", &[]), entity("B", "T", &[]), entity("A", "T2", &[])]);
    assert_eq!(created.len(), 2);
    assert_eq!(created[0].name, "A");
    assert_eq!(created[1].name, "B");
    assert_eq!(g.get_entity(&name("A")).unwrap().entity_type, "T1");
}

#[test]
fn relation_triple_is_identity() {
    let mut g = KnowledgeGraph::new();
    assert_eq!(g.create_relations(vec![relation("A", "B", "knows")]).len(), 1);
    assert!(g.create_relations(vec![relation("A", "B", "knows")]).is_empty());
    assert_eq!(g.relations.len(), 1);
    let likes = g.create_relations(vec![relation("A", "B", "likes")]);
    assert_eq!(likes.len(), 1);
    assert_eq!(g.relations.len(), 2);
    assert_eq!(g.relations[1].relation_type, "likes");
}

#[test]
fn delete_entities_cascades_to_relations() {
    let mut g = KnowledgeGraph::new();
    g.create_entities(vec![entity("A", "T", &[]), entity("B", "T", &[])]);
    g.create_relations(vec![relation("A", "B", "knows"), relation("X", "Y", "other")]);
    g.delete_entities(vec![name("B")]);
    assert_eq!(g.entities.len(), 1);
    assert_eq!(g.entities[0].name, "A");
    assert_eq!(g.relations.len(), 1);
    assert_eq!(g.relations[0].from, "X");
}

#[test]
fn delete_missing_entity_is_noop() {
    let mut g = KnowledgeGraph::new();
    g.create_entities(vec![entity("A", "T", &[])]);
    g.delete_entities(vec![name("Nobody")]);
    assert_eq!(g.get_stats(), (1, 0));
}

#[test]
fn add_observations_drops_duplicates() {
    let mut g = KnowledgeGraph::new();
    g.create_entities(vec![entity("E", "T", &["x"])]);
    let added = g
        .add_observations(vec![(name("E"), vec![name("x"), name("y")])])
        .ok()
        .unwrap();
    assert_eq!(added.len(), 1);
    assert_eq!(added[0].0, "E");
    assert_eq!(added[0].1, vec![name("y")]);
    assert_eq!(g.entities[0].observations, vec![name("x"), name("y")]);
}

#[test]
fn add_observations_error_leaves_graph_unchanged() {
    let mut g = KnowledgeGraph::new();
    g.create_entities(vec![entity("E", "T", &["x"])]);
    let r = g.add_observations(vec![(name("E"), vec![name("y")]), (name("Missing"), vec![name("z")])]);
    match r {
        Err(GraphError::EntityNotFound(n)) => assert_eq!(n, "Missing"),
        Ok(_) => panic!("expected an error"),
    }
    assert_eq!(g.entities[0].observations, vec![name("x")]);
}

#[test]
fn error_message_text() {
    let e = GraphError::EntityNotFound(name("Zed"));
    assert_eq!(e.message(), "Entity with name 'Zed' not found");
}

#[test]
fn delete_observations_removes_listed_and_skips_missing() {
    let mut g = KnowledgeGraph::new();
    g.create_entities(vec![entity("E", "T", &["a", "b", "c"])]);
    g.delete_observations(vec![(name("E"), vec![name("b"), name("zz")]), (name("Missing"), vec![name("a")])]);
    assert_eq!(g.entities[0].observations, vec![name("a"), name("c")]);
}

#[test]
fn delete_relations_by_triple() {
    let mut g = KnowledgeGraph::new();
    g.create_relations(vec![relation("A", "B", "knows"), relation("A", "B", "likes")]);
    g.delete_relations(vec![relation("A", "B", "knows"), relation("Q", "R", "none")]);
    assert_eq!(g.relations.len(), 1);
    assert_eq!(g.relations[0].relation_type, "likes");
}

#[test]
fn open_nodes_is_induced_subgraph() {
    let mut g = KnowledgeGraph::new();
    g.create_entities(vec![entity("A", "T", &[]), entity("B", "T", &[])]);
    g.create_relations(vec![relation("A", "B", "knows")]);
    let sub = g.open_nodes(vec![name("A")]);
    assert_eq!(sub.entities.len(), 1);
    assert_eq!(sub.entities[0].name, "A");
    assert!(sub.relations.is_empty());
    let both = g.open_nodes(vec![name("A"), name("B"), name("Ghost")]);
    assert_eq!(both.entities.len(), 2);
    assert_eq!(both.relations.len(), 1);
}

#[test]
fn open_nodes_needs_present_endpoints() {
    let mut g = KnowledgeGraph::new();
    g.create_entities(vec![entity("A", "T", &[])]);
    g.create_relations(vec![relation("A", "Ghost", "knows")]);
    let sub = g.open_nodes(vec![name("A"), name("Ghost")]);
    assert_eq!(sub.entities.len(), 1);
    assert!(sub.relations.is_empty());
}
