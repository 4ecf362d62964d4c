use vstd::prelude::*;
use vstd::string::StringExecFns;

verus! {

/// A named node of the graph, with a type label and free-text observations.
#[derive(Clone, Debug)]
pub struct Entity {
    pub name: String,
    pub entity_type: String,
    pub observations: Vec<String>,
}

/// A directed, typed edge between two entity names.
#[derive(Clone, Debug)]
pub struct Relation {
    pub from: String,
    pub to: String,
    pub relation_type: String,
}

/// The graph: entities (names unique, insertion order kept) and relations
/// (triples unique, insertion order kept).
#[derive(Clone, Debug)]
pub struct KnowledgeGraph {
    pub entities: Vec<Entity>,
    pub relations: Vec<Relation>,
}

/// The error of a graph operation.
#[derive(Clone, Debug)]
pub enum GraphError {
    /// `add_observations` named an entity that the graph does not hold.
    EntityNotFound(String),
}

impl GraphError {
    /// The error as text, naming the entity.
    pub fn message(&self) -> (r: String)
        ensures
            match self {
                GraphError::EntityNotFound(n) => r@ == "Entity with name '"@ + n@ + "' not found"@,
            },
    {
        match self {
            GraphError::EntityNotFound(n) => {
                let mut r = String::from_str("Entity with name '");
                r.append(n.as_str());
                r.append("' not found");
                r
            },
        }
    }
}

pub struct EntityView {
    pub name: Seq<char>,
    pub entity_type: Seq<char>,
    pub observations: Seq<Seq<char>>,
}

pub struct RelationView {
    pub from: Seq<char>,
    pub to: Seq<char>,
    pub relation_type: Seq<char>,
}

pub struct GraphView {
    pub entities: Seq<EntityView>,
    pub relations: Seq<RelationView>,
}

pub open spec fn strings_view(v: Seq<String>) -> Seq<Seq<char>> {
    v.map_values(|s: String| s@)
}

pub open spec fn entity_views(v: Seq<Entity>) -> Seq<EntityView> {
    v.map_values(|e: Entity| e@)
}

pub open spec fn relation_views(v: Seq<Relation>) -> Seq<RelationView> {
    v.map_values(|r: Relation| r@)
}

impl View for Entity {
    type V = EntityView;

    open spec fn view(&self) -> EntityView {
        EntityView {
            name: self.name@,
            entity_type: self.entity_type@,
            observations: strings_view(self.observations@),
        }
    }
}

impl View for Relation {
    type V = RelationView;

    open spec fn view(&self) -> RelationView {
        RelationView { from: self.from@, to: self.to@, relation_type: self.relation_type@ }
    }
}

impl View for KnowledgeGraph {
    type V = GraphView;

    open spec fn view(&self) -> GraphView {
        GraphView { entities: entity_views(self.entities@), relations: relation_views(self.relations@) }
    }
}

/// Some entity of `es` is named `n`.
pub open spec fn has_name(es: Seq<EntityView>, n: Seq<char>) -> bool {
    exists|k: int| 0 <= k < es.len() && (#[trigger] es[k]).name == n
}

/// `rs` holds the triple `r`.
pub open spec fn has_relation(rs: Seq<RelationView>, r: RelationView) -> bool {
    exists|k: int| 0 <= k < rs.len() && #[trigger] rs[k] == r
}

pub open spec fn names_unique(es: Seq<EntityView>) -> bool {
    forall|i: int, j: int| 0 <= i < j < es.len() ==> (#[trigger] es[i]).name != (#[trigger] es[j]).name
}

pub open spec fn triples_unique(rs: Seq<RelationView>) -> bool {
    forall|i: int, j: int| 0 <= i < j < rs.len() ==> #[trigger] rs[i] != #[trigger] rs[j]
}

impl GraphView {
    /// Entity names are unique and no relation triple occurs twice.
    pub open spec fn wf(self) -> bool {
        names_unique(self.entities) && triples_unique(self.relations)
    }
}

/// Inserts, one after the other, each entity whose name is not yet present;
/// yields the new entity list and the entities that were inserted.
pub open spec fn create_entities_spec(es: Seq<EntityView>, input: Seq<EntityView>) -> (Seq<EntityView>, Seq<EntityView>)
    decreases input.len(),
{
    if input.len() == 0 {
        (es, Seq::empty())
    } else {
        let prev = create_entities_spec(es, input.drop_last());
        let x = input.last();
        if has_name(prev.0, x.name) {
            prev
        } else {
            (prev.0.push(x), prev.1.push(x))
        }
    }
}

/// Appends, one after the other, each relation whose triple is not yet
/// present; yields the new relation list and the relations that were appended.
pub open spec fn create_relations_spec(rs: Seq<RelationView>, input: Seq<RelationView>) -> (Seq<RelationView>, Seq<RelationView>)
    decreases input.len(),
{
    if input.len() == 0 {
        (rs, Seq::empty())
    } else {
        let prev = create_relations_spec(rs, input.drop_last());
        let x = input.last();
        if has_relation(prev.0, x) {
            prev
        } else {
            (prev.0.push(x), prev.1.push(x))
        }
    }
}

/// The position of the entity named `n` in `es` (meaningful where one is).
pub open spec fn index_of_name(es: Seq<EntityView>, n: Seq<char>) -> int {
    choose|k: int| 0 <= k < es.len() && (#[trigger] es[k]).name == n
}

/// Appends, one after the other, each string of `contents` not yet in `obs`;
/// yields the new list and the strings that were appended.
pub open spec fn append_new_spec(obs: Seq<Seq<char>>, contents: Seq<Seq<char>>) -> (Seq<Seq<char>>, Seq<Seq<char>>)
    decreases contents.len(),
{
    if contents.len() == 0 {
        (obs, Seq::empty())
    } else {
        let prev = append_new_spec(obs, contents.drop_last());
        let x = contents.last();
        if prev.0.contains(x) {
            prev
        } else {
            (prev.0.push(x), prev.1.push(x))
        }
    }
}

pub open spec fn with_observations(e: EntityView, obs: Seq<Seq<char>>) -> EntityView {
    EntityView { name: e.name, entity_type: e.entity_type, observations: obs }
}

/// Applies each `(name, contents)` request in turn to the entity of that name;
/// yields the new entity list and, per request, the strings appended.
pub open spec fn add_observations_spec(es: Seq<EntityView>, reqs: Seq<(Seq<char>, Seq<Seq<char>>)>) -> (Seq<EntityView>, Seq<(Seq<char>, Seq<Seq<char>>)>)
    decreases reqs.len(),
{
    if reqs.len() == 0 {
        (es, Seq::empty())
    } else {
        let prev = add_observations_spec(es, reqs.drop_last());
        let req = reqs.last();
        let k = index_of_name(prev.0, req.0);
        let upd = append_new_spec(prev.0[k].observations, req.1);
        (prev.0.update(k, with_observations(prev.0[k], upd.0)), prev.1.push((req.0, upd.1)))
    }
}

/// Removes, for each `(name, observations)` request in turn, the listed
/// strings from the entity of that name; a name not in the graph is skipped.
pub open spec fn delete_observations_spec(es: Seq<EntityView>, dels: Seq<(Seq<char>, Seq<Seq<char>>)>) -> Seq<EntityView>
    decreases dels.len(),
{
    if dels.len() == 0 {
        es
    } else {
        let prev = delete_observations_spec(es, dels.drop_last());
        let del = dels.last();
        if has_name(prev, del.0) {
            let k = index_of_name(prev, del.0);
            prev.update(k, with_observations(prev[k], without_listed(prev[k].observations, del.1)))
        } else {
            prev
        }
    }
}

/// The strings of `obs` that are not listed, in their order.
pub open spec fn without_listed(obs: Seq<Seq<char>>, listed: Seq<Seq<char>>) -> Seq<Seq<char>> {
    obs.filter(|o: Seq<char>| !listed.contains(o))
}

pub open spec fn pairs_view(v: Seq<(String, Vec<String>)>) -> Seq<(Seq<char>, Seq<Seq<char>>)> {
    v.map_values(|p: (String, Vec<String>)| (p.0@, strings_view(p.1@)))
}

/// The entities whose name is listed.
pub open spec fn named_entities(es: Seq<EntityView>, names: Seq<Seq<char>>) -> Seq<EntityView> {
    es.filter(|e: EntityView| names.contains(e.name))
}

/// The entities whose name is not listed.
pub open spec fn unnamed_entities(es: Seq<EntityView>, names: Seq<Seq<char>>) -> Seq<EntityView> {
    es.filter(|e: EntityView| !names.contains(e.name))
}

/// The relations with neither endpoint listed.
pub open spec fn relations_avoiding(rs: Seq<RelationView>, names: Seq<Seq<char>>) -> Seq<RelationView> {
    rs.filter(|r: RelationView| !names.contains(r.from) && !names.contains(r.to))
}

/// The relations whose triple is not listed.
pub open spec fn relations_not_listed(rs: Seq<RelationView>, listed: Seq<RelationView>) -> Seq<RelationView> {
    rs.filter(|r: RelationView| !has_relation(listed, r))
}

/// The relations with both endpoints named by entities of `es`.
pub open spec fn relations_within(rs: Seq<RelationView>, es: Seq<EntityView>) -> Seq<RelationView> {
    rs.filter(|r: RelationView| has_name(es, r.from) && has_name(es, r.to))
}

/// The subgraph induced by the listed names: the listed entities, and the
/// relations whose two endpoints are both among them.
pub open spec fn open_nodes_spec(g: GraphView, names: Seq<Seq<char>>) -> GraphView {
    GraphView {
        entities: named_entities(g.entities, names),
        relations: relations_within(g.relations, named_entities(g.entities, names)),
    }
}

/// One step of a filter over a prefix.
pub proof fn lemma_filter_take_step<A>(s: Seq<A>, p: spec_fn(A) -> bool, i: int)
    requires
        0 <= i < s.len(),
    ensures
        s.take(i + 1).filter(p) == (if p(s[i]) { s.take(i).filter(p).push(s[i]) } else { s.take(i).filter(p) }),
{
    reveal(Seq::filter);
    assert(s.take(i + 1).drop_last() =~= s.take(i));
}

/// Keeping some entities keeps their names unique.
pub proof fn lemma_filter_names_unique(es: Seq<EntityView>, p: spec_fn(EntityView) -> bool)
    requires
        names_unique(es),
    ensures
        names_unique(es.filter(p)),
        forall|x: EntityView| #[trigger] es.filter(p).contains(x) ==> es.contains(x),
    decreases es.len(),
{
    reveal(Seq::filter);
    if es.len() > 0 {
        let rest = es.drop_last();
        assert(names_unique(rest));
        lemma_filter_names_unique(rest, p);
        let f = rest.filter(p);
        if p(es.last()) {
            assert forall|j: int| 0 <= j < f.len() implies f[j].name != es.last().name by {
                assert(f.contains(f[j]));
                assert(rest.contains(f[j]));
                let k = choose|k: int| 0 <= k < rest.len() && rest[k] == f[j];
                assert(es[k] == f[j]);
            }
            assert forall|x: EntityView| #[trigger] f.push(es.last()).contains(x) implies es.contains(x) by {
                let j = choose|j: int| 0 <= j < f.push(es.last()).len() && f.push(es.last())[j] == x;
                if j < f.len() {
                    assert(f.contains(x));
                    let k = choose|k: int| 0 <= k < rest.len() && rest[k] == x;
                    assert(es[k] == x);
                } else {
                    assert(es[es.len() - 1] == x);
                }
            }
        } else {
            assert forall|x: EntityView| #[trigger] f.contains(x) implies es.contains(x) by {
                let k = choose|k: int| 0 <= k < rest.len() && rest[k] == x;
                assert(es[k] == x);
            }
        }
    }
}

/// Keeping some relations keeps their triples unique.
pub proof fn lemma_filter_triples_unique(rs: Seq<RelationView>, p: spec_fn(RelationView) -> bool)
    requires
        triples_unique(rs),
    ensures
        triples_unique(rs.filter(p)),
        forall|x: RelationView| #[trigger] rs.filter(p).contains(x) ==> rs.contains(x),
    decreases rs.len(),
{
    reveal(Seq::filter);
    if rs.len() > 0 {
        let rest = rs.drop_last();
        assert(triples_unique(rest));
        lemma_filter_triples_unique(rest, p);
        let f = rest.filter(p);
        if p(rs.last()) {
            assert forall|j: int| 0 <= j < f.len() implies f[j] != rs.last() by {
                assert(f.contains(f[j]));
                let k = choose|k: int| 0 <= k < rest.len() && rest[k] == f[j];
                assert(rs[k] == f[j]);
            }
            assert forall|x: RelationView| #[trigger] f.push(rs.last()).contains(x) implies rs.contains(x) by {
                let j = choose|j: int| 0 <= j < f.push(rs.last()).len() && f.push(rs.last())[j] == x;
                if j < f.len() {
                    assert(f.contains(x));
                    let k = choose|k: int| 0 <= k < rest.len() && rest[k] == x;
                    assert(rs[k] == x);
                } else {
                    assert(rs[rs.len() - 1] == x);
                }
            }
        } else {
            assert forall|x: RelationView| #[trigger] f.contains(x) implies rs.contains(x) by {
                let k = choose|k: int| 0 <= k < rest.len() && rest[k] == x;
                assert(rs[k] == x);
            }
        }
    }
}

pub fn copy_strings(v: &Vec<String>) -> (r: Vec<String>)
    ensures
        strings_view(r@) == strings_view(v@),
{
    let mut r: Vec<String> = Vec::new();
    let mut i: usize = 0;
    while i < v.len()
        invariant
            i <= v.len(),
            strings_view(r@) == strings_view(v@).take(i as int),
        decreases v.len() - i,
    {
        let ghost before = r@;
        let c = v[i].clone();
        r.push(c);
        proof {
            assert(r@ == before.push(c));
            assert(strings_view(r@) =~= strings_view(before).push(c@));
            assert(strings_view(v@).take(i + 1) =~= strings_view(v@).take(i as int).push(c@));
        }
        i += 1;
    }
    proof {
        assert(strings_view(v@).take(v.len() as int) =~= strings_view(v@));
    }
    r
}

/// Appends each string of `contents` that `obs` does not hold yet (one that
/// came earlier in `contents` included), and returns those strings.
pub fn append_new(obs: &mut Vec<String>, contents: &Vec<String>) -> (added: Vec<String>)
    ensures
        (strings_view(final(obs)@), strings_view(added@)) == append_new_spec(strings_view(old(obs)@), strings_view(contents@)),
{
    let ghost o0 = strings_view(obs@);
    let ghost cv = strings_view(contents@);
    let mut added: Vec<String> = Vec::new();
    let mut i: usize = 0;
    while i < contents.len()
        invariant
            i <= contents.len(),
            cv == strings_view(contents@),
            (strings_view(obs@), strings_view(added@)) == append_new_spec(o0, cv.take(i as int)),
        decreases contents.len() - i,
    {
        let c = &contents[i];
        proof {
            assert(cv.take(i + 1).drop_last() =~= cv.take(i as int));
            assert(cv.take(i + 1).last() == c@);
        }
        if !contains_string(obs, c) {
            let ghost b1 = obs@;
            let ghost b2 = added@;
            let c1 = c.clone();
            let c2 = c.clone();
            obs.push(c1);
            added.push(c2);
            proof {
                assert(obs@ == b1.push(c1));
                assert(added@ == b2.push(c2));
                assert(strings_view(obs@) =~= strings_view(b1).push(c@));
                assert(strings_view(added@) =~= strings_view(b2).push(c@));
            }
        }
        i += 1;
    }
    proof {
        assert(cv.take(contents.len() as int) =~= cv);
    }
    added
}

/// The strings of `obs` that `listed` does not hold, in their order.
pub fn remove_listed(obs: &Vec<String>, listed: &Vec<String>) -> (r: Vec<String>)
    ensures
        strings_view(r@) == without_listed(strings_view(obs@), strings_view(listed@)),
{
    let ghost ov = strings_view(obs@);
    let ghost lv = strings_view(listed@);
    let ghost p = |o: Seq<char>| !lv.contains(o);
    let mut r: Vec<String> = Vec::new();
    let mut i: usize = 0;
    while i < obs.len()
        invariant
            i <= obs.len(),
            ov == strings_view(obs@),
            lv == strings_view(listed@),
            p == (|o: Seq<char>| !lv.contains(o)),
            strings_view(r@) == ov.take(i as int).filter(p),
        decreases obs.len() - i,
    {
        let o = &obs[i];
        let keep = !contains_string(listed, o);
        proof {
            assert(ov[i as int] == o@);
            lemma_filter_take_step(ov, p, i as int);
        }
        if keep {
            let ghost before = r@;
            let c = o.clone();
            r.push(c);
            proof {
                assert(r@ == before.push(c));
                assert(strings_view(r@) =~= strings_view(before).push(c@));
            }
        }
        i += 1;
    }
    proof {
        assert(ov.take(obs.len() as int) =~= ov);
    }
    r
}

/// Whether `s` occurs in `v`.
pub fn contains_string(v: &Vec<String>, s: &String) -> (r: bool)
    ensures
        r == strings_view(v@).contains(s@),
{
    let mut i: usize = 0;
    while i < v.len()
        invariant
            i <= v.len(),
            forall|k: int| 0 <= k < i ==> v@[k]@ != s@,
        decreases v.len() - i,
    {
        if v[i] == *s {
            proof {
                assert(strings_view(v@)[i as int] == s@);
            }
            return true;
        }
        i += 1;
    }
    proof {
        if strings_view(v@).contains(s@) {
            let k = choose|k: int| 0 <= k < strings_view(v@).len() && strings_view(v@)[k] == s@;
            assert(v@[k]@ == s@);
        }
    }
    false
}

impl Entity {
    /// A copy of the entity, field for field.
    pub fn deep_clone(&self) -> (r: Entity)
        ensures
            r@ == self@,
    {
        Entity {
            name: self.name.clone(),
            entity_type: self.entity_type.clone(),
            observations: copy_strings(&self.observations),
        }
    }
}

impl Relation {
    /// A copy of the relation, field for field.
    pub fn deep_clone(&self) -> (r: Relation)
        ensures
            r@ == self@,
    {
        Relation { from: self.from.clone(), to: self.to.clone(), relation_type: self.relation_type.clone() }
    }

    /// Whether the two relations have the same triple.
    pub fn same_triple(&self, other: &Relation) -> (r: bool)
        ensures
            r == (self@ == other@),
    {
        self.from == other.from && self.to == other.to && self.relation_type == other.relation_type
    }
}

/// The position of the entity named `name`, if any.
pub fn find_entity(es: &Vec<Entity>, name: &String) -> (r: Option<usize>)
    ensures
        match r {
            Some(k) => k < es@.len() && es@[k as int]@.name == name@,
            None => !has_name(entity_views(es@), name@),
        },
{
    let mut i: usize = 0;
    while i < es.len()
        invariant
            i <= es.len(),
            forall|k: int| 0 <= k < i ==> es@[k].name@ != name@,
        decreases es.len() - i,
    {
        if es[i].name == *name {
            return Some(i);
        }
        i += 1;
    }
    proof {
        if has_name(entity_views(es@), name@) {
            let k = choose|k: int| 0 <= k < entity_views(es@).len() && (#[trigger] entity_views(es@)[k]).name == name@;
            assert(es@[k]@.name == name@);
        }
    }
    None
}

/// Whether `rs` holds the triple of `r`.
pub fn find_relation(rs: &Vec<Relation>, r: &Relation) -> (found: bool)
    ensures
        found == has_relation(relation_views(rs@), r@),
{
    let mut i: usize = 0;
    while i < rs.len()
        invariant
            i <= rs.len(),
            forall|k: int| 0 <= k < i ==> rs@[k]@ != r@,
        decreases rs.len() - i,
    {
        if rs[i].same_triple(r) {
            proof {
                assert(relation_views(rs@)[i as int] == r@);
            }
            return true;
        }
        i += 1;
    }
    proof {
        if has_relation(relation_views(rs@), r@) {
            let k = choose|k: int| 0 <= k < relation_views(rs@).len() && #[trigger] relation_views(rs@)[k] == r@;
            assert(rs@[k]@ == r@);
        }
    }
    false
}

impl KnowledgeGraph {
    /// The empty graph.
    pub fn new() -> (g: KnowledgeGraph)
        ensures
            g@.entities.len() == 0,
            g@.relations.len() == 0,
            g@.wf(),
    {
        KnowledgeGraph { entities: Vec::new(), relations: Vec::new() }
    }

    /// Inserts each entity whose name is not yet in the graph (an entity of
    /// the batch whose name came earlier in the batch is skipped too), and
    /// returns the entities actually inserted.
    pub fn create_entities(&mut self, entities: Vec<Entity>) -> (created: Vec<Entity>)
        requires
            old(self)@.wf(),
        ensures
            final(self)@.wf(),
            final(self)@.entities == create_entities_spec(old(self)@.entities, entity_views(entities@)).0,
            entity_views(created@) == create_entities_spec(old(self)@.entities, entity_views(entities@)).1,
            final(self)@.relations == old(self)@.relations,
    {
        let ghost g0 = self@;
        let ghost input = entity_views(entities@);
        let mut created: Vec<Entity> = Vec::new();
        let mut i: usize = 0;
        while i < entities.len()
            invariant
                i <= entities.len(),
                input == entity_views(entities@),
                self@.wf(),
                self@.relations == g0.relations,
                (self@.entities, entity_views(created@)) == create_entities_spec(g0.entities, input.take(i as int)),
            decreases entities.len() - i,
        {
            let e = &entities[i];
            proof {
                assert(input.take(i + 1).drop_last() =~= input.take(i as int));
                assert(input.take(i + 1).last() == e@);
            }
            match find_entity(&self.entities, &e.name) {
                Some(k) => {
                    proof {
                        assert(self@.entities[k as int].name == e@.name);
                    }
                },
                None => {
                    let ghost before = self@.entities;
                    self.entities.push(e.deep_clone());
                    created.push(e.deep_clone());
                    proof {
                        assert(self@.entities =~= before.push(e@));
                        assert(entity_views(created@) =~= entity_views(created@.drop_last()).push(e@));
                    }
                },
            }
            i += 1;
        }
        proof {
            assert(input.take(entities.len() as int) =~= input);
        }
        created
    }

    /// Appends each relation whose triple is not yet in the graph (one that
    /// came earlier in the batch included), and returns the relations actually
    /// appended. Endpoints are not checked against the entities.
    pub fn create_relations(&mut self, relations: Vec<Relation>) -> (created: Vec<Relation>)
        requires
            old(self)@.wf(),
        ensures
            final(self)@.wf(),
            final(self)@.relations == create_relations_spec(old(self)@.relations, relation_views(relations@)).0,
            relation_views(created@) == create_relations_spec(old(self)@.relations, relation_views(relations@)).1,
            final(self)@.entities == old(self)@.entities,
    {
        let ghost g0 = self@;
        let ghost input = relation_views(relations@);
        let mut created: Vec<Relation> = Vec::new();
        let mut i: usize = 0;
        while i < relations.len()
            invariant
                i <= relations.len(),
                input == relation_views(relations@),
                self@.wf(),
                self@.entities == g0.entities,
                (self@.relations, relation_views(created@)) == create_relations_spec(g0.relations, input.take(i as int)),
            decreases relations.len() - i,
        {
            let r = &relations[i];
            proof {
                assert(input.take(i + 1).drop_last() =~= input.take(i as int));
                assert(input.take(i + 1).last() == r@);
            }
            if !find_relation(&self.relations, r) {
                let ghost before = self@.relations;
                self.relations.push(r.deep_clone());
                created.push(r.deep_clone());
                proof {
                    assert(self@.relations =~= before.push(r@));
                    assert(relation_views(created@) =~= relation_views(created@.drop_last()).push(r@));
                }
            }
            i += 1;
        }
        proof {
            assert(input.take(relations.len() as int) =~= input);
        }
        created
    }

    /// Removes the entities with a listed name, and every relation with a
    /// listed name at either end.
    #[verifier::loop_isolation(false)]
    pub fn delete_entities(&mut self, entity_names: Vec<String>)
        requires
            old(self)@.wf(),
        ensures
            final(self)@.wf(),
            final(self)@.entities == unnamed_entities(old(self)@.entities, strings_view(entity_names@)),
            final(self)@.relations == relations_avoiding(old(self)@.relations, strings_view(entity_names@)),
    {
        let ghost g0 = self@;
        let ghost names = strings_view(entity_names@);
        let ghost pe = |e: EntityView| !names.contains(e.name);
        let ghost pr = |r: RelationView| !names.contains(r.from) && !names.contains(r.to);
        let mut kept: Vec<Entity> = Vec::new();
        let mut i: usize = 0;
        while i < self.entities.len()
            invariant
                i <= self.entities.len(),
                self@ == g0,
                names == strings_view(entity_names@),
                entity_views(kept@) == g0.entities.take(i as int).filter(pe),
            decreases self.entities.len() - i,
        {
            let e = &self.entities[i];
            let keep = !contains_string(&entity_names, &e.name);
            proof {
                assert(g0.entities[i as int] == e@);
                assert(keep == pe(e@));
                lemma_filter_take_step(g0.entities, pe, i as int);
            }
            if keep {
                let ghost before = kept@;
                let c = e.deep_clone();
                kept.push(c);
                proof {
                    assert(kept@ == before.push(c));
                    assert(entity_views(kept@) =~= entity_views(before).push(c@));
                }
            }
            i += 1;
        }
        let mut kept_rel: Vec<Relation> = Vec::new();
        let mut j: usize = 0;
        while j < self.relations.len()
            invariant
                j <= self.relations.len(),
                self@ == g0,
                names == strings_view(entity_names@),
                relation_views(kept_rel@) == g0.relations.take(j as int).filter(pr),
            decreases self.relations.len() - j,
        {
            let r = &self.relations[j];
            let keep = !contains_string(&entity_names, &r.from) && !contains_string(&entity_names, &r.to);
            proof {
                assert(g0.relations[j as int] == r@);
                assert(keep == pr(r@));
                lemma_filter_take_step(g0.relations, pr, j as int);
            }
            if keep {
                let ghost before = kept_rel@;
                let c = r.deep_clone();
                kept_rel.push(c);
                proof {
                    assert(kept_rel@ == before.push(c));
                    assert(relation_views(kept_rel@) =~= relation_views(before).push(c@));
                }
            }
            j += 1;
        }
        proof {
            assert(g0.entities.take(g0.entities.len() as int) =~= g0.entities);
            assert(g0.relations.take(g0.relations.len() as int) =~= g0.relations);
            lemma_filter_names_unique(g0.entities, pe);
            lemma_filter_triples_unique(g0.relations, pr);
        }
        self.entities = kept;
        self.relations = kept_rel;
    }

    /// Removes the relations whose triple is listed.
    #[verifier::loop_isolation(false)]
    pub fn delete_relations(&mut self, relations: Vec<Relation>)
        requires
            old(self)@.wf(),
        ensures
            final(self)@.wf(),
            final(self)@.relations == relations_not_listed(old(self)@.relations, relation_views(relations@)),
            final(self)@.entities == old(self)@.entities,
    {
        let ghost g0 = self@;
        let ghost listed = relation_views(relations@);
        let ghost pr = |r: RelationView| !has_relation(listed, r);
        let mut kept_rel: Vec<Relation> = Vec::new();
        let mut j: usize = 0;
        while j < self.relations.len()
            invariant
                j <= self.relations.len(),
                self@ == g0,
                listed == relation_views(relations@),
                relation_views(kept_rel@) == g0.relations.take(j as int).filter(pr),
            decreases self.relations.len() - j,
        {
            let r = &self.relations[j];
            let keep = !find_relation(&relations, r);
            proof {
                assert(g0.relations[j as int] == r@);
                assert(keep == pr(r@));
                lemma_filter_take_step(g0.relations, pr, j as int);
            }
            if keep {
                let ghost before = kept_rel@;
                let c = r.deep_clone();
                kept_rel.push(c);
                proof {
                    assert(kept_rel@ == before.push(c));
                    assert(relation_views(kept_rel@) =~= relation_views(before).push(c@));
                }
            }
            j += 1;
        }
        proof {
            assert(g0.relations.take(g0.relations.len() as int) =~= g0.relations);
            lemma_filter_triples_unique(g0.relations, pr);
        }
        self.relations = kept_rel;
    }

    /// The subgraph induced by the listed names.
    #[verifier::loop_isolation(false)]
    pub fn open_nodes(&self, names: Vec<String>) -> (r: KnowledgeGraph)
        requires
            self@.wf(),
        ensures
            r@ == open_nodes_spec(self@, strings_view(names@)),
            r@.wf(),
    {
        let ghost g0 = self@;
        let ghost nv = strings_view(names@);
        let ghost pe = |e: EntityView| nv.contains(e.name);
        let mut kept: Vec<Entity> = Vec::new();
        let mut i: usize = 0;
        while i < self.entities.len()
            invariant
                i <= self.entities.len(),
                self@ == g0,
                nv == strings_view(names@),
                entity_views(kept@) == g0.entities.take(i as int).filter(pe),
            decreases self.entities.len() - i,
        {
            let e = &self.entities[i];
            let keep = contains_string(&names, &e.name);
            proof {
                assert(g0.entities[i as int] == e@);
                assert(keep == pe(e@));
                lemma_filter_take_step(g0.entities, pe, i as int);
            }
            if keep {
                let ghost before = kept@;
                let c = e.deep_clone();
                kept.push(c);
                proof {
                    assert(kept@ == before.push(c));
                    assert(entity_views(kept@) =~= entity_views(before).push(c@));
                }
            }
            i += 1;
        }
        proof {
            assert(g0.entities.take(g0.entities.len() as int) =~= g0.entities);
        }
        let ghost ke = entity_views(kept@);
        let ghost pr = |r: RelationView| has_name(ke, r.from) && has_name(ke, r.to);
        let mut kept_rel: Vec<Relation> = Vec::new();
        let mut j: usize = 0;
        while j < self.relations.len()
            invariant
                j <= self.relations.len(),
                self@ == g0,
                ke == entity_views(kept@),
                relation_views(kept_rel@) == g0.relations.take(j as int).filter(pr),
            decreases self.relations.len() - j,
        {
            let r = &self.relations[j];
            let fa = find_entity(&kept, &r.from);
            let fb = find_entity(&kept, &r.to);
            let keep = fa.is_some() && fb.is_some();
            proof {
                assert(g0.relations[j as int] == r@);
                if let Some(k) = fa {
                    assert(ke[k as int].name == r@.from);
                }
                if let Some(k) = fb {
                    assert(ke[k as int].name == r@.to);
                }
                assert(keep == pr(r@));
                lemma_filter_take_step(g0.relations, pr, j as int);
            }
            if keep {
                let ghost before = kept_rel@;
                let c = r.deep_clone();
                kept_rel.push(c);
                proof {
                    assert(kept_rel@ == before.push(c));
                    assert(relation_views(kept_rel@) =~= relation_views(before).push(c@));
                }
            }
            j += 1;
        }
        proof {
            assert(g0.relations.take(g0.relations.len() as int) =~= g0.relations);
            lemma_filter_names_unique(g0.entities, pe);
            lemma_filter_triples_unique(g0.relations, pr);
        }
        KnowledgeGraph { entities: kept, relations: kept_rel }
    }

    /// The number of entities and the number of relations.
    pub fn get_stats(&self) -> (r: (usize, usize))
        ensures
            r.0 == self@.entities.len(),
            r.1 == self@.relations.len(),
    {
        (self.entities.len(), self.relations.len())
    }

    /// A copy of the whole graph.
    pub fn read_graph(&self) -> (r: KnowledgeGraph)
        ensures
            r@ == self@,
    {
        let mut es: Vec<Entity> = Vec::new();
        let mut i: usize = 0;
        while i < self.entities.len()
            invariant
                i <= self.entities.len(),
                entity_views(es@) == self@.entities.take(i as int),
            decreases self.entities.len() - i,
        {
            let ghost before = es@;
            let c = self.entities[i].deep_clone();
            es.push(c);
            proof {
                assert(es@ == before.push(c));
                assert(entity_views(es@) =~= entity_views(before).push(c@));
                assert(self@.entities.take(i + 1) =~= self@.entities.take(i as int).push(c@));
            }
            i += 1;
        }
        let mut rs: Vec<Relation> = Vec::new();
        let mut j: usize = 0;
        while j < self.relations.len()
            invariant
                j <= self.relations.len(),
                relation_views(rs@) == self@.relations.take(j as int),
            decreases self.relations.len() - j,
        {
            let ghost before = rs@;
            let c = self.relations[j].deep_clone();
            rs.push(c);
            proof {
                assert(rs@ == before.push(c));
                assert(relation_views(rs@) =~= relation_views(before).push(c@));
                assert(self@.relations.take(j + 1) =~= self@.relations.take(j as int).push(c@));
            }
            j += 1;
        }
        proof {
            assert(self@.entities.take(self.entities.len() as int) =~= self@.entities);
            assert(self@.relations.take(self.relations.len() as int) =~= self@.relations);
        }
        KnowledgeGraph { entities: es, relations: rs }
    }

    /// Appends to each named entity the listed strings that it does not hold
    /// yet, and returns per request the strings appended. Where a request
    /// names an entity that the graph lacks, fails with the first such name
    /// and leaves the graph unchanged.
    #[verifier::loop_isolation(false)]
    pub fn add_observations(&mut self, observations: Vec<(String, Vec<String>)>) -> (r: Result<Vec<(String, Vec<String>)>, GraphError>)
        requires
            old(self)@.wf(),
        ensures
            final(self)@.wf(),
            final(self)@.relations == old(self)@.relations,
            match r {
                Ok(added) => {
                    &&& forall|j: int| 0 <= j < observations@.len() ==> has_name(old(self)@.entities, #[trigger] pairs_view(observations@)[j].0)
                    &&& final(self)@.entities == add_observations_spec(old(self)@.entities, pairs_view(observations@)).0
                    &&& pairs_view(added@) == add_observations_spec(old(self)@.entities, pairs_view(observations@)).1
                },
                Err(GraphError::EntityNotFound(n)) => {
                    &&& exists|j: int| 0 <= j < observations@.len() && #[trigger] pairs_view(observations@)[j].0 == n@
                        && !has_name(old(self)@.entities, n@)
                        && forall|k: int| 0 <= k < j ==> has_name(old(self)@.entities, #[trigger] pairs_view(observations@)[k].0)
                    &&& final(self)@ == old(self)@
                },
            },
    {
        let ghost g0 = self@;
        let ghost input = pairs_view(observations@);
        let mut i: usize = 0;
        while i < observations.len()
            invariant
                i <= observations.len(),
                self@ == g0,
                forall|k: int| 0 <= k < i ==> has_name(g0.entities, #[trigger] input[k].0),
            decreases observations.len() - i,
        {
            proof {
                assert(input[i as int].0 == observations@[i as int].0@);
            }
            match find_entity(&self.entities, &observations[i].0) {
                Some(k) => {
                    proof {
                        assert(g0.entities[k as int].name == input[i as int].0);
                    }
                },
                None => {
                    return Err(GraphError::EntityNotFound(observations[i].0.clone()));
                },
            }
            i += 1;
        }
        let mut results: Vec<(String, Vec<String>)> = Vec::new();
        let mut i: usize = 0;
        while i < observations.len()
            invariant
                i <= observations.len(),
                self@.relations == g0.relations,
                self@.entities.len() == g0.entities.len(),
                forall|k: int| 0 <= k < self@.entities.len() ==> (#[trigger] self@.entities[k]).name == g0.entities[k].name,
                (self@.entities, pairs_view(results@)) == add_observations_spec(g0.entities, input.take(i as int)),
            decreases observations.len() - i,
        {
            let ghost cur = self@.entities;
            proof {
                assert(input.take(i + 1).drop_last() =~= input.take(i as int));
                assert(input.take(i + 1).last() == input[i as int]);
                assert(input[i as int].0 == observations@[i as int].0@);
                assert(input[i as int].1 == strings_view(observations@[i as int].1@));
                assert forall|a: int, b: int| 0 <= a < b < cur.len() implies (#[trigger] cur[a]).name != (#[trigger] cur[b]).name by {
                    assert(g0.entities[a].name != g0.entities[b].name);
                }
                let w = choose|w: int| 0 <= w < g0.entities.len() && (#[trigger] g0.entities[w]).name == input[i as int].0;
                assert(cur[w].name == input[i as int].0);
            }
            match find_entity(&self.entities, &observations[i].0) {
                Some(k) => {
                    proof {
                        let c = index_of_name(cur, input[i as int].0);
                        assert(cur[k as int].name == input[i as int].0);
                        assert(c == k);
                    }
                    let mut e = self.entities.remove(k);
                    let ghost e0 = e@;
                    let added = append_new(&mut e.observations, &observations[i].1);
                    let ghost e1 = e@;
                    let ghost added_v = strings_view(added@);
                    self.entities.insert(k, e);
                    let ghost rb = results@;
                    let n = observations[i].0.clone();
                    results.push((n, added));
                    proof {
                        assert(results@ == rb.push((n, added)));
                        assert(pairs_view(results@) =~= pairs_view(rb).push((input[i as int].0, added_v)));
                        assert(e1 == with_observations(e0, e1.observations));
                        assert(self@.entities =~= cur.update(k as int, e1));
                    }
                },
                None => {
                    proof {
                        assert(false);
                    }
                },
            }
            i += 1;
        }
        proof {
            assert(input.take(observations.len() as int) =~= input);
        }
        Ok(results)
    }

    /// Removes from each named entity the listed strings; a request naming an
    /// entity that the graph lacks is skipped.
    pub fn delete_observations(&mut self, deletions: Vec<(String, Vec<String>)>)
        requires
            old(self)@.wf(),
        ensures
            final(self)@.wf(),
            final(self)@.relations == old(self)@.relations,
            final(self)@.entities == delete_observations_spec(old(self)@.entities, pairs_view(deletions@)),
    {
        let ghost g0 = self@;
        let ghost input = pairs_view(deletions@);
        let mut i: usize = 0;
        while i < deletions.len()
            invariant
                i <= deletions.len(),
                input == pairs_view(deletions@),
                self@.relations == g0.relations,
                self@.entities.len() == g0.entities.len(),
                forall|k: int| 0 <= k < self@.entities.len() ==> (#[trigger] self@.entities[k]).name == g0.entities[k].name,
                g0.wf(),
                self@.entities == delete_observations_spec(g0.entities, input.take(i as int)),
            decreases deletions.len() - i,
        {
            let ghost cur = self@.entities;
            proof {
                assert(input.take(i + 1).drop_last() =~= input.take(i as int));
                assert(input.take(i + 1).last() == input[i as int]);
                assert(input[i as int].0 == deletions@[i as int].0@);
                assert(input[i as int].1 == strings_view(deletions@[i as int].1@));
                assert forall|a: int, b: int| 0 <= a < b < cur.len() implies (#[trigger] cur[a]).name != (#[trigger] cur[b]).name by {
                    assert(g0.entities[a].name != g0.entities[b].name);
                }
            }
            match find_entity(&self.entities, &deletions[i].0) {
                Some(k) => {
                    proof {
                        assert(cur[k as int].name == input[i as int].0);
                        let c = index_of_name(cur, input[i as int].0);
                        assert(c == k);
                    }
                    let mut e = self.entities.remove(k);
                    let ghost e0 = e@;
                    e.observations = remove_listed(&e.observations, &deletions[i].1);
                    let ghost e1 = e@;
                    self.entities.insert(k, e);
                    proof {
                        assert(e1 == with_observations(e0, e1.observations));
                        assert(self@.entities =~= cur.update(k as int, e1));
                    }
                },
                None => {},
            }
            i += 1;
        }
        proof {
            assert(input.take(deletions.len() as int) =~= input);
            let es = self@.entities;
            assert forall|a: int, b: int| 0 <= a < b < es.len() implies (#[trigger] es[a]).name != (#[trigger] es[b]).name by {
                assert(g0.entities[a].name != g0.entities[b].name);
            }
        }
    }

    /// The entity of that name, if the graph holds one.
    pub fn get_entity(&self, name: &String) -> (r: Option<&Entity>)
        ensures
            match r {
                Some(e) => e@.name == name@ && self@.entities.contains(e@),
                None => !has_name(self@.entities, name@),
            },
    {
        match find_entity(&self.entities, name) {
            Some(k) => {
                proof {
                    assert(self@.entities[k as int] == self.entities@[k as int]@);
                }
                Some(&self.entities[k])
            },
            None => None,
        }
    }

    /// Whether the graph holds an entity of that name.
    pub fn contains_entity(&self, name: &String) -> (r: bool)
        ensures
            r == has_name(self@.entities, name@),
    {
        match find_entity(&self.entities, name) {
            Some(k) => {
                proof {
                    assert(self@.entities[k as int].name == name@);
                }
                true
            },
            None => false,
        }
    }
}

} // verus!
