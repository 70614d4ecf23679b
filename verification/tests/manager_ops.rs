use ecs::Kinded;
use ecs::manager::EntityManager;
use ecs::type_query::TypeQuery;

const COMP_A: u64 = 1;
const COMP_B: u64 = 2;
const COMP_C: u64 = 3;

const DEF_TAG: u64 = 0;
const TAG_A: u64 = 10;
const TAG_B: u64 = 11;

type Manager = EntityManager<u64, Kinded<String>>;

fn manager() -> Manager {
    EntityManager::new(DEF_TAG)
}

fn comp_a(v: &str) -> Kinded<String> {
    Kinded { kind: COMP_A, value: String::from(v) }
}

fn comp_b(v: &str) -> Kinded<String> {
    Kinded { kind: COMP_B, value: String::from(v) }
}

fn comp_c(v: &str) -> Kinded<String> {
    Kinded { kind: COMP_C, value: String::from(v) }
}

#[test]
fn test_query_components() {
    let mut manager = manager();
    let e1 = manager.add();
    manager.attach_component(e1, comp_a("1"));
    manager.attach_component(e1, comp_b("1"));
    let e2 = manager.add();
    manager.attach_component(e2, comp_a("2"));
    manager.attach_component(e2, comp_b("2"));
    manager.attach_component(e2, comp_c("2"));
    let e3 = manager.add();
    manager.attach_component(e3, comp_a("3"));
    manager.attach_component(e3, comp_c("3"));
    manager.update();

    let res = manager.query_entities_components(&TypeQuery::new(vec![COMP_A, COMP_B]));

    assert_eq!(res.len(), 2);
    assert!(
        res.iter().any(|r| *r[0] == comp_a("1") && *r[1] == comp_b("1")),
        "Does not have 1"
    );
    assert!(
        res.iter().any(|r| *r[0] == comp_a("2") && *r[1] == comp_b("2")),
        "Does not have 2"
    );
}

#[test]
fn test_query_components_mut() {
    let mut manager = manager();
    let e1 = manager.add();
    manager.attach_component(e1, comp_a("1"));
    manager.attach_component(e1, comp_b("1"));
    let e2 = manager.add();
    manager.attach_component(e2, comp_a("2"));
    manager.attach_component(e2, comp_b("2"));
    manager.attach_component(e2, comp_c("2"));
    let e3 = manager.add();
    manager.attach_component(e3, comp_b("3"));
    manager.attach_component(e3, comp_c("3"));
    manager.update();

    let res = manager.query_entity_ids_components(&TypeQuery::new(vec![COMP_A]));

    assert_eq!(res.len(), 2);
    assert!(
        res.iter().any(|id| {
            *manager.get_entity(*id).unwrap().get_component(COMP_A).unwrap() == comp_a("1")
        }),
        "Does not have 1"
    );
    assert!(
        res.iter().any(|id| {
            *manager.get_entity(*id).unwrap().get_component(COMP_A).unwrap() == comp_a("2")
        }),
        "Does not have 2"
    );
}

#[test]
fn test_insert_entity() {
    let mut manager = manager();

    let id = manager.add();
    manager.attach_component(id, comp_a(""));
    manager.attach_component(id, comp_b(""));
    manager.update();

    assert!(manager.get_entity(id).is_some());

    assert_eq!(manager.component_bucket_count(), 3);
}

#[test]
fn test_insert_entity_tag() {
    let mut manager = manager();
    let id = manager.add_tag(TAG_A);
    manager.update();

    assert!(manager.get_entity(id).is_some());

    let entity = manager.get_entities_with_tag(&TAG_A);
    assert_eq!(entity.len(), 1);
    assert_eq!(entity[0].id, id);
}

#[test]
fn test_get_entity() {
    let mut manager = manager();
    let id = manager.add();
    manager.add();
    manager.add();
    manager.update();

    let entity = manager.get_entity(id);

    assert!(entity.is_some());
    let entity = entity.unwrap();
    assert_eq!(entity.id, id);
}

#[test]
fn test_get_entity_tag() {
    let mut manager = manager();
    let id1 = manager.add_tag(TAG_A);
    let id2 = manager.add_tag(TAG_A);
    manager.add();
    manager.update();

    let entities = manager.get_entities_with_tag(&TAG_A);

    assert_eq!(entities.len(), 2);
    assert!(entities.iter().any(|e| e.id == id1));
    assert!(entities.iter().any(|e| e.id == id2));
}

#[test]
fn test_remove_dead() {
    let mut manager = manager();
    let id1 = manager.add_tag(TAG_A);
    let id2 = manager.add_tag(TAG_A);
    manager.add();
    manager.update();

    manager.get_entity_mut(id1).unwrap().destroy();
    manager.update();

    assert!(manager.get_entity(id2).is_some());
    assert!(manager.get_entity(id1).is_none());

    let tag_entries = manager.get_entities_with_tag(&TAG_A);
    assert!(tag_entries.iter().any(|e| e.id == id2));
    assert!(!tag_entries.iter().any(|e| e.id == id1));
}

#[test]
fn test_remove_dead_multiple_tags() {
    let mut manager = manager();
    let id1 = manager.add_tag(TAG_A);
    let id2 = manager.add_tag(TAG_B);
    manager.add();
    manager.update();

    manager.get_entity_mut(id1).unwrap().destroy();
    manager.update();

    assert!(manager.get_entity(id2).is_some());
    assert!(manager.get_entity(id1).is_none());
}

#[test]
fn default_tag_is_applied() {
    let mut manager = manager();
    let id = manager.add();
    manager.update();

    assert_eq!(manager.get_entity(id).unwrap().tag, DEF_TAG);
}

#[test]
fn destroyed_tagged_entity_leaves_the_others() {
    let mut manager = manager();
    let id1 = manager.add_tag(TAG_B);
    let id2 = manager.add_tag(TAG_B);
    manager.add();
    manager.update();

    manager.destroy(id1);
    manager.update();

    let entities = manager.get_entities_with_tag(&TAG_B);
    assert_eq!(entities.len(), 1);
    assert_eq!(entities[0].id, id2);
    assert!(manager.get_entity(id1).is_none());
}

#[test]
fn destroy_while_pending_takes_one_extra_update() {
    let mut manager = manager();
    let id = manager.add_tag(TAG_A);
    assert!(manager.destroy(id));
    manager.update();
    manager.update();

    assert!(manager.get_entity(id).is_none());
    assert!(manager.get_entities_with_tag(&TAG_A).is_empty());
}

#[test]
fn pending_entities_are_invisible_until_update() {
    let mut manager = manager();
    let id = manager.add_tag(TAG_A);
    manager.attach_component(id, comp_a("x"));

    assert!(manager.get_entity(id).is_none());
    assert!(manager.get_entities_with_tag(&TAG_A).is_empty());
    assert!(manager.query_entities_component(COMP_A).is_empty());

    manager.update();
    assert!(manager.get_entity(id).is_some());
    assert_eq!(manager.query_entities_component(COMP_A).len(), 1);
}

#[test]
fn attach_component_reports_failures() {
    let mut manager = manager();
    let id = manager.add();
    assert!(manager.attach_component(id, comp_a("x")));
    assert!(!manager.attach_component(id, comp_a("y")), "duplicate type must be refused");
    assert!(!manager.attach_component(id + 1, comp_b("z")), "unknown entity must be refused");

    manager.update();
    assert!(!manager.attach_component(id, comp_b("w")), "committed entity must be refused");
    assert_eq!(manager.get_entity(id).unwrap().get_component(COMP_A).unwrap().value, "x");
}

#[test]
fn destroy_unknown_entity_reports_false() {
    let mut manager = manager();
    let id = manager.add();
    manager.update();
    assert!(!manager.destroy(id + 5));
    assert!(manager.destroy(id));
}

#[test]
fn replace_component_updates_live_entities() {
    let mut manager = manager();
    let id = manager.add_tag(TAG_A);
    manager.attach_component(id, comp_a("before"));
    manager.update();

    assert!(manager.replace_component(id, comp_a("after")));
    assert_eq!(manager.get_entity(id).unwrap().get_component(COMP_A).unwrap().value, "after");

    assert!(!manager.replace_component(id, comp_b("never")), "absent type must be refused");
    assert!(!manager.replace_component(id + 1, comp_a("no")), "unknown entity must be refused");
}

#[test]
fn query_by_tag_and_components_intersects() {
    let mut manager = manager();
    let e1 = manager.add_tag(TAG_A);
    manager.attach_component(e1, comp_a("a1"));
    manager.attach_component(e1, comp_b("b1"));
    let e2 = manager.add_tag(TAG_B);
    manager.attach_component(e2, comp_a("a2"));
    manager.attach_component(e2, comp_b("b2"));
    let e3 = manager.add_tag(TAG_A);
    manager.attach_component(e3, comp_a("a3"));
    manager.update();

    let q = TypeQuery::new(vec![COMP_A, COMP_B]);
    let res = manager.query_entities_components_tag(&q, &TAG_A);
    assert_eq!(res.len(), 1);
    assert_eq!(res[0][0].value, "a1");
    assert_eq!(res[0][1].value, "b1");

    let res_b = manager.query_entities_components_tag(&q, &TAG_B);
    assert_eq!(res_b.len(), 1);
    assert_eq!(res_b[0][0].value, "a2");
}

#[test]
fn queries_on_empty_manager_are_empty() {
    let mut manager = manager();
    manager.update();

    assert!(manager.get_entity(3).is_none());
    assert!(manager.get_all().is_empty());
    assert!(manager.get_entities_with_tag(&TAG_A).is_empty());
    assert!(manager.query_entities_component(COMP_A).is_empty());
    assert!(manager.query_entities_components(&TypeQuery::new(vec![COMP_A, COMP_B])).is_empty());
}

#[test]
fn identifiers_are_never_reused() {
    let mut manager = manager();
    let id1 = manager.add();
    manager.update();
    manager.destroy(id1);
    manager.update();
    let id2 = manager.add();
    assert_ne!(id1, id2);
}

#[test]
fn component_queries_forget_reaped_entities() {
    let mut manager = manager();
    let id1 = manager.add();
    manager.attach_component(id1, comp_a("1"));
    let id2 = manager.add();
    manager.attach_component(id2, comp_a("2"));
    manager.update();
    assert_eq!(manager.query_entities_component(COMP_A).len(), 2);

    manager.destroy(id1);
    manager.update();

    let rest = manager.query_entities_component(COMP_A);
    assert_eq!(rest.len(), 1);
    assert_eq!(rest[0].value, "2");
}

#[test]
fn tag_scoped_query_probes_either_side() {
    let mut manager = manager();
    let e1 = manager.add_tag(TAG_A);
    manager.attach_component(e1, comp_a("1"));
    manager.attach_component(e1, comp_b("1"));
    manager.add_tag(TAG_A);
    manager.add_tag(TAG_A);
    manager.update();

    // the combination bucket is the smaller side here
    let q = TypeQuery::new(vec![COMP_A, COMP_B]);
    let res = manager.query_entities_components_tag(&q, &TAG_A);
    assert_eq!(res.len(), 1);
    assert_eq!(res[0][0].value, "1");

    // and the tag bucket is the smaller side here
    let e4 = manager.add_tag(TAG_B);
    manager.attach_component(e4, comp_a("4"));
    manager.attach_component(e4, comp_b("4"));
    let e5 = manager.add();
    manager.attach_component(e5, comp_a("5"));
    manager.attach_component(e5, comp_b("5"));
    manager.update();

    let res_b = manager.query_entities_components_tag(&q, &TAG_B);
    assert_eq!(res_b.len(), 1);
    assert_eq!(res_b[0][0].value, "4");
    assert_eq!(res_b[0][1].value, "4");
}
