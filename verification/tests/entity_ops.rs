use ecs::Kinded;
use ecs::entity::Entity;
use ecs::type_query::{TypeQuery, TypesQueryable};

const MY_COMPONENT: u64 = 1;
const OTHER_COMPONENT: u64 = 2;
const RANDOM_COMPONENT: u64 = 3;

const KIND_A: u64 = 1;
const KIND_B: u64 = 2;
const KIND_C: u64 = 3;

fn kinded(kind: u64) -> Kinded<u64> {
    Kinded { kind, value: 0 }
}

fn fresh_entity() -> Entity<String, Kinded<u64>> {
    Entity::new(1, "".to_string())
}

fn get_types<Q: TypesQueryable>(q: &Q) -> Vec<u64> {
    q.types()
}

#[test]
fn test_query_types() {
    let q = TypeQuery::new(vec![MY_COMPONENT, OTHER_COMPONENT]);
    let types = get_types(&q);

    assert_eq!(types[0], MY_COMPONENT);
    assert_eq!(types[1], OTHER_COMPONENT);
}

#[test]
fn test_components_combination() {
    let mut entity = fresh_entity();
    entity.add_component(kinded(KIND_A)).add_component(kinded(KIND_B)).add_component(
        kinded(KIND_C),
    );

    let test_contain = |v: &Vec<Vec<u64>>, mut types: Vec<u64>| -> bool {
        types.sort();
        v.contains(&types)
    };

    let results = entity.get_components_combination();
    assert_eq!(results.len(), 7);
    assert!(test_contain(results, vec![KIND_A]));
    assert!(test_contain(results, vec![KIND_B]));
    assert!(test_contain(results, vec![KIND_C]));

    assert!(test_contain(results, vec![KIND_A, KIND_B]));
    assert!(test_contain(results, vec![KIND_A, KIND_C]));
    assert!(test_contain(results, vec![KIND_B, KIND_C]));

    assert!(test_contain(results, vec![KIND_A, KIND_B, KIND_C]));
}

#[test]
fn test_get_component_not_exist() {
    let mut entity = fresh_entity();
    let comp = kinded(MY_COMPONENT);

    entity.add_component(comp);

    let res = entity.get_component_mut(OTHER_COMPONENT);
    assert!(res.is_none());
    assert!(!entity.has_component(OTHER_COMPONENT))
}

#[test]
fn test_get_component() {
    let mut entity = fresh_entity();
    let comp = kinded(MY_COMPONENT);

    entity.add_component(comp);

    let res = entity.get_component_mut(MY_COMPONENT);
    assert!(res.is_some());
    assert!(entity.has_component(MY_COMPONENT))
}

#[test]
fn test_get_components() {
    let mut entity = fresh_entity();
    entity.add_component(kinded(MY_COMPONENT));
    entity.add_component(kinded(OTHER_COMPONENT));

    let res = entity.get_components(&TypeQuery::new(vec![MY_COMPONENT, OTHER_COMPONENT]));
    assert!(res.is_some());

    let res = entity.get_components(&TypeQuery::new(vec![OTHER_COMPONENT, MY_COMPONENT]));
    assert!(res.is_some());
}

#[test]
fn test_check_components() {
    let mut entity = fresh_entity();
    entity.add_component(kinded(MY_COMPONENT));
    entity.add_component(kinded(OTHER_COMPONENT));

    assert!(entity.has_component(MY_COMPONENT));
    assert!(entity.has_component(OTHER_COMPONENT));
    assert!(!entity.has_component(RANDOM_COMPONENT));
}

#[test]
fn test_check_multi_components() {
    let mut entity = fresh_entity();
    entity.add_component(kinded(MY_COMPONENT));
    entity.add_component(kinded(OTHER_COMPONENT));

    assert!(entity.has_components(&TypeQuery::new(vec![MY_COMPONENT, OTHER_COMPONENT])));
    assert!(entity.has_components(&TypeQuery::new(vec![OTHER_COMPONENT, MY_COMPONENT])));
}

#[test]
fn test_check_multi_components_mismatch() {
    let mut entity = fresh_entity();
    entity.add_component(kinded(MY_COMPONENT));
    entity.add_component(kinded(RANDOM_COMPONENT));

    assert!(!entity.has_components(&TypeQuery::new(vec![MY_COMPONENT, OTHER_COMPONENT])));
    assert!(!entity.has_components(&TypeQuery::new(vec![OTHER_COMPONENT, MY_COMPONENT])));
}

#[test]
fn combination_counts_grow_by_doubling() {
    let mut entity = fresh_entity();
    assert_eq!(entity.get_components_combination().len(), 0);
    entity.add_component(kinded(KIND_A));
    assert_eq!(entity.get_components_combination().len(), 1);
    entity.add_component(kinded(KIND_B));
    assert_eq!(entity.get_components_combination().len(), 3);
    entity.add_component(kinded(KIND_C));
    assert_eq!(entity.get_components_combination().len(), 7);
    entity.add_component(kinded(4));
    assert_eq!(entity.get_components_combination().len(), 15);
}

#[test]
fn try_add_component_reports_duplicates() {
    let mut entity = fresh_entity();
    assert!(entity.try_add_component(Kinded { kind: KIND_A, value: 10u64 }));
    assert!(!entity.try_add_component(Kinded { kind: KIND_A, value: 11u64 }));
    assert_eq!(entity.get_component(KIND_A).unwrap().value, 10);
}

#[test]
fn replace_component_changes_only_the_value() {
    let mut entity = fresh_entity();
    entity.add_component(Kinded { kind: KIND_A, value: 10u64 });
    entity.add_component(Kinded { kind: KIND_B, value: 20u64 });

    assert!(entity.replace_component(Kinded { kind: KIND_A, value: 99u64 }));
    assert_eq!(entity.get_component(KIND_A).unwrap().value, 99);
    assert_eq!(entity.get_component(KIND_B).unwrap().value, 20);
    assert_eq!(entity.get_components_combination().len(), 3);

    assert!(!entity.replace_component(kinded(RANDOM_COMPONENT)));
    assert!(!entity.has_component(RANDOM_COMPONENT));
}

#[test]
fn get_component_mut_writes_through() {
    let mut entity = fresh_entity();
    entity.add_component(Kinded { kind: KIND_A, value: 10u64 });

    let slot = entity.get_component_mut(KIND_A).unwrap();
    slot.value = 77;
    assert_eq!(entity.get_component(KIND_A).unwrap().value, 77);
}

#[test]
fn destroy_marks_dead_and_stays_dead() {
    let mut entity = fresh_entity();
    assert!(entity.is_alive());
    entity.destroy();
    assert!(!entity.is_alive());
    entity.destroy();
    assert!(!entity.is_alive());
}

#[test]
fn query_returns_components_in_list_order() {
    let mut entity = fresh_entity();
    entity.add_component(Kinded { kind: KIND_B, value: 2u64 });
    entity.add_component(Kinded { kind: KIND_A, value: 1u64 });

    let q = TypeQuery::new(vec![KIND_B, KIND_A]);
    let res = q.query(&entity).unwrap();
    assert_eq!(res.len(), 2);
    assert_eq!(res[0].value, 2);
    assert_eq!(res[1].value, 1);
}

#[test]
fn get_types_is_canonically_sorted() {
    let q = TypeQuery::new(vec![KIND_C, KIND_A, KIND_B]);
    assert_eq!(q.get_types(), vec![KIND_A, KIND_B, KIND_C]);

    let p = TypeQuery::new(vec![KIND_B, KIND_C, KIND_A]);
    assert_eq!(p.get_types(), q.get_types());
}
