use sea_orm_migration::history::HistoryStore;
use sea_orm_migration::plan::{
    plan_down, plan_down_within, plan_reset, plan_up, Direction, MigrationPlan, PlanStep,
};
use sea_orm_migration::registry::Registry;

fn catalogue(list: &[&str]) -> Registry {
    Registry::new(list.iter().map(|s| s.to_string()).collect()).unwrap()
}

fn history(list: &[(&str, i64)]) -> HistoryStore {
    let mut store = HistoryStore::new();
    for (name, at) in list.iter() {
        store.record_applied(name, *at).unwrap();
    }
    store
}

fn plan(list: &[&str], direction: Direction) -> MigrationPlan {
    MigrationPlan {
        steps: list
            .iter()
            .map(|s| PlanStep { name: s.to_string(), direction })
            .collect(),
    }
}

#[test]
fn up_plans_every_pending_unit_in_ascending_order() {
    let registry = catalogue(&["0003_c", "0001_a", "0004_d", "0002_b"]);
    let store = history(&[("0002_b", 1)]);
    assert_eq!(
        plan_up(&registry, &store, None),
        plan(&["0001_a", "0003_c", "0004_d"], Direction::Up)
    );
}

#[test]
fn up_is_cut_to_its_limit() {
    let registry = catalogue(&["0001_a", "0002_b", "0003_c"]);
    let store = HistoryStore::new();
    assert_eq!(plan_up(&registry, &store, Some(0)), plan(&[], Direction::Up));
    assert_eq!(plan_up(&registry, &store, Some(1)), plan(&["0001_a"], Direction::Up));
    assert_eq!(plan_up(&registry, &store, Some(2)), plan(&["0001_a", "0002_b"], Direction::Up));
    assert_eq!(
        plan_up(&registry, &store, Some(3)),
        plan(&["0001_a", "0002_b", "0003_c"], Direction::Up)
    );
    assert_eq!(
        plan_up(&registry, &store, Some(u32::MAX)),
        plan(&["0001_a", "0002_b", "0003_c"], Direction::Up)
    );
}

#[test]
fn up_plans_nothing_when_all_is_applied() {
    let registry = catalogue(&["0001_a", "0002_b"]);
    let store = history(&[("0001_a", 1), ("0002_b", 2)]);
    assert_eq!(plan_up(&registry, &store, None), plan(&[], Direction::Up));
}

#[test]
fn down_plans_the_last_applied_units_in_descending_order() {
    let registry = catalogue(&["0001_a", "0002_b", "0003_c", "0004_d"]);
    let store = history(&[("0001_a", 1), ("0002_b", 2), ("0004_d", 3)]);
    assert_eq!(plan_down(&registry, &store, 1), plan(&["0004_d"], Direction::Down));
    assert_eq!(plan_down(&registry, &store, 2), plan(&["0004_d", "0002_b"], Direction::Down));
    assert_eq!(plan_down(&registry, &store, 0), plan(&[], Direction::Down));
}

#[test]
fn down_beyond_what_is_applied_reverts_what_is_applied() {
    let registry = catalogue(&["0001_a", "0002_b", "0003_c"]);
    let store = history(&[("0001_a", 1), ("0003_c", 2)]);
    let expected = plan(&["0003_c", "0001_a"], Direction::Down);
    assert_eq!(plan_down(&registry, &store, 2), expected);
    assert_eq!(plan_down(&registry, &store, 3), expected);
    assert_eq!(plan_down(&registry, &store, 1000), expected);
    assert_eq!(plan_down(&registry, &store, u32::MAX), expected);
    assert_eq!(plan_down_within(&registry, &store, usize::MAX), expected);
    assert_eq!(plan_down(&registry, &HistoryStore::new(), 5), plan(&[], Direction::Down));
}

#[test]
fn down_goes_by_name_not_by_time_of_application() {
    let registry = catalogue(&["0001_a", "0002_b", "0003_c"]);
    let store = history(&[("0001_a", 300), ("0002_b", 200), ("0003_c", 100)]);
    assert_eq!(plan_down(&registry, &store, 1), plan(&["0003_c"], Direction::Down));
    assert_eq!(
        plan_down(&registry, &store, 3),
        plan(&["0003_c", "0002_b", "0001_a"], Direction::Down)
    );
}

#[test]
fn reset_plans_every_applied_unit() {
    let registry = catalogue(&["0001_a", "0002_b", "0003_c"]);
    let store = history(&[("0002_b", 1), ("0003_c", 2)]);
    assert_eq!(plan_reset(&registry, &store), plan(&["0003_c", "0002_b"], Direction::Down));
    assert_eq!(plan_reset(&registry, &HistoryStore::new()), plan(&[], Direction::Down));
}

#[test]
fn orphans_are_in_no_plan() {
    let registry = catalogue(&["0001_a", "0002_b"]);
    let store = history(&[("0000_gone", 1), ("0001_a", 2), ("9999_gone", 3)]);
    assert_eq!(plan_up(&registry, &store, None), plan(&["0002_b"], Direction::Up));
    assert_eq!(plan_down(&registry, &store, 10), plan(&["0001_a"], Direction::Down));
    assert_eq!(plan_reset(&registry, &store), plan(&["0001_a"], Direction::Down));
}
