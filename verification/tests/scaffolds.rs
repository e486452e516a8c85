use sea_orm_migration::error::MigrationError;
use sea_orm_migration::scaffold::{clock_for, holds, scaffold, unit_name, written, Clock};

fn owned(list: &[&str]) -> Vec<String> {
    list.iter().map(|s| s.to_string()).collect()
}

#[test]
fn the_flag_selects_the_clock() {
    assert_eq!(clock_for(true), Clock::Universal);
    assert_eq!(clock_for(false), Clock::Local);
}

#[test]
fn a_unit_is_named_by_timestamp_and_description() {
    assert_eq!(unit_name("20220101_000001", "create_posts"), "20220101_000001_create_posts");
    assert_eq!(unit_name("", ""), "_");
    assert_eq!(unit_name("t", ""), "t_");
    assert_eq!(unit_name("", "d"), "_d");
}

#[test]
fn holds_looks_for_the_exact_name() {
    let names = owned(&["a_b", "c_d"]);
    assert!(holds(&names, &"a_b".to_string()));
    assert!(holds(&names, &"c_d".to_string()));
    assert!(!holds(&names, &"a_".to_string()));
    assert!(!holds(&Vec::new(), &"a_b".to_string()));
}

#[test]
fn scaffold_names_a_new_unit() {
    let existing = owned(&["20220101_000001_create_posts"]);
    assert_eq!(
        scaffold(&existing, "20220102_000001", "add_index"),
        Ok("20220102_000001_add_index".to_string())
    );
    assert_eq!(
        scaffold(&existing, "20220101_000001", "create_post"),
        Ok("20220101_000001_create_post".to_string())
    );
}

#[test]
fn scaffold_refuses_a_name_that_exists() {
    let existing = owned(&["20220101_000001_create_posts", "20220102_000001_add_index"]);
    assert_eq!(
        scaffold(&existing, "20220102_000001", "add_index"),
        Err(MigrationError::NameCollision("20220102_000001_add_index".to_string()))
    );
}

#[test]
fn a_failed_write_is_an_io_error() {
    assert_eq!(
        written("20220102_000001_add_index".to_string(), Err("disk full".to_string())),
        Err(MigrationError::IoError("disk full".to_string()))
    );
    assert_eq!(
        written("20220102_000001_add_index".to_string(), Ok(())),
        Ok("20220102_000001_add_index".to_string())
    );
}
