use sea_orm_migration::error::MigrationError;

fn text(s: &str) -> String {
    s.to_string()
}

#[test]
fn every_failure_has_its_message() {
    assert_eq!(
        MigrationError::DuplicateName(text("0001_a")).message(),
        "duplicate migration name: 0001_a"
    );
    assert_eq!(MigrationError::NotFound(text("0001_a")).message(), "no such migration: 0001_a");
    assert_eq!(
        MigrationError::DuplicateApplication(text("0001_a")).message(),
        "migration already applied: 0001_a"
    );
    assert_eq!(
        MigrationError::NotApplied(text("0001_a")).message(),
        "migration not applied: 0001_a"
    );
    assert_eq!(
        MigrationError::TransactionFailure(text("timeout")).message(),
        "transaction failed: timeout"
    );
    assert_eq!(MigrationError::IoError(text("denied")).message(), "i/o error: denied");
    assert_eq!(
        MigrationError::NameCollision(text("0001_a")).message(),
        "migration file already exists: 0001_a"
    );
}

#[test]
fn a_failure_carries_its_subject() {
    assert_eq!(MigrationError::NotFound(text("0001_a")).subject(), "0001_a");
    assert_eq!(MigrationError::IoError(String::new()).subject(), "");
}

#[test]
fn a_duplicate_equals_what_it_copies() {
    let all = [
        MigrationError::DuplicateName(text("a")),
        MigrationError::NotFound(text("b")),
        MigrationError::DuplicateApplication(text("c")),
        MigrationError::NotApplied(text("d")),
        MigrationError::TransactionFailure(text("e")),
        MigrationError::IoError(text("f")),
        MigrationError::NameCollision(text("g")),
    ];
    for error in all.iter() {
        assert_eq!(&error.duplicate(), error);
    }
}
