use simulated_annealing::batch::BatchProgress;
use simulated_annealing::db::{database_file, DATABASE_PATH};
use simulated_annealing::run_ids::{Iteration, RunnerId, Seed};

#[test]
fn database_file_defaults_and_strips_the_scheme() {
    assert_eq!(database_file(None), DATABASE_PATH);
    assert_eq!(database_file(None), "tsp.db");
    assert_eq!(database_file(Some("sqlite://data/cities.db".to_string())), "data/cities.db");
    assert_eq!(database_file(Some("custom.db".to_string())), "custom.db");
    assert_eq!(database_file(Some("sqlite:/x.db".to_string())), "sqlite:/x.db");
    assert_eq!(database_file(Some("sqlite://".to_string())), "");
}

#[test]
fn a_batch_stops_at_its_size_or_its_attempt_limit() {
    let mut all = BatchProgress::new(5);
    while all.wants_another() {
        all.record(true);
    }
    assert_eq!((all.accepted, all.attempts), (5, 5));

    let mut none = BatchProgress::new(5);
    while none.wants_another() {
        none.record(false);
    }
    assert_eq!((none.accepted, none.attempts), (0, 500));

    let huge = BatchProgress::new(usize::MAX);
    assert_eq!(huge.max_attempts, usize::MAX);
    assert!(!BatchProgress::new(0).wants_another());
}

#[test]
fn run_ids_hold_their_numbers() {
    assert_eq!(Iteration(3).0, 3);
    assert_eq!(Seed(9), Seed(9));
    assert_eq!(RunnerId(2).0, 2);
}
