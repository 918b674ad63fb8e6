use log_cruncher::{number_of_processors, processors_for, CHUNK_SIZE};

#[test]
fn small_input_gets_one_worker() {
    assert_eq!(number_of_processors(8, 0, CHUNK_SIZE), 1);
    assert_eq!(number_of_processors(8, 100, CHUNK_SIZE), 1);
    assert_eq!(number_of_processors(8, (CHUNK_SIZE as u64) * 2 - 1, CHUNK_SIZE), 1);
}

#[test]
fn one_worker_for_each_chunk_that_the_input_fills() {
    assert_eq!(number_of_processors(8, (CHUNK_SIZE as u64) * 2, CHUNK_SIZE), 2);
    assert_eq!(number_of_processors(8, (CHUNK_SIZE as u64) * 3 + 5, CHUNK_SIZE), 3);
    assert_eq!(number_of_processors(8, 70, 10), 7);
}

#[test]
fn no_more_workers_than_the_machine_runs() {
    assert_eq!(number_of_processors(8, (CHUNK_SIZE as u64) * 100, CHUNK_SIZE), 8);
    assert_eq!(number_of_processors(1, u64::MAX, 1), 1);
    assert_eq!(number_of_processors(usize::MAX, 80, 10), 8);
}

#[test]
fn a_machine_that_runs_nothing_gets_no_worker() {
    assert_eq!(number_of_processors(0, 100, 10), 0);
}

#[test]
fn this_machine_gets_at_least_one_worker() {
    assert_eq!(processors_for(0), 1);
    assert_eq!(processors_for((CHUNK_SIZE as u64) - 1), 1);
    let many = processors_for((CHUNK_SIZE as u64) * 64);
    assert!(many >= 1);
    assert!(many <= 64);
}
