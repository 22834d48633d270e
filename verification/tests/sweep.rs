use period_search::progress::CompletionTable;
use period_search::search::{search_period, Finding};
use rayon::iter::{IntoParallelIterator, ParallelIterator};
use std::sync::Mutex;

/// Searches the periods with a pool of `workers` threads, and returns the
/// findings by period together with the completion lines in the order in
/// which they were made.
fn sweep_with(workers: usize, from: usize, to: usize) -> (Vec<Vec<Finding>>, Vec<(usize, usize)>) {
    let pool = rayon::ThreadPoolBuilder::new().num_threads(workers).build().unwrap();
    let table = Mutex::new(CompletionTable::new(from));
    let lines = Mutex::new(Vec::new());
    let mut found: Vec<(usize, Vec<Finding>)> = pool.install(|| {
        (from..to)
            .into_par_iter()
            .map(|period| {
                let found = search_period(period);
                let mut table = table.lock().unwrap();
                assert!(!table.is_completed(period));
                let least = table.complete(period).unwrap();
                lines.lock().unwrap().push((period, least));
                (period, found)
            })
            .collect()
    });
    found.sort_by_key(|(period, _)| *period);
    (found.into_iter().map(|(_, f)| f).collect(), lines.into_inner().unwrap())
}

#[test]
fn one_worker_and_four_workers_find_the_same() {
    let (alone, lines_alone) = sweep_with(1, 5, 11);
    let (shared, lines_shared) = sweep_with(4, 5, 11);
    assert_eq!(alone, shared);
    assert_eq!(alone.len(), 6);
    assert_eq!(lines_alone.len(), 6);
    assert_eq!(lines_shared.len(), 6);
    for (k, found) in alone.iter().enumerate() {
        assert_eq!(found[0], Finding::Trivial { period: 5 + k });
    }
}

#[test]
fn least_open_period_never_goes_back() {
    let (_, lines) = sweep_with(4, 5, 13);
    let mut last = 0;
    for (period, least) in lines {
        assert!(least > 5 || period != 5);
        assert!(least >= last);
        assert_ne!(least, period);
        last = least;
    }
    assert_eq!(last, 13);
}
