use mellonella::ort_threads::intra_op_threads;
use mellonella::ort_threads::threads_for;
use mellonella::ort_threads::MAX_INTRA_THREADS;

#[test]
fn small_hosts_keep_the_benchmarked_clamp() {
    assert_eq!(threads_for(1), 1);
    assert_eq!(threads_for(2), 2);
    assert_eq!(threads_for(4), 2, "the 4-vCPU bench optimum must not regress");
    assert_eq!(threads_for(8), 2);
    assert_eq!(threads_for(12), 3);
    assert_eq!(threads_for(28), 7, "i7-14700 class: 7 of 28 logical cores");
    assert_eq!(threads_for(128), MAX_INTRA_THREADS);
}

#[test]
fn a_setting_wins_over_the_core_count() {
    assert_eq!(intra_op_threads(Some("5"), 4), 5);
    assert_eq!(intra_op_threads(Some("+5"), 4), 5);
    assert_eq!(intra_op_threads(Some("0"), 4), 1);
    assert_eq!(intra_op_threads(Some("many"), 4), 2);
    assert_eq!(intra_op_threads(Some(""), 28), 7);
    assert_eq!(intra_op_threads(Some("99999999999999999999999"), 28), 7);
    assert_eq!(intra_op_threads(None, 28), 7);
}

#[test]
fn the_policy_leaves_room_on_every_machine() {
    for cores in 1..200usize {
        let n = threads_for(cores);
        assert!(1 <= n && n <= 8 && n <= cores);
        assert!(cores <= 8 || 4 * n <= cores);
    }
}
