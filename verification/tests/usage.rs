use zb::usage::{Overflow, ResourceUsage};

fn usage(max_rss_kb: u64, ucpu: u64, kcpu: u64, read_iops: u64, write_iops: u64, major_pf: u64, threads: u64) -> ResourceUsage {
    ResourceUsage { max_rss_kb, ucpu, kcpu, read_iops, write_iops, major_pf, threads }
}

#[test]
fn new_usage_is_zero() {
    assert_eq!(ResourceUsage::new(), usage(0, 0, 0, 0, 0, 0, 0));
}

#[test]
fn cpu_is_user_plus_kernel() {
    assert_eq!(usage(0, 70, 30, 0, 0, 0, 0).cpu(), 100);
    assert_eq!(usage(0, u64::MAX, u64::MAX, 0, 0, 0, 0).cpu(), 2 * (u64::MAX as u128));
}

#[test]
fn sub_nets_out_all_but_the_resident_set() {
    let mut a = usage(500, 100, 50, 10, 20, 5, 3);
    a.sub(&usage(400, 30, 20, 4, 5, 1, 1));
    assert_eq!(a, usage(500, 70, 30, 6, 15, 4, 2));
}

#[test]
fn sub_stops_at_zero() {
    let mut a = usage(500, 10, 10, 1, 1, 1, 1);
    a.sub(&usage(0, 30, 5, 4, 0, 9, 2));
    assert_eq!(a, usage(500, 0, 5, 0, 1, 0, 0));
}

#[test]
fn add_self_metrics_takes_the_larger_resident_set_and_sums_cpu_and_threads() {
    let mut a = usage(500, 100, 50, 10, 20, 5, 1);
    assert_eq!(a.add_self_metrics(&usage(900, 7, 3, 1000, 2000, 3000, 2)), Ok(()));
    assert_eq!(a, usage(900, 107, 53, 10, 20, 5, 3));
    assert_eq!(a.add_self_metrics(&usage(100, 0, 0, 0, 0, 0, 0)), Ok(()));
    assert_eq!(a, usage(900, 107, 53, 10, 20, 5, 3));
}

#[test]
fn add_all_also_sums_the_subtree_counts() {
    let mut a = usage(500, 100, 50, 10, 20, 5, 1);
    assert_eq!(a.add_all(&usage(900, 7, 3, 1000, 2000, 3000, 2)), Ok(()));
    assert_eq!(a, usage(900, 107, 53, 1010, 2020, 3005, 3));
}

#[test]
fn the_two_merges_differ_in_the_subtree_counts_only() {
    let other = usage(9, 8, 7, 6, 5, 4, 3);
    let mut per_thread = usage(1, 2, 3, 4, 5, 6, 7);
    let mut all = per_thread;
    per_thread.add_self_metrics(&other).unwrap();
    all.add_all(&other).unwrap();
    assert_eq!(per_thread.max_rss_kb, all.max_rss_kb);
    assert_eq!(per_thread.ucpu, all.ucpu);
    assert_eq!(per_thread.kcpu, all.kcpu);
    assert_eq!(per_thread.threads, all.threads);
    assert_eq!((per_thread.read_iops, per_thread.write_iops, per_thread.major_pf), (4, 5, 6));
    assert_eq!((all.read_iops, all.write_iops, all.major_pf), (10, 10, 10));
}

#[test]
fn a_sum_out_of_range_fails_and_changes_nothing() {
    let start = usage(1, u64::MAX - 1, 3, 4, 5, 6, 7);
    let mut a = start;
    assert_eq!(a.add_self_metrics(&usage(0, 2, 0, 0, 0, 0, 0)), Err(Overflow));
    assert_eq!(a, start);
    assert_eq!(a.add_self_metrics(&usage(0, 1, 0, 0, 0, 0, 0)), Ok(()));
    assert_eq!(a.ucpu, u64::MAX);

    let start = usage(1, 2, 3, 4, u64::MAX, 6, 7);
    let mut b = start;
    assert_eq!(b.add_all(&usage(50, 1, 1, 1, 1, 1, 1)), Err(Overflow));
    assert_eq!(b, start);
    assert_eq!(b.add_self_metrics(&usage(50, 1, 1, 1, 1, 1, 1)), Ok(()));
}

#[test]
fn iops_are_reads_plus_writes() {
    assert_eq!(usage(0, 0, 0, 16, 8, 0, 0).format_iops(), "16+8");
    assert_eq!(usage(0, 0, 0, 0, 0, 0, 0).format_iops(), "0+0");
    assert_eq!(
        usage(0, 0, 0, u64::MAX, 1234567890, 0, 0).format_iops(),
        "18446744073709551615+1234567890"
    );
}
