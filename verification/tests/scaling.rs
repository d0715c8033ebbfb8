use sai3_bench::scaling::{process_concurrency, runtime_worker_concurrency};

#[test]
fn test_runtime_worker_concurrency_split() {
    assert_eq!(runtime_worker_concurrency(10, 0), None);
    assert_eq!(runtime_worker_concurrency(10, 3), Some(vec![4, 3, 3]));
    assert_eq!(runtime_worker_concurrency(2, 4), Some(vec![1, 1, 0, 0]));
    assert_eq!(runtime_worker_concurrency(64, 1), Some(vec![64]));
    for total in 0..40usize {
        for n in 1..9usize {
            let v = runtime_worker_concurrency(total, n).unwrap();
            assert_eq!(v.iter().sum::<usize>(), total);
            let max = *v.iter().max().unwrap();
            let min = *v.iter().min().unwrap();
            assert!(max - min <= 1);
        }
    }
}

#[test]
fn test_process_concurrency_rounds_up() {
    assert_eq!(process_concurrency(10, 3), 4);
    assert_eq!(process_concurrency(9, 3), 3);
    assert_eq!(process_concurrency(0, 4), 0);
    assert_eq!(process_concurrency(1, 4), 1);
}
