use sai3_bench::oplog_merge::{check_order, in_place_temp_path, merged_header, merged_line, sorted_output_path, MergeQueue, OrderCheck, OrderStep, SortWindow};

#[test]
fn merge_queue_pops_earliest() {
    let mut q: MergeQueue<&str> = MergeQueue::new();
    assert!(q.pop_earliest().is_none());
    q.push((5, 0), 0, "a");
    q.push((3, 500), 1, "b");
    q.push((3, 100), 2, "c");
    q.push((9, 0), 0, "d");
    assert_eq!(q.len(), 4);
    let order: Vec<&str> = std::iter::from_fn(|| q.pop_earliest().map(|e| e.2)).collect();
    assert_eq!(order, vec!["c", "b", "a", "d"]);
}

#[test]
fn k_way_merge_of_sorted_runs() {
    let runs: Vec<Vec<(i64, u32)>> = vec![vec![(1, 0), (4, 0), (7, 0)], vec![(2, 0), (5, 0)], vec![(3, 0), (6, 0), (8, 0)]];
    let mut pos = vec![0usize; runs.len()];
    let mut q: MergeQueue<()> = MergeQueue::new();
    for (w, r) in runs.iter().enumerate() {
        q.push(r[0], w, ());
        pos[w] = 1;
    }
    let mut out = Vec::new();
    while let Some((start, w, ())) = q.pop_earliest() {
        out.push(start.0);
        if pos[w] < runs[w].len() {
            q.push(runs[w][pos[w]], w, ());
            pos[w] += 1;
        }
    }
    assert_eq!(out, vec![1, 2, 3, 4, 5, 6, 7, 8]);
}

#[test]
fn order_check_verdicts() {
    let sorted = [(1, 0), (1, 5), (2, 0), (2, 0), (3, 1)];
    assert_eq!(check_order(&sorted, None), (true, 5, None));
    assert_eq!(check_order(&sorted, Some(3)), (true, 3, None));
    assert_eq!(check_order(&sorted, Some(0)), (true, 1, None));
    let unsorted = [(1, 0), (2, 0), (1, 999), (0, 0)];
    assert_eq!(check_order(&unsorted, None), (false, 3, Some(3)));
    assert_eq!(check_order(&unsorted, Some(2)), (true, 2, None));
    assert_eq!(check_order(&[], None), (true, 0, None));
}

#[test]
fn order_check_streaming() {
    let mut c = OrderCheck::new(None);
    assert_eq!(c.observe((10, 0)), OrderStep::Continue);
    assert_eq!(c.observe((10, 1)), OrderStep::Continue);
    assert_eq!(c.observe((9, 0)), OrderStep::Done(false, 3, Some(3)));
    let mut c = OrderCheck::new(Some(5));
    c.observe((1, 0));
    assert_eq!(c.finish(), (true, 1, None));
}

#[test]
fn window_sort_restores_order() {
    let input = [(3, 0), (1, 0), (2, 0), (5, 0), (4, 0), (6, 0), (8, 0), (7, 0)];
    let mut w: SortWindow<usize> = SortWindow::new(2);
    let mut out = Vec::new();
    for (i, s) in input.iter().enumerate() {
        for e in w.insert(*s, i) {
            out.push(e.0 .0);
        }
    }
    for e in w.drain() {
        out.push(e.0 .0);
    }
    assert_eq!(out, vec![1, 2, 3, 4, 5, 6, 7, 8]);
}

#[test]
fn window_of_size_zero_passes_through() {
    let mut w: SortWindow<char> = SortWindow::new(0);
    let a = w.insert((2, 0), 'a');
    assert_eq!(a.len(), 1);
    assert_eq!(a[0].1, 'a');
    assert!(w.drain().is_empty());
}

#[test]
fn window_keeps_arrival_order_for_equal_starts() {
    let mut w: SortWindow<char> = SortWindow::new(3);
    assert!(w.insert((1, 0), 'a').is_empty());
    assert!(w.insert((1, 0), 'b').is_empty());
    assert!(w.insert((0, 0), 'c').is_empty());
    let out = w.insert((1, 0), 'd');
    assert_eq!(out.iter().map(|e| e.1).collect::<String>(), "c");
    assert_eq!(w.drain().iter().map(|e| e.1).collect::<String>(), "abd");
}

#[test]
fn test_merged_log_line_format() {
    assert_eq!(merged_header().split('\t').count(), 13);
    let line = merged_line(7, "GET", 4096, "file:///mnt/a/", "d1/f.dat", None, "2024-01-02T03:04:05+00:00", Some(1500));
    let expected = format!(
        "{}\t{}\t{}\t\t{}\t{}\t{}\t{}\t{}\t{}\t\t\t{}",
        7, 0, "GET", 1, 4096, "file:///mnt/a/", "d1/f.dat", "", "2024-01-02T03:04:05+00:00", 1500
    );
    assert_eq!(line, expected);
    assert_eq!(line.split('\t').count(), 13);
    let with_err = merged_line(0, "PUT", 0, "e", "f", Some("timeout"), "t", None);
    assert_eq!(with_err, "0\t0\tPUT\t\t1\t0\te\tf\ttimeout\tt\t\t\t0");
}

#[test]
fn test_sorted_output_names() {
    assert_eq!(sorted_output_path("/logs/run.tsv.zst").as_deref(), Some("/logs/run.sorted.tsv.zst"));
    assert_eq!(sorted_output_path("/logs/run.tsv").as_deref(), Some("/logs/run.sorted.zst"));
    assert_eq!(sorted_output_path("run.zst").as_deref(), Some("run.sorted.tsv.zst"));
    assert_eq!(sorted_output_path("/"), None);
    for p in ["/logs/run.tsv.zst", "rel/a.b.c", "x", "/tmp/op.tsv"] {
        let expected = std::path::Path::new(p).with_extension("tmp.zst");
        assert_eq!(in_place_temp_path(p), expected.to_str().unwrap());
    }
}

#[test]
fn window_sort_orders_when_displacement_fits_the_window() {
    // Each entry is at most 3 places behind an entry that starts later.
    let input: Vec<(i64, u32)> = vec![(4, 0), (1, 0), (2, 0), (3, 0), (8, 0), (5, 0), (6, 0), (7, 0), (9, 5), (9, 1)];
    let mut w: SortWindow<usize> = SortWindow::new(3);
    let mut out = Vec::new();
    for (i, s) in input.iter().enumerate() {
        out.extend(w.insert(*s, i));
    }
    out.extend(w.drain());
    assert_eq!(out.len(), input.len());
    for k in 1..out.len() {
        assert!(out[k - 1].0 <= out[k].0);
    }
}
