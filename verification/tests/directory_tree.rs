use sai3_bench::directory_tree::{DirectoryStructureConfig, DirectoryTree, TreeManifest};
use sai3_bench::metadata_cache::extract_file_index_from_path;

fn cfg(width: usize, depth: usize, files_per_dir: usize, distribution: &str, mask: &str) -> DirectoryStructureConfig {
    DirectoryStructureConfig {
        width,
        depth,
        files_per_dir,
        distribution: distribution.to_string(),
        dir_mask: mask.to_string(),
    }
}

fn all_nodes(tree: &DirectoryTree) -> Vec<(String, usize, bool)> {
    let mut out = Vec::new();
    let mut level = 1;
    while let Some(nodes) = tree.directories_at_level(level) {
        for n in nodes {
            out.push((n.full_path.clone(), n.depth, n.has_files));
        }
        level += 1;
    }
    out
}

#[test]
fn test_directory_count_calculation() {
    let config = cfg(4, 3, 0, "bottom", "sai3bench.d%d_w%d.dir");
    let tree = DirectoryTree::new(config).unwrap();
    assert_eq!(tree.total_directories(), 84);
    assert_eq!(tree.paths_at_level(1).unwrap().len(), 4);
    assert_eq!(tree.paths_at_level(2).unwrap().len(), 16);
    assert_eq!(tree.paths_at_level(3).unwrap().len(), 64);
}

#[test]
fn test_flat_structure() {
    let config = cfg(10, 1, 0, "bottom", "dir%d_%d");
    let tree = DirectoryTree::new(config).unwrap();
    assert_eq!(tree.total_directories(), 10);
    assert_eq!(tree.all_paths().len(), 10);
    assert_eq!(tree.paths_at_level(1).unwrap().len(), 10);
    assert!(tree.paths_at_level(2).is_none());
}

#[test]
fn test_file_distribution_bottom() {
    let config = cfg(2, 2, 5, "bottom", "sai3bench.d%d_w%d.dir");
    let tree = DirectoryTree::new(config).unwrap();
    assert_eq!(tree.total_directories(), 6);
    assert_eq!(tree.total_files(), 20);
    let manifest = TreeManifest::from_tree(&tree);
    assert_eq!(manifest.file_ranges.len(), 4);
    for (dir_path, _) in &manifest.file_ranges {
        assert_eq!(dir_path.matches('/').count(), 1, "Dir {} should be at depth 2", dir_path);
    }
}

#[test]
fn test_file_distribution_all() {
    let config = cfg(2, 2, 5, "all", "sai3bench.d%d_w%d.dir");
    let tree = DirectoryTree::new(config).unwrap();
    assert_eq!(tree.total_directories(), 6);
    assert_eq!(tree.total_files(), 30);
    let manifest = TreeManifest::from_tree(&tree);
    assert_eq!(manifest.file_ranges.len(), 6);
}

#[test]
fn test_directory_naming() {
    let config = cfg(2, 2, 0, "bottom", "test.%d_%d.dir");
    let tree = DirectoryTree::new(config).unwrap();
    let level1 = tree.paths_at_level(1).unwrap();
    assert_eq!(level1.len(), 2);
    assert!(level1.contains(&"test.1_1.dir".to_string()));
    assert!(level1.contains(&"test.1_2.dir".to_string()));
    let level2 = tree.paths_at_level(2).unwrap();
    assert_eq!(level2.len(), 4);
    assert!(level2.iter().any(|p| p.contains("test.1_1.dir/test.2_")));
}

#[test]
fn test_actual_path_structure() {
    let config = cfg(2, 2, 0, "bottom", "sai3bench.d%d_w%d.dir");
    let tree = DirectoryTree::new(config).unwrap();
    let level1 = tree.paths_at_level(1).unwrap();
    assert_eq!(level1, vec!["sai3bench.d1_w1.dir", "sai3bench.d1_w2.dir"]);
    let level2 = tree.paths_at_level(2).unwrap();
    assert_eq!(level2.len(), 4);
    assert!(level2[0].starts_with("sai3bench.d1_w1.dir/"));
    assert!(level2[1].starts_with("sai3bench.d1_w1.dir/"));
    assert!(level2[2].starts_with("sai3bench.d1_w2.dir/"));
    assert!(level2[3].starts_with("sai3bench.d1_w2.dir/"));
}

#[test]
fn test_invalid_config() {
    let config = cfg(0, 1, 0, "bottom", "sai3bench.d%d_w%d.dir");
    assert!(DirectoryTree::new(config).is_err());
    let config = cfg(1, 0, 0, "bottom", "sai3bench.d%d_w%d.dir");
    assert!(DirectoryTree::new(config).is_err());
    let config = cfg(2, 2, 5, "invalid", "sai3bench.d%d_w%d.dir");
    assert!(DirectoryTree::new(config).is_err());
}

#[test]
fn test_large_tree() {
    let config = cfg(10, 3, 100, "bottom", "sai3bench.d%d_w%d.dir");
    let tree = DirectoryTree::new(config).unwrap();
    assert_eq!(tree.total_directories(), 1110);
    assert_eq!(tree.total_files(), 100_000);
}

#[test]
fn test_files_per_directory_bottom() {
    let config = cfg(3, 3, 10, "bottom", "sai3bench.d%d_w%d.dir");
    let tree = DirectoryTree::new(config).unwrap();
    assert_eq!(tree.total_directories(), 39);
    assert_eq!(tree.total_files(), 270);
    for (key, depth, has_files) in all_nodes(&tree) {
        if depth == 3 {
            assert!(has_files, "Directory {} at depth 3 should have files", key);
        } else {
            assert!(!has_files, "Directory {} at depth {} should NOT have files", key, depth);
        }
    }
    let manifest = TreeManifest::from_tree(&tree);
    assert_eq!(manifest.file_ranges.len(), 27, "Should have exactly 27 directories with files");
    for (dir_path, _) in &manifest.file_ranges {
        assert_eq!(dir_path.matches('/').count(), 2);
    }
}

#[test]
fn test_files_per_directory_all() {
    let config = cfg(2, 3, 15, "all", "sai3bench.d%d_w%d.dir");
    let tree = DirectoryTree::new(config).unwrap();
    assert_eq!(tree.total_directories(), 14);
    assert_eq!(tree.total_files(), 210);
    for (key, depth, has_files) in all_nodes(&tree) {
        assert!(has_files, "Directory {} at depth {} should have files", key, depth);
    }
    let manifest = TreeManifest::from_tree(&tree);
    assert_eq!(manifest.file_ranges.len(), 14);
    let level1 = manifest.file_ranges.iter().filter(|(p, _)| p.matches('/').count() == 0).count();
    let level2 = manifest.file_ranges.iter().filter(|(p, _)| p.matches('/').count() == 1).count();
    let level3 = manifest.file_ranges.iter().filter(|(p, _)| p.matches('/').count() == 2).count();
    assert_eq!(level1, 2);
    assert_eq!(level2, 4);
    assert_eq!(level3, 8);
}

#[test]
fn test_manifest_from_tree() {
    let config = cfg(2, 2, 10, "bottom", "sai3bench.d%d_w%d.dir");
    let tree = DirectoryTree::new(config).unwrap();
    let manifest = TreeManifest::from_tree(&tree);
    assert_eq!(manifest.total_dirs, 6);
    assert_eq!(manifest.total_files, 40);
    assert_eq!(manifest.all_directories.len(), 6);
    assert_eq!(manifest.by_level.len(), 2);
    assert_eq!(manifest.files_per_dir, 10);
    assert_eq!(manifest.distribution, "bottom");
}

#[test]
fn test_manifest_agent_assignment() {
    let config = cfg(2, 2, 5, "all", "bench.d%d_w%d.dir");
    let tree = DirectoryTree::new(config).unwrap();
    let mut manifest = TreeManifest::from_tree(&tree);
    manifest.assign_agents(3);
    assert_eq!(manifest.agent_assignments.len(), 3);
    let agent0_dirs = manifest.get_agent_dirs(0);
    let agent1_dirs = manifest.get_agent_dirs(1);
    let agent2_dirs = manifest.get_agent_dirs(2);
    let total_assigned = agent0_dirs.len() + agent1_dirs.len() + agent2_dirs.len();
    assert_eq!(total_assigned, 6);
    assert_eq!(agent0_dirs.len(), 2);
    assert_eq!(agent1_dirs.len(), 2);
    assert_eq!(agent2_dirs.len(), 2);
}

#[test]
fn test_manifest_config_validation() {
    let config = cfg(3, 2, 7, "bottom", "test.d%d_w%d.dir");
    let tree = DirectoryTree::new(config.clone()).unwrap();
    let manifest = TreeManifest::from_tree(&tree);
    assert!(manifest.validate_config(&config));
    let mut different_config = config.clone();
    different_config.width = 4;
    assert!(!manifest.validate_config(&different_config));
}

// ---------------------------------------------------------------------------
// Further cases: file ranges, paths, agent partitions.
// ---------------------------------------------------------------------------

#[test]
fn file_ranges_tile_the_index_space() {
    let tree = DirectoryTree::new(cfg(3, 2, 4, "all", "d%d_w%d")).unwrap();
    let manifest = TreeManifest::from_tree(&tree);
    assert_eq!(manifest.file_ranges.len(), 12);
    for (i, (_, (start, end))) in manifest.file_ranges.iter().enumerate() {
        assert_eq!(*start, i * 4);
        assert_eq!(*end, i * 4 + 4);
    }
    assert_eq!(manifest.total_files, 48);
}

#[test]
fn file_names_and_paths() {
    let tree = DirectoryTree::new(cfg(2, 1, 3, "all", "d%d_w%d")).unwrap();
    let manifest = TreeManifest::from_tree(&tree);
    assert_eq!(manifest.get_file_name(7), "file_00000007.dat");
    assert_eq!(manifest.get_file_name(123456789), "file_123456789.dat");
    assert_eq!(manifest.get_file_path(0).unwrap(), "d1_w1/file_00000000.dat");
    assert_eq!(manifest.get_file_path(4).unwrap(), "d1_w2/file_00000004.dat");
    assert!(manifest.get_file_path(6).is_none());
    assert_eq!(manifest.get_file_range("d1_w2"), Some(&(3, 6)));
    assert!(manifest.get_file_range("nope").is_none());
    assert_eq!(
        manifest.get_files_in_directory("d1_w1"),
        vec!["file_00000000.dat", "file_00000001.dat", "file_00000002.dat"]
    );
    assert!(manifest.get_files_in_directory("nope").is_empty());
}

#[test]
fn agent_file_partition() {
    let tree = DirectoryTree::new(cfg(2, 1, 5, "all", "d%d_w%d")).unwrap();
    let manifest = TreeManifest::from_tree(&tree);
    assert_eq!(manifest.get_agent_file_indices(1, 3), vec![1, 4, 7]);
    assert_eq!(manifest.get_agent_file_indices(0, 1), (0..10).collect::<Vec<_>>());
    assert!(manifest.should_agent_handle_file(5, 2, 3));
    assert!(!manifest.should_agent_handle_file(5, 1, 3));
    assert!(manifest.should_agent_handle_file(5, 7, 0));
    let mut seen = vec![0; 10];
    for agent in 0..3 {
        for i in manifest.get_agent_file_indices(agent, 3) {
            seen[i] += 1;
        }
    }
    assert!(seen.iter().all(|&c| c == 1));
    assert_eq!(
        manifest.get_agent_file_paths(1, 3),
        vec!["d1_w1/file_00000001.dat", "d1_w1/file_00000004.dat", "d1_w2/file_00000007.dat"]
    );
}

#[test]
fn round_robin_directories() {
    let tree = DirectoryTree::new(cfg(7, 1, 0, "all", "d%d_w%d")).unwrap();
    let mut manifest = TreeManifest::from_tree(&tree);
    manifest.assign_agents(3);
    assert_eq!(manifest.get_agent_dirs(0), vec!["d1_w1", "d1_w4", "d1_w7"]);
    assert_eq!(manifest.get_agent_dirs(1), vec!["d1_w2", "d1_w5"]);
    assert_eq!(manifest.get_agent_dirs(2), vec!["d1_w3", "d1_w6"]);
    assert!(manifest.get_agent_dirs(3).is_empty());
    manifest.assign_agents(0);
    assert_eq!(manifest.agent_assignments.len(), 3);
}

#[test]
fn invalid_distribution_and_zero_files() {
    let tree = DirectoryTree::new(cfg(2, 2, 0, "bottom", "d%d_w%d")).unwrap();
    assert_eq!(tree.total_files(), 0);
    let manifest = TreeManifest::from_tree(&tree);
    assert!(manifest.file_ranges.is_empty());
    assert!(manifest.get_file_path(0).is_none());
}

#[test]
fn config_accessor_and_defaults() {
    let tree = DirectoryTree::new(cfg(2, 1, 1, "all", "x%d_%d")).unwrap();
    assert_eq!(tree.config().width, 2);
    assert_eq!(sai3_bench::directory_tree::default_distribution(), "bottom");
    assert_eq!(sai3_bench::directory_tree::default_dir_mask(), "sai3bench.d%d_w%d.dir");
}

#[test]
fn tree_error_messages() {
    let e = DirectoryTree::new(cfg(0, 1, 0, "bottom", "m%d_%d")).unwrap_err();
    assert_eq!(e.message(), "Directory width must be at least 1");
    let e = DirectoryTree::new(cfg(1, 0, 0, "bottom", "m%d_%d")).unwrap_err();
    assert_eq!(e.message(), "Directory depth must be at least 1");
    let e = DirectoryTree::new(cfg(1, 1, 0, "top", "m%d_%d")).unwrap_err();
    assert_eq!(e.message(), "Invalid distribution strategy: 'top'. Must be 'bottom' or 'all'");
}

#[test]
fn test_all_paths_distinct_with_default_mask() {
    let config = cfg(3, 3, 0, "bottom", "sai3bench.d%d_w%d.dir");
    let tree = DirectoryTree::new(config).unwrap();
    let paths = tree.all_paths();
    assert_eq!(paths.len(), tree.total_directories());
    for i in 0..paths.len() {
        for j in (i + 1)..paths.len() {
            assert_ne!(paths[i], paths[j]);
        }
        assert!(paths[i].matches('/').count() < 3);
    }
}

#[test]
fn test_file_names_and_paths_read_back_their_index() {
    let tree = DirectoryTree::new(cfg(3, 2, 4, "bottom", "d%d_w%d")).unwrap();
    let manifest = TreeManifest::from_tree(&tree);
    for i in [0usize, 1, 7, 35, 99_999_999, 123_456_789] {
        assert_eq!(extract_file_index_from_path(&manifest.get_file_name(i)), Some(i));
    }
    for i in 0..manifest.total_files {
        let p = manifest.get_file_path(i).unwrap();
        assert_eq!(extract_file_index_from_path(&p), Some(i));
    }
}

#[test]
fn test_paths_extend_a_path_of_the_level_above() {
    let tree = DirectoryTree::new(cfg(3, 3, 0, "bottom", "sai3bench.d%d_w%d.dir")).unwrap();
    for level in 2..=3 {
        let above = tree.paths_at_level(level - 1).unwrap();
        for p in tree.paths_at_level(level).unwrap() {
            let cut = p.rfind('/').unwrap();
            assert!(above.iter().any(|q| q.as_str() == &p[..cut]));
            assert_eq!(p.matches('/').count(), level - 1);
        }
    }
}

#[test]
fn test_compute_file_ranges_twice_changes_nothing() {
    let tree = DirectoryTree::new(cfg(2, 3, 5, "all", "d%d_w%d")).unwrap();
    let mut manifest = TreeManifest::from_tree(&tree);
    manifest.compute_file_ranges();
    let ranges = manifest.file_ranges.clone();
    let total = manifest.total_files;
    manifest.compute_file_ranges();
    assert_eq!(manifest.file_ranges, ranges);
    assert_eq!(manifest.total_files, total);
    assert_eq!(total, 14 * 5);
}
