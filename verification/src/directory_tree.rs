//! Hierarchical directory tree generation (width/depth model) and the tree
//! manifest shared between agents.
//!
//! A tree of width `w` and depth `d` holds `w^l` directories at level `l`
//! (`1 <= l <= d`).  Directory `g` (1-based, global within its level) at level
//! `l` is child number `((g - 1) % w) + 1` of directory `((g - 1) / w) + 1` at
//! level `l - 1`; its name is the directory mask with the first `%d` replaced
//! by the level and the next `%d` by the child number.

use std::collections::hash_map::DefaultHasher;
use std::collections::HashMap;
use std::hash::Hasher;
use vstd::std_specs::hash::DefaultHasherAdditionalSpecFns;
use vstd::utf8::encode_utf8;
use vstd::prelude::*;
use vstd::string::*;
use crate::text::{
    all_ascii_digits, dec, digits_value, hex, is_ascii_digit, lemma_dec_digits, str_eq, u64_to_dec,
    u64_to_dec_padded, u64_to_hex, zero_pad, last_index_of, lemma_last_index_of_concat,
};

verus! {

broadcast use {vstd::string::group_string_axioms, vstd::std_specs::hash::group_hash_axioms};

/// Configuration for hierarchical directory structure generation.
#[derive(Debug, Clone)]
pub struct DirectoryStructureConfig {
    /// Number of subdirectories per directory level.
    pub width: usize,
    /// Number of levels in the directory tree (1 = flat, 2+ = nested).
    pub depth: usize,
    /// Number of files to create in each directory that holds files.
    pub files_per_dir: usize,
    /// File distribution strategy: "bottom" (only at the deepest level) or "all".
    pub distribution: String,
    /// Directory naming pattern with two `%d` placeholders (level, child number).
    pub dir_mask: String,
}

/// The distribution strategy that puts files only in the deepest directories.
pub open spec fn is_bottom(dist: Seq<char>) -> bool {
    dist == "bottom"@
}

/// The distribution strategy that puts files in every directory.
pub open spec fn is_all(dist: Seq<char>) -> bool {
    dist == "all"@
}

/// Default distribution strategy (`"bottom"`).
pub fn default_distribution() -> (s: String)
    ensures
        s@ == "bottom"@,
{
    let mut s = String::new();
    s.append("bottom");
    s
}

/// Default directory mask (`"sai3bench.d%d_w%d.dir"`).
pub fn default_dir_mask() -> (s: String)
    ensures
        s@ == "sai3bench.d%d_w%d.dir"@,
{
    let mut s = String::new();
    s.append("sai3bench.d%d_w%d.dir");
    s
}

/// Index of the first `%d` in `s` at or after `from`.
pub open spec fn find_pct_d(s: Seq<char>, from: nat) -> Option<nat>
    decreases s.len() - from,
{
    if from + 1 >= s.len() {
        None
    } else if s[from as int] == '%' && s[from + 1 as int] == 'd' {
        Some(from)
    } else {
        find_pct_d(s, from + 1)
    }
}

/// `s.replacen("%d", rep, 1)`.
pub open spec fn replace_first_pct_d(s: Seq<char>, rep: Seq<char>) -> Seq<char> {
    match find_pct_d(s, 0) {
        Some(i) => s.subrange(0, i as int) + rep + s.subrange(i + 2 as int, s.len() as int),
        None => s,
    }
}

/// Name of a directory at `level` that is child number `child` of its parent.
pub open spec fn dir_name_spec(mask: Seq<char>, level: nat, child: nat) -> Seq<char> {
    replace_first_pct_d(replace_first_pct_d(mask, dec(level)), dec(child))
}

/// Number of directories at `level`: `w^level`.
pub open spec fn dirs_at_level(w: nat, level: nat) -> nat
    decreases level,
{
    if level == 0 {
        1
    } else {
        w * dirs_at_level(w, (level - 1) as nat)
    }
}

/// Total number of directories of a tree: `w^1 + ... + w^d`.
pub open spec fn total_dirs_spec(w: nat, d: nat) -> nat
    decreases d,
{
    if d == 0 {
        0
    } else {
        total_dirs_spec(w, (d - 1) as nat) + dirs_at_level(w, d)
    }
}

/// Child number (1-based) of global directory `g` within its parent.
pub open spec fn child_index(w: nat, g: nat) -> nat {
    ((g - 1) % (w as int) + 1) as nat
}

/// Global index (1-based) of the parent of global directory `g`.
pub open spec fn parent_index(w: nat, g: nat) -> nat {
    ((g - 1) / (w as int) + 1) as nat
}

/// Full relative path of global directory `g` at `level`.
pub open spec fn node_path(mask: Seq<char>, w: nat, level: nat, g: nat) -> Seq<char>
    decreases level,
{
    let name = dir_name_spec(mask, level, child_index(w, g));
    if level <= 1 {
        name
    } else {
        node_path(mask, w, (level - 1) as nat, parent_index(w, g)) + seq!['/'] + name
    }
}

/// Every directory of a level is a child of a directory one level up: its
/// child number lies between 1 and the width, its parent's number lies within
/// the level above, the two numbers give its own number back, and its path is
/// its parent's path, a `/` and its name (at the top level, just its name).
pub proof fn law_node_parent(mask: Seq<char>, w: nat, level: nat, g: nat)
    requires
        w >= 1,
        level >= 1,
        1 <= g <= dirs_at_level(w, level),
    ensures
        1 <= child_index(w, g) <= w,
        g == (parent_index(w, g) - 1) * w + child_index(w, g),
        level == 1 ==> node_path(mask, w, level, g) == dir_name_spec(mask, 1, child_index(w, g)),
        level > 1 ==> 1 <= parent_index(w, g) <= dirs_at_level(w, (level - 1) as nat)
            && node_path(mask, w, level, g) == node_path(mask, w, (level - 1) as nat, parent_index(w, g))
            + seq!['/'] + dir_name_spec(mask, level, child_index(w, g)),
{
    let x = (g - 1) as int;
    let q = x / (w as int);
    let r = x % (w as int);
    vstd::arithmetic::div_mod::lemma_fundamental_div_mod(x, w as int);
    vstd::arithmetic::div_mod::lemma_mod_bound(x, w as int);
    assert(q >= 0) by (nonlinear_arith)
        requires
            x >= 0,
            w >= 1,
            q == x / (w as int),
    ;
    assert(x == (q + 1 - 1) * w + r) by (nonlinear_arith)
        requires
            x == w * q + r,
    ;
    if level > 1 {
        let dp = dirs_at_level(w, (level - 1) as nat);
        assert(dirs_at_level(w, level) == w * dp);
        assert(q < dp) by (nonlinear_arith)
            requires
                x == w * q + r,
                0 <= r,
                x < w * dp,
                w >= 1,
        ;
    }
}

/// Paths of all directories at `level`, in global-index order.
pub open spec fn level_paths_spec(mask: Seq<char>, w: nat, level: nat) -> Seq<Seq<char>> {
    Seq::new(dirs_at_level(w, level), |i: int| node_path(mask, w, level, (i + 1) as nat))
}

/// Paths of all directories of a tree, level by level.
pub open spec fn all_paths_spec(mask: Seq<char>, w: nat, d: nat) -> Seq<Seq<char>>
    decreases d,
{
    if d == 0 {
        Seq::empty()
    } else {
        all_paths_spec(mask, w, (d - 1) as nat) + level_paths_spec(mask, w, d)
    }
}

/// Total number of files a configuration asks for.
pub open spec fn total_files_spec(cfg: DirectoryStructureConfig) -> nat {
    if is_bottom(cfg.distribution@) {
        dirs_at_level(cfg.width as nat, cfg.depth as nat) * (cfg.files_per_dir as nat)
    } else if is_all(cfg.distribution@) {
        total_dirs_spec(cfg.width as nat, cfg.depth as nat) * (cfg.files_per_dir as nat)
    } else {
        0
    }
}

/// Whether a directory at `level` holds files.
pub open spec fn has_files_spec(cfg: DirectoryStructureConfig, level: nat) -> bool {
    if is_bottom(cfg.distribution@) {
        level == cfg.depth
    } else {
        is_all(cfg.distribution@)
    }
}

/// A configuration whose tree sizes fit in a `usize` (larger ones overflow).
pub open spec fn tree_fits(cfg: DirectoryStructureConfig) -> bool {
    cfg.width == 0 || cfg.depth == 0 || (total_dirs_spec(cfg.width as nat, cfg.depth as nat)
        <= usize::MAX && total_files_spec(cfg) <= usize::MAX)
}

/// The views of a sequence of strings.
pub open spec fn views(v: Seq<String>) -> Seq<Seq<char>> {
    v.map_values(|s: String| s@)
}

pub proof fn lemma_dirs_at_level_pos(w: nat, level: nat)
    requires
        w >= 1,
    ensures
        dirs_at_level(w, level) >= 1,
    decreases level,
{
    if level > 0 {
        lemma_dirs_at_level_pos(w, (level - 1) as nat);
        assert(w * dirs_at_level(w, (level - 1) as nat) >= dirs_at_level(w, (level - 1) as nat))
            by (nonlinear_arith)
            requires
                w >= 1,
        ;
    }
}

pub proof fn lemma_level_le_total(w: nat, level: nat, d: nat)
    requires
        1 <= level <= d,
    ensures
        dirs_at_level(w, level) <= total_dirs_spec(w, d),
        total_dirs_spec(w, level) <= total_dirs_spec(w, d),
    decreases d,
{
    if level < d {
        lemma_level_le_total(w, level, (d - 1) as nat);
    }
}

/// Position of the first `%d` in `s`, scanning from the start.
fn find_pct_d_exec(s: &str) -> (r: Option<usize>)
    ensures
        match r {
            Some(i) => find_pct_d(s@, 0) == Some(i as nat) && i + 1 < s@.len(),
            None => find_pct_d(s@, 0) is None,
        },
{
    let n = s.unicode_len();
    let mut i: usize = 0;
    while n > 0 && i < n - 1
        invariant
            n == s@.len(),
            i <= n,
            find_pct_d(s@, 0) == find_pct_d(s@, i as nat),
        decreases n - i,
    {
        if s.get_char(i) == '%' && s.get_char(i + 1) == 'd' {
            return Some(i);
        }
        i = i + 1;
    }
    None
}

/// `s.replacen("%d", rep, 1)`.
fn replace_first_pct_d_exec(s: &str, rep: &str) -> (r: String)
    ensures
        r@ == replace_first_pct_d(s@, rep@),
{
    let mut r = String::new();
    match find_pct_d_exec(s) {
        Some(i) => {
            let n = s.unicode_len();
            r.append(s.substring_char(0, i));
            r.append(rep);
            r.append(s.substring_char(i + 2, n));
        },
        None => {
            r.append(s);
        },
    }
    r
}

/// Name of a directory: the mask with level and child number substituted.
fn dir_name(mask: &str, level: usize, child: usize) -> (r: String)
    ensures
        r@ == dir_name_spec(mask@, level as nat, child as nat),
{
    let level_s = u64_to_dec(level as u64);
    let first = replace_first_pct_d_exec(mask, level_s.as_str());
    let child_s = u64_to_dec(child as u64);
    replace_first_pct_d_exec(first.as_str(), child_s.as_str())
}

/// A node in the directory tree representing a single directory.
#[derive(Debug, Clone)]
pub struct DirectoryNode {
    /// Depth level (1-indexed).
    pub depth: usize,
    /// Child number within the parent (1-indexed).
    pub width: usize,
    /// Full path relative to the anchor, including all parent directories.
    pub full_path: String,
    /// This directory's own name.
    pub dir_name: String,
    /// Whether this directory holds files under the distribution strategy.
    pub has_files: bool,
}

/// The node that a configuration gives global directory `g` at `level`.
pub open spec fn node_spec(cfg: DirectoryStructureConfig, node: DirectoryNode, level: nat, g: nat) -> bool {
    &&& node.depth == level
    &&& node.width == child_index(cfg.width as nat, g)
    &&& node.full_path@ == node_path(cfg.dir_mask@, cfg.width as nat, level, g)
    &&& node.dir_name@ == dir_name_spec(cfg.dir_mask@, level, child_index(cfg.width as nat, g))
    &&& node.has_files == has_files_spec(cfg, level)
}

/// Errors of tree construction.
#[derive(Debug, Clone)]
pub enum TreeError {
    /// The width is zero.
    ZeroWidth,
    /// The depth is zero.
    ZeroDepth,
    /// The distribution strategy is neither "bottom" nor "all".
    InvalidDistribution(String),
}

impl TreeError {
    /// The human-readable message of the error.
    pub fn message(&self) -> (r: String)
        ensures
            r@ == match *self {
                TreeError::ZeroWidth => "Directory width must be at least 1"@,
                TreeError::ZeroDepth => "Directory depth must be at least 1"@,
                TreeError::InvalidDistribution(d) => "Invalid distribution strategy: '"@ + d@
                    + "'. Must be 'bottom' or 'all'"@,
            },
    {
        let mut m = String::new();
        match self {
            TreeError::ZeroWidth => m.append("Directory width must be at least 1"),
            TreeError::ZeroDepth => m.append("Directory depth must be at least 1"),
            TreeError::InvalidDistribution(d) => {
                m.append("Invalid distribution strategy: '");
                m.append(d.as_str());
                m.append("'. Must be 'bottom' or 'all'");
            },
        }
        m
    }
}

/// Directory tree structure with all paths pre-computed.
#[derive(Debug, Clone)]
pub struct DirectoryTree {
    config: DirectoryStructureConfig,
    /// Directory nodes by level (entry `l - 1` holds level `l`), in global-index order.
    directories: Vec<Vec<DirectoryNode>>,
    /// All directory paths, in the same order.
    all_paths: Vec<String>,
    /// Directory paths by level (entry `l - 1` holds level `l`).
    by_level: Vec<Vec<String>>,
    total_directories: usize,
    total_files: usize,
}


/// Whether `s` is exactly `"bottom"`.
fn is_bottom_exec(s: &str) -> (b: bool)
    ensures
        b == is_bottom(s@),
{
    str_eq(s, "bottom")
}

/// Whether `s` is exactly `"all"`.
fn is_all_exec(s: &str) -> (b: bool)
    ensures
        b == is_all(s@),
{
    str_eq(s, "all")
}

impl DirectoryTree {
    /// The configuration the tree was built from.
    pub closed spec fn spec_config(&self) -> DirectoryStructureConfig {
        self.config
    }

    /// Well-formedness: every stored path, node and count is the one the
    /// configuration determines.
    pub closed spec fn inv(&self) -> bool {
        let cfg = self.config;
        let w = cfg.width as nat;
        let d = cfg.depth as nat;
        &&& w >= 1
        &&& d >= 1
        &&& (is_bottom(cfg.distribution@) || is_all(cfg.distribution@))
        &&& self.by_level@.len() == d
        &&& self.directories@.len() == d
        &&& forall|l: int|
            0 <= l < d ==> views(#[trigger] self.by_level@[l]@) == level_paths_spec(
                cfg.dir_mask@,
                w,
                (l + 1) as nat,
            )
        &&& forall|l: int|
            0 <= l < d ==> (#[trigger] self.directories@[l])@.len() == dirs_at_level(
                w,
                (l + 1) as nat,
            )
        &&& forall|l: int, i: int|
            0 <= l < d && 0 <= i < self.directories@[l]@.len() ==> node_spec(
                cfg,
                #[trigger] self.directories@[l]@[i],
                (l + 1) as nat,
                (i + 1) as nat,
            )
        &&& views(self.all_paths@) == all_paths_spec(cfg.dir_mask@, w, d)
        &&& self.total_directories == total_dirs_spec(w, d)
        &&& self.total_files == total_files_spec(cfg)
    }

    /// Create a single directory node: global directory `global_width_idx` at
    /// level `depth`, whose parent path is read from the previous level.
    fn create_node(&self, depth: usize, global_width_idx: usize) -> (node: DirectoryNode)
        requires
            self.config.width >= 1,
            1 <= depth,
            1 <= global_width_idx <= dirs_at_level(self.config.width as nat, depth as nat),
            depth >= 2 ==> self.by_level@.len() >= depth - 1 && views(
                self.by_level@[depth - 2]@,
            ) == level_paths_spec(
                self.config.dir_mask@,
                self.config.width as nat,
                (depth - 1) as nat,
            ),
        ensures
            node_spec(self.config, node, depth as nat, global_width_idx as nat),
    {
        let w = self.config.width;
        let local_width = ((global_width_idx - 1) % w) + 1;
        let name = dir_name(self.config.dir_mask.as_str(), depth, local_width);
        let full_path = if depth == 1 {
            name.clone()
        } else {
            let parent_global_idx = ((global_width_idx - 1) / w) + 1;
            proof {
                let p = dirs_at_level(w as nat, (depth - 1) as nat);
                let x = (global_width_idx - 1) as int;
                assert(dirs_at_level(w as nat, depth as nat) == w * p);
                assert(x / (w as int) < p) by (nonlinear_arith)
                    requires
                        0 <= x < w * p,
                        w >= 1,
                ;
                assert(level_paths_spec(self.config.dir_mask@, w as nat, (depth - 1) as nat).len() == p);
                assert(views(self.by_level@[depth - 2]@).len() == p);
                assert(self.by_level@[depth - 2]@.len() == p);
            }
            let parent_path = &self.by_level[depth - 2][parent_global_idx - 1];
            proof {
                assert(views(self.by_level@[depth - 2]@)[parent_global_idx - 1] == parent_path@);
            }
            let mut p = parent_path.clone();
            p.append("/");
            p.append(name.as_str());
            p
        };
        let has_files = if is_bottom_exec(self.config.distribution.as_str()) {
            depth == self.config.depth
        } else {
            is_all_exec(self.config.distribution.as_str())
        };
        proof {
            reveal_strlit("/");
            let wn = w as nat;
            let g = global_width_idx as nat;
            assert(local_width == child_index(wn, g));
            assert(name@ == dir_name_spec(self.config.dir_mask@, depth as nat, child_index(wn, g)));
            assert(full_path@ == node_path(self.config.dir_mask@, wn, depth as nat, g));
            assert(has_files == has_files_spec(self.config, depth as nat));
        }
        DirectoryNode { depth, width: local_width, full_path, dir_name: name, has_files }
    }

    /// Generate the complete directory tree structure level by level.
    fn generate(&mut self) -> (r: Result<(), TreeError>)
        requires
            old(self).config.width >= 1,
            old(self).config.depth >= 1,
            tree_fits(old(self).config),
            old(self).by_level@.len() == 0,
            old(self).directories@.len() == 0,
            old(self).all_paths@.len() == 0,
        ensures
            final(self).config == old(self).config,
            match r {
                Ok(()) => final(self).inv(),
                Err(e) => !is_bottom(old(self).config.distribution@) && !is_all(
                    old(self).config.distribution@,
                ) && (e matches TreeError::InvalidDistribution(d) && d@ == old(
                    self,
                ).config.distribution@),
            },
    {
        let w = self.config.width;
        let d = self.config.depth;
        let ghost cfg = self.config;
        let ghost mask = self.config.dir_mask@;
        let mut total: usize = 0;
        let mut count: usize = 1;
        let mut done: usize = 0;
        assert(views(self.all_paths@) =~= all_paths_spec(mask, w as nat, 0));
        while done < d
            invariant
                self.config == cfg,
                cfg.dir_mask@ == mask,
                w == cfg.width,
                d == cfg.depth,
                w >= 1,
                d >= 1,
                tree_fits(cfg),
                done <= d,
                count == dirs_at_level(w as nat, done as nat),
                total == total_dirs_spec(w as nat, done as nat),
                self.by_level@.len() == done,
                self.directories@.len() == done,
                forall|l: int|
                    0 <= l < done ==> views(#[trigger] self.by_level@[l]@) == level_paths_spec(
                        mask,
                        w as nat,
                        (l + 1) as nat,
                    ),
                forall|l: int|
                    0 <= l < done ==> (#[trigger] self.directories@[l])@.len() == dirs_at_level(
                        w as nat,
                        (l + 1) as nat,
                    ),
                forall|l: int, i: int|
                    0 <= l < done && 0 <= i < self.directories@[l]@.len() ==> node_spec(
                        cfg,
                        #[trigger] self.directories@[l]@[i],
                        (l + 1) as nat,
                        (i + 1) as nat,
                    ),
                views(self.all_paths@) == all_paths_spec(mask, w as nat, done as nat),
            decreases d - done,
        {
            let level = done + 1;
            proof {
                lemma_level_le_total(w as nat, level as nat, d as nat);
                assert(dirs_at_level(w as nat, level as nat) == w * dirs_at_level(
                    w as nat,
                    done as nat,
                ));
            }
            count = count * w;
            total = total + count;
            let mut level_paths: Vec<String> = Vec::new();
            let mut level_nodes: Vec<DirectoryNode> = Vec::new();
            let ghost start_paths = views(self.all_paths@);
            let mut i: usize = 0;
            while i < count
                invariant
                    self.config == cfg,
                    cfg.dir_mask@ == mask,
                    w == cfg.width,
                    d == cfg.depth,
                    w >= 1,
                    1 <= level <= d,
                    level == done + 1,
                    count == dirs_at_level(w as nat, level as nat),
                    i <= count,
                    self.by_level@.len() == done,
                    self.directories@.len() == done,
                    forall|l: int|
                        0 <= l < done ==> views(#[trigger] self.by_level@[l]@) == level_paths_spec(
                            mask,
                            w as nat,
                            (l + 1) as nat,
                        ),
                    forall|l: int|
                        0 <= l < done ==> (#[trigger] self.directories@[l])@.len() == dirs_at_level(
                            w as nat,
                            (l + 1) as nat,
                        ),
                    forall|l: int, j: int|
                        0 <= l < done && 0 <= j < self.directories@[l]@.len() ==> node_spec(
                            cfg,
                            #[trigger] self.directories@[l]@[j],
                            (l + 1) as nat,
                            (j + 1) as nat,
                        ),
                    level_paths@.len() == i,
                    level_nodes@.len() == i,
                    forall|j: int|
                        0 <= j < i ==> (#[trigger] level_paths@[j])@ == node_path(
                            mask,
                            w as nat,
                            level as nat,
                            (j + 1) as nat,
                        ),
                    forall|j: int|
                        0 <= j < i ==> node_spec(
                            cfg,
                            #[trigger] level_nodes@[j],
                            level as nat,
                            (j + 1) as nat,
                        ),
                    start_paths == all_paths_spec(mask, w as nat, done as nat),
                    views(self.all_paths@) == start_paths + views(level_paths@),
                decreases count - i,
            {
                let node = self.create_node(level, i + 1);
                let ghost old_all = self.all_paths@;
                let ghost old_level = level_paths@;
                let p1 = node.full_path.clone();
                let p2 = node.full_path.clone();
                level_paths.push(p1);
                self.all_paths.push(p2);
                level_nodes.push(node);
                proof {
                    assert(views(self.all_paths@) =~= views(old_all).push(p2@));
                    assert(views(level_paths@) =~= views(old_level).push(p1@));
                    assert(views(self.all_paths@) =~= start_paths + views(level_paths@));
                }
                i = i + 1;
            }
            proof {
                assert(views(level_paths@) =~= level_paths_spec(mask, w as nat, level as nat));
                assert(all_paths_spec(mask, w as nat, level as nat) == all_paths_spec(
                    mask,
                    w as nat,
                    done as nat,
                ) + level_paths_spec(mask, w as nat, level as nat));
            }
            self.by_level.push(level_paths);
            self.directories.push(level_nodes);
            done = done + 1;
        }
        self.total_directories = total;
        if is_bottom_exec(self.config.distribution.as_str()) {
            self.total_files = count * self.config.files_per_dir;
        } else if is_all_exec(self.config.distribution.as_str()) {
            self.total_files = total * self.config.files_per_dir;
        } else {
            return Err(TreeError::InvalidDistribution(self.config.distribution.clone()));
        }
        Ok(())
    }

    /// Create a new directory tree from a configuration.
    pub fn new(config: DirectoryStructureConfig) -> (r: Result<Self, TreeError>)
        requires
            tree_fits(config),
        ensures
            config.width == 0 ==> r == Err::<Self, TreeError>(TreeError::ZeroWidth),
            config.width != 0 && config.depth == 0 ==> r == Err::<Self, TreeError>(
                TreeError::ZeroDepth,
            ),
            config.width != 0 && config.depth != 0 && !is_bottom(config.distribution@) && !is_all(
                config.distribution@,
            ) ==> (r matches Err(TreeError::InvalidDistribution(d)) && d@ == config.distribution@),
            config.width != 0 && config.depth != 0 && (is_bottom(config.distribution@) || is_all(
                config.distribution@,
            ))
                ==> (r matches Ok(t) && t.inv() && t.spec_config() == config),
    {
        if config.width == 0 {
            return Err(TreeError::ZeroWidth);
        }
        if config.depth == 0 {
            return Err(TreeError::ZeroDepth);
        }
        let mut tree = DirectoryTree {
            config,
            directories: Vec::new(),
            all_paths: Vec::new(),
            by_level: Vec::new(),
            total_directories: 0,
            total_files: 0,
        };
        match tree.generate() {
            Ok(()) => Ok(tree),
            Err(e) => Err(e),
        }
    }

    /// All directory paths, level by level.
    pub fn all_paths(&self) -> (r: &[String])
        requires
            self.inv(),
        ensures
            views(r@) == all_paths_spec(
                self.spec_config().dir_mask@,
                self.spec_config().width as nat,
                self.spec_config().depth as nat,
            ),
    {
        self.all_paths.as_slice()
    }

    /// Directory paths at one level, or `None` outside `1..=depth`.
    pub fn paths_at_level(&self, level: usize) -> (r: Option<&[String]>)
        requires
            self.inv(),
        ensures
            match r {
                Some(p) => 1 <= level <= self.spec_config().depth && views(p@) == level_paths_spec(
                    self.spec_config().dir_mask@,
                    self.spec_config().width as nat,
                    level as nat,
                ),
                None => level < 1 || level > self.spec_config().depth,
            },
    {
        if level >= 1 && level <= self.config.depth {
            Some(self.by_level[level - 1].as_slice())
        } else {
            None
        }
    }

    /// Directory nodes at one level, or `None` outside `1..=depth`.
    pub fn directories_at_level(&self, level: usize) -> (r: Option<&[DirectoryNode]>)
        requires
            self.inv(),
        ensures
            match r {
                Some(nodes) => 1 <= level <= self.spec_config().depth && nodes@.len()
                    == dirs_at_level(self.spec_config().width as nat, level as nat) && forall|
                    i: int,
                |
                    0 <= i < nodes@.len() ==> node_spec(
                        self.spec_config(),
                        #[trigger] nodes@[i],
                        level as nat,
                        (i + 1) as nat,
                    ),
                None => level < 1 || level > self.spec_config().depth,
            },
    {
        if level >= 1 && level <= self.config.depth {
            Some(self.directories[level - 1].as_slice())
        } else {
            None
        }
    }

    /// Total number of directories: `w^1 + ... + w^d`.
    pub fn total_directories(&self) -> (r: usize)
        requires
            self.inv(),
        ensures
            r == total_dirs_spec(self.spec_config().width as nat, self.spec_config().depth as nat),
    {
        self.total_directories
    }

    /// Total number of files under the distribution strategy.
    pub fn total_files(&self) -> (r: usize)
        requires
            self.inv(),
        ensures
            r == total_files_spec(self.spec_config()),
    {
        self.total_files
    }

    /// The configuration the tree was built from.
    pub fn config(&self) -> (r: &DirectoryStructureConfig)
        ensures
            *r == self.spec_config(),
    {
        &self.config
    }
}


/// `k` is the largest key of `m`.
pub open spec fn is_max_key<V>(m: Map<usize, V>, k: usize) -> bool {
    m.dom().contains(k) && forall|j: usize| m.dom().contains(j) ==> j <= k
}

/// The largest level stored in a level map.
fn max_level(by_level: &HashMap<usize, Vec<String>>) -> (r: Option<usize>)
    ensures
        match r {
            Some(k) => is_max_key(by_level@, k),
            None => by_level@.dom().is_empty(),
        },
{
    let mut best: Option<usize> = None;
    let ghost ks = vstd::std_specs::iter::IteratorSpec::remaining(
        &vstd::std_specs::hash::spec_keys_iter(by_level),
    ).unref();
    let ghost mut seen: int = 0;
    for k in it: by_level.keys()
        invariant
            ks == it.seq().unref(),
            ks.to_set() == by_level@.dom(),
            seen == it.index(),
            match best {
                Some(b) => by_level@.dom().contains(b) && forall|j: int|
                    0 <= j < seen ==> ks[j] <= b,
                None => seen == 0,
            },
    {
        let kk = *k;
        match best {
            Some(b) => {
                if kk > b {
                    best = Some(kk);
                }
            },
            None => {
                best = Some(kk);
            },
        }
        assert(ks[seen] == kk);
        proof {
            seen = seen + 1;
        }
    }
    assert(seen == ks.len());
    match best {
        Some(b) => {
            assert forall|j: usize| by_level@.dom().contains(j) implies j <= b by {
                assert(ks.to_set().contains(j));
            }
        },
        None => {
            assert(by_level@.dom() =~= Set::empty());
        },
    }
    best
}


/// Number of occurrences of `c` in `s`.
pub open spec fn count_char(s: Seq<char>, c: char) -> nat
    decreases s.len(),
{
    if s.len() == 0 {
        0
    } else {
        count_char(s.drop_last(), c) + if s.last() == c { 1nat } else { 0nat }
    }
}

/// Whether a manifest gives files to the directory at `path`: under "bottom"
/// only to directories whose slash-counted depth is the deepest stored level.
pub open spec fn dir_gets_files(dist: Seq<char>, path: Seq<char>, max_depth: nat) -> bool {
    if is_bottom(dist) {
        count_char(path, '/') + 1 == max_depth
    } else {
        is_all(dist)
    }
}

/// File index ranges per directory: each directory that gets files takes the
/// next `fpd` global file indices, in directory order.
pub open spec fn file_ranges_spec(
    dirs: Seq<Seq<char>>,
    dist: Seq<char>,
    fpd: nat,
    max_depth: nat,
) -> Seq<(Seq<char>, (nat, nat))>
    decreases dirs.len(),
{
    if dirs.len() == 0 {
        Seq::empty()
    } else {
        let prev = file_ranges_spec(dirs.drop_last(), dist, fpd, max_depth);
        if fpd > 0 && dir_gets_files(dist, dirs.last(), max_depth) {
            prev.push((dirs.last(), (prev.len() * fpd, prev.len() * fpd + fpd)))
        } else {
            prev
        }
    }
}

/// The views of stored file ranges.
pub open spec fn ranges_view(v: Seq<(String, (usize, usize))>) -> Seq<(Seq<char>, (nat, nat))> {
    v.map_values(|e: (String, (usize, usize))| (e.0@, (e.1.0 as nat, e.1.1 as nat)))
}

/// The largest key of a non-empty level map.
pub open spec fn max_key<V>(m: Map<usize, V>) -> usize {
    choose|k: usize| is_max_key(m, k)
}

/// Little-endian bytes of a `u64`: what `Hash` feeds the hasher for a
/// `usize` on 64-bit little-endian targets.
pub open spec fn u64_le_bytes(x: u64) -> Seq<u8> {
    Seq::new(8, |i: int| ((x >> ((8 * i) as u64)) & 0xffu64) as u8)
}

/// The byte chunks that hashing a configuration writes: width, depth and
/// files-per-directory as integers, then distribution and mask as strings
/// (each string followed by the `0xff` terminator `Hash for str` writes).
pub open spec fn config_hash_input(cfg: DirectoryStructureConfig) -> Seq<Seq<u8>> {
    seq![
        u64_le_bytes(cfg.width as u64),
        u64_le_bytes(cfg.depth as u64),
        u64_le_bytes(cfg.files_per_dir as u64),
        encode_utf8(cfg.distribution@),
        seq![0xffu8],
        encode_utf8(cfg.dir_mask@),
        seq![0xffu8],
    ]
}

proof fn lemma_u64_le_bytes_injective(x: u64, y: u64)
    requires
        u64_le_bytes(x) == u64_le_bytes(y),
    ensures
        x == y,
{
    let bx = u64_le_bytes(x);
    let by = u64_le_bytes(y);
    assert(bx[0] == by[0]);
    assert(bx[1] == by[1]);
    assert(bx[2] == by[2]);
    assert(bx[3] == by[3]);
    assert(bx[4] == by[4]);
    assert(bx[5] == by[5]);
    assert(bx[6] == by[6]);
    assert(bx[7] == by[7]);
    assert(x == y) by (bit_vector)
        requires
            ((x >> 0u64) & 0xffu64) as u8 == ((y >> 0u64) & 0xffu64) as u8,
            ((x >> 8u64) & 0xffu64) as u8 == ((y >> 8u64) & 0xffu64) as u8,
            ((x >> 16u64) & 0xffu64) as u8 == ((y >> 16u64) & 0xffu64) as u8,
            ((x >> 24u64) & 0xffu64) as u8 == ((y >> 24u64) & 0xffu64) as u8,
            ((x >> 32u64) & 0xffu64) as u8 == ((y >> 32u64) & 0xffu64) as u8,
            ((x >> 40u64) & 0xffu64) as u8 == ((y >> 40u64) & 0xffu64) as u8,
            ((x >> 48u64) & 0xffu64) as u8 == ((y >> 48u64) & 0xffu64) as u8,
            ((x >> 56u64) & 0xffu64) as u8 == ((y >> 56u64) & 0xffu64) as u8,
    ;
}

/// The configuration hash reads every field: two configurations that feed
/// the hasher the same bytes agree in width, depth, files per directory,
/// distribution and mask.  So a manifest validates only against a
/// configuration equal to its own in all five, up to collisions of the
/// hash itself.
pub proof fn law_config_hash_input_injective(c1: DirectoryStructureConfig, c2: DirectoryStructureConfig)
    requires
        config_hash_input(c1) == config_hash_input(c2),
    ensures
        c1.width == c2.width,
        c1.depth == c2.depth,
        c1.files_per_dir == c2.files_per_dir,
        c1.distribution@ == c2.distribution@,
        c1.dir_mask@ == c2.dir_mask@,
{
    let a = config_hash_input(c1);
    let b = config_hash_input(c2);
    assert(a[0] == b[0] && a[1] == b[1] && a[2] == b[2] && a[3] == b[3] && a[5] == b[5]);
    lemma_u64_le_bytes_injective(c1.width as u64, c2.width as u64);
    lemma_u64_le_bytes_injective(c1.depth as u64, c2.depth as u64);
    lemma_u64_le_bytes_injective(c1.files_per_dir as u64, c2.files_per_dir as u64);
    vstd::utf8::encode_utf8_decode_utf8(c1.distribution@);
    vstd::utf8::encode_utf8_decode_utf8(c2.distribution@);
    vstd::utf8::encode_utf8_decode_utf8(c1.dir_mask@);
    vstd::utf8::encode_utf8_decode_utf8(c2.dir_mask@);
}

/// Hexadecimal `DefaultHasher` digest of a configuration.
pub open spec fn config_hash_spec(cfg: DirectoryStructureConfig) -> Seq<char> {
    hex(DefaultHasher::spec_finish(config_hash_input(cfg)) as nat)
}

/// Little-endian bytes of a `u64`.
fn u64_le_bytes_exec(x: u64) -> (r: Vec<u8>)
    ensures
        r@ == u64_le_bytes(x),
{
    let mut r: Vec<u8> = Vec::new();
    let mut i: u64 = 0;
    while i < 8
        invariant
            i <= 8,
            r@.len() == i,
            forall|j: int| 0 <= j < i ==> r@[j] == ((x >> ((8 * j) as u64)) & 0xffu64) as u8,
        decreases 8 - i,
    {
        r.push(((x >> (8 * i)) & 0xff) as u8);
        i = i + 1;
    }
    assert(r@ =~= u64_le_bytes(x));
    r
}

/// Copies of a sequence of strings.
fn clone_strings(v: &[String]) -> (r: Vec<String>)
    ensures
        views(r@) == views(v@),
{
    let mut r: Vec<String> = Vec::new();
    let mut i: usize = 0;
    while i < v.len()
        invariant
            i <= v@.len(),
            r@.len() == i,
            forall|j: int| 0 <= j < i ==> (#[trigger] r@[j])@ == v@[j]@,
        decreases v@.len() - i,
    {
        r.push(v[i].clone());
        i = i + 1;
    }
    assert(views(r@) =~= views(v@));
    r
}

/// Number of `'/'` characters in `s`.
fn count_slashes(s: &str) -> (r: usize)
    ensures
        r == count_char(s@, '/'),
{
    let n = s.unicode_len();
    let mut r: usize = 0;
    let mut i: usize = 0;
    while i < n
        invariant
            i <= n,
            n == s@.len(),
            r == count_char(s@.subrange(0, i as int), '/'),
            r <= i,
        decreases n - i,
    {
        assert(s@.subrange(0, i + 1).drop_last() =~= s@.subrange(0, i as int));
        if s.get_char(i) == '/' {
            r = r + 1;
        }
        i = i + 1;
    }
    assert(s@.subrange(0, n as int) =~= s@);
    r
}

pub proof fn lemma_file_ranges_prefix_len(
    dirs: Seq<Seq<char>>,
    dist: Seq<char>,
    fpd: nat,
    md: nat,
    i: int,
)
    requires
        0 <= i <= dirs.len(),
    ensures
        file_ranges_spec(dirs.subrange(0, i), dist, fpd, md).len() <= file_ranges_spec(
            dirs,
            dist,
            fpd,
            md,
        ).len(),
    decreases dirs.len(),
{
    if i < dirs.len() {
        assert(dirs.drop_last().subrange(0, i) =~= dirs.subrange(0, i));
        lemma_file_ranges_prefix_len(dirs.drop_last(), dist, fpd, md, i);
    } else {
        assert(dirs.subrange(0, i) =~= dirs);
    }
}

/// File ranges of the manifest of a tree built from `cfg`.
pub open spec fn tree_ranges_spec(cfg: DirectoryStructureConfig) -> Seq<(Seq<char>, (nat, nat))> {
    file_ranges_spec(
        all_paths_spec(cfg.dir_mask@, cfg.width as nat, cfg.depth as nat),
        cfg.distribution@,
        cfg.files_per_dir as nat,
        cfg.depth as nat,
    )
}

/// A configuration whose manifest's file indices fit in a `usize`.
pub open spec fn manifest_fits(cfg: DirectoryStructureConfig) -> bool {
    tree_ranges_spec(cfg).len() * cfg.files_per_dir <= usize::MAX
}

/// The level map of a tree: levels `1..=depth`, each with its paths.
pub open spec fn level_map_spec(m: Map<usize, Vec<String>>, cfg: DirectoryStructureConfig) -> bool {
    &&& forall|k: usize| m.dom().contains(k) <==> 1 <= k <= cfg.depth
    &&& forall|k: usize|
        1 <= k <= cfg.depth ==> views(#[trigger] m[k]@) == level_paths_spec(
            cfg.dir_mask@,
            cfg.width as nat,
            k as nat,
        )
}

/// Standardized name of a global file index: `file_{idx:08}.dat`.
pub open spec fn file_name_spec(idx: nat) -> Seq<char> {
    "file_"@ + zero_pad(dec(idx), 8) + ".dat"@
}

/// Names of the files with indices `start..end`.
pub open spec fn names_in_range(start: nat, end: nat) -> Seq<Seq<char>> {
    Seq::new(if end > start { (end - start) as nat } else { 0 }, |j: int| file_name_spec((start + j) as nat))
}

/// Position of the first range of directory `dir`, searching from `from`.
pub open spec fn find_dir_range(r: Seq<(Seq<char>, (nat, nat))>, dir: Seq<char>, from: nat) -> Option<nat>
    decreases r.len() - from,
{
    if from >= r.len() {
        None
    } else if r[from as int].0 == dir {
        Some(from)
    } else {
        find_dir_range(r, dir, from + 1)
    }
}

/// Position of the first range containing file index `idx`, searching from `from`.
pub open spec fn find_idx_range(r: Seq<(Seq<char>, (nat, nat))>, idx: nat, from: nat) -> Option<nat>
    decreases r.len() - from,
{
    if from >= r.len() {
        None
    } else if r[from as int].1.0 <= idx < r[from as int].1.1 {
        Some(from)
    } else {
        find_idx_range(r, idx, from + 1)
    }
}

/// Path of the file with global index `idx`, in the first directory whose range holds it.
pub open spec fn file_path_spec(r: Seq<(Seq<char>, (nat, nat))>, idx: nat) -> Option<Seq<char>> {
    match find_idx_range(r, idx, 0) {
        Some(k) => Some(r[k as int].0 + "/"@ + file_name_spec(idx)),
        None => None,
    }
}

/// Paths of a sequence of file indices, skipping indices outside every range.
pub open spec fn paths_of_indices(r: Seq<(Seq<char>, (nat, nat))>, idxs: Seq<nat>) -> Seq<Seq<char>>
    decreases idxs.len(),
{
    if idxs.len() == 0 {
        Seq::empty()
    } else {
        let prev = paths_of_indices(r, idxs.drop_last());
        match file_path_spec(r, idxs.last()) {
            Some(p) => prev.push(p),
            None => prev,
        }
    }
}

/// Whether an agent handles file `idx`: always with at most one agent,
/// otherwise exactly when `idx % n == agent`.
pub open spec fn agent_handles(idx: nat, agent: nat, n: nat) -> bool {
    n <= 1 || idx % n == agent
}

/// File indices below `total` that an agent handles, ascending.
pub open spec fn agent_indices_spec(total: nat, agent: nat, n: nat) -> Seq<nat>
    decreases total,
{
    if total == 0 {
        Seq::empty()
    } else {
        let prev = agent_indices_spec((total - 1) as nat, agent, n);
        if agent_handles((total - 1) as nat, agent, n) {
            prev.push((total - 1) as nat)
        } else {
            prev
        }
    }
}

/// Directories (in order) that go to agent `k` when directory `i` goes to agent `i % n`.
pub open spec fn agent_dirs_spec(dirs: Seq<Seq<char>>, n: nat, k: nat) -> Seq<Seq<char>>
    decreases dirs.len(),
{
    if dirs.len() == 0 {
        Seq::empty()
    } else {
        let prev = agent_dirs_spec(dirs.drop_last(), n, k);
        if (dirs.len() - 1) % (n as int) == k {
            prev.push(dirs.last())
        } else {
            prev
        }
    }
}

/// The agent map that assigning `dirs` to `n` agents round-robin yields:
/// agents `0..min(n, |dirs|)`, each with its directories in order.
pub open spec fn assignment_spec(m: Map<usize, Vec<String>>, dirs: Seq<Seq<char>>, n: nat) -> bool {
    &&& forall|k: usize| #[trigger] m.dom().contains(k) == (k < n && k < dirs.len())
    &&& forall|k: usize| m.dom().contains(k) ==> views(#[trigger] m[k]@) == agent_dirs_spec(dirs, n, k as nat)
}

pub proof fn lemma_agent_dirs_empty(dirs: Seq<Seq<char>>, n: nat, k: nat)
    requires
        n > 0,
        k >= dirs.len() || k >= n,
    ensures
        agent_dirs_spec(dirs, n, k) == Seq::<Seq<char>>::empty(),
    decreases dirs.len(),
{
    if dirs.len() > 0 {
        lemma_agent_dirs_empty(dirs.drop_last(), n, k);
        let x = (dirs.len() - 1) as nat;
        vstd::arithmetic::div_mod::lemma_mod_decreases(x, n);
        vstd::arithmetic::div_mod::lemma_mod_bound(x as int, n as int);
    }
}

/// Serializable tree manifest for coordination between agents: the shared
/// logical map of the complete directory/file structure.
#[derive(Debug, Clone)]
pub struct TreeManifest {
    /// All directory paths in the tree (relative to the anchor).
    pub all_directories: Vec<String>,
    /// Directories grouped by depth level (1-indexed).
    pub by_level: HashMap<usize, Vec<String>>,
    /// Which agent owns which directories (agent id, 0-indexed → paths).
    pub agent_assignments: HashMap<usize, Vec<String>>,
    /// Configuration hash for validation.
    pub config_hash: String,
    /// Total directory count.
    pub total_dirs: usize,
    /// Total file count.
    pub total_files: usize,
    /// Files per directory (from the configuration).
    pub files_per_dir: usize,
    /// Distribution strategy: "bottom" or "all".
    pub distribution: String,
    /// File index ranges per directory: `(dir_path, (start_idx, end_idx))`,
    /// in the order of `all_directories`.
    pub file_ranges: Vec<(String, (usize, usize))>,
}

impl TreeManifest {
    /// The ranges `compute_file_ranges` gives this manifest.
    pub open spec fn ranges_for(self) -> Seq<(Seq<char>, (nat, nat))> {
        file_ranges_spec(
            views(self.all_directories@),
            self.distribution@,
            self.files_per_dir as nat,
            max_key(self.by_level@) as nat,
        )
    }

    /// What `compute_file_ranges` makes of this manifest: `next` keeps every
    /// other field; with no level stored its ranges are empty and its file
    /// count unchanged, otherwise its ranges are `ranges_for` and its file
    /// count the number of ranges times the files per directory.
    pub open spec fn ranges_recomputed(self, next: TreeManifest) -> bool {
        &&& next.all_directories == self.all_directories
        &&& next.by_level == self.by_level
        &&& next.agent_assignments == self.agent_assignments
        &&& next.config_hash == self.config_hash
        &&& next.total_dirs == self.total_dirs
        &&& next.files_per_dir == self.files_per_dir
        &&& next.distribution == self.distribution
        &&& self.by_level@.dom().is_empty() ==> next.file_ranges@.len() == 0
            && next.total_files == self.total_files
        &&& !self.by_level@.dom().is_empty() ==> ranges_view(next.file_ranges@) == self.ranges_for()
            && next.total_files == self.ranges_for().len() * self.files_per_dir
    }

    /// Create the manifest of a tree: its paths, levels, configuration hash,
    /// counts and file ranges (agent assignments are left empty).
    pub fn from_tree(tree: &DirectoryTree) -> (m: Self)
        requires
            tree.inv(),
            manifest_fits(tree.spec_config()),
        ensures
            views(m.all_directories@) == all_paths_spec(
                tree.spec_config().dir_mask@,
                tree.spec_config().width as nat,
                tree.spec_config().depth as nat,
            ),
            level_map_spec(m.by_level@, tree.spec_config()),
            m.agent_assignments@ == Map::<usize, Vec<String>>::empty(),
            m.config_hash@ == config_hash_spec(tree.spec_config()),
            m.total_dirs == total_dirs_spec(
                tree.spec_config().width as nat,
                tree.spec_config().depth as nat,
            ),
            m.files_per_dir == tree.spec_config().files_per_dir,
            m.distribution@ == tree.spec_config().distribution@,
            ranges_view(m.file_ranges@) == tree_ranges_spec(tree.spec_config()),
            m.total_files == tree_ranges_spec(tree.spec_config()).len()
                * tree.spec_config().files_per_dir,
    {
        let config_hash = Self::hash_config(&tree.config);
        let d = tree.config.depth;
        let ghost cfg = tree.config;
        let mut by_level: HashMap<usize, Vec<String>> = HashMap::new();
        let mut l: usize = 0;
        while l < d
            invariant
                tree.inv(),
                cfg == tree.config,
                d == cfg.depth,
                l <= d,
                forall|k: usize| by_level@.dom().contains(k) <==> 1 <= k <= l,
                forall|k: usize|
                    1 <= k <= l ==> views(#[trigger] by_level@[k]@) == level_paths_spec(
                        cfg.dir_mask@,
                        cfg.width as nat,
                        k as nat,
                    ),
            decreases d - l,
        {
            let paths = clone_strings(tree.by_level[l].as_slice());
            by_level.insert(l + 1, paths);
            l = l + 1;
        }
        let mut manifest = TreeManifest {
            all_directories: clone_strings(tree.all_paths.as_slice()),
            by_level,
            agent_assignments: HashMap::new(),
            config_hash,
            total_dirs: tree.total_directories,
            total_files: tree.total_files,
            files_per_dir: tree.config.files_per_dir,
            distribution: tree.config.distribution.clone(),
            file_ranges: Vec::new(),
        };
        proof {
            assert(is_max_key(manifest.by_level@, d));
            assert(is_max_key(manifest.by_level@, max_key(manifest.by_level@)));
            assert(max_key(manifest.by_level@) == d);
            assert(manifest.by_level@.dom().contains(d));
        }
        manifest.compute_file_ranges();
        manifest
    }

    /// Standardized file name for a global file index: `file_{idx:08}.dat`.
    pub fn get_file_name(&self, global_idx: usize) -> (r: String)
        ensures
            r@ == file_name_spec(global_idx as nat),
    {
        let mut r = String::new();
        r.append("file_");
        let num = u64_to_dec_padded(global_idx as u64, 8);
        r.append(num.as_str());
        r.append(".dat");
        r
    }

    /// The file index range of a directory (the first range stored for it),
    /// or `None` if it has no files.
    pub fn get_file_range(&self, dir_path: &str) -> (r: Option<&(usize, usize)>)
        ensures
            match find_dir_range(ranges_view(self.file_ranges@), dir_path@, 0) {
                Some(k) => r == Some(&self.file_ranges@[k as int].1),
                None => r is None,
            },
    {
        let n = self.file_ranges.len();
        let mut k: usize = 0;
        while k < n
            invariant
                n == self.file_ranges@.len(),
                k <= n,
                find_dir_range(ranges_view(self.file_ranges@), dir_path@, 0) == find_dir_range(
                    ranges_view(self.file_ranges@),
                    dir_path@,
                    k as nat,
                ),
            decreases n - k,
        {
            if str_eq(self.file_ranges[k].0.as_str(), dir_path) {
                return Some(&self.file_ranges[k].1);
            }
            k = k + 1;
        }
        None
    }

    /// Full relative path (`dir/file_{idx:08}.dat`) of a global file index:
    /// the first range that contains it gives the directory.
    pub fn get_file_path(&self, global_idx: usize) -> (r: Option<String>)
        ensures
            match r {
                Some(p) => file_path_spec(ranges_view(self.file_ranges@), global_idx as nat)
                    == Some(p@),
                None => file_path_spec(ranges_view(self.file_ranges@), global_idx as nat) is None,
            },
    {
        let n = self.file_ranges.len();
        let mut k: usize = 0;
        while k < n
            invariant
                n == self.file_ranges@.len(),
                k <= n,
                find_idx_range(ranges_view(self.file_ranges@), global_idx as nat, 0)
                    == find_idx_range(ranges_view(self.file_ranges@), global_idx as nat, k as nat),
            decreases n - k,
        {
            let (start, end) = self.file_ranges[k].1;
            if global_idx >= start && global_idx < end {
                let mut p = self.file_ranges[k].0.clone();
                p.append("/");
                let name = self.get_file_name(global_idx);
                p.append(name.as_str());
                proof {
                    reveal_strlit("/");
                }
                return Some(p);
            }
            k = k + 1;
        }
        None
    }

    /// File names of one directory, in index order; empty if it has no files.
    pub fn get_files_in_directory(&self, dir_path: &str) -> (r: Vec<String>)
        ensures
            views(r@) == match find_dir_range(ranges_view(self.file_ranges@), dir_path@, 0) {
                Some(k) => names_in_range(
                    self.file_ranges@[k as int].1.0 as nat,
                    self.file_ranges@[k as int].1.1 as nat,
                ),
                None => Seq::empty(),
            },
    {
        let mut r: Vec<String> = Vec::new();
        match self.get_file_range(dir_path) {
            Some(range) => {
                let (start, end) = *range;
                let mut idx = start;
                while idx < end
                    invariant
                        start <= idx || start >= end,
                        idx == start || start < idx <= end,
                        views(r@) == names_in_range(start as nat, idx as nat),
                    decreases end - idx,
                {
                    let ghost old_r = r@;
                    let name = self.get_file_name(idx);
                    r.push(name);
                    proof {
                        assert(views(r@) =~= views(old_r).push(file_name_spec(idx as nat)));
                        assert(names_in_range(start as nat, (idx + 1) as nat) =~= names_in_range(
                            start as nat,
                            idx as nat,
                        ).push(file_name_spec(idx as nat)));
                    }
                    idx = idx + 1;
                }
                proof {
                    if start >= end {
                        assert(names_in_range(start as nat, end as nat) =~= Seq::empty());
                        assert(names_in_range(start as nat, idx as nat) =~= Seq::empty());
                    }
                }
            },
            None => {
                assert(views(r@) =~= Seq::empty());
            },
        }
        r
    }

    /// Compute the file index ranges' agent assignment: directory number `i`
    /// (in `all_directories` order) goes to agent `i % num_agents`.  With no
    /// agents nothing changes.
    pub fn assign_agents(&mut self, num_agents: usize)
        ensures
            final(self).all_directories == old(self).all_directories,
            final(self).by_level == old(self).by_level,
            final(self).config_hash == old(self).config_hash,
            final(self).total_dirs == old(self).total_dirs,
            final(self).total_files == old(self).total_files,
            final(self).files_per_dir == old(self).files_per_dir,
            final(self).distribution == old(self).distribution,
            final(self).file_ranges == old(self).file_ranges,
            num_agents == 0 ==> final(self).agent_assignments == old(self).agent_assignments,
            num_agents > 0 ==> assignment_spec(
                final(self).agent_assignments@,
                views(old(self).all_directories@),
                num_agents as nat,
            ),
    {
        if num_agents == 0 {
            return ;
        }
        self.agent_assignments.clear();
        let n = self.all_directories.len();
        let ghost dirs = views(self.all_directories@);
        let mut i: usize = 0;
        while i < n
            invariant
                self.all_directories == old(self).all_directories,
                self.by_level == old(self).by_level,
                self.config_hash == old(self).config_hash,
                self.total_dirs == old(self).total_dirs,
                self.total_files == old(self).total_files,
                self.files_per_dir == old(self).files_per_dir,
                self.distribution == old(self).distribution,
                self.file_ranges == old(self).file_ranges,
                n == self.all_directories@.len(),
                dirs == views(self.all_directories@),
                num_agents > 0,
                i <= n,
                assignment_spec(
                    self.agent_assignments@,
                    dirs.subrange(0, i as int),
                    num_agents as nat,
                ),
            decreases n - i,
        {
            let agent_id = i % num_agents;
            let path = self.all_directories[i].clone();
            let ghost before = self.agent_assignments@;
            let mut list = match self.agent_assignments.remove(&agent_id) {
                Some(v) => v,
                None => Vec::new(),
            };
            let ghost old_list = list@;
            list.push(path);
            self.agent_assignments.insert(agent_id, list);
            proof {
                let prev = dirs.subrange(0, i as int);
                let next = dirs.subrange(0, i + 1);
                assert(next.drop_last() =~= prev);
                assert(next.last() == path@);
                assert(views(list@) =~= views(old_list).push(path@));
                assert(self.agent_assignments@ == before.remove(agent_id).insert(agent_id, list));
                vstd::arithmetic::div_mod::lemma_mod_decreases(i as nat, num_agents as nat);
                vstd::arithmetic::div_mod::lemma_mod_bound(i as int, num_agents as int);
                assert forall|k: usize| #[trigger]
                    self.agent_assignments@.dom().contains(k) == (k < num_agents && k < i + 1) by {
                    if k < num_agents && k < i + 1 && k != agent_id {
                        if k == i {
                            vstd::arithmetic::div_mod::lemma_small_mod(i as nat, num_agents as nat);
                        }
                    }
                }
                assert forall|k: usize| self.agent_assignments@.dom().contains(k) implies views(
                    #[trigger] self.agent_assignments@[k]@,
                ) == agent_dirs_spec(next, num_agents as nat, k as nat) by {
                    if k == agent_id {
                        if before.dom().contains(k) {
                        } else {
                            lemma_agent_dirs_empty(prev, num_agents as nat, k as nat);
                            assert(views(old_list) =~= Seq::empty());
                        }
                    }
                }
            }
            i = i + 1;
        }
        proof {
            assert(dirs.subrange(0, n as int) =~= dirs);
        }
    }

    /// Directories assigned to one agent (empty if none).
    pub fn get_agent_dirs(&self, agent_id: usize) -> (r: Vec<String>)
        ensures
            self.agent_assignments@.dom().contains(agent_id) ==> views(r@) == views(
                self.agent_assignments@[agent_id]@,
            ),
            !self.agent_assignments@.dom().contains(agent_id) ==> r@.len() == 0,
    {
        match self.agent_assignments.get(&agent_id) {
            Some(v) => clone_strings(v.as_slice()),
            None => Vec::new(),
        }
    }

    /// Whether an agent handles a file in distributed cleanup:
    /// `global_file_idx % num_agents == agent_id`, or always with one agent or none.
    pub fn should_agent_handle_file(&self, global_file_idx: usize, agent_id: usize, num_agents: usize) -> (r: bool)
        ensures
            r == agent_handles(global_file_idx as nat, agent_id as nat, num_agents as nat),
    {
        if num_agents <= 1 {
            return true;
        }
        global_file_idx % num_agents == agent_id
    }

    /// All file indices (below `total_files`) an agent handles, ascending.
    pub fn get_agent_file_indices(&self, agent_id: usize, num_agents: usize) -> (r: Vec<usize>)
        ensures
            r@.map_values(|x: usize| x as nat) == agent_indices_spec(
                self.total_files as nat,
                agent_id as nat,
                num_agents as nat,
            ),
    {
        let mut r: Vec<usize> = Vec::new();
        let total = self.total_files;
        let mut i: usize = 0;
        while i < total
            invariant
                total == self.total_files,
                i <= total,
                r@.map_values(|x: usize| x as nat) == agent_indices_spec(
                    i as nat,
                    agent_id as nat,
                    num_agents as nat,
                ),
            decreases total - i,
        {
            let ghost old_r = r@;
            if self.should_agent_handle_file(i, agent_id, num_agents) {
                r.push(i);
                proof {
                    assert(r@.map_values(|x: usize| x as nat) =~= old_r.map_values(
                        |x: usize| x as nat,
                    ).push(i as nat));
                }
            }
            i = i + 1;
        }
        r
    }

    /// Full relative paths of the files an agent handles, ascending by index
    /// (indices without a directory range are skipped).
    pub fn get_agent_file_paths(&self, agent_id: usize, num_agents: usize) -> (r: Vec<String>)
        ensures
            views(r@) == paths_of_indices(
                ranges_view(self.file_ranges@),
                agent_indices_spec(self.total_files as nat, agent_id as nat, num_agents as nat),
            ),
    {
        let idxs = self.get_agent_file_indices(agent_id, num_agents);
        let ghost iv = idxs@.map_values(|x: usize| x as nat);
        let ghost rv = ranges_view(self.file_ranges@);
        let mut r: Vec<String> = Vec::new();
        let mut j: usize = 0;
        while j < idxs.len()
            invariant
                j <= idxs@.len(),
                iv == idxs@.map_values(|x: usize| x as nat),
                rv == ranges_view(self.file_ranges@),
                views(r@) == paths_of_indices(rv, iv.subrange(0, j as int)),
            decreases idxs@.len() - j,
        {
            let ghost old_r = r@;
            proof {
                assert(iv.subrange(0, j + 1).drop_last() =~= iv.subrange(0, j as int));
                assert(iv.subrange(0, j + 1).last() == idxs@[j as int] as nat);
            }
            match self.get_file_path(idxs[j]) {
                Some(p) => {
                    r.push(p);
                    proof {
                        assert(views(r@) =~= views(old_r).push(p@));
                    }
                },
                None => {},
            }
            j = j + 1;
        }
        proof {
            assert(iv.subrange(0, idxs@.len() as int) =~= iv);
        }
        r
    }

    /// Compute the deterministic hash of a configuration.  Each count is fed
    /// to the hasher as 8 little-endian bytes, so the hash is the same on
    /// every target (it equals what `usize::hash` feeds on 64-bit
    /// little-endian targets).
    fn hash_config(config: &DirectoryStructureConfig) -> (r: String)
        ensures
            r@ == config_hash_spec(*config),
    {
        let mut hasher = DefaultHasher::new();
        let b1 = u64_le_bytes_exec(config.width as u64);
        hasher.write(b1.as_slice());
        let b2 = u64_le_bytes_exec(config.depth as u64);
        hasher.write(b2.as_slice());
        let b3 = u64_le_bytes_exec(config.files_per_dir as u64);
        hasher.write(b3.as_slice());
        let dist_bytes = config.distribution.as_str().as_bytes();
        hasher.write(dist_bytes);
        let term: Vec<u8> = vec![0xffu8];
        assert(term@ =~= seq![0xffu8]);
        hasher.write(term.as_slice());
        let mask_bytes = config.dir_mask.as_str().as_bytes();
        hasher.write(mask_bytes);
        hasher.write(term.as_slice());
        proof {
            assert(dist_bytes@ == encode_utf8(config.distribution@));
            assert(mask_bytes@ == encode_utf8(config.dir_mask@));
            assert(hasher@ =~= config_hash_input(*config));
        }
        u64_to_hex(hasher.finish())
    }

    /// Whether `config` hashes to this manifest's configuration hash.
    pub fn validate_config(&self, config: &DirectoryStructureConfig) -> (r: bool)
        ensures
            r == (config_hash_spec(*config) == self.config_hash@),
    {
        let h = Self::hash_config(config);
        str_eq(h.as_str(), self.config_hash.as_str())
    }

    /// Compute file index ranges for every directory that gets files, and
    /// set `total_files` to the number of indices handed out.  With no level
    /// stored the ranges are cleared and `total_files` is left as it was.
    pub fn compute_file_ranges(&mut self)
        requires
            old(self).by_level@.dom().is_empty() || old(self).ranges_for().len() * old(
                self,
            ).files_per_dir <= usize::MAX,
        ensures
            final(self).all_directories == old(self).all_directories,
            final(self).by_level == old(self).by_level,
            final(self).agent_assignments == old(self).agent_assignments,
            final(self).config_hash == old(self).config_hash,
            final(self).total_dirs == old(self).total_dirs,
            final(self).files_per_dir == old(self).files_per_dir,
            final(self).distribution == old(self).distribution,
            old(self).by_level@.dom().is_empty() ==> final(self).file_ranges@.len() == 0
                && final(self).total_files == old(self).total_files,
            !old(self).by_level@.dom().is_empty() ==> ranges_view(final(self).file_ranges@)
                == old(self).ranges_for() && final(self).total_files == old(
                self,
            ).ranges_for().len() * old(self).files_per_dir,
            old(self).ranges_recomputed(*final(self)),
    {
        self.file_ranges.clear();
        let mut global_idx: usize = 0;
        let max_depth = match max_level(&self.by_level) {
            Some(m) => m,
            None => {
                return ;
            },
        };
        proof {
            assert(is_max_key(self.by_level@, max_depth));
            assert(is_max_key(self.by_level@, max_key(self.by_level@)));
            assert(max_key(self.by_level@) == max_depth);
        }
        let bottom = is_bottom_exec(self.distribution.as_str());
        let all = is_all_exec(self.distribution.as_str());
        let fpd = self.files_per_dir;
        let n = self.all_directories.len();
        let ghost dirs = views(self.all_directories@);
        let ghost full = file_ranges_spec(dirs, self.distribution@, fpd as nat, max_depth as nat);
        let mut i: usize = 0;
        while i < n
            invariant
                self.all_directories == old(self).all_directories,
                self.by_level == old(self).by_level,
                self.agent_assignments == old(self).agent_assignments,
                self.config_hash == old(self).config_hash,
                self.total_dirs == old(self).total_dirs,
                self.files_per_dir == old(self).files_per_dir,
                self.distribution == old(self).distribution,
                n == self.all_directories@.len(),
                dirs == views(self.all_directories@),
                full == file_ranges_spec(dirs, self.distribution@, fpd as nat, max_depth as nat),
                full.len() * fpd <= usize::MAX,
                bottom == is_bottom(self.distribution@),
                all == is_all(self.distribution@),
                fpd == self.files_per_dir,
                i <= n,
                ranges_view(self.file_ranges@) == file_ranges_spec(
                    dirs.subrange(0, i as int),
                    self.distribution@,
                    fpd as nat,
                    max_depth as nat,
                ),
                global_idx == self.file_ranges@.len() * fpd,
            decreases n - i,
        {
            let ghost prefix = dirs.subrange(0, i as int);
            let ghost next = dirs.subrange(0, i + 1);
            proof {
                assert(next.drop_last() =~= prefix);
                assert(next.last() == self.all_directories@[i as int]@);
                lemma_file_ranges_prefix_len(dirs, self.distribution@, fpd as nat, max_depth as nat, i + 1);
            }
            let dir_path = &self.all_directories[i];
            let should_have_files = if bottom {
                max_depth >= 1 && count_slashes(dir_path.as_str()) == max_depth - 1
            } else {
                all
            };
            if should_have_files && fpd > 0 {
                let ghost k = self.file_ranges@.len();
                proof {
                    assert(file_ranges_spec(next, self.distribution@, fpd as nat, max_depth as nat).len() == k + 1);
                    assert((k + 1) * fpd <= full.len() * fpd) by (nonlinear_arith)
                        requires
                            k + 1 <= full.len(),
                    ;
                    assert((k + 1) * fpd == k * fpd + fpd) by (nonlinear_arith);
                }
                let start_idx = global_idx;
                let end_idx = global_idx + fpd;
                let ghost old_ranges = self.file_ranges@;
                let entry = (dir_path.clone(), (start_idx, end_idx));
                self.file_ranges.push(entry);
                proof {
                    assert(ranges_view(self.file_ranges@) =~= ranges_view(old_ranges).push(
                        (entry.0@, (start_idx as nat, end_idx as nat)),
                    ));
                }
                global_idx = end_idx;
            }
            i = i + 1;
        }
        proof {
            assert(dirs.subrange(0, n as int) =~= dirs);
        }
        self.total_files = global_idx;
    }
}


pub proof fn lemma_count_char_concat(a: Seq<char>, b: Seq<char>, c: char)
    ensures
        count_char(a + b, c) == count_char(a, c) + count_char(b, c),
    decreases b.len(),
{
    if b.len() == 0 {
        assert(a + b =~= a);
    } else {
        assert((a + b).drop_last() =~= a + b.drop_last());
        lemma_count_char_concat(a, b.drop_last(), c);
    }
}

pub proof fn lemma_count_char_split(s: Seq<char>, i: int, c: char)
    requires
        0 <= i <= s.len(),
    ensures
        count_char(s, c) == count_char(s.subrange(0, i), c) + count_char(
            s.subrange(i, s.len() as int),
            c,
        ),
{
    assert(s =~= s.subrange(0, i) + s.subrange(i, s.len() as int));
    lemma_count_char_concat(s.subrange(0, i), s.subrange(i, s.len() as int), c);
}

pub proof fn lemma_dec_no_slash(n: nat)
    ensures
        count_char(dec(n), '/') == 0,
    decreases n,
{
    assert(count_char(Seq::<char>::empty(), '/') == 0);
    if n >= 10 {
        lemma_dec_no_slash(n / 10);
        assert(dec(n).drop_last() =~= dec(n / 10));
    } else {
        assert(dec(n).drop_last() =~= Seq::<char>::empty());
    }
}

pub proof fn lemma_replace_no_slash(s: Seq<char>, rep: Seq<char>)
    requires
        count_char(s, '/') == 0,
        count_char(rep, '/') == 0,
    ensures
        count_char(replace_first_pct_d(s, rep), '/') == 0,
{
    if let Some(i) = find_pct_d(s, 0) {
        lemma_find_pct_d_bound(s, 0);
        let a = s.subrange(0, i as int);
        let b = s.subrange(i + 2 as int, s.len() as int);
        lemma_count_char_split(s, i as int, '/');
        lemma_count_char_split(s.subrange(i as int, s.len() as int), 2, '/');
        assert(s.subrange(i as int, s.len() as int).subrange(2, s.len() - i) =~= b);
        lemma_count_char_concat(a, rep, '/');
        lemma_count_char_concat(a + rep, b, '/');
    }
}

pub proof fn lemma_find_pct_d_bound(s: Seq<char>, from: nat)
    ensures
        find_pct_d(s, from) matches Some(i) ==> from <= i && i + 1 < s.len(),
    decreases s.len() - from,
{
    if from + 1 < s.len() && !(s[from as int] == '%' && s[from + 1 as int] == 'd') {
        lemma_find_pct_d_bound(s, from + 1);
    }
}

/// A path of a directory at `level` has `level - 1` slashes when the mask has none.
pub proof fn lemma_node_path_slashes(mask: Seq<char>, w: nat, level: nat, g: nat)
    requires
        level >= 1,
        count_char(mask, '/') == 0,
    ensures
        count_char(node_path(mask, w, level, g), '/') == level - 1,
    decreases level,
{
    let name = dir_name_spec(mask, level, child_index(w, g));
    lemma_dec_no_slash(level);
    lemma_dec_no_slash(child_index(w, g));
    lemma_replace_no_slash(mask, dec(level));
    lemma_replace_no_slash(replace_first_pct_d(mask, dec(level)), dec(child_index(w, g)));
    if level > 1 {
        let parent = node_path(mask, w, (level - 1) as nat, parent_index(w, g));
        lemma_node_path_slashes(mask, w, (level - 1) as nat, parent_index(w, g));
        lemma_count_char_concat(parent, seq!['/'], '/');
        assert(count_char(seq!['/'], '/') == 1) by {
            assert(seq!['/'].drop_last() =~= Seq::<char>::empty());
            assert(count_char(Seq::<char>::empty(), '/') == 0);
        }
        lemma_count_char_concat(parent + seq!['/'], name, '/');
    }
}

pub proof fn lemma_file_ranges_concat(
    a: Seq<Seq<char>>,
    b: Seq<Seq<char>>,
    dist: Seq<char>,
    fpd: nat,
    md: nat,
)
    ensures
        file_ranges_spec(a + b, dist, fpd, md).len() == file_ranges_spec(a, dist, fpd, md).len()
            + file_ranges_spec(b, dist, fpd, md).len(),
    decreases b.len(),
{
    if b.len() == 0 {
        assert(a + b =~= a);
    } else {
        assert((a + b).drop_last() =~= a + b.drop_last());
        lemma_file_ranges_concat(a, b.drop_last(), dist, fpd, md);
    }
}

/// Whether a path gets a file range.
pub open spec fn gets_range(dist: Seq<char>, fpd: nat, md: nat, path: Seq<char>) -> bool {
    fpd > 0 && dir_gets_files(dist, path, md)
}

pub proof fn lemma_file_ranges_uniform(
    dirs: Seq<Seq<char>>,
    dist: Seq<char>,
    fpd: nat,
    md: nat,
    every: bool,
)
    requires
        forall|i: int| 0 <= i < dirs.len() ==> gets_range(dist, fpd, md, #[trigger] dirs[i]) == every,
    ensures
        file_ranges_spec(dirs, dist, fpd, md).len() == if every { dirs.len() } else { 0 },
    decreases dirs.len(),
{
    if dirs.len() > 0 {
        let dl = dirs.drop_last();
        assert forall|i: int| 0 <= i < dl.len() implies gets_range(dist, fpd, md, #[trigger] dl[i])
            == every by {
            assert(dl[i] == dirs[i]);
        }
        lemma_file_ranges_uniform(dl, dist, fpd, md, every);
        assert(gets_range(dist, fpd, md, dirs[dirs.len() - 1]) == every);
    } else {
        assert(file_ranges_spec(dirs, dist, fpd, md).len() == 0);
    }
}

pub proof fn lemma_all_paths_len(mask: Seq<char>, w: nat, d: nat)
    ensures
        all_paths_spec(mask, w, d).len() == total_dirs_spec(w, d),
    decreases d,
{
    if d > 0 {
        lemma_all_paths_len(mask, w, (d - 1) as nat);
    }
}

/// Number of ranges in the manifest of a tree over its first `upto` levels,
/// when the mask holds no slash.
pub proof fn lemma_tree_ranges_len_upto(cfg: DirectoryStructureConfig, upto: nat)
    requires
        count_char(cfg.dir_mask@, '/') == 0,
        upto <= cfg.depth,
        cfg.depth >= 1,
    ensures
        file_ranges_spec(
            all_paths_spec(cfg.dir_mask@, cfg.width as nat, upto),
            cfg.distribution@,
            cfg.files_per_dir as nat,
            cfg.depth as nat,
        ).len() == if cfg.files_per_dir == 0 {
            0
        } else if is_bottom(cfg.distribution@) {
            if upto == cfg.depth { dirs_at_level(cfg.width as nat, upto) } else { 0 }
        } else if is_all(cfg.distribution@) {
            total_dirs_spec(cfg.width as nat, upto)
        } else {
            0
        },
    decreases upto,
{
    let mask = cfg.dir_mask@;
    let w = cfg.width as nat;
    let fpd = cfg.files_per_dir as nat;
    let md = cfg.depth as nat;
    let dist = cfg.distribution@;
    if upto > 0 {
        lemma_tree_ranges_len_upto(cfg, (upto - 1) as nat);
        let lv = level_paths_spec(mask, w, upto);
        let every = fpd > 0 && (if is_bottom(dist) { upto == md } else { is_all(dist) });
        assert forall|i: int| 0 <= i < lv.len() implies gets_range(dist, fpd, md, #[trigger] lv[i])
            == every by {
            lemma_node_path_slashes(mask, w, upto, (i + 1) as nat);
        }
        lemma_file_ranges_uniform(lv, dist, fpd, md, every);
        assert(file_ranges_spec(lv, dist, fpd, md).len() == if every { lv.len() } else { 0 });
        lemma_file_ranges_concat(all_paths_spec(mask, w, (upto - 1) as nat), lv, dist, fpd, md);
        assert(all_paths_spec(mask, w, upto) == all_paths_spec(mask, w, (upto - 1) as nat) + lv);
        assert(lv.len() == dirs_at_level(w, upto));
        assert(total_dirs_spec(w, upto) == total_dirs_spec(w, (upto - 1) as nat) + dirs_at_level(w, upto));
        let prev_len = file_ranges_spec(all_paths_spec(mask, w, (upto - 1) as nat), dist, fpd, md).len();
        let cur_len = file_ranges_spec(all_paths_spec(mask, w, upto), dist, fpd, md).len();
        assert(cur_len == prev_len + (if every { lv.len() } else { 0 }));
        if fpd == 0 {
            assert(cur_len == 0);
        } else if is_bottom(dist) {
            assert(prev_len == 0);
        } else if is_all(dist) {
            assert(cur_len == total_dirs_spec(w, upto));
        } else {
            assert(cur_len == 0);
        }
    } else {
        assert(all_paths_spec(mask, w, 0) =~= Seq::<Seq<char>>::empty());
        assert(file_ranges_spec(Seq::<Seq<char>>::empty(), dist, fpd, md).len() == 0);
    }
}

/// The manifest of a tree hands out exactly the files the tree counts, when
/// the directory mask holds no slash (directory depth is then read correctly
/// from the slashes of a path).
pub proof fn law_manifest_total_files_match_tree(cfg: DirectoryStructureConfig)
    requires
        cfg.depth >= 1,
        count_char(cfg.dir_mask@, '/') == 0,
    ensures
        tree_ranges_spec(cfg).len() * cfg.files_per_dir == total_files_spec(cfg),
{
    lemma_tree_ranges_len_upto(cfg, cfg.depth as nat);
    assert(tree_ranges_spec(cfg) == file_ranges_spec(
        all_paths_spec(cfg.dir_mask@, cfg.width as nat, cfg.depth as nat),
        cfg.distribution@,
        cfg.files_per_dir as nat,
        cfg.depth as nat,
    ));
    if cfg.files_per_dir == 0 {
        assert(tree_ranges_spec(cfg).len() * 0 == 0);
        assert(dirs_at_level(cfg.width as nat, cfg.depth as nat) * 0 == 0);
        assert(total_dirs_spec(cfg.width as nat, cfg.depth as nat) * 0 == 0);
        assert(tree_ranges_spec(cfg).len() * cfg.files_per_dir == 0);
        assert(total_files_spec(cfg) == 0);
    } else if is_bottom(cfg.distribution@) {
        assert(tree_ranges_spec(cfg).len() == dirs_at_level(cfg.width as nat, cfg.depth as nat));
        assert(total_files_spec(cfg) == dirs_at_level(cfg.width as nat, cfg.depth as nat) * (cfg.files_per_dir as nat));
        assert(tree_ranges_spec(cfg).len() * cfg.files_per_dir == total_files_spec(cfg));
    } else if is_all(cfg.distribution@) {
        assert(tree_ranges_spec(cfg).len() == total_dirs_spec(cfg.width as nat, cfg.depth as nat));
        assert(tree_ranges_spec(cfg).len() * cfg.files_per_dir == total_files_spec(cfg));
    } else {
        let l = tree_ranges_spec(cfg).len();
        assert(l == 0);
        assert(l * cfg.files_per_dir == 0) by (nonlinear_arith)
            requires
                l == 0,
        ;
        assert(total_files_spec(cfg) == 0);
    }
}

/// Successor step of Euclidean division by a positive `n`.
pub proof fn lemma_div_mod_succ(x: nat, n: nat)
    requires
        n > 0,
    ensures
        x % n + 1 < n ==> (x + 1) / n == x / n && (x + 1) % n == x % n + 1,
        x % n + 1 == n ==> (x + 1) / n == x / n + 1 && (x + 1) % n == 0,
{
    vstd::arithmetic::div_mod::lemma_fundamental_div_mod(x as int, n as int);
    vstd::arithmetic::div_mod::lemma_mod_bound(x as int, n as int);
    let q = x / n;
    let r = x % n;
    assert(n * q == q * n) by (nonlinear_arith);
    assert((q + 1) * n == q * n + n) by (nonlinear_arith);
    if r + 1 < n {
        vstd::arithmetic::div_mod::lemma_fundamental_div_mod_converse(
            (x + 1) as int,
            n as int,
            q as int,
            (r + 1) as int,
        );
    } else {
        vstd::arithmetic::div_mod::lemma_fundamental_div_mod_converse(
            (x + 1) as int,
            n as int,
            (q + 1) as int,
            0,
        );
    }
}

proof fn lemma_round_robin_len(dirs: Seq<Seq<char>>, n: nat, k: nat)
    requires
        n > 0,
        k < n,
    ensures
        agent_dirs_spec(dirs, n, k).len() == dirs.len() / n + (if k < dirs.len() % n { 1nat } else { 0nat }),
    decreases dirs.len(),
{
    if dirs.len() == 0 {
        vstd::arithmetic::div_mod::lemma_div_of0(n as int);
        vstd::arithmetic::div_mod::lemma_small_mod(0, n);
    } else {
        let x = (dirs.len() - 1) as nat;
        lemma_round_robin_len(dirs.drop_last(), n, k);
        lemma_div_mod_succ(x, n);
        vstd::arithmetic::div_mod::lemma_mod_bound(x as int, n as int);
        assert(dirs.drop_last().len() == x);
    }
}

proof fn lemma_round_robin_index(dirs: Seq<Seq<char>>, n: nat, k: nat, j: int)
    requires
        n > 0,
        k < n,
        0 <= j < agent_dirs_spec(dirs, n, k).len(),
    ensures
        j * n + k < dirs.len(),
        agent_dirs_spec(dirs, n, k)[j] == dirs[j * n + k],
    decreases dirs.len(),
{
    let prev_dirs = dirs.drop_last();
    let x = (dirs.len() - 1) as nat;
    let p = agent_dirs_spec(prev_dirs, n, k);
    lemma_round_robin_len(prev_dirs, n, k);
    vstd::arithmetic::div_mod::lemma_fundamental_div_mod(x as int, n as int);
    vstd::arithmetic::div_mod::lemma_mod_bound(x as int, n as int);
    assert((x / n) * n == n * (x / n)) by (nonlinear_arith);
    if j < p.len() {
        lemma_round_robin_index(prev_dirs, n, k, j);
        assert(prev_dirs[j * n + k] == dirs[j * n + k]);
    } else {
        assert(x % n == k);
        assert(j == x / n);
    }
}

/// Entry `j` of agent `k`'s directories is directory number `j * n + k`.
pub open spec fn round_robin_slot(dirs: Seq<Seq<char>>, n: nat, k: nat, j: int) -> bool {
    &&& 0 <= j * n + k < dirs.len()
    &&& agent_dirs_spec(dirs, n, k)[j] == dirs[j * n + k]
}

/// Round-robin directory assignment, exactly: agent `k` (of `n`) receives
/// `|dirs| / n` directories, plus one when `k < |dirs| % n`, and its `j`-th
/// directory is `dirs[j * n + k]`.  So the directories are spread evenly (the
/// lists differ in length by at most one) and each goes to exactly one agent,
/// directory `i` being entry `i / n` of agent `i % n`.
pub proof fn law_round_robin_directories(dirs: Seq<Seq<char>>, n: nat, k: nat)
    requires
        n > 0,
        k < n,
    ensures
        agent_dirs_spec(dirs, n, k).len() == dirs.len() / n + (if k < dirs.len() % n { 1nat } else { 0nat }),
        forall|j: int|
            0 <= j < agent_dirs_spec(dirs, n, k).len() ==> #[trigger] round_robin_slot(dirs, n, k, j),
        forall|i: int|
            0 <= i < dirs.len() && i % (n as int) == k ==> #[trigger] round_robin_slot(
                dirs,
                n,
                k,
                i / (n as int),
            ) && i / (n as int) < agent_dirs_spec(dirs, n, k).len() && dirs[i] == agent_dirs_spec(
                dirs,
                n,
                k,
            )[i / (n as int)],
{
    let r = agent_dirs_spec(dirs, n, k);
    lemma_round_robin_len(dirs, n, k);
    assert forall|j: int| 0 <= j < r.len() implies #[trigger] round_robin_slot(dirs, n, k, j) by {
        lemma_round_robin_index(dirs, n, k, j);
    }
    assert forall|i: int| 0 <= i < dirs.len() && i % (n as int) == k implies #[trigger] round_robin_slot(
        dirs,
        n,
        k,
        i / (n as int),
    ) && i / (n as int) < r.len() && dirs[i] == r[i / (n as int)] by {
        vstd::arithmetic::div_mod::lemma_fundamental_div_mod(i, n as int);
        let j = i / (n as int);
        assert(j * n == n * j) by (nonlinear_arith);
        vstd::arithmetic::div_mod::lemma_div_is_ordered(i, dirs.len() as int, n as int);
        vstd::arithmetic::div_mod::lemma_fundamental_div_mod(dirs.len() as int, n as int);
        assert(j < r.len()) by {
            let l = dirs.len() as int;
            let q = l / (n as int);
            let m = l % (n as int);
            vstd::arithmetic::div_mod::lemma_mod_bound(l, n as int);
            assert(l == n * q + m);
            assert(i == n * j + k);
            if j >= q {
                if j > q {
                    assert(n * j >= n * (q + 1)) by (nonlinear_arith)
                        requires
                            j >= q + 1,
                            n > 0,
                    ;
                    assert(n * (q + 1) == n * q + n) by (nonlinear_arith);
                }
            }
        }
        lemma_round_robin_index(dirs, n, k, j);
    }
}

/// The file indices an agent receives are exactly the indices below the
/// total that it handles, in strictly ascending order.
pub proof fn law_agent_file_indices(total: nat, agent: nat, n: nat)
    ensures
        forall|i: nat| #[trigger] agent_indices_spec(total, agent, n).contains(i)
            <==> (i < total && agent_handles(i, agent, n)),
        forall|a: int, b: int|
            0 <= a < b < agent_indices_spec(total, agent, n).len() ==> #[trigger] agent_indices_spec(
                total,
                agent,
                n,
            )[a] < #[trigger] agent_indices_spec(total, agent, n)[b],
    decreases total,
{
    if total > 0 {
        let t1 = (total - 1) as nat;
        law_agent_file_indices(t1, agent, n);
        let p = agent_indices_spec(t1, agent, n);
        let r = agent_indices_spec(total, agent, n);
        assert forall|i: nat| #[trigger] r.contains(i) <==> (i < total && agent_handles(i, agent, n)) by {
            if agent_handles(t1, agent, n) {
                assert(r == p.push(t1));
                if r.contains(i) && i != t1 {
                    let w = choose|w: int| 0 <= w < r.len() && r[w] == i;
                    assert(p[w] == i);
                    assert(p.contains(i));
                }
                if i < total && agent_handles(i, agent, n) && i != t1 {
                    assert(p.contains(i));
                    let w = choose|w: int| 0 <= w < p.len() && p[w] == i;
                    assert(r[w] == i);
                }
                if i == t1 {
                    assert(r[r.len() - 1] == t1);
                }
            } else {
                assert(r == p);
            }
        }
        if agent_handles(t1, agent, n) {
            assert forall|a: int, b: int| 0 <= a < b < r.len() implies #[trigger] r[a] < #[trigger] r[b] by {
                if b < p.len() {
                    assert(p[a] < p[b]);
                } else {
                    assert(p.contains(p[a]));
                }
            }
        }
    }
}

/// With two or more agents the file indices are split without overlap: each
/// index below the total goes to exactly the agent `index % n`, and to no
/// other.  With one agent or none, every agent handles every file.
pub proof fn law_agent_files_partition(total: nat, n: nat, i: nat, agent: nat)
    requires
        i < total,
    ensures
        n >= 2 ==> (agent_indices_spec(total, agent, n).contains(i) <==> agent == i % n),
        n >= 2 ==> i % n < n && agent_indices_spec(total, i % n, n).contains(i),
        n <= 1 ==> agent_indices_spec(total, agent, n).contains(i),
{
    law_agent_file_indices(total, agent, n);
    if n >= 2 {
        law_agent_file_indices(total, i % n, n);
        vstd::arithmetic::div_mod::lemma_mod_bound(i as int, n as int);
    }
}

/// Range `i` of a range list covers file indices `i * fpd .. i * fpd + fpd`.
pub open spec fn range_is_slot(r: Seq<(Seq<char>, (nat, nat))>, fpd: nat, i: int) -> bool {
    &&& r[i].1.0 == i * fpd
    &&& r[i].1.1 == i * fpd + fpd
}

/// The file ranges tile the indices: range `i` covers `i * fpd .. (i + 1) * fpd`,
/// so consecutive ranges meet and together they cover `0 .. count * fpd`.
pub proof fn law_file_ranges_tile(dirs: Seq<Seq<char>>, dist: Seq<char>, fpd: nat, md: nat)
    ensures
        forall|i: int|
            0 <= i < file_ranges_spec(dirs, dist, fpd, md).len() ==> #[trigger] range_is_slot(
                file_ranges_spec(dirs, dist, fpd, md),
                fpd,
                i,
            ),
        file_ranges_spec(dirs, dist, fpd, md).len() > 0 ==> fpd > 0,
    decreases dirs.len(),
{
    if dirs.len() > 0 {
        let dl = dirs.drop_last();
        law_file_ranges_tile(dl, dist, fpd, md);
        let p = file_ranges_spec(dl, dist, fpd, md);
        let r = file_ranges_spec(dirs, dist, fpd, md);
        assert forall|i: int| 0 <= i < r.len() implies #[trigger] range_is_slot(r, fpd, i) by {
            if i < p.len() {
                assert(range_is_slot(p, fpd, i));
            }
        }
    }
}

proof fn lemma_find_idx_in_tiles(r: Seq<(Seq<char>, (nat, nat))>, fpd: nat, idx: nat, from: nat)
    requires
        forall|i: int| 0 <= i < r.len() ==> #[trigger] range_is_slot(r, fpd, i),
        r.len() > 0 ==> fpd > 0,
        from * fpd <= idx,
    ensures
        find_idx_range(r, idx, from) == if idx < r.len() * fpd {
            Some(idx / fpd)
        } else {
            None::<nat>
        },
    decreases r.len() - from,
{
    if from >= r.len() {
        assert(r.len() * fpd <= from * fpd) by (nonlinear_arith)
            requires
                from >= r.len(),
        ;
    } else {
        assert(range_is_slot(r, fpd, from as int));
        if r[from as int].1.0 <= idx < r[from as int].1.1 {
            vstd::arithmetic::div_mod::lemma_fundamental_div_mod_converse(
                idx as int,
                fpd as int,
                from as int,
                (idx - from * fpd) as int,
            );
            assert((from + 1) * fpd <= r.len() * fpd) by (nonlinear_arith)
                requires
                    from + 1 <= r.len(),
            ;
            assert((from + 1) * fpd == from * fpd + fpd) by (nonlinear_arith);
        } else {
            assert((from + 1) * fpd == from * fpd + fpd) by (nonlinear_arith);
            lemma_find_idx_in_tiles(r, fpd, idx, from + 1);
        }
    }
}

/// A global file index has a path exactly when it is below the number of
/// files (`count * fpd`); its directory is that of range `idx / fpd`.
pub proof fn law_file_path_exact(dirs: Seq<Seq<char>>, dist: Seq<char>, fpd: nat, md: nat, idx: nat)
    ensures
        file_path_spec(file_ranges_spec(dirs, dist, fpd, md), idx) == if idx
            < file_ranges_spec(dirs, dist, fpd, md).len() * fpd {
            Some(
                file_ranges_spec(dirs, dist, fpd, md)[(idx / fpd) as int].0 + "/"@ + file_name_spec(idx),
            )
        } else {
            None::<Seq<char>>
        },
{
    law_file_ranges_tile(dirs, dist, fpd, md);
    assert(0 * fpd == 0);
    lemma_find_idx_in_tiles(file_ranges_spec(dirs, dist, fpd, md), fpd, idx, 0);
}

// ----------------------------------------------------------------------------
// Distinct directory paths
// ----------------------------------------------------------------------------

/// `%d` starts at position `q` of `s`.
pub open spec fn pct_d_at(s: Seq<char>, q: int) -> bool {
    0 <= q && q + 1 < s.len() && s[q] == '%' && s[q + 1] == 'd'
}

/// A directory mask that names directories apart: it has at least two
/// `%d` (for the level and the child number) and no `/`.
pub open spec fn mask_names_apart(mask: Seq<char>) -> bool {
    &&& !mask.contains('/')
    &&& match find_pct_d(mask, 0) {
        Some(i) => find_pct_d(mask, i + 2) is Some,
        None => false,
    }
}

proof fn lemma_find_pct_d_props(s: Seq<char>, from: nat)
    ensures
        match find_pct_d(s, from) {
            Some(p) => from <= p && pct_d_at(s, p as int) && forall|q: int|
                from <= q < p ==> !pct_d_at(s, q),
            None => forall|q: int| from <= q ==> !pct_d_at(s, q),
        },
    decreases s.len() - from,
{
    if from + 1 < s.len() && !(s[from as int] == '%' && s[from + 1 as int] == 'd') {
        lemma_find_pct_d_props(s, from + 1);
    }
}

proof fn lemma_no_slash_count(s: Seq<char>)
    requires
        !s.contains('/'),
    ensures
        count_char(s, '/') == 0,
    decreases s.len(),
{
    if s.len() > 0 {
        assert(s[s.len() - 1] == s.last());
        assert(!s.drop_last().contains('/')) by {
            if s.drop_last().contains('/') {
                let j = choose|j: int| 0 <= j < s.drop_last().len() && s.drop_last()[j] == '/';
                assert(s[j] == '/');
            }
        }
        lemma_no_slash_count(s.drop_last());
    }
}

/// The shape of a level's directory names: a fixed head, the child number,
/// a fixed tail, with no `/` in head or tail.
#[verifier::spinoff_prover]
proof fn lemma_dir_name_shape(mask: Seq<char>, level: nat) -> (r: (Seq<char>, Seq<char>))
    requires
        mask_names_apart(mask),
    ensures
        !r.0.contains('/'),
        !r.1.contains('/'),
        forall|c: nat| #[trigger] dir_name_spec(mask, level, c) == r.0 + dec(c) + r.1,
        find_pct_d(mask, 0) matches Some(i) && find_pct_d(mask, i + 2) matches Some(k) && r.0
            == mask.subrange(0, i as int) + dec(level) + mask.subrange(i + 2 as int, k as int) && r.1
            == mask.subrange(k + 2 as int, mask.len() as int),
{
    lemma_find_pct_d_props(mask, 0);
    let i = find_pct_d(mask, 0)->Some_0;
    lemma_find_pct_d_props(mask, i + 2);
    let k = find_pct_d(mask, i + 2)->Some_0;
    let dl = dec(level);
    lemma_dec_digits(level);
    let a = mask.subrange(0, i as int);
    let b = mask.subrange(i + 2 as int, mask.len() as int);
    let m1 = a + dl + b;
    assert(replace_first_pct_d(mask, dl) == m1);
    let ln = dl.len() as int;
    let p = (k + ln - 2) as int;
    assert forall|q: int| 0 <= q < m1.len() implies #[trigger] m1[q] == (if q < i {
        mask[q]
    } else if q < i + ln {
        dl[q - i]
    } else {
        mask[q - ln + 2]
    }) by {}
    assert(is_ascii_digit(dl[0]));
    assert forall|q: int| 0 <= q < p implies !pct_d_at(m1, q) by {
        if q + 1 < i {
            assert(!pct_d_at(mask, q));
        } else if q + 1 == i {
            assert(m1[q + 1] == dl[0]);
        } else if q < i + ln {
            assert(m1[q] == dl[q - i]);
            assert(is_ascii_digit(dl[q - i]));
        } else {
            assert(!pct_d_at(mask, q - ln + 2));
            assert(m1[q] == mask[q - ln + 2]);
            assert(m1[q + 1] == mask[q + 1 - ln + 2]);
        }
    }
    assert(m1[p] == mask[k as int]);
    assert(m1[p + 1] == mask[k + 1 as int]);
    assert(pct_d_at(m1, p));
    lemma_find_pct_d_props(m1, 0);
    let f = find_pct_d(m1, 0);
    assert(f == Some(p as nat)) by {
        match f {
            Some(p2) => {
                if p2 < p {
                } else if p < p2 {
                }
            },
            None => {},
        }
    }
    let head = m1.subrange(0, p);
    let tail = m1.subrange(p + 2, m1.len() as int);
    assert forall|c: nat| #[trigger] dir_name_spec(mask, level, c) == head + dec(c) + tail by {
        assert(replace_first_pct_d(m1, dec(c)) == head + dec(c) + tail);
    }
    assert(!head.contains('/')) by {
        if head.contains('/') {
            let j = choose|j: int| 0 <= j < head.len() && head[j] == '/';
            assert(m1[j] == '/');
            if j < i {
                assert(mask[j] == '/');
            } else if j < i + ln {
                assert(is_ascii_digit(dl[j - i]));
            } else {
                assert(mask[j - ln + 2] == '/');
            }
        }
    }
    assert(!tail.contains('/')) by {
        if tail.contains('/') {
            let j = choose|j: int| 0 <= j < tail.len() && tail[j] == '/';
            let q = j + p + 2;
            assert(m1[q] == '/');
            assert(mask[q - ln + 2] == '/');
        }
    }
    assert(head =~= mask.subrange(0, i as int) + dl + mask.subrange(i + 2 as int, k as int)) by {
        let want = mask.subrange(0, i as int) + dl + mask.subrange(i + 2 as int, k as int);
        assert forall|q: int| 0 <= q < head.len() implies head[q] == want[q] by {
            assert(head[q] == m1[q]);
        }
    }
    assert(tail =~= mask.subrange(k + 2 as int, mask.len() as int)) by {
        assert forall|q: int| 0 <= q < tail.len() implies tail[q] == mask[k + 2 + q] by {
            assert(tail[q] == m1[p + 2 + q]);
        }
    }
    (head, tail)
}

/// A directory name fills the mask's first `%d` with the level and its
/// second with the child number, in decimal, and keeps every other
/// character of the mask.
pub proof fn law_dir_name_fills_level_then_child(mask: Seq<char>, level: nat, child: nat)
    requires
        mask_names_apart(mask),
    ensures
        find_pct_d(mask, 0) matches Some(i) && find_pct_d(mask, i + 2) matches Some(k)
            && dir_name_spec(mask, level, child) == mask.subrange(0, i as int) + dec(level)
            + mask.subrange(i + 2 as int, k as int) + dec(child) + mask.subrange(k + 2 as int, mask.len() as int),
{
    let r = lemma_dir_name_shape(mask, level);
    assert(dir_name_spec(mask, level, child) == r.0 + dec(child) + r.1);
}

proof fn lemma_dec_injective(a: nat, b: nat)
    requires
        dec(a) == dec(b),
    ensures
        a == b,
{
    lemma_dec_digits(a);
    lemma_dec_digits(b);
}

proof fn lemma_no_slash_in_dec(n: nat)
    ensures
        !dec(n).contains('/'),
{
    lemma_dec_digits(n);
    if dec(n).contains('/') {
        let j = choose|j: int| 0 <= j < dec(n).len() && dec(n)[j] == '/';
        assert(is_ascii_digit(dec(n)[j]));
    }
}

proof fn lemma_no_slash_concat(a: Seq<char>, b: Seq<char>)
    requires
        !a.contains('/'),
        !b.contains('/'),
    ensures
        !(a + b).contains('/'),
{
    if (a + b).contains('/') {
        let j = choose|j: int| 0 <= j < (a + b).len() && (a + b)[j] == '/';
        if j < a.len() {
            assert(a[j] == '/');
        } else {
            assert(b[j - a.len()] == '/');
        }
    }
}

/// Names of a level: no `/`, and distinct child numbers give distinct names.
#[verifier::spinoff_prover]
proof fn lemma_names_apart(mask: Seq<char>, level: nat, c1: nat, c2: nat)
    requires
        mask_names_apart(mask),
    ensures
        !dir_name_spec(mask, level, c1).contains('/'),
        dir_name_spec(mask, level, c1) == dir_name_spec(mask, level, c2) ==> c1 == c2,
{
    let (h, t) = lemma_dir_name_shape(mask, level);
    let n1 = dir_name_spec(mask, level, c1);
    let n2 = dir_name_spec(mask, level, c2);
    lemma_no_slash_in_dec(c1);
    lemma_no_slash_concat(h, dec(c1));
    lemma_no_slash_concat(h + dec(c1), t);
    assert(n1 == h + dec(c1) + t);
    assert(n2 == h + dec(c2) + t);
    if n1 == n2 {
        assert(n1.len() == h.len() + dec(c1).len() + t.len());
        assert(n2.len() == h.len() + dec(c2).len() + t.len());
        assert(dec(c1).len() == dec(c2).len());
        assert(dec(c1) =~= n1.subrange(h.len() as int, (h.len() + dec(c1).len()) as int));
        assert(dec(c2) =~= n2.subrange(h.len() as int, (h.len() + dec(c2).len()) as int));
        lemma_dec_injective(c1, c2);
    }
}

#[verifier::spinoff_prover]
proof fn lemma_node_path_shape(mask: Seq<char>, w: nat, level: nat, g: nat)
    requires
        mask_names_apart(mask),
        w >= 1,
        level >= 1,
        1 <= g <= dirs_at_level(w, level),
    ensures
        count_char(node_path(mask, w, level, g), '/') == level - 1,
    decreases level,
{
    law_node_parent(mask, w, level, g);
    let name = dir_name_spec(mask, level, child_index(w, g));
    lemma_names_apart(mask, level, child_index(w, g), child_index(w, g));
    lemma_no_slash_count(name);
    if level > 1 {
        let pp = node_path(mask, w, (level - 1) as nat, parent_index(w, g));
        lemma_node_path_shape(mask, w, (level - 1) as nat, parent_index(w, g));
        lemma_count_char_concat(pp, seq!['/'], '/');
        lemma_count_char_concat(pp + seq!['/'], name, '/');
        assert(count_char(seq!['/'], '/') == 1) by {
            assert(seq!['/'].drop_last() =~= Seq::<char>::empty());
            assert(count_char(Seq::<char>::empty(), '/') == 0);
            assert(seq!['/'].last() == '/');
        }
    }
}

#[verifier::spinoff_prover]
proof fn lemma_node_path_injective(mask: Seq<char>, w: nat, level: nat, g1: nat, g2: nat)
    requires
        mask_names_apart(mask),
        w >= 1,
        level >= 1,
        1 <= g1 <= dirs_at_level(w, level),
        1 <= g2 <= dirs_at_level(w, level),
        node_path(mask, w, level, g1) == node_path(mask, w, level, g2),
    ensures
        g1 == g2,
    decreases level,
{
    law_node_parent(mask, w, level, g1);
    law_node_parent(mask, w, level, g2);
    let c1 = child_index(w, g1);
    let c2 = child_index(w, g2);
    let n1 = dir_name_spec(mask, level, c1);
    let n2 = dir_name_spec(mask, level, c2);
    lemma_names_apart(mask, level, c1, c2);
    lemma_names_apart(mask, level, c2, c1);
    if level == 1 {
        assert(c1 == c2);
        assert(parent_index(w, g1) == 1 && parent_index(w, g2) == 1) by {
            assert(dirs_at_level(w, 0) == 1);
            assert(dirs_at_level(w, 1) == w * dirs_at_level(w, 0));
            assert(w * 1 == w) by (nonlinear_arith);
            assert(dirs_at_level(w, 1) == w);
            assert((g1 - 1) / (w as int) == 0) by (nonlinear_arith)
                requires
                    1 <= g1 <= w,
            ;
            assert((g2 - 1) / (w as int) == 0) by (nonlinear_arith)
                requires
                    1 <= g2 <= w,
            ;
        }
    } else {
        let p1 = node_path(mask, w, (level - 1) as nat, parent_index(w, g1));
        let p2 = node_path(mask, w, (level - 1) as nat, parent_index(w, g2));
        let s1 = p1 + seq!['/'];
        let s2 = p2 + seq!['/'];
        assert forall|i: int| 0 <= i < n1.len() implies n1[i] != '/' by {
            if n1[i] == '/' {
                assert(n1.contains('/'));
            }
        }
        assert forall|i: int| 0 <= i < n2.len() implies n2[i] != '/' by {
            if n2[i] == '/' {
                assert(n2.contains('/'));
            }
        }
        lemma_last_index_of_concat(s1, n1, '/');
        lemma_last_index_of_concat(s2, n2, '/');
        assert(last_index_of(s1, '/') == Some(p1.len()));
        assert(last_index_of(s2, '/') == Some(p2.len()));
        assert(p1.len() == p2.len());
        assert(p1 =~= (s1 + n1).subrange(0, p1.len() as int));
        assert(p2 =~= (s2 + n2).subrange(0, p2.len() as int));
        assert(n1 =~= (s1 + n1).subrange(p1.len() + 1 as int, (s1 + n1).len() as int));
        assert(n2 =~= (s2 + n2).subrange(p2.len() + 1 as int, (s2 + n2).len() as int));
        lemma_node_path_injective(
            mask,
            w,
            (level - 1) as nat,
            parent_index(w, g1),
            parent_index(w, g2),
        );
    }
}

/// With a mask that names directories apart, all directory paths of a tree
/// are distinct, and each path at `level` has `level - 1` slashes.
#[verifier::spinoff_prover]
pub proof fn law_all_paths_distinct(mask: Seq<char>, w: nat, d: nat)
    requires
        mask_names_apart(mask),
        w >= 1,
    ensures
        forall|i: int, j: int|
            0 <= i < j < all_paths_spec(mask, w, d).len() ==> all_paths_spec(mask, w, d)[i]
                != all_paths_spec(mask, w, d)[j],
        forall|i: int|
            0 <= i < all_paths_spec(mask, w, d).len() ==> count_char(
                #[trigger] all_paths_spec(mask, w, d)[i],
                '/',
            ) < d,
    decreases d,
{
    if d > 0 {
        let d1 = (d - 1) as nat;
        law_all_paths_distinct(mask, w, d1);
        let old = all_paths_spec(mask, w, d1);
        let lv = level_paths_spec(mask, w, d);
        let all = all_paths_spec(mask, w, d);
        assert(all == old + lv);
        assert forall|i: int| 0 <= i < lv.len() implies count_char(#[trigger] lv[i], '/') == d - 1 by {
            lemma_node_path_shape(mask, w, d, (i + 1) as nat);
        }
        assert forall|i: int| 0 <= i < all.len() implies count_char(#[trigger] all[i], '/') < d by {
            if i < old.len() {
                assert(all[i] == old[i]);
            } else {
                assert(all[i] == lv[i - old.len()]);
            }
        }
        assert forall|i: int, j: int| 0 <= i < j < all.len() implies all[i] != all[j] by {
            if j < old.len() {
                assert(all[i] == old[i] && all[j] == old[j]);
            } else if i < old.len() {
                assert(all[i] == old[i]);
                assert(all[j] == lv[j - old.len()]);
                assert(count_char(old[i], '/') < d1);
                assert(count_char(lv[j - old.len()], '/') == d - 1);
            } else {
                let a = i - old.len();
                let b = j - old.len();
                assert(all[i] == lv[a] && all[j] == lv[b]);
                if lv[a] == lv[b] {
                    lemma_node_path_injective(mask, w, d, (a + 1) as nat, (b + 1) as nat);
                }
            }
        }
    }
}

/// With a mask that names directories apart, each path below the top level
/// is, up to its last `/`, a path of the level above: for every path of
/// `level > 1` there is a path one level up that is exactly what precedes
/// its last `/`.
#[verifier::spinoff_prover]
pub proof fn law_path_parent_prefix(mask: Seq<char>, w: nat, level: nat, i: int)
    requires
        mask_names_apart(mask),
        w >= 1,
        level > 1,
        0 <= i < level_paths_spec(mask, w, level).len(),
    ensures
        last_index_of(level_paths_spec(mask, w, level)[i], '/') matches Some(k) && exists|j: int|
            0 <= j < level_paths_spec(mask, w, (level - 1) as nat).len()
                && #[trigger] level_paths_spec(mask, w, (level - 1) as nat)[j]
                == level_paths_spec(mask, w, level)[i].take(k as int),
{
    let g = (i + 1) as nat;
    law_node_parent(mask, w, level, g);
    let pg = parent_index(w, g);
    let parent = node_path(mask, w, (level - 1) as nat, pg);
    let name = dir_name_spec(mask, level, child_index(w, g));
    lemma_names_apart(mask, level, child_index(w, g), child_index(w, g));
    assert forall|q: int| 0 <= q < name.len() implies name[q] != '/' by {
        if name[q] == '/' {
            assert(name.contains('/'));
        }
    }
    let s = parent + seq!['/'];
    lemma_last_index_of_concat(s, name, '/');
    assert(last_index_of(s, '/') == Some(parent.len()));
    let full = level_paths_spec(mask, w, level)[i];
    assert(full == s + name);
    assert(full.take(parent.len() as int) =~= parent);
    let j = pg - 1;
    assert(level_paths_spec(mask, w, (level - 1) as nat)[j] == parent);
}

/// Computing the file ranges twice gives what computing them once gave:
/// the second computation sees the same directories, levels, distribution
/// and files per directory, so it leaves every field as the first left it.
pub proof fn law_file_ranges_recompute_unchanged(m0: TreeManifest, m1: TreeManifest, m2: TreeManifest)
    requires
        m0.ranges_recomputed(m1),
        m1.ranges_recomputed(m2),
    ensures
        m1.ranges_for() == m0.ranges_for(),
        m2.all_directories == m1.all_directories,
        m2.by_level == m1.by_level,
        m2.agent_assignments == m1.agent_assignments,
        m2.config_hash == m1.config_hash,
        m2.total_dirs == m1.total_dirs,
        m2.files_per_dir == m1.files_per_dir,
        m2.distribution == m1.distribution,
        m2.total_files == m1.total_files,
        ranges_view(m2.file_ranges@) == ranges_view(m1.file_ranges@),
{
    if m0.by_level@.dom().is_empty() {
        assert(ranges_view(m2.file_ranges@) =~= ranges_view(m1.file_ranges@));
    }
}

} // verus!
