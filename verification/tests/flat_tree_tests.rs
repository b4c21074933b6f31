use broot::flat_tree::{LineType, Tree, TreeBuilder, TreeLine};

fn bytes(s: &str) -> Vec<u8> {
    s.as_bytes().to_vec()
}

/// Runs a whole build against a small in-memory hierarchy: a path listed
/// on the left is a directory whose children stand on the right; any
/// other path is a plain file.
fn run_build(dirs: &[(&str, Vec<&str>)], root: &str, budget: u16) -> Tree {
    let mut b = TreeBuilder::from(bytes(root), budget);
    while let Some(p) = b.pending() {
        let ps = String::from_utf8(p).unwrap();
        let mut found: Option<Vec<Vec<u8>>> = None;
        for (d, cs) in dirs.iter() {
            if *d == ps {
                found = Some(cs.iter().map(|c| bytes(c)).collect());
            }
        }
        match found {
            Some(cs) => b.push(true, cs),
            None => b.push(false, Vec::new()),
        }
    }
    b.build()
}

fn paths(t: &Tree) -> Vec<String> {
    t.lines
        .iter()
        .map(|l| String::from_utf8(l.path.clone()).unwrap())
        .collect()
}

#[test]
fn single_root_budget_one() {
    let dirs = vec![("/a", vec!["/a/x", "/a/y"])];
    let t = run_build(&dirs, "/a", 1);
    assert_eq!(t.lines.len(), 1);
    assert_eq!(paths(&t), vec!["/a"]);
    assert_eq!(t.lines[0].depth, 0);
    assert!(matches!(t.lines[0].content, LineType::Dir));
}

#[test]
fn output_length_never_exceeds_budget() {
    let dirs = vec![
        ("/a", vec!["/a/x", "/a/y", "/a/z"]),
        ("/a/x", vec!["/a/x/1", "/a/x/2", "/a/x/3", "/a/x/4"]),
        ("/a/y", vec!["/a/y/1", "/a/y/2"]),
    ];
    for budget in 1..12u16 {
        let t = run_build(&dirs, "/a", budget);
        assert!(t.lines.len() <= budget as usize);
        assert!(t.lines.len() >= 1);
    }
}

#[test]
fn small_tree_fully_listed_without_pruning() {
    let dirs = vec![("/a", vec!["/a/f", "/a/g"])];
    let t = run_build(&dirs, "/a", 10);
    assert_eq!(t.lines.len(), 3);
    assert_eq!(paths(&t), vec!["/a", "/a/f", "/a/g"]);
    for l in &t.lines {
        assert!(!matches!(l.content, LineType::Pruning(_)));
    }
}

#[test]
fn two_directories_budget_four() {
    // root holds two directories; with a budget of 4 only one of them
    // gets to emit a child, and the other stays un-pruned because it
    // never emitted anything.
    let dirs = vec![
        ("/a", vec!["/a/x", "/a/y"]),
        ("/a/x", vec!["/a/x/f1", "/a/x/f2", "/a/x/f3"]),
        ("/a/y", vec!["/a/y/g1"]),
    ];
    let t = run_build(&dirs, "/a", 4);
    assert_eq!(t.lines.len(), 4);
    assert_eq!(paths(&t), vec!["/a", "/a/x", "/a/x/f1", "/a/y"]);
    assert_eq!(t.lines[0].depth, 0);
    assert_eq!(t.lines[1].depth, 1);
    assert_eq!(t.lines[2].depth, 2);
    assert_eq!(t.lines[3].depth, 1);
    // /a/x listed 1 of 3 children: its single emitted child became the
    // placeholder counting 2 unlisted + itself
    assert!(matches!(t.lines[2].content, LineType::Pruning(3)));
    // /a/y emitted nothing, so it carries no placeholder
    assert!(matches!(t.lines[3].content, LineType::Dir));
}

#[test]
fn five_children_two_listed_prunes_second() {
    let dirs = vec![("/r", vec!["/r/c1", "/r/c2", "/r/c3", "/r/c4", "/r/c5"])];
    let t = run_build(&dirs, "/r", 3);
    assert_eq!(t.lines.len(), 3);
    assert_eq!(paths(&t), vec!["/r", "/r/c1", "/r/c2"]);
    assert!(matches!(t.lines[1].content, LineType::File));
    // the 2nd listed child stands for the 3 unlisted ones and itself
    assert!(matches!(t.lines[2].content, LineType::Pruning(4)));
    assert_eq!(t.lines[2].name, "... 4 other files...");
}

#[test]
fn at_most_one_pruned_child_per_directory() {
    let dirs = vec![
        ("/r", vec!["/r/x", "/r/y"]),
        ("/r/x", vec!["/r/x/a", "/r/x/b", "/r/x/c"]),
        ("/r/y", vec!["/r/y/a", "/r/y/b"]),
    ];
    let t = run_build(&dirs, "/r", 6);
    assert_eq!(t.lines.len(), 6);
    assert_eq!(
        paths(&t),
        vec!["/r", "/r/x", "/r/x/a", "/r/x/b", "/r/y", "/r/y/a"]
    );
    // x emitted 2 of 3 children, y 1 of 2: fairness kept them within one
    assert!(matches!(t.lines[2].content, LineType::File));
    assert!(matches!(t.lines[3].content, LineType::Pruning(2)));
    assert!(matches!(t.lines[5].content, LineType::Pruning(2)));
}

#[test]
fn shallow_levels_fill_before_deep_ones() {
    // the first directory alphabetically must not starve its sibling
    let dirs = vec![
        ("/r", vec!["/r/a", "/r/b"]),
        ("/r/a", vec!["/r/a/1", "/r/a/2", "/r/a/3", "/r/a/4"]),
        ("/r/b", vec!["/r/b/1"]),
    ];
    let t = run_build(&dirs, "/r", 5);
    assert_eq!(t.lines.len(), 5);
    assert_eq!(paths(&t), vec!["/r", "/r/a", "/r/a/1", "/r/b", "/r/b/1"]);
}

#[test]
fn output_is_sorted_and_sorting_again_changes_nothing() {
    let dirs = vec![
        ("/r", vec!["/r/x", "/r/y", "/r/x.y"]),
        ("/r/x", vec!["/r/x/m", "/r/x/n"]),
        ("/r/y", vec!["/r/y/q"]),
    ];
    let t = run_build(&dirs, "/r", 8);
    let ps: Vec<Vec<u8>> = t.lines.iter().map(|l| l.path.clone()).collect();
    let mut resorted = ps.clone();
    resorted.sort();
    assert_eq!(ps, resorted);
}

#[test]
fn depth_of_each_entry_follows_nearest_shallower_predecessor() {
    let dirs = vec![
        ("/r", vec!["/r/x", "/r/x.y", "/r/y"]),
        ("/r/x", vec!["/r/x/m"]),
        ("/r/y", vec!["/r/y/q", "/r/y/r"]),
    ];
    let t = run_build(&dirs, "/r", 10);
    for j in 1..t.lines.len() {
        let d = t.lines[j].depth;
        assert!(d >= 1);
        let mut i = j;
        loop {
            i -= 1;
            if t.lines[i].depth < d {
                assert_eq!(t.lines[i].depth, d - 1);
                break;
            }
        }
    }
}

#[test]
fn children_are_listed_in_sorted_order() {
    // the cursor sorts the raw listing before handing children out
    let dirs = vec![("/r", vec!["/r/c", "/r/a", "/r/b"])];
    let t = run_build(&dirs, "/r", 3);
    assert_eq!(paths(&t), vec!["/r", "/r/a", "/r/b"]);
    assert!(matches!(t.lines[2].content, LineType::Pruning(2)));
}

#[test]
fn create_extracts_base_name() {
    let line = TreeLine::create(bytes("/a/b.txt"), 2, false);
    assert_eq!(line.name, "b.txt");
    assert_eq!(line.depth, 2);
    assert_eq!(line.path, bytes("/a/b.txt"));
    assert!(matches!(line.content, LineType::File));
    assert!(!line.is_dir());

    let no_sep = TreeLine::create(bytes("plain"), 0, true);
    assert_eq!(no_sep.name, "plain");
    assert!(no_sep.is_dir());

    let empty_name = TreeLine::create(bytes("/a/"), 1, true);
    assert_eq!(empty_name.name, "???");
}

#[test]
fn pruning_label_spells_the_count() {
    assert_eq!(broot::label::pruning_label(4), "... 4 other files...");
    assert_eq!(broot::label::pruning_label(12), "... 12 other files...");
    assert_eq!(broot::label::pruning_label(105), "... 105 other files...");
}
