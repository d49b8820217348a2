use git_annex_browser::annex::AnnexedFile;
use git_annex_browser::usage::build_usage_tree;

fn f(path: &str, size: u64) -> AnnexedFile {
    AnnexedFile {
        path: path.into(),
        key: format!("SHA256E-s{size}--{path}"),
        size: Some(size),
    }
}

#[test]
fn aggregates_and_sorts_largest_first() {
    let tree = build_usage_tree(&[
        f("videos/big.mkv", 50_000),
        f("videos/clips/mid.bin", 8_000),
        f("photos/small.jpg", 1_000),
        f("readme.txt", 50),
    ]);
    let (root_sz, root_n) = tree.stats("");
    assert_eq!(root_sz, 59_050);
    assert_eq!(root_n, 4);

    let root = tree.children_sorted("");
    let names: Vec<_> = root.iter().map(|c| c.name.as_str()).collect();
    assert_eq!(names, ["videos", "photos", "readme.txt"]);
    assert!(root[0].is_dir);
    assert_eq!(root[0].size, 58_000);
    assert_eq!(root[0].file_count, 2);
    assert_eq!(root[1].size, 1_000);
    assert!(!root[2].is_dir);

    let videos = tree.children_sorted("videos");
    assert_eq!(videos[0].name, "big.mkv");
    assert_eq!(videos[0].size, 50_000);
    assert_eq!(videos[1].name, "clips");
    assert_eq!(videos[1].size, 8_000);
    assert!(videos[1].is_dir);

    let listing = tree.listing("videos");
    assert_eq!(listing.total_size, 58_000);
    assert_eq!(listing.entries[0].name, "big.mkv");
    assert_eq!(listing.entries[1].name, "clips/");
}

#[test]
fn counts_each_path_even_with_shared_key_size() {
    let tree = build_usage_tree(&[f("a/one.bin", 100), f("a/two.bin", 100)]);
    assert_eq!(tree.stats("a").0, 200);
    assert_eq!(tree.stats("").1, 2);
}

#[test]
fn slashes_and_unknown_sizes() {
    let tree = build_usage_tree(&[
        f("/x//y/", 7),
        f("///", 9),
        f("", 9),
        AnnexedFile {
            path: "x/z".into(),
            key: "URL--z".into(),
            size: None,
        },
    ]);
    assert_eq!(tree.stats(""), (7, 2));
    assert_eq!(tree.stats("x"), (7, 2));
    let x = tree.children_sorted("x");
    assert_eq!(x.len(), 2);
    assert_eq!(x[0].name, "y");
    assert_eq!(x[0].rel_path, "x/y");
    assert_eq!(x[0].file_idx, Some(0));
    assert_eq!(x[1].name, "z");
    assert_eq!(x[1].size, 0);
    assert_eq!(x[1].file_idx, Some(3));
    assert_eq!(tree.stats("nowhere"), (0, 0));
    assert!(tree.children_sorted("nowhere").is_empty());
    assert_eq!(tree.listing("").path, "/");
    assert_eq!(tree.listing("x").path, "/x");
}

#[test]
fn sizes_do_not_overflow() {
    let tree = build_usage_tree(&[f("a/x", u64::MAX), f("a/y", 5), f("b", 1)]);
    assert_eq!(tree.stats("a"), (u64::MAX, 2));
    assert_eq!(tree.stats(""), (u64::MAX, 3));
    assert_eq!(tree.children_sorted("")[0].size, u64::MAX);
}

#[test]
fn a_directory_adds_up_its_entries() {
    let tree = build_usage_tree(&[f("d/a", 3), f("d/e/b", 4), f("d/e/c", 5), f("g", 6)]);
    let (size, n) = tree.stats("d");
    let rows = tree.children_sorted("d");
    assert_eq!(size, rows.iter().map(|c| c.size).sum::<u64>());
    assert_eq!(n, rows.iter().map(|c| c.file_count).sum::<usize>());
    let e = rows.iter().find(|c| c.name == "e").unwrap();
    assert_eq!((e.size, e.file_count), tree.stats(&e.rel_path));
    let names: Vec<_> = tree
        .children_sorted("")
        .iter()
        .map(|c| c.name.as_str())
        .collect();
    assert_eq!(names, ["d", "g"]);
}

#[test]
fn the_top_adds_up_all_files() {
    let files = [f("d/a", 3), f("//", 100), f("e", 4), f("d/g/b", 5)];
    let tree = build_usage_tree(&files);
    assert_eq!(tree.stats(""), (12, 3));
    for dir in ["", "d", "d/g", "e", "nowhere"] {
        let rows = tree.children_sorted(dir);
        let sizes = rows.iter().map(|c| c.size).sum::<u64>();
        let counts = rows.iter().map(|c| c.file_count).sum::<usize>();
        assert_eq!(tree.stats(dir), (sizes, counts));
    }
}

#[test]
fn entries_of_a_size_come_by_name() {
    let tree = build_usage_tree(&[f("b", 1), f("c", 1), f("a", 1)]);
    let names: Vec<_> = tree
        .children_sorted("")
        .iter()
        .map(|c| c.name.as_str())
        .collect();
    assert_eq!(names, ["a", "b", "c"]);
}
