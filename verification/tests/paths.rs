use git_annex_browser::order::{arrange, SortKey};
use git_annex_browser::paths::{
    file_name_of, is_absolute_path, join_path_of, names_same_path, path_is_under, resolve_git_file,
};
use git_annex_browser::report::{skips_directory, visit, Visit};
use git_annex_browser::table::{PathMap, StrMap, StrSet};
use git_annex_browser::tally::Tally;
use git_annex_browser::text::{
    begins_with, decimal_of, find_index, has_text, i64_of, join_of, lines_of, repeat_of, rfind_index, split_chars, str_less, string_of, trim_of,
    u32_of, u64_of, words_of,
};
use std::path::{Path, PathBuf};

fn chars(t: &str) -> Vec<char> {
    t.chars().collect()
}

fn texts(v: Vec<Vec<char>>) -> Vec<String> {
    v.iter().map(|c| c.iter().collect()).collect()
}

#[test]
fn paths_are_under_their_ancestors() {
    for (p, r) in [
        ("/data/media/a", "/data/media"),
        ("/data/media", "/data/media"),
        ("/data/mediax", "/data/media"),
        ("/data/media/", "/data//media/."),
        ("data/a", "/data"),
        ("./a", "a"),
        ("a/b", ""),
        ("/a", "/"),
        ("a/../b", "a"),
        ("", ""),
        (".", "."),
    ] {
        let (x, y) = (Path::new(p), Path::new(r));
        assert_eq!(path_is_under(p, r), x == y || x.starts_with(y), "{p} {r}");
        assert_eq!(names_same_path(p, r), x == y, "{p} {r}");
    }
}

#[test]
fn what_is_under_is_under_what_is_above() {
    assert!(path_is_under("/a/b/c", "/a/b"));
    assert!(path_is_under("/a/b", "/a"));
    assert!(path_is_under("/a/b/c", "/a"));
}

#[test]
fn texts_are_found_in_texts() {
    for (t, p) in [("abc", "bc"), ("abc", ""), ("", "a"), ("aab", "ab"), ("abc", "abcd")] {
        assert_eq!(has_text(&chars(t), p), t.contains(p));
        assert_eq!(begins_with(&chars(t), p), t.starts_with(p));
        assert_eq!(find_index(&chars(t), &chars(p)), t.find(p));
        assert_eq!(rfind_index(&chars(t), &chars(p)), t.rfind(p));
    }
}

#[test]
fn names_and_joins_go_by_the_rules_of_paths() {
    for p in ["/a/b", "/a/b/", "a", "/", "", "..", "a/..", "a/.", ".", "./x", "/x/./y//"] {
        let name = Path::new(p)
            .file_name()
            .map(|n| n.to_string_lossy().to_string());
        assert_eq!(file_name_of(p), name, "{p}");
        assert_eq!(is_absolute_path(p), Path::new(p).is_absolute());
        for q in ["x", "/x", "", "x/y"] {
            let joined = PathBuf::from(p).join(q);
            assert_eq!(join_path_of(p, q), joined.to_string_lossy(), "{p} {q}");
        }
    }
}

#[test]
fn git_files_name_their_directory() {
    assert_eq!(
        resolve_git_file("gitdir: /real.git\n", "/tree"),
        Some("/real.git".to_string())
    );
    assert_eq!(
        resolve_git_file("x\ngitdir:../r.git\r\ngitdir: /no\n", "/tree"),
        Some("/tree/../r.git".to_string())
    );
    assert_eq!(resolve_git_file("nothing\n", "/tree"), None);
    assert_eq!(resolve_git_file("", "/tree"), None);
}

#[test]
fn only_directories_of_git_are_not_searched() {
    assert!(skips_directory(".git"));
    for name in ["target", "node_modules", ".hidden", "photos", "", ".gitx"] {
        assert!(!skips_directory(name));
        assert_eq!(visit(name, true), Visit::Take);
        assert_eq!(visit(name, false), Visit::Enter);
    }
    assert_eq!(visit(".git", true), Visit::Leave);
    assert_eq!(visit(".git", false), Visit::Leave);
}

#[test]
fn sorting_is_stable() {
    let keys = vec![
        SortKey::new(1, "b"),
        SortKey::new(0, "z"),
        SortKey::new(1, "a"),
        SortKey::new(1, "b"),
        SortKey::new(-1, ""),
    ];
    let sorted = arrange(vec![10, 11, 12, 13, 14], &keys);
    assert_eq!(sorted, vec![14, 11, 12, 10, 13]);
    let none: Vec<u8> = arrange(Vec::new(), &Vec::new());
    assert!(none.is_empty());
}

#[test]
fn texts_are_ordered_as_strings() {
    let words = ["", "a", "ab", "b", "B", "ä", "z", "€", "😀", "a/b", "a-b"];
    for a in words {
        for b in words {
            assert_eq!(str_less(a, b), a < b, "{a} {b}");
        }
    }
}

#[test]
fn texts_are_split_as_strings() {
    for t in ["", "a\nb", "a\r\nb\n", "\n", "a\n\nb\r", "\r\n\r\n", "x y\tz", "  a \u{3000} b "] {
        let c = chars(t);
        let lines: Vec<String> = t.lines().map(String::from).collect();
        assert_eq!(texts(lines_of(&c)), lines, "{t:?}");
        let words: Vec<String> = t.split_whitespace().map(String::from).collect();
        assert_eq!(texts(words_of(&c)), words, "{t:?}");
        let parts: Vec<String> = t.split('\n').map(String::from).collect();
        assert_eq!(texts(split_chars(&c, '\n')), parts, "{t:?}");
        assert_eq!(string_of(trim_of(&c)), t.trim(), "{t:?}");
    }
}

#[test]
fn numbers_are_read_as_strings_are() {
    for t in [
        "", "0", "007", "+5", "-5", "+", "-", "-0", "+-1", "1 ", "4294967295", "4294967296",
        "18446744073709551615", "18446744073709551616", "9223372036854775807",
        "-9223372036854775808", "-9223372036854775809", "99999999999999999999999", "١",
    ] {
        let c = chars(t);
        assert_eq!(u64_of(&c), t.parse().ok(), "{t}");
        assert_eq!(u32_of(&c), t.parse().ok(), "{t}");
        assert_eq!(i64_of(&c), t.parse().ok(), "{t}");
    }
}

#[test]
fn numbers_are_read_back() {
    for n in [0, 1, 9, 10, 99, 100, 12345, u64::MAX] {
        assert_eq!(decimal_of(n), n.to_string());
        assert_eq!(u64_of(&chars(&decimal_of(n))), Some(n));
    }
}

#[test]
fn texts_are_joined_and_repeated() {
    let list = vec!["a".to_string(), "".to_string(), "b".to_string()];
    assert_eq!(join_of(&list, ", "), "a, , b");
    assert_eq!(join_of(&Vec::new(), ", "), "");
    assert_eq!(repeat_of("ab", 3), "ababab");
    assert_eq!(repeat_of("ab", 0), "");
}

#[test]
fn maps_hold_the_last_value_in_order() {
    let mut m = StrMap::new();
    for (k, v) in [("b", 1u64), ("a", 2), ("c", 3), ("b", 4)] {
        m.insert(k.to_string(), v);
    }
    assert_eq!(m.len(), 3);
    assert_eq!(m.get("b"), Some(&4));
    assert_eq!(m.key_at(0), "a");
    assert_eq!(m.remove("a"), Some(2));
    assert_eq!(m.remove("a"), None);
    assert_eq!(
        m.into_pairs(),
        vec![("b".to_string(), 4), ("c".to_string(), 3)]
    );
}

#[test]
fn sets_hold_each_member_once() {
    let mut s = StrSet::new();
    for k in ["b", "a", "b"] {
        s.insert(k.to_string());
    }
    let mut t = StrSet::new();
    t.insert("c".to_string());
    s.extend(&t);
    assert_eq!(s.len(), 3);
    assert_eq!(s.member_at(0), "a");
    assert!(s.contains("c"));
    assert!(!s.contains("d"));
}

#[test]
fn path_maps_go_by_path() {
    let mut m = PathMap::new();
    m.insert("/a/b".to_string(), 1u64);
    m.insert("/a//b/".to_string(), 2);
    m.insert("/c".to_string(), 3);
    assert_eq!(m.len(), 2);
    assert_eq!(m.path_at(0), "/a/b");
    assert_eq!(m.get("/a/./b"), Some(&2));
    m.keep_listed(&vec!["/c/".to_string()]);
    assert_eq!(m.len(), 1);
    assert_eq!(m.get("/a/b"), None);
}

#[test]
fn tallies_count() {
    let mut t: Tally<Option<String>> = Tally::new();
    for k in [None, Some("x"), None, None, Some("y"), Some("x"), Some("y")] {
        t.add(k.map(String::from));
    }
    assert_eq!(t.len(), 3);
    assert_eq!(t.most_counted(), Some(&None));
    assert_eq!(t.most_counted_text(), Some("y".to_string()));
    assert!(t.counts_reach(7));
    assert!(!t.counts_reach(8));
    let none: Tally<Option<String>> = Tally::new();
    assert_eq!(none.most_counted(), None);
    assert_eq!(none.most_counted_text(), None);
}
