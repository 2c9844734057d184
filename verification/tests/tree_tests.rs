use debby::archive::TarEntry;
use debby::plan::{bytes_less, unpack_order, EntryKind};
use debby::text::{chars_of, join, line_bounds, split_bounds, string_of, text_less, trim_bounds};
use debby::tree::{build_tree_from_paths, insert_path, parts_of, Node};

fn strings(items: &[&str]) -> Vec<String> {
    items.iter().map(|s| s.to_string()).collect()
}

fn names(nodes: &[Node]) -> Vec<String> {
    nodes.iter().map(|n| n.name.clone()).collect()
}

fn cut(text: &str, bounds: Vec<(usize, usize)>) -> Vec<String> {
    let v = chars_of(text);
    bounds.into_iter().map(|(a, b)| string_of(&v, a, b)).collect()
}

fn entry(path: &str, flag: u8) -> Option<TarEntry> {
    Some(TarEntry { path: path.as_bytes().to_vec(), flag })
}

#[test]
fn a_path_splits_into_the_pieces_that_name_something() {
    assert_eq!(parts_of("./usr/bin/hello"), strings(&["usr", "bin", "hello"]));
    assert_eq!(parts_of("/usr//share/./doc/"), strings(&["usr", "share", "doc"]));
    assert_eq!(parts_of("a/../b"), strings(&["a", "..", "b"]));
    assert_eq!(parts_of("./"), Vec::<String>::new());
    assert_eq!(parts_of(""), Vec::<String>::new());
    assert_eq!(parts_of("..."), strings(&["..."]));
}

#[test]
fn a_path_makes_the_nodes_it_passes() {
    let mut level = Vec::new();
    insert_path(&mut level, &strings(&["usr", "bin", "hello"]), 0);
    assert_eq!(names(&level), vec!["usr"]);
    assert!(!level[0].is_file);
    assert_eq!(names(&level[0].children), vec!["bin"]);
    assert!(!level[0].children[0].is_file);
    let leaf = &level[0].children[0].children[0];
    assert_eq!(leaf.name, "hello");
    assert!(leaf.is_file);
    assert!(leaf.children.is_empty());
}

#[test]
fn a_path_is_put_in_from_the_part_given() {
    let mut level = Vec::new();
    insert_path(&mut level, &strings(&["skipped", "kept", "leaf"]), 1);
    assert_eq!(names(&level), vec!["kept"]);
    insert_path(&mut level, &strings(&["x"]), 1);
    assert_eq!(names(&level), vec!["kept"]);
}

#[test]
fn paths_share_the_nodes_they_have_in_common() {
    let mut level = Vec::new();
    insert_path(&mut level, &strings(&["usr", "share", "doc"]), 0);
    insert_path(&mut level, &strings(&["usr", "bin"]), 0);
    insert_path(&mut level, &strings(&["etc"]), 0);
    insert_path(&mut level, &strings(&["usr"]), 0);
    insert_path(&mut level, &strings(&["usr", "share", "doc"]), 0);
    assert_eq!(names(&level), vec!["etc", "usr"]);
    assert!(level[0].is_file);
    assert!(level[1].is_file);
    assert_eq!(names(&level[1].children), vec!["bin", "share"]);
    assert_eq!(names(&level[1].children[1].children), vec!["doc"]);
}

#[test]
fn every_level_of_a_tree_is_sorted() {
    let level = build_tree_from_paths(&strings(&[
        "./b/2", "./a/", "./c", "./b/10", "./B", "./b/1", "b/./2", "./ab",
    ]));
    assert_eq!(names(&level), vec!["B", "a", "ab", "b", "c"]);
    assert_eq!(names(&level[3].children), vec!["1", "10", "2"]);
    assert_eq!(build_tree_from_paths(&Vec::new()).len(), 0);
}

#[test]
fn texts_are_ordered_as_strings_are() {
    let words = ["", "a", "B", "ab", "b", "abc", "\u{e9}", "z", "\u{10000}", "\u{ffff}"];
    for a in words {
        for b in words {
            assert_eq!(text_less(&chars_of(a), &chars_of(b)), a < b);
        }
    }
}

#[test]
fn byte_strings_are_ordered_as_slices_are() {
    let words: [&[u8]; 7] = [b"", b"a", b"ab", b"b", b"a\xff", b"\x00", b"usr/bin/"];
    for a in words {
        for b in words {
            assert_eq!(bytes_less(a, b), a < b);
        }
    }
}

#[test]
fn files_come_first_and_directories_from_the_greatest_path_down() {
    let listing = vec![
        entry("./", b'5'),
        entry("./usr/", b'5'),
        entry("./usr/bin/", b'5'),
        entry("./usr/bin/tool", b'0'),
        entry("./etc/", b'5'),
        entry("./usr/bin/link", b'2'),
        entry("./dev/null", b'3'),
        entry("./etc/", b'5'),
    ];
    let (files, directories) = unpack_order(&listing).unwrap();
    assert_eq!(files, vec![3, 5, 6]);
    assert_eq!(directories, vec![2, 1, 4, 7, 0]);
    assert_eq!(unpack_order(&Vec::new()), Some((Vec::new(), Vec::new())));
}

#[test]
fn a_failed_step_leaves_no_order() {
    let listing = vec![entry("a", b'0'), None];
    assert_eq!(unpack_order(&listing), None);
}

#[test]
fn lines_end_at_line_feeds() {
    assert_eq!(cut("a\nb\r\nc", line_bounds(&chars_of("a\nb\r\nc"))), strings(&["a", "b", "c"]));
    assert_eq!(cut("a\n\nb\n", line_bounds(&chars_of("a\n\nb\n"))), strings(&["a", "", "b"]));
    assert_eq!(cut("a\r", line_bounds(&chars_of("a\r"))), strings(&["a\r"]));
    assert_eq!(cut("\r\n", line_bounds(&chars_of("\r\n"))), strings(&[""]));
    assert_eq!(cut("a\rb\n", line_bounds(&chars_of("a\rb\n"))), strings(&["a\rb"]));
    assert_eq!(line_bounds(&chars_of("")).len(), 0);
    for text in ["", "\n", "x", "x\n", "\n\nx", "a\r\n\r\nb\r", "é\nü"] {
        let expected: Vec<String> = text.lines().map(|l| l.to_string()).collect();
        assert_eq!(cut(text, line_bounds(&chars_of(text))), expected);
    }
}

#[test]
fn a_split_has_one_piece_more_than_separators() {
    for text in ["", ",", "a,b", ",a,,b,", "no comma"] {
        let v = chars_of(text);
        let expected: Vec<String> = text.split(',').map(|l| l.to_string()).collect();
        assert_eq!(cut(text, split_bounds(&v, 0, v.len(), ',')), expected);
    }
    let v = chars_of("a/b/c");
    assert_eq!(split_bounds(&v, 2, 5, '/'), vec![(2, 3), (4, 5)]);
}

#[test]
fn trimming_removes_white_space_at_both_ends() {
    for text in ["", "  ", " a ", "\t\r\n a b \u{a0}\u{3000}", "a", "\u{2003}x\u{85}", "\u{200b}x"] {
        let v = chars_of(text);
        let (a, b) = trim_bounds(&v, 0, v.len());
        assert_eq!(string_of(&v, a, b), text.trim());
    }
}

#[test]
fn joining_puts_the_separator_between_items() {
    assert_eq!(join(&strings(&["a", "b", "c"]), ", "), "a, b, c");
    assert_eq!(join(&strings(&["a"]), ", "), "a");
    assert_eq!(join(&strings(&["", ""]), "-"), "-");
    assert_eq!(join(&Vec::new(), ", "), "");
}

#[test]
fn an_entry_has_the_kind_of_its_flag() {
    assert_eq!(entry("d/", b'5').unwrap().kind(), EntryKind::Directory);
    assert_eq!(entry("f", b'0').unwrap().kind(), EntryKind::File);
    assert_eq!(entry("l", b'2').unwrap().kind(), EntryKind::Symlink);
    assert_eq!(entry("h", b'1').unwrap().kind(), EntryKind::Other);
    assert_eq!(entry("c", b'7').unwrap().kind(), EntryKind::Other);
}

fn flatten(nodes: &[Node], depth: usize, out: &mut Vec<(usize, String, bool)>) {
    for node in nodes {
        out.push((depth, node.name.clone(), node.is_file));
        flatten(&node.children, depth + 1, out);
    }
}

fn shape(paths: &[&str]) -> Vec<(usize, String, bool)> {
    let mut out = Vec::new();
    flatten(&build_tree_from_paths(&strings(paths)), 0, &mut out);
    out
}

#[test]
fn the_tree_does_not_depend_on_the_order_of_the_paths() {
    let paths = ["./usr/bin/a", "./usr/", "./etc/x", "./usr/bin/", "./usr/lib/b/c", "./etc/"];
    let reference = shape(&paths);
    let mut turned = paths;
    for _ in 0..paths.len() {
        turned.rotate_left(1);
        assert_eq!(shape(&turned), reference);
        let mut swapped = turned;
        swapped.swap(0, 3);
        assert_eq!(shape(&swapped), reference);
    }
    let mut reversed = paths;
    reversed.reverse();
    assert_eq!(shape(&reversed), reference);
}

#[test]
fn the_tree_does_not_depend_on_how_often_a_path_stands() {
    let once = shape(&["./usr/bin/a", "./usr/", "./etc/x"]);
    assert_eq!(shape(&["./usr/bin/a", "./usr/", "./etc/x", "./usr/"]), once);
    assert_eq!(shape(&["./usr/bin/a", "./usr/", "./usr/bin/a", "./etc/x", "usr/bin/a"]), once);
}
