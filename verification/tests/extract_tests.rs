use std::io::Write;

use debby::archive::is_common_archive;
use debby::codec::{codec_for, decode, decode_as, Codec};
use debby::extract::{
    count, extract_control, extract_files_tree, extract_to, member_name, outer_steps, stem,
    Malformed,
};
use debby::tree::Node;

const CONTROL: &str = "Package: hello\nVersion: 2.10-3\nArchitecture: amd64\nMaintainer: M <m@example.org>\nDescription: short\n A long paragraph\n";

fn tar_of(entries: &[(&str, u8, &[u8])]) -> Vec<u8> {
    let mut builder = tar::Builder::new(Vec::new());
    for (path, flag, body) in entries {
        let mut header = tar::Header::new_gnu();
        header.set_entry_type(tar::EntryType::new(*flag));
        header.set_mode(0o755);
        header.set_size(body.len() as u64);
        if *flag == b'2' {
            header.set_link_name("target").unwrap();
        }
        builder.append_data(&mut header, path, *body).unwrap();
    }
    builder.into_inner().unwrap()
}

fn gzip(data: &[u8]) -> Vec<u8> {
    let mut e = flate2::write::GzEncoder::new(Vec::new(), flate2::Compression::default());
    e.write_all(data).unwrap();
    e.finish().unwrap()
}

fn xz(data: &[u8]) -> Vec<u8> {
    let mut e = xz2::write::XzEncoder::new(Vec::new(), 6);
    e.write_all(data).unwrap();
    e.finish().unwrap()
}

fn bz2(data: &[u8]) -> Vec<u8> {
    let mut e = bzip2::write::BzEncoder::new(Vec::new(), bzip2::Compression::default());
    e.write_all(data).unwrap();
    e.finish().unwrap()
}

fn zst(data: &[u8]) -> Vec<u8> {
    zstd::stream::encode_all(data, 3).unwrap()
}

fn packed(suffix: &str, data: &[u8]) -> Vec<u8> {
    match suffix {
        "gz" => gzip(data),
        "xz" => xz(data),
        "bz2" => bz2(data),
        "zst" => zst(data),
        _ => data.to_vec(),
    }
}

fn ar_of(members: &[(&str, Vec<u8>)]) -> Vec<u8> {
    let mut builder = ar::Builder::new(Vec::new());
    for (name, data) in members {
        let header = ar::Header::new(name.as_bytes().to_vec(), data.len() as u64);
        builder.append(&header, &data[..]).unwrap();
    }
    builder.into_inner().unwrap()
}

fn control_tar() -> Vec<u8> {
    tar_of(&[
        ("./", b'5', b""),
        ("./md5sums", b'0', b"0123  usr/bin/hello\n"),
        ("./control", b'0', CONTROL.as_bytes()),
    ])
}

fn data_tar() -> Vec<u8> {
    tar_of(&[
        ("./", b'5', b""),
        ("./usr/", b'5', b""),
        ("./usr/bin/", b'5', b""),
        ("./usr/bin/hello", b'0', b"#!/bin/sh\necho hello\n"),
        ("./usr/share/", b'5', b""),
        ("./usr/share/doc/", b'5', b""),
        ("./usr/share/doc/hello/", b'5', b""),
        ("./usr/share/doc/hello/copyright", b'0', b"free"),
        ("./usr/bin/hi", b'2', b""),
    ])
}

fn deb(suffix: &str) -> Vec<u8> {
    ar_of(&[
        ("debian-binary", b"2.0\n".to_vec()),
        (&format!("control.tar.{}", suffix), packed(suffix, &control_tar())),
        (&format!("data.tar.{}", suffix), packed(suffix, &data_tar())),
    ])
}

fn names(nodes: &[Node]) -> Vec<String> {
    nodes.iter().map(|n| n.name.clone()).collect()
}

fn preorder(node: &Node, depth: usize, out: &mut Vec<(usize, String)>) {
    out.push((depth, node.name.clone()));
    for child in &node.children {
        preorder(child, depth + 1, out);
    }
}

#[test]
fn the_format_goes_by_the_suffix() {
    assert_eq!(codec_for("data.tar.gz"), Some(Codec::Gzip));
    assert_eq!(codec_for("data.tar.xz"), Some(Codec::Xz));
    assert_eq!(codec_for("data.tar.bz2"), Some(Codec::Bzip2));
    assert_eq!(codec_for("data.tar.zst"), Some(Codec::Zstd));
    assert_eq!(codec_for(".tar.gz"), Some(Codec::Gzip));
    assert_eq!(codec_for("data.tar.GZ"), None);
    assert_eq!(codec_for("data.tar"), None);
    assert_eq!(codec_for("data.tgz"), None);
    assert_eq!(codec_for("debian-binary"), None);
    assert_eq!(codec_for("tar.gz"), None);
    assert_eq!(codec_for(""), None);
}

#[test]
fn each_format_gives_the_stream_back() {
    let plain = data_tar();
    for suffix in ["gz", "xz", "bz2", "zst"] {
        let name = format!("data.tar.{}", suffix);
        let compressed = packed(suffix, &plain);
        assert_ne!(compressed, plain);
        assert_eq!(decode(&name, &compressed), Some(plain.clone()));
    }
}

#[test]
fn each_decoder_is_reached_by_its_format() {
    let plain = b"some bytes, some bytes, some bytes".to_vec();
    assert_eq!(decode_as(Codec::Gzip, &gzip(&plain)), Some(plain.clone()));
    assert_eq!(decode_as(Codec::Xz, &xz(&plain)), Some(plain.clone()));
    assert_eq!(decode_as(Codec::Bzip2, &bz2(&plain)), Some(plain.clone()));
    assert_eq!(decode_as(Codec::Zstd, &zst(&plain)), Some(plain.clone()));
    assert_eq!(decode_as(Codec::Gzip, &xz(&plain)), None);
    assert_eq!(decode_as(Codec::Xz, &gzip(&plain)), None);
    assert_eq!(decode_as(Codec::Bzip2, &gzip(&plain)), None);
    assert_eq!(decode_as(Codec::Zstd, &gzip(&plain)), None);
}

#[test]
fn another_suffix_gives_no_stream() {
    let compressed = gzip(&data_tar());
    assert_eq!(decode("data.tar", &compressed), None);
    assert_eq!(decode("data.tar.lzma", &compressed), None);
    assert_eq!(decode("data.TAR.GZ", &compressed), None);
}

#[test]
fn a_stream_that_does_not_decode_is_absent() {
    assert_eq!(decode("data.tar.gz", b"not a gzip stream"), None);
    assert_eq!(decode("data.tar.xz", b"not an xz stream"), None);
    assert_eq!(decode("data.tar.bz2", b"not a bzip2 stream"), None);
    assert_eq!(decode("data.tar.zst", b"not a zstd stream"), None);
}

#[test]
fn member_names_are_trimmed_and_lose_their_slashes() {
    assert_eq!(member_name(b"control.tar.gz"), "control.tar.gz");
    assert_eq!(member_name(b"control.tar.gz/"), "control.tar.gz");
    assert_eq!(member_name(b"  data.tar.xz// "), "data.tar.xz//".trim_end_matches('/'));
    assert_eq!(member_name(b"debian-binary   "), "debian-binary");
    assert_eq!(member_name(b"a/ /"), "a/ ");
    assert_eq!(member_name(b"\xff"), "\u{fffd}");
    assert_eq!(member_name(b""), "");
}

#[test]
fn the_stem_is_the_base_name_up_to_the_first_dot() {
    assert_eq!(stem("control.tar.gz"), "control");
    assert_eq!(stem("data.tar.xz"), "data");
    assert_eq!(stem("dir/inner.tar.zst"), "inner");
    assert_eq!(stem("plain"), "plain");
    assert_eq!(stem(".hidden.tar.gz"), "");
    assert_eq!(stem(".."), "");
    assert_eq!(stem(""), "");
}

#[test]
fn the_outer_archive_is_read_member_by_member() {
    let steps = outer_steps(&deb("gz"));
    assert_eq!(steps.len(), 3);
    let first = steps[0].as_ref().unwrap();
    assert_eq!(first.identifier, b"debian-binary".to_vec());
    assert_eq!(first.data, b"2.0\n".to_vec());
    assert_eq!(steps[1].as_ref().unwrap().identifier, b"control.tar.gz".to_vec());
    assert_eq!(steps[2].as_ref().unwrap().data, gzip(&data_tar()));
}

#[test]
fn the_control_text_is_found_in_every_format() {
    for suffix in ["gz", "xz", "bz2", "zst"] {
        assert_eq!(extract_control(&deb(suffix)), Some(CONTROL.to_string()));
    }
}

#[test]
fn the_control_member_goes_by_its_exact_name() {
    let archive = ar_of(&[
        ("debian-binary", b"2.0\n".to_vec()),
        ("xcontrol.tar.gz", gzip(&control_tar())),
        ("data.tar.gz", gzip(&control_tar())),
    ]);
    assert_eq!(extract_control(&archive), None);
}

#[test]
fn a_package_without_a_control_file_has_no_control_text() {
    let inner = tar_of(&[("./md5sums", b'0', b"x"), ("./control.old", b'0', b"y")]);
    let archive = ar_of(&[("control.tar.gz", gzip(&inner)), ("data.tar.gz", gzip(&data_tar()))]);
    assert_eq!(extract_control(&archive), None);
    assert_eq!(extract_control(&ar_of(&[("debian-binary", b"2.0\n".to_vec())])), None);
}

#[test]
fn the_control_file_goes_by_its_base_name() {
    let inner = tar_of(&[("deep/er/control", b'0', b"Package: deep\n")]);
    let archive = ar_of(&[("control.tar.xz", xz(&inner))]);
    assert_eq!(extract_control(&archive), Some("Package: deep\n".to_string()));
}

#[test]
fn a_control_member_that_does_not_decode_is_passed_over() {
    let archive = ar_of(&[
        ("control.tar.gz", b"broken".to_vec()),
        ("control.tar.xz", xz(&control_tar())),
    ]);
    assert_eq!(extract_control(&archive), Some(CONTROL.to_string()));
}

#[test]
fn a_control_file_that_is_no_text_gives_none() {
    let inner = tar_of(&[("./control", b'0', b"Package: \xff\xfe\n")]);
    let archive = ar_of(&[("control.tar.gz", gzip(&inner))]);
    assert_eq!(extract_control(&archive), None);
}

#[test]
fn what_is_no_archive_has_no_control_text() {
    assert_eq!(extract_control(b"this is not an ar archive at all"), None);
    assert_eq!(extract_control(b""), None);
}

#[test]
fn entries_are_counted_over_all_inner_archives() {
    for suffix in ["gz", "xz", "bz2", "zst"] {
        assert_eq!(count(&deb(suffix)), Ok(12));
    }
    assert_eq!(count(&ar_of(&[("debian-binary", b"2.0\n".to_vec())])), Ok(0));
}

#[test]
fn members_that_give_no_stream_count_for_nothing() {
    let archive = ar_of(&[
        ("data.tar", data_tar()),
        ("data.tar.gz", b"broken".to_vec()),
        ("control.tar.gz", gzip(&control_tar())),
    ]);
    assert_eq!(count(&archive), Ok(3));
}

#[test]
fn a_broken_outer_archive_is_refused() {
    let mut archive = deb("gz");
    archive.truncate(8 + 30);
    assert_eq!(count(&archive), Err(Malformed::Outer));
    assert_eq!(extract_to(&archive).err(), Some(Malformed::Outer));
    assert_eq!(extract_files_tree(&archive).err(), Some(Malformed::Outer));
    assert_eq!(count(b"garbage"), Err(Malformed::Outer));
}

#[test]
fn unpacking_takes_files_first_and_directories_from_the_greatest_path_down() {
    let plan = extract_to(&deb("gz")).unwrap();
    assert_eq!(plan.len(), 2);
    assert_eq!(plan[0].directory, "control");
    assert_eq!(plan[0].archive, control_tar());
    assert_eq!(plan[0].files, vec![1, 2]);
    assert_eq!(plan[0].directories, vec![0]);
    assert_eq!(plan[1].directory, "data");
    assert_eq!(plan[1].archive, data_tar());
    assert_eq!(plan[1].files, vec![3, 7, 8]);
    assert_eq!(plan[1].directories, vec![6, 5, 4, 2, 1, 0]);
}

#[test]
fn unpacking_is_the_same_in_every_format() {
    let reference = extract_to(&deb("gz")).unwrap();
    for suffix in ["xz", "bz2", "zst"] {
        let plan = extract_to(&deb(suffix)).unwrap();
        assert_eq!(plan.len(), reference.len());
        for (a, b) in plan.iter().zip(reference.iter()) {
            assert_eq!(a.directory, b.directory);
            assert_eq!(a.archive, b.archive);
            assert_eq!(a.files, b.files);
            assert_eq!(a.directories, b.directories);
        }
    }
}

#[test]
fn directories_of_the_same_path_keep_their_order() {
    let inner = tar_of(&[
        ("b/", b'5', b""),
        ("a/", b'5', b""),
        ("b/", b'5', b""),
        ("c", b'0', b"x"),
        ("a/z/", b'5', b""),
    ]);
    let plan = extract_to(&ar_of(&[("data.tar.gz", gzip(&inner))])).unwrap();
    assert_eq!(plan[0].files, vec![3]);
    assert_eq!(plan[0].directories, vec![0, 2, 4, 1]);
}

#[test]
fn a_broken_inner_archive_is_refused() {
    let mut inner = data_tar();
    inner[512 + 148] ^= 0x55;
    let archive = ar_of(&[("data.tar.gz", gzip(&inner))]);
    assert_eq!(extract_to(&archive).err(), Some(Malformed::Inner));
}

#[test]
fn members_without_a_stream_are_not_unpacked() {
    let archive = ar_of(&[
        ("debian-binary", b"2.0\n".to_vec()),
        ("data.tar.gz", b"broken".to_vec()),
        ("notes.txt", b"hello".to_vec()),
    ]);
    assert_eq!(extract_to(&archive).unwrap().len(), 0);
}

#[test]
fn the_tree_has_one_node_for_each_member() {
    let root = extract_files_tree(&deb("xz")).unwrap();
    assert_eq!(root.name, "package");
    assert_eq!(names(&root.children), vec!["debian-binary", "control.tar.xz", "data.tar.xz"]);
    assert!(root.children[0].children.is_empty());
    assert_eq!(names(&root.children[1].children), vec!["control", "md5sums"]);
    let data = &root.children[2];
    assert_eq!(names(&data.children), vec!["usr"]);
    let usr = &data.children[0];
    assert_eq!(names(&usr.children), vec!["bin", "share"]);
    assert_eq!(names(&usr.children[0].children), vec!["hello", "hi"]);
    assert_eq!(names(&usr.children[1].children[0].children[0].children), vec!["copyright"]);
}

#[test]
fn the_tree_is_the_same_for_the_same_package() {
    let mut first = Vec::new();
    let mut second = Vec::new();
    preorder(&extract_files_tree(&deb("zst")).unwrap(), 0, &mut first);
    preorder(&extract_files_tree(&deb("zst")).unwrap(), 0, &mut second);
    assert_eq!(first, second);
    assert_eq!(first.len(), 14);
    assert_eq!(first[0], (0, "package".to_string()));
    assert_eq!(first[1], (1, "debian-binary".to_string()));
    assert_eq!(first[13], (6, "copyright".to_string()));
}

#[test]
fn siblings_stand_in_the_order_of_strings() {
    let inner = tar_of(&[
        ("zeta", b'0', b""),
        ("Alpha", b'0', b""),
        ("beta/two", b'0', b""),
        ("beta/one", b'0', b""),
        ("alpha", b'0', b""),
        ("beta/", b'5', b""),
        ("./beta/./one", b'0', b""),
        ("\u{e9}t\u{e9}", b'0', b""),
    ]);
    let root = extract_files_tree(&ar_of(&[("data.tar.bz2", bz2(&inner))])).unwrap();
    let top = &root.children[0];
    assert_eq!(names(&top.children), vec!["Alpha", "alpha", "beta", "zeta", "\u{e9}t\u{e9}"]);
    assert_eq!(names(&top.children[2].children), vec!["one", "two"]);
}

#[test]
fn a_member_without_a_stream_is_a_leaf() {
    let archive = ar_of(&[
        ("data.tar.gz", b"broken".to_vec()),
        ("data.tar", data_tar()),
    ]);
    let root = extract_files_tree(&archive).unwrap();
    assert_eq!(names(&root.children), vec!["data.tar.gz", "data.tar"]);
    assert!(root.children[0].children.is_empty());
    assert!(root.children[1].children.is_empty());
}

fn header(identifier: &str, size: &str) -> Vec<u8> {
    let text = format!("{:<16}{:<12}{:<6}{:<6}{:<8}{:<10}`\n", identifier, "0", "0", "0", "644", size);
    assert_eq!(text.len(), 60);
    text.into_bytes()
}

fn raw_archive(members: &[(&str, &str, &[u8])]) -> Vec<u8> {
    let mut bytes = b"!<arch>\n".to_vec();
    for (identifier, size, body) in members {
        bytes.extend(header(identifier, size));
        bytes.extend_from_slice(body);
        if body.len() % 2 == 1 {
            bytes.push(b'\n');
        }
    }
    bytes
}

#[test]
fn an_identifier_that_calls_for_a_table_is_refused_unread() {
    let archive = raw_archive(&[("/1", "0", b"")]);
    assert_eq!(archive.len(), 68);
    assert!(!is_common_archive(&archive));
    assert_eq!(count(&archive), Err(Malformed::Outer));
    assert_eq!(extract_control(&archive), None);
    assert_eq!(extract_to(&archive).err(), Some(Malformed::Outer));
    assert_eq!(extract_files_tree(&archive).err(), Some(Malformed::Outer));
    let steps = outer_steps(&archive);
    assert_eq!(steps.len(), 1);
    assert!(steps[0].is_none());
}

#[test]
fn tables_of_names_and_symbols_are_refused_wherever_they_stand() {
    let control = gzip(&control_tar());
    let size = control.len().to_string();
    for identifier in ["/", "//", "/0", "/999999", "#1/20", "/x"] {
        let behind = raw_archive(&[("control.tar.gz", &size, &control), (identifier, "0", b"")]);
        assert!(!is_common_archive(&behind));
        assert_eq!(extract_control(&behind), None);
        assert_eq!(count(&behind), Err(Malformed::Outer));
    }
}

#[test]
fn a_size_that_is_not_written_plainly_is_refused() {
    for size in ["", "+4", "4x", " 4", "4 4", "0x4"] {
        let archive = raw_archive(&[("debian-binary", size, b"2.0\n")]);
        assert!(!is_common_archive(&archive));
        assert_eq!(count(&archive), Err(Malformed::Outer));
    }
    assert!(is_common_archive(&raw_archive(&[("debian-binary", "4", b"2.0\n")])));
    assert!(is_common_archive(&raw_archive(&[("debian-binary", "0000000004", b"2.0\n")])));
}

#[test]
fn archives_in_the_common_format_are_taken() {
    assert!(is_common_archive(b"!<arch>\n"));
    assert!(is_common_archive(&deb("gz")));
    assert!(is_common_archive(&deb("zst")));
    assert!(!is_common_archive(b""));
    assert!(!is_common_archive(b"!<arch>"));
    assert!(!is_common_archive(b"!<arch>\r"));
    assert!(!is_common_archive(b"garbage that is long enough to hold a whole header and then some more"));
    let mut cut_short = deb("gz");
    cut_short.truncate(8 + 30);
    assert!(is_common_archive(&cut_short));
}

#[test]
fn identifiers_that_end_in_a_slash_are_taken() {
    let control = gzip(&control_tar());
    let data = gzip(&data_tar());
    let archive = raw_archive(&[
        ("debian-binary/", "4", b"2.0\n"),
        ("control.tar.gz/", &control.len().to_string(), &control),
        ("data.tar.gz/", &data.len().to_string(), &data),
    ]);
    assert!(is_common_archive(&archive));
    assert_eq!(extract_control(&archive), Some(CONTROL.to_string()));
    assert_eq!(count(&archive), Ok(12));
    let root = extract_files_tree(&archive).unwrap();
    assert_eq!(names(&root.children), vec!["debian-binary", "control.tar.gz", "data.tar.gz"]);
}
