use debby::control::{from_map, CatalogError, Control, ControlWithData, MalformedControl};
use debby::install::{
    check_input, copy, Candidate, Walked, has_deb_extension, installed_list, is_installed, link_action, place, removable,
    uninstall, uninstall_by_id, uninstall_by_pkg_name, uninstall_ctrl, BadInput, FileKind,
    LinkAction, PlaceAction, Removal,
};

fn control(version: &str, maintainer: &str) -> Control {
    from_map(vec![
        ("Package".to_string(), "foo".to_string()),
        ("Version".to_string(), version.to_string()),
        ("Architecture".to_string(), "amd64".to_string()),
        ("Maintainer".to_string(), maintainer.to_string()),
        ("Description".to_string(), "a package".to_string()),
    ])
    .unwrap()
}

fn stored(version: &str, maintainer: &str, installed: &str) -> ControlWithData {
    ControlWithData { ctrl: control(version, maintainer), installed: installed.to_string() }
}

fn strings(items: &[&str]) -> Vec<String> {
    items.iter().map(|s| s.to_string()).collect()
}

#[test]
fn an_input_must_exist_and_be_a_package_file() {
    assert_eq!(check_input("hello_2.10-3_amd64.deb", true), Ok(()));
    assert_eq!(check_input("/tmp/x/hello.deb", true), Ok(()));
    assert_eq!(check_input("hello.deb", false), Err(BadInput::Missing));
    assert_eq!(check_input("hello.txt", false), Err(BadInput::Missing));
    assert_eq!(check_input("hello.txt", true), Err(BadInput::NotDeb));
    assert_eq!(check_input("hello", true), Err(BadInput::NotDeb));
    assert_eq!(check_input("hello.DEB", true), Err(BadInput::NotDeb));
}

#[test]
fn the_extension_follows_the_last_dot_of_the_base_name() {
    assert!(has_deb_extension("a.b.deb"));
    assert!(has_deb_extension("dir.d/pkg.deb"));
    assert!(has_deb_extension("pkg.deb/"));
    assert!(has_deb_extension("./pkg.deb/."));
    assert!(!has_deb_extension(".deb"));
    assert!(!has_deb_extension("dir/.deb"));
    assert!(!has_deb_extension("pkg.deb/inner"));
    assert!(!has_deb_extension("pkg.deb.gz"));
    assert!(!has_deb_extension("pkg.debx"));
    assert!(!has_deb_extension("pkg."));
    assert!(!has_deb_extension(".."));
    assert!(!has_deb_extension(""));
    assert!(has_deb_extension("..deb"));
}

#[test]
fn a_path_of_the_payload_goes_to_the_same_path_from_the_root() {
    let p = place("/cache/extracted/data", "/cache/extracted/data/usr/bin/hello", FileKind::File)
        .unwrap();
    assert_eq!(p.dest, "/usr/bin/hello");
    assert_eq!(p.action, PlaceAction::CopyFile);
    let d = place("/cache/extracted/data/", "/cache/extracted/data/usr", FileKind::Directory)
        .unwrap();
    assert_eq!(d.dest, "/usr");
    assert_eq!(d.action, PlaceAction::MakeDirectory);
    let l = place("data", "data/usr/lib/libx.so", FileKind::Symlink).unwrap();
    assert_eq!(l.dest, "/usr/lib/libx.so");
    assert_eq!(l.action, PlaceAction::Link);
    let o = place("data", "data/dev/fifo", FileKind::Other).unwrap();
    assert_eq!(o.action, PlaceAction::CopyFile);
}

#[test]
fn the_payload_directory_itself_and_paths_outside_it_go_nowhere() {
    assert!(place("/c/data", "/c/data", FileKind::Directory).is_none());
    assert!(place("/c/data/", "/c/data", FileKind::Directory).is_none());
    assert!(place("/c/data", "/c/database/x", FileKind::File).is_none());
    assert!(place("/c/data", "/c/dat", FileKind::File).is_none());
    assert!(place("/c/data", "/other/data/x", FileKind::File).is_none());
    assert!(place("/c/data", "", FileKind::File).is_none());
    assert!(place("/d", "/d/", FileKind::Directory).is_none());
    assert!(place("/d", "/d///", FileKind::Directory).is_none());
    assert!(place("/d/", "/d//", FileKind::Directory).is_none());
    assert_eq!(place("/d", "/d//x", FileKind::File).unwrap().dest, "//x");
}

#[test]
fn a_symbolic_link_never_replaces_a_directory() {
    assert_eq!(link_action(true, true), LinkAction::Skip);
    assert_eq!(link_action(true, false), LinkAction::Replace);
    assert_eq!(link_action(false, false), LinkAction::Create);
    assert_eq!(link_action(false, true), LinkAction::Create);
}

#[test]
fn installed_paths_are_joined_by_commas() {
    assert_eq!(
        installed_list(&strings(&["/usr/bin/hello", "/usr/share/doc/hello/copyright"])),
        "/usr/bin/hello,/usr/share/doc/hello/copyright"
    );
    assert_eq!(installed_list(&strings(&["/one"])), "/one");
    assert_eq!(installed_list(&Vec::new()), "");
}

#[test]
fn removal_reads_the_recorded_paths() {
    let record = stored("1", "m", " /usr/bin/foo ,,/usr/share/foo/a b,  ,/etc/foo.conf,");
    assert_eq!(
        uninstall_ctrl(&record),
        strings(&["/usr/bin/foo", "/usr/share/foo/a b", "/etc/foo.conf"])
    );
    assert_eq!(uninstall_ctrl(&stored("1", "m", "")), Vec::<String>::new());
    assert_eq!(uninstall_ctrl(&stored("1", "m", " , ,")), Vec::<String>::new());
}

#[test]
fn what_was_recorded_is_what_removal_looks_at() {
    let placed = strings(&["/usr", "/usr/bin", "/usr/bin/hello", "/usr/share/doc/hello/copyright"]);
    let record = stored("1", "m", &installed_list(&placed));
    assert_eq!(uninstall_ctrl(&record), placed);
}

#[test]
fn a_path_with_a_comma_does_not_read_back() {
    let placed = strings(&["/opt/a,b"]);
    let record = stored("1", "m", &installed_list(&placed));
    assert_eq!(uninstall_ctrl(&record), strings(&["/opt/a", "b"]));
}

#[test]
fn only_files_and_links_are_removed() {
    assert!(removable(Some(FileKind::File)));
    assert!(removable(Some(FileKind::Symlink)));
    assert!(!removable(Some(FileKind::Directory)));
    assert!(!removable(Some(FileKind::Other)));
    assert!(!removable(None));
}

fn row(id: i64, version: &str, maintainer: &str, installed: &str) -> Candidate {
    let mut columns = control(version, maintainer).pairs();
    columns.insert(0, ("id".to_string(), id.to_string()));
    columns.push(("installed".to_string(), installed.to_string()));
    Candidate { id, columns }
}

#[test]
fn a_package_is_installed_when_every_field_is_the_stored_one() {
    let parsed = control("1.0", "m");
    assert!(is_installed(&parsed, &vec![row(1, "1.0", "m", "/x")]));
    assert!(!is_installed(&parsed, &vec![row(1, "1.0", "other", "/x")]));
    assert!(!is_installed(&parsed, &vec![row(1, "1.1", "m", "/x")]));
    assert!(is_installed(&parsed, &vec![row(1, "1.0", "other", "/x"), row(2, "1.0", "m", "/y")]));
    assert!(!is_installed(&parsed, &Vec::new()));
}

#[test]
fn removal_by_file_needs_every_field_to_be_the_stored_one() {
    let parsed = control("1.0", "m");
    match uninstall(&parsed, &vec![row(3, "1.0", "m", "/usr/bin/foo,/usr/bin/bar")]) {
        Removal::Remove { id, paths } => {
            assert_eq!(id, 3);
            assert_eq!(paths, strings(&["/usr/bin/foo", "/usr/bin/bar"]));
        }
        Removal::Nothing => panic!("the files of the package are to be removed"),
    }
    assert!(matches!(
        uninstall(&parsed, &vec![row(3, "1.0", "someone else", "/usr/bin/foo")]),
        Removal::Nothing
    ));
    assert!(matches!(uninstall(&parsed, &vec![row(3, "2.0", "m", "/usr/bin/foo")]), Removal::Nothing));
    assert!(matches!(uninstall(&parsed, &Vec::new()), Removal::Nothing));
}

#[test]
fn removal_by_file_takes_the_equal_row_and_leaves_the_others() {
    let parsed = control("1.0", "m");
    let rows = vec![
        row(4, "1.0", "someone else", "/only/in/b"),
        row(9, "1.0", "m", "/usr/bin/foo"),
        row(12, "1.0", "m", "/later/equal"),
    ];
    match uninstall(&parsed, &rows) {
        Removal::Remove { id, paths } => {
            assert_eq!(id, 9);
            assert_eq!(paths, strings(&["/usr/bin/foo"]));
        }
        Removal::Nothing => panic!("the equal row is to be removed"),
    }
}

#[test]
fn a_row_that_gives_no_record_is_no_match() {
    let parsed = control("1.0", "m");
    let mut without_paths = row(1, "1.0", "m", "/x");
    without_paths.columns.pop();
    let mut without_maintainer = row(2, "1.0", "m", "/x");
    without_maintainer.columns.retain(|c| c.0 != "maintainer");
    let rows = vec![without_paths, without_maintainer];
    assert!(matches!(uninstall(&parsed, &rows), Removal::Nothing));
    assert!(!is_installed(&parsed, &rows));
}

#[test]
fn removal_by_name_or_id_takes_the_paths_of_the_row() {
    let found = Ok(stored("1.0", "m", "/a, /b"));
    assert_eq!(uninstall_by_pkg_name(&found), Ok(strings(&["/a", "/b"])));
    assert_eq!(uninstall_by_id(&found), Ok(strings(&["/a", "/b"])));
    let none = Err(CatalogError::NotInstalled);
    assert_eq!(uninstall_by_pkg_name(&none), Ok(Vec::new()));
    assert_eq!(uninstall_by_id(&none), Ok(Vec::new()));
    let broken = Err(CatalogError::NoInstalled);
    assert_eq!(uninstall_by_pkg_name(&broken), Err(CatalogError::NoInstalled));
    assert_eq!(uninstall_by_id(&broken), Err(CatalogError::NoInstalled));
}

#[test]
fn installing_writes_the_record_and_the_placed_paths() {
    let text = "Package: hello\nVersion: 2.10-3\nArchitecture: amd64\nMaintainer: m\nDescription: d\nHomepage: h\n";
    let placed = strings(&["/usr/bin/hello", "/usr/share/doc/hello/copyright"]);
    let row = debby::install::install(text.to_string(), &placed).unwrap();
    assert_eq!(row.len(), 22);
    assert_eq!(row[0], Some("hello".to_string()));
    assert_eq!(row[1], Some("2.10-3".to_string()));
    assert_eq!(row[5], None);
    assert_eq!(row[19], Some("h".to_string()));
    assert_eq!(row[21], Some("/usr/bin/hello,/usr/share/doc/hello/copyright".to_string()));
}

#[test]
fn installing_refuses_a_control_text_without_a_required_field() {
    let text = "Package: hello\nVersion: 1\n";
    assert_eq!(
        debby::install::install(text.to_string(), &Vec::new()),
        Err(MalformedControl { missing: 2 })
    );
}

fn walked(path: &str, kind: FileKind, placed: bool) -> Walked {
    Walked { path: path.to_string(), kind, placed }
}

#[test]
fn what_was_placed_is_recorded_in_the_order_found() {
    let found = vec![
        walked("/c/data", FileKind::Directory, false),
        walked("/c/data/usr", FileKind::Directory, true),
        walked("/c/data/usr/bin", FileKind::Directory, true),
        walked("/c/data/usr/bin/hello", FileKind::File, true),
        walked("/c/data/usr/bin/broken", FileKind::File, false),
        walked("/c/data/usr/lib", FileKind::Symlink, false),
        walked("/c/elsewhere/x", FileKind::File, true),
        walked("/c/data/etc/hello.conf", FileKind::File, true),
    ];
    assert_eq!(
        copy("/c/data", &found),
        strings(&["/usr", "/usr/bin", "/usr/bin/hello", "/etc/hello.conf"])
    );
    assert_eq!(copy("/c/data", &Vec::new()), Vec::<String>::new());
}
