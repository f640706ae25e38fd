use epub_cache::tree::{build_tree, classify_name, list_entry, FileKind, FileMeta};

fn entry(path: &str, size: u64) -> FileMeta {
    list_entry(&String::from(path), size, None).expect("entry should be visible")
}

#[test]
fn classification_follows_extension() {
    assert_eq!(classify_name("a.html"), FileKind::Html);
    assert_eq!(classify_name("a.xhtml"), FileKind::Html);
    assert_eq!(classify_name("a.css"), FileKind::Css);
    assert_eq!(classify_name("a.xml"), FileKind::Xml);
    assert_eq!(classify_name("content.opf"), FileKind::Xml);
    assert_eq!(classify_name("toc.ncx"), FileKind::Xml);
    assert_eq!(classify_name("a.jpg"), FileKind::Image);
    assert_eq!(classify_name("a.jpeg"), FileKind::Image);
    assert_eq!(classify_name("a.png"), FileKind::Image);
    assert_eq!(classify_name("a.ttf"), FileKind::Font);
    assert_eq!(classify_name("a.otf"), FileKind::Font);
    assert_eq!(classify_name("a.txt"), FileKind::Other);
    assert_eq!(classify_name("noextension"), FileKind::Other);
}

#[test]
fn metadata_entries_are_hidden() {
    assert!(list_entry(&String::from("META-INF/container.xml"), 10, None).is_none());
    assert!(list_entry(&String::from("mimetype"), 20, None).is_none());
    assert!(list_entry(&String::from("OEBPS/content.opf"), 30, None).is_some());
}

#[test]
fn separators_are_normalized() {
    let e = entry("OEBPS\\Text\\x.html", 5);
    assert_eq!(e.path, "OEBPS/Text/x.html");
    assert_eq!(e.name, "x.html");
    assert_eq!(e.kind, FileKind::Html);
}

#[test]
fn tree_grouping_two_level_limit() {
    // content.opf sits directly under OEBPS; ch0.xhtml under OEBPS/Text;
    // a.png, though a level deeper on disk, is grouped under OEBPS/Text as
    // the deepest supported nesting.
    let files = vec![
        entry("OEBPS/content.opf", 1),
        entry("OEBPS/Text/ch0.xhtml", 2),
        entry("OEBPS/Text/Images/a.png", 3),
    ];
    let tree = build_tree(files);
    assert_eq!(tree.root_files.len(), 0);
    assert_eq!(tree.folders.len(), 1);
    let folder = &tree.folders[0];
    assert_eq!(folder.name, "OEBPS");
    assert_eq!(folder.path, "OEBPS");
    assert_eq!(folder.files.len(), 1);
    assert_eq!(folder.files[0].name, "content.opf");
    assert_eq!(folder.subfolders.len(), 1);
    let sub = &folder.subfolders[0];
    assert_eq!(sub.name, "Text");
    assert_eq!(sub.path, "OEBPS/Text");
    assert_eq!(sub.files.len(), 2);
    // Sorted by name: a.png before ch0.xhtml.
    assert_eq!(sub.files[0].name, "a.png");
    assert_eq!(sub.files[0].path, "OEBPS/Text/Images/a.png");
    assert_eq!(sub.files[1].name, "ch0.xhtml");
}

#[test]
fn root_files_keep_order_folders_sorted() {
    let files = vec![
        entry("zeta.txt", 1),
        entry("alpha.txt", 2),
        entry("b/inner.css", 3),
        entry("a/inner.xml", 4),
    ];
    let tree = build_tree(files);
    assert_eq!(tree.root_files.len(), 2);
    assert_eq!(tree.root_files[0].name, "zeta.txt");
    assert_eq!(tree.root_files[1].name, "alpha.txt");
    assert_eq!(tree.folders.len(), 2);
    assert_eq!(tree.folders[0].name, "a");
    assert_eq!(tree.folders[1].name, "b");
}

#[test]
fn files_within_folder_sorted_by_name() {
    let files = vec![
        entry("d/c.html", 1),
        entry("d/a.html", 2),
        entry("d/b.html", 3),
    ];
    let tree = build_tree(files);
    assert_eq!(tree.folders.len(), 1);
    let names: Vec<&str> = tree.folders[0].files.iter().map(|f| f.name.as_str()).collect();
    assert_eq!(names, vec!["a.html", "b.html", "c.html"]);
}

#[test]
fn subfolders_sorted_and_grouped() {
    let files = vec![
        entry("top/z/1.png", 1),
        entry("top/a/2.png", 2),
        entry("top/z/0.png", 3),
    ];
    let tree = build_tree(files);
    let folder = &tree.folders[0];
    assert_eq!(folder.files.len(), 0);
    assert_eq!(folder.subfolders.len(), 2);
    assert_eq!(folder.subfolders[0].name, "a");
    assert_eq!(folder.subfolders[1].name, "z");
    let z = &folder.subfolders[1];
    assert_eq!(z.files.len(), 2);
    assert_eq!(z.files[0].name, "0.png");
    assert_eq!(z.files[1].name, "1.png");
}

#[test]
fn entry_sizes_and_titles_carried() {
    let e = list_entry(&String::from("OEBPS/a.html"), 42, Some(String::from("A Title")))
        .expect("visible");
    assert_eq!(e.size, 42);
    assert_eq!(e.title.as_deref(), Some("A Title"));
}
