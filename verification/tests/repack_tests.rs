use std::io::{Cursor, Read, Write};

use epub_cache::repack::{repack_plan, Compression};
use zip::write::SimpleFileOptions;
use zip::{CompressionMethod, ZipArchive, ZipWriter};

fn s(x: &str) -> String {
    String::from(x)
}

/// Builds a small archive in memory: the entry list is (path, bytes).
fn make_zip(entries: &[(&str, &[u8])]) -> Vec<u8> {
    let mut writer = ZipWriter::new(Cursor::new(Vec::new()));
    for (path, bytes) in entries {
        let method = if *path == "mimetype" {
            CompressionMethod::Stored
        } else {
            CompressionMethod::Deflated
        };
        let options = SimpleFileOptions::default().compression_method(method);
        writer.start_file(*path, options).expect("start entry");
        writer.write_all(bytes).expect("write entry");
    }
    writer.finish().expect("finish archive").into_inner()
}

/// Reads an archive back into its entry list.
fn read_zip(bytes: &[u8]) -> Vec<(String, Vec<u8>)> {
    let mut archive = ZipArchive::new(Cursor::new(bytes.to_vec())).expect("open archive");
    let mut out = Vec::new();
    for i in 0..archive.len() {
        let mut file = archive.by_index(i).expect("entry");
        let mut data = Vec::new();
        file.read_to_end(&mut data).expect("read entry");
        out.push((file.name().to_string(), data));
    }
    out.sort();
    out
}

/// Executes a repackaging plan against an in-memory working directory,
/// producing the new archive bytes — the same steps the embedding performs
/// against the real working directory and temporary file.
fn run_plan(plan: &epub_cache::repack::RepackPlan, dir: &[(String, Vec<u8>)]) -> Vec<u8> {
    let mut writer = ZipWriter::new(Cursor::new(Vec::new()));
    for entry in &plan.entries {
        let method = match entry.method {
            Compression::Stored => CompressionMethod::Stored,
            Compression::Deflated => CompressionMethod::Deflated,
        };
        let options = SimpleFileOptions::default().compression_method(method);
        writer.start_file(entry.path.as_str(), options).expect("start entry");
        let bytes = &dir
            .iter()
            .find(|(p, _)| *p == entry.path)
            .expect("working directory holds every planned path")
            .1;
        writer.write_all(bytes).expect("write entry");
    }
    writer.finish().expect("finish archive").into_inner()
}

#[test]
fn plan_stores_mimetype_deflates_the_rest() {
    let files = vec![s("mimetype"), s("META-INF/container.xml"), s("OEBPS/content.opf")];
    let plan = repack_plan(&s("/books/x.epub"), &files);
    assert_eq!(plan.entries.len(), 3);
    assert_eq!(plan.entries[0].path, "mimetype");
    assert_eq!(plan.entries[0].method, Compression::Stored);
    assert_eq!(plan.entries[1].method, Compression::Deflated);
    assert_eq!(plan.entries[2].method, Compression::Deflated);
}

#[test]
fn plan_writes_to_temporary_sibling_then_renames() {
    // Atomic replacement: every entry is written to the temporary sibling;
    // only the final rename touches the original path.
    let plan = repack_plan(&s("/books/x.epub"), &vec![s("mimetype")]);
    assert_eq!(plan.dest_path, "/books/x.epub");
    assert_eq!(plan.temp_path, "/books/x.epub.zip.tmp");
    assert_ne!(plan.temp_path, plan.dest_path);
}

#[test]
fn plan_keeps_traversal_order() {
    let files = vec![s("b.txt"), s("a.txt"), s("c/z.txt")];
    let plan = repack_plan(&s("/x.epub"), &files);
    let paths: Vec<&str> = plan.entries.iter().map(|e| e.path.as_str()).collect();
    assert_eq!(paths, vec!["b.txt", "a.txt", "c/z.txt"]);
}

#[test]
fn round_trip_preserves_file_set() {
    // Extract, repackage without modification, re-extract: the file set is
    // unchanged, including the mimetype and metadata entries that the
    // displayed tree hides.
    let original = make_zip(&[
        ("mimetype", b"application/epub+zip"),
        ("META-INF/container.xml", b"<container/>"),
        ("OEBPS/content.opf", b"<package/>"),
        ("OEBPS/Text/ch0.xhtml", b"<html>chapter</html>"),
    ]);
    // Extraction: the working directory holds exactly the archive's entries.
    let workdir = read_zip(&original);
    let paths: Vec<String> = workdir.iter().map(|(p, _)| p.clone()).collect();
    let plan = repack_plan(&s("/books/x.epub"), &paths);
    let rebuilt = run_plan(&plan, &workdir);
    let reextracted = read_zip(&rebuilt);
    assert_eq!(reextracted, workdir);
}

#[test]
fn repackaged_mimetype_is_uncompressed() {
    let original = make_zip(&[
        ("mimetype", b"application/epub+zip"),
        ("OEBPS/content.opf", b"<package/>"),
    ]);
    let workdir = read_zip(&original);
    let paths: Vec<String> = workdir.iter().map(|(p, _)| p.clone()).collect();
    let plan = repack_plan(&s("/books/x.epub"), &paths);
    let rebuilt = run_plan(&plan, &workdir);
    let mut archive = ZipArchive::new(Cursor::new(rebuilt)).expect("open");
    {
        let mime = archive.by_name("mimetype").expect("mimetype entry");
        assert_eq!(mime.compression(), CompressionMethod::Stored);
    }
    {
        let opf = archive.by_name("OEBPS/content.opf").expect("opf entry");
        assert_eq!(opf.compression(), CompressionMethod::Deflated);
    }
}

#[test]
fn failed_repackaging_leaves_original_bytes_untouched() {
    // A failure while writing the new archive aborts before the rename, so
    // the original bytes survive unchanged.
    let original = make_zip(&[("mimetype", b"application/epub+zip")]);
    let pristine = original.clone();
    let workdir = vec![(s("mimetype"), b"application/epub+zip".to_vec()), (s("gone.txt"), Vec::new())];
    let paths = vec![s("mimetype"), s("gone.txt"), s("missing.txt")];
    let plan = repack_plan(&s("/books/x.epub"), &paths);
    // The working directory lacks one planned path: executing the plan
    // fails partway, after some entries were already written to the
    // temporary archive.
    let mut writer = ZipWriter::new(Cursor::new(Vec::new()));
    let mut failed = false;
    for entry in &plan.entries {
        let found = workdir.iter().find(|(p, _)| *p == entry.path);
        match found {
            Some((_, bytes)) => {
                let options = SimpleFileOptions::default();
                writer.start_file(entry.path.as_str(), options).expect("start");
                writer.write_all(bytes).expect("write");
            }
            None => {
                failed = true;
                break;
            }
        }
    }
    assert!(failed);
    // The abort never reached the rename: the original is byte-for-byte the
    // same.
    assert_eq!(original, pristine);
}
