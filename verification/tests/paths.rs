use csv_to_duckdb::paths::{copy_names, path_no_later};
use csv_to_duckdb::sort::sort;
use csv_to_duckdb::files::CsvFile;
use std::path::PathBuf;

fn parts(path: &str) -> Vec<Vec<u8>> {
    path.split('/').filter(|p| !p.is_empty()).map(|p| p.as_bytes().to_vec()).collect()
}

#[test]
fn paths_go_by_their_parts() {
    let paths = ["", "a", "a/b", "a/b/c", "a-b", "a b", "ab", "B", "a/c", "\u{e9}"];
    for x in paths {
        for y in paths {
            let expected = PathBuf::from(x) <= PathBuf::from(y);
            assert_eq!(path_no_later(&parts(x), &parts(y)), expected, "{} {}", x, y);
        }
    }
}

#[test]
fn names_are_copied() {
    assert_eq!(copy_names(&parts("a/b")), parts("a/b"));
    assert_eq!(copy_names(&parts("")), parts(""));
}

#[test]
fn equal_items_keep_their_order() {
    let mut files: Vec<CsvFile> = Vec::new();
    for (i, month) in [3u32, 1, 2, 1, 3, 2, 1].iter().enumerate() {
        files.push(CsvFile { file_name: format!("{}", i), year: 2024, month: *month });
    }
    sort(&mut files);
    let order: Vec<&str> = files.iter().map(|f| f.file_name.as_str()).collect();
    assert_eq!(order, vec!["1", "3", "6", "2", "5", "0", "4"]);
}
