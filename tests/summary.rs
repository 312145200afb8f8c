use dirsummary::binary::{is_binary_content, leading_nul};
use dirsummary::driver::{process_entries, process_entry, Entry, EntryKind};
use dirsummary::filter::{entry_accepted, is_hidden_name, matches_any, passes};
use dirsummary::output::{content_block, decimal_string, split_lines, statistics_lines};
use dirsummary::stats::{collect_stats, count_lines, extension_of, sorted_desc, FileSample};
use dirsummary::tree::{link_label, PathTree};

fn strings(v: &[&str]) -> Vec<String> {
    v.iter().map(|s| s.to_string()).collect()
}

fn sample(parent: &str, ext: &str, lines: Option<usize>) -> FileSample {
    FileSample { parent: parent.to_string(), extension: ext.to_string(), lines }
}

fn file_entry(comps: &[&str], content: &[u8]) -> Entry {
    Entry {
        components: strings(comps),
        path: format!("/root/{}", comps.join("/")),
        kind: EntryKind::File { content: Some(content.to_vec()) },
    }
}

fn labels(t: &PathTree) -> Vec<(String, usize, bool)> {
    (0..t.node_count())
        .map(|i| {
            let n = t.node(i);
            (n.label.clone(), n.parent, n.is_dir)
        })
        .collect()
}

#[test]
fn count_lines_exact() {
    assert_eq!(count_lines(b""), 0);
    assert_eq!(count_lines(b"\n"), 1);
    assert_eq!(count_lines(b"a\nb\n"), 2);
    assert_eq!(count_lines(b"a\nb"), 2);
    assert_eq!(count_lines(b"a\r\n\nb"), 3);
}

#[test]
fn stats_of_one_text_file() {
    let s = collect_stats(&[sample("/r", "txt", Some(2))]);
    assert_eq!(s.total_files, 1);
    assert_eq!(s.total_directories, 1);
    assert_eq!(s.total_lines, 2);
    assert_eq!(s.extension_counts, vec![("txt".to_string(), 1)]);
    assert_eq!(s.extension_lines, vec![("txt".to_string(), 2)]);
}

#[test]
fn stats_totals_agree_with_tables() {
    let s = collect_stats(&[
        sample("/r", "rs", Some(10)),
        sample("/r/src", "rs", Some(5)),
        sample("/r/src", "", Some(3)),
        sample("/r", "md", None),
        sample("/r/doc", "md", Some(0)),
    ]);
    assert_eq!(s.total_files, 5);
    assert_eq!(s.total_directories, 3);
    assert_eq!(s.total_lines, 18);
    assert_eq!(
        s.extension_counts,
        vec![("rs".to_string(), 2), ("".to_string(), 1), ("md".to_string(), 1)]
    );
    assert_eq!(
        s.extension_lines,
        vec![("rs".to_string(), 15), ("".to_string(), 3), ("md".to_string(), 0)]
    );
    let line_sum: usize = s.extension_lines.iter().map(|p| p.1).sum();
    let count_sum: usize = s.extension_counts.iter().map(|p| p.1).sum();
    assert_eq!(s.total_lines, line_sum);
    assert_eq!(s.total_files, count_sum + 1);
}

#[test]
fn stats_of_nothing() {
    let s = collect_stats(&[]);
    assert_eq!(s.total_files, 0);
    assert_eq!(s.total_directories, 0);
    assert_eq!(s.total_lines, 0);
    assert!(s.extension_counts.is_empty());
    assert!(s.extension_lines.is_empty());
}

#[test]
fn nul_in_window_is_binary() {
    let mut b = vec![b'a'; 7999];
    b.push(0);
    assert!(leading_nul(&b));
    assert!(is_binary_content(&b));
}

#[test]
fn nul_after_window_is_not_seen() {
    let mut b = vec![b'a'; 8000];
    b.push(0);
    assert!(!leading_nul(&b));
    assert!(!is_binary_content(&b));
}

#[test]
fn text_is_not_binary() {
    assert!(!is_binary_content(b"fn main() {}\n"));
    assert!(!is_binary_content(b""));
}

#[test]
fn signature_makes_binary() {
    let png = [0x89u8, 0x50, 0x4E, 0x47, 0x0D, 0x0A, 0x1A, 0x0A, 1, 2, 3];
    assert!(!leading_nul(&png));
    assert!(is_binary_content(&png));
}

#[test]
fn dotfiles_hidden_by_default() {
    assert!(is_hidden_name(".hidden"));
    assert!(is_hidden_name(".git"));
    assert!(!is_hidden_name("."));
    assert!(!is_hidden_name(".."));
    assert!(!is_hidden_name("a.txt"));
    assert!(!is_hidden_name(""));
    assert!(!entry_accepted(".hidden", "/r/.hidden", &Vec::new()));
    assert!(entry_accepted("a.txt", "/r/a.txt", &Vec::new()));
}

#[test]
fn node_modules_pattern_excludes_directory() {
    let pats = strings(&["*/node_modules/*"]);
    assert!(!entry_accepted("index.js", "/r/node_modules/pkg/index.js", &pats));
    assert!(!entry_accepted("pkg", "/r/node_modules/pkg", &pats));
    assert!(entry_accepted("src", "/r/src", &pats));
}

#[test]
fn bad_pattern_matches_nothing() {
    let pats = strings(&["[", "*.log"]);
    assert!(!matches_any(&strings(&["["]), "/r/["));
    assert!(matches_any(&pats, "/r/a.log"));
    assert!(entry_accepted("a.txt", "/r/a.txt", &pats));
}

#[test]
fn nested_file_creates_each_directory_once() {
    let mut t = PathTree::new("root".to_string());
    t.add_leaf(&strings(&["src", "lib"]), "mod.rs".to_string());
    assert_eq!(
        labels(&t),
        vec![
            ("root".to_string(), 0, true),
            ("src".to_string(), 0, true),
            ("lib".to_string(), 1, true),
            ("mod.rs".to_string(), 2, false),
        ]
    );
    t.add_dir(&strings(&["src", "lib"]));
    t.add_dir(&strings(&["src"]));
    assert_eq!(t.node_count(), 4);
    assert_eq!(t.children(0), vec![1]);
    assert_eq!(t.children(1), vec![2]);
    assert_eq!(t.children(2), vec![3]);
}

#[test]
fn add_dir_returns_existing_node() {
    let mut t = PathTree::new("r".to_string());
    let a = t.add_dir(&strings(&["a", "b"]));
    let b = t.add_dir(&strings(&["a", "b"]));
    assert_eq!(a, b);
    assert_eq!(t.add_dir(&Vec::new()), 0);
    let c = t.add_dir(&strings(&["a", "c"]));
    assert_eq!(t.node(c).parent, 1);
    assert_eq!(t.children(1), vec![2, 3]);
}

#[test]
fn unreadable_link_label() {
    assert_eq!(link_label("link", &None), "link -> [unreadable link]");
    assert_eq!(link_label("l", &Some("/t".to_string())), "l -> /t");
}

#[test]
fn symlink_is_leaf_only() {
    let mut t = PathTree::new("r".to_string());
    let mut files: Vec<String> = Vec::new();
    let e = Entry {
        components: strings(&["link"]),
        path: "/r/link".to_string(),
        kind: EntryKind::Symlink { target: None },
    };
    process_entry(&mut t, &mut files, &e);
    assert!(files.is_empty());
    assert_eq!(labels(&t)[1], ("link -> [unreadable link]".to_string(), 0, false));
}

#[test]
fn scenario_text_binary_hidden() {
    let mut t = PathTree::new("r".to_string());
    let mut files: Vec<String> = Vec::new();
    let entries = vec![
        file_entry(&["a.txt"], b"one\ntwo\n"),
        file_entry(&["b.bin"], b"ab\0cd"),
        file_entry(&[".hidden"], b"text\n"),
    ];
    for e in &entries {
        let name = e.components.last().unwrap();
        if entry_accepted(name, &e.path, &Vec::new()) {
            process_entry(&mut t, &mut files, e);
        }
    }
    assert_eq!(files, vec!["/root/a.txt".to_string()]);
    assert_eq!(t.node_count(), 2);
    assert_eq!(t.node(1).label, "a.txt");
    let s = collect_stats(&[sample("/root", "txt", Some(count_lines(b"one\ntwo\n")))]);
    assert_eq!(s.total_files, 1);
    assert_eq!(s.extension_counts, vec![("txt".to_string(), 1)]);
    assert_eq!(s.extension_lines, vec![("txt".to_string(), 2)]);
}

#[test]
fn root_entry_is_skipped() {
    let mut t = PathTree::new("r".to_string());
    let mut files: Vec<String> = Vec::new();
    let e = Entry { components: Vec::new(), path: "/r".to_string(), kind: EntryKind::Dir };
    process_entry(&mut t, &mut files, &e);
    assert_eq!(t.node_count(), 1);
    assert!(files.is_empty());
}

#[test]
fn same_input_builds_same_tree() {
    let build = || {
        let mut t = PathTree::new("r".to_string());
        let mut files: Vec<String> = Vec::new();
        let entries = vec![
            file_entry(&["x", "y", "z.rs"], b"a"),
            Entry { components: strings(&["x"]), path: "/r/x".to_string(), kind: EntryKind::Dir },
            file_entry(&["x", "bin"], b"\0"),
            file_entry(&["w.md"], b"b\n"),
        ];
        process_entries(&mut t, &mut files, &entries);
        (labels(&t), files, t.children(0), t.children(1))
    };
    let first = build();
    assert_eq!(first, build());
    assert_eq!(first.1, vec!["/root/x/y/z.rs".to_string(), "/root/w.md".to_string()]);
    assert_eq!(first.2, vec![1, 4]);
    assert_eq!(first.3, vec![2]);
}

#[test]
fn tables_sort_largest_first() {
    let t = vec![
        ("a".to_string(), 1),
        ("b".to_string(), 5),
        ("c".to_string(), 1),
        ("".to_string(), 3),
    ];
    assert_eq!(
        sorted_desc(&t),
        vec![
            ("b".to_string(), 5),
            ("".to_string(), 3),
            ("a".to_string(), 1),
            ("c".to_string(), 1),
        ]
    );
    assert!(sorted_desc(&Vec::new()).is_empty());
}

#[test]
fn filter_decision_from_match() {
    assert!(passes("a.txt", false));
    assert!(!passes("a.txt", true));
    assert!(!passes(".env", false));
    assert!(passes("..", false));
}

#[test]
fn scripts_and_markup_are_text() {
    assert!(!is_binary_content(b"#!/bin/sh\necho hi\n"));
    assert!(!is_binary_content(b"<?xml version=\"1.0\"?><a/>"));
    assert!(!is_binary_content(b"<!DOCTYPE html><html></html>"));
}

#[test]
fn decimal_digits() {
    assert_eq!(decimal_string(0), "0");
    assert_eq!(decimal_string(7), "7");
    assert_eq!(decimal_string(10), "10");
    assert_eq!(decimal_string(40213), "40213");
    assert_eq!(decimal_string(usize::MAX), usize::MAX.to_string());
}

#[test]
fn lines_as_a_line_iterator_reads_them() {
    let as_strings = |v: Vec<Vec<char>>| -> Vec<String> { v.into_iter().map(|l| l.into_iter().collect()).collect() };
    for text in ["", "\n", "a", "a\n", "a\r\nb", "a\n\nb\n", "x\r", "\r\n\r\n"] {
        let expected: Vec<String> = text.lines().map(|l| l.to_string()).collect();
        assert_eq!(as_strings(split_lines(text)), expected, "{:?}", text);
    }
}

#[test]
fn content_block_numbers_lines() {
    let sep = "-".repeat(80);
    let r = content_block("/r/a.txt", &Ok("one\ntwo\n".to_string()));
    assert_eq!(
        r,
        vec![
            "/r/a.txt:".to_string(),
            sep.clone(),
            "1 | one".to_string(),
            "2 | two".to_string(),
            sep.clone(),
            String::new(),
        ]
    );
}

#[test]
fn content_block_reports_unreadable_file() {
    let sep = "-".repeat(80);
    let r = content_block("/r/b", &Err("stream did not contain valid UTF-8".to_string()));
    assert_eq!(
        r,
        vec![
            "/r/b:".to_string(),
            sep.clone(),
            "Error reading file: stream did not contain valid UTF-8".to_string(),
            sep,
            String::new(),
        ]
    );
}

#[test]
fn statistics_text_of_scenario() {
    let s = collect_stats(&[
        sample("/r", "txt", Some(2)),
        sample("/r", "", Some(9)),
        sample("/r/src", "rs", Some(4)),
        sample("/r/src", "rs", Some(1)),
    ]);
    assert_eq!(
        statistics_lines(&s),
        vec![
            "Project Statistics",
            "==================",
            "Total files: 4",
            "Total directories: 2",
            "Total lines of code: 16",
            "",
            "File types:",
            "  rs: 2 files",
            "  txt: 1 files",
            "  [no extension]: 1 files",
            "",
            "Lines of code by file type:",
            "  [no extension]: 9 lines",
            "  rs: 5 lines",
            "  txt: 2 lines",
        ]
    );
}

#[test]
fn statistics_text_without_files() {
    let s = collect_stats(&[]);
    assert_eq!(
        statistics_lines(&s),
        vec![
            "Project Statistics",
            "==================",
            "Total files: 0",
            "Total directories: 0",
            "Total lines of code: 0",
        ]
    );
}

#[test]
fn extension_rule() {
    assert_eq!(extension_of("a.txt"), "txt");
    assert_eq!(extension_of("archive.tar.gz"), "gz");
    assert_eq!(extension_of("Makefile"), "");
    assert_eq!(extension_of(".bashrc"), "");
    assert_eq!(extension_of("foo."), "");
    assert_eq!(extension_of(""), "");
}
