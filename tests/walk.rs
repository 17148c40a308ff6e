use std::collections::{HashMap, HashSet};

use header_deper::walker::{classify, Dependency, IncludeWalker, Outcome, Request};

fn run(w: &mut IncludeWalker, root: &str, files: &HashMap<String, String>) {
    w.walk(root);
    loop {
        match w.pending().clone() {
            Request::Read(p) => w.answer_read(files.get(&p).cloned()),
            Request::Exists(p) => w.answer_exists(files.contains_key(&p)),
            Request::Step => w.step(),
            Request::Done => break,
            Request::Failed => panic!("walk failed"),
        }
    }
}

fn fs(entries: &[(&str, &str)]) -> HashMap<String, String> {
    entries.iter().map(|(p, t)| (p.to_string(), t.to_string())).collect()
}

fn deps(w: &IncludeWalker, p: &str) -> HashSet<String> {
    w.node(p).expect("node").dependencies.iter().cloned().collect()
}

fn set(items: &[&str]) -> HashSet<String> {
    items.iter().map(|s| s.to_string()).collect()
}

#[test]
fn self_reference_has_no_edge() {
    let files = fs(&[("/p/self.c", "#include \"self.c\"\n")]);
    let mut w = IncludeWalker::new();
    run(&mut w, "/p/self.c", &files);
    assert_eq!(w.graph.len(), 1);
    assert!(deps(&w, "/p/self.c").is_empty());
}

#[test]
fn mutual_cycle_keeps_both_edges() {
    let files = fs(&[("/p/a.h", "#include \"b.h\"\n"), ("/p/b.h", "#include \"a.h\"\n")]);
    let mut w = IncludeWalker::new();
    run(&mut w, "/p/a.h", &files);
    assert_eq!(w.graph.len(), 2);
    assert_eq!(deps(&w, "/p/a.h"), set(&["/p/b.h"]));
    assert_eq!(deps(&w, "/p/b.h"), set(&["/p/a.h"]));
}

#[test]
fn header_and_source_are_merged() {
    let files = fs(&[
        ("/p/foo.h", "#include \"extra.h\"\n"),
        ("/p/foo.c", "#include \"foo.h\"\n#include \"extra.c\"\n"),
        ("/p/extra.h", ""),
        ("/p/extra.c", ""),
    ]);
    let mut w = IncludeWalker::new();
    run(&mut w, "/p/foo.h", &files);
    assert_eq!(deps(&w, "/p/foo.h"), set(&["/p/extra.c", "/p/extra.h"]));
    assert!(w.node("/p/foo.c").is_none());
    assert_eq!(w.node("/p/foo.h").unwrap().file, "/p/foo");
}

#[test]
fn colocated_file_wins() {
    let files = fs(&[
        ("/p/src/a.c", "#include \"x.h\"\n"),
        ("/p/src/x.h", ""),
        ("/p/inc/x.h", ""),
    ]);
    let mut w = IncludeWalker::new();
    w.append_dir("/p/inc");
    run(&mut w, "/p/src/a.c", &files);
    assert_eq!(deps(&w, "/p/src/a.c"), set(&["/p/src/x.h"]));
    assert!(w.node("/p/inc/x.h").is_none());
}

#[test]
fn search_directories_are_tried_in_order() {
    let files = fs(&[("/p/src/a.c", "#include \"x.h\"\n"), ("/p/two/x.h", ""), ("/p/three/x.h", "")]);
    let mut w = IncludeWalker::new();
    w.append_dir("/p/one");
    w.append_dir("/p/two");
    w.append_dir("/p/three");
    run(&mut w, "/p/src/a.c", &files);
    assert_eq!(deps(&w, "/p/src/a.c"), set(&["/p/two/x.h"]));
}

#[test]
fn missing_target_is_dropped() {
    let files = fs(&[("/p/a.c", "#include \"missing.h\"\n#include \"b.h\"\n"), ("/p/b.h", "")]);
    let mut w = IncludeWalker::new();
    run(&mut w, "/p/a.c", &files);
    assert_eq!(deps(&w, "/p/a.c"), set(&["/p/b.h"]));
    assert_eq!(w.graph.len(), 2);
}

#[test]
fn unreadable_root_gives_no_node() {
    let files = fs(&[]);
    let mut w = IncludeWalker::new();
    run(&mut w, "/p/none.c", &files);
    assert!(w.graph.is_empty());
}

#[test]
fn candidates_are_joined_paths() {
    let mut w = IncludeWalker::new();
    w.append_dir("/inc");
    assert_eq!(w.candidates("/p/src/a.c", "x.h"), vec!["/p/src/x.h".to_string(), "/inc/x.h".to_string()]);
}

#[test]
fn node_names_drop_the_extension() {
    let files = fs(&[("/p/main.c", "")]);
    let mut w = IncludeWalker::new();
    run(&mut w, "/p/main.c", &files);
    assert_eq!(w.node("/p/main.c").unwrap().file, "/p/main");
}

#[test]
fn dependencies_compare_by_path() {
    let a = Dependency { file: "a".to_string(), full_path: "/p/a.c".to_string(), dependencies: vec![] };
    let b = Dependency { file: "other".to_string(), full_path: "/p/a.c".to_string(), dependencies: vec!["/p/b.h".to_string()] };
    let c = Dependency { file: "a".to_string(), full_path: "/p/c.c".to_string(), dependencies: vec![] };
    assert!(a == b);
    assert!(a != c);
}

#[test]
fn shared_target_is_walked_once() {
    let files = fs(&[
        ("/p/main.c", "#include \"a.h\"\n#include \"b.h\"\n"),
        ("/p/a.h", "#include \"common.h\"\n"),
        ("/p/b.h", "#include \"common.h\"\n"),
        ("/p/common.h", ""),
    ]);
    let mut w = IncludeWalker::new();
    run(&mut w, "/p/main.c", &files);
    assert_eq!(w.graph.len(), 4);
    assert_eq!(deps(&w, "/p/a.h"), set(&["/p/common.h"]));
    assert_eq!(deps(&w, "/p/b.h"), set(&["/p/common.h"]));
    assert_eq!(deps(&w, "/p/main.c"), set(&["/p/a.h", "/p/b.h"]));
}

#[test]
fn classify_decides_each_outcome() {
    let own = "/p/a.c".to_string();
    let header = Some("/p/a.h".to_string());
    let visited = vec!["/p/a.c".to_string(), "/p/b.h".to_string()];
    assert!(matches!(classify(&own, &header, &"/p/a.c".to_string(), &visited), Outcome::Skip));
    assert!(matches!(classify(&own, &header, &"/p/a.h".to_string(), &visited), Outcome::Skip));
    assert!(matches!(classify(&own, &header, &"/p/b.h".to_string(), &visited), Outcome::Edge));
    assert!(matches!(classify(&own, &header, &"/p/c.h".to_string(), &visited), Outcome::Descend));
    let own_h = "/p/a.h".to_string();
    assert!(matches!(classify(&own_h, &Some("/p/b.h".to_string()), &"/p/b.h".to_string(), &visited), Outcome::Edge));
}

#[test]
fn source_does_not_link_to_its_header() {
    let files = fs(&[("/p/a.c", "#include \"a.h\"\n#include \"b.h\"\n"), ("/p/a.h", ""), ("/p/b.h", "")]);
    let mut w = IncludeWalker::new();
    run(&mut w, "/p/a.c", &files);
    assert_eq!(deps(&w, "/p/a.c"), set(&["/p/b.h"]));
    assert!(w.node("/p/a.h").is_none());
}
