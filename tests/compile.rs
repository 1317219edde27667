use htmlc::config::Config;
use htmlc::custom::inclusion::{trim_link, validate_body_tag};
use htmlc::custom::Interrupt;

/// Runs a compilation against in-memory files, recording every file read.
fn compile(root: &str, files: &[(&str, &str)], reads: &mut Vec<String>) -> Option<String> {
    let mut cfg = Config::new(String::from(root));
    loop {
        match cfg.compile() {
            Ok(doc) => return Some(doc.render()),
            Err(Interrupt::NeedFile(p)) => {
                reads.push(p.clone());
                let text = files
                    .iter()
                    .find(|(k, _)| *k == p.as_str())
                    .map(|(_, v)| String::from(*v))
                    .expect("the file exists");
                cfg.insert_file(p, text);
            }
            Err(Interrupt::Malformed) => return None,
        }
    }
}

#[test]
fn include_extracts_body() {
    let mut reads = Vec::new();
    let out = compile(
        "<!--?include link=\"a.html\"-->",
        &[("a.html", "<html><body>INNER</body></html>")],
        &mut reads,
    );
    assert_eq!(out.as_deref(), Some("INNER"));
}

#[test]
fn include_in_context() {
    let mut reads = Vec::new();
    let out = compile(
        "<p>before</p><!--?include link=\"a.html\"--><p>after</p>",
        &[("a.html", "<html><body>INNER</body></html>")],
        &mut reads,
    );
    assert_eq!(out.as_deref(), Some("<p>before</p>INNER<p>after</p>"));
}

#[test]
fn include_without_body_splices_whole_file() {
    let mut reads = Vec::new();
    let out = compile("<!--?include link=\"a.html\"-->", &[("a.html", "plain text")], &mut reads);
    assert_eq!(out.as_deref(), Some("plain text"));
}

#[test]
fn duplicate_body_gives_error_comment() {
    let mut reads = Vec::new();
    let out = compile(
        "<!--?include link=\"a.html\"-->",
        &[("a.html", "<body>x</body><body>y</body>")],
        &mut reads,
    );
    assert_eq!(out.as_deref(), Some("<!--?error-->"));
}

#[test]
fn unmatched_body_gives_error_comment() {
    let mut reads = Vec::new();
    let out = compile("<!--?include link=\"a.html\"-->", &[("a.html", "<body>x")], &mut reads);
    assert_eq!(out.as_deref(), Some("<!--?error-->"));
}

#[test]
fn same_file_is_read_once() {
    let mut reads = Vec::new();
    let out = compile(
        "<!--?include link=\"a.html\"-->-<!--?include link=\"a.html\"-->",
        &[("a.html", "A")],
        &mut reads,
    );
    assert_eq!(out.as_deref(), Some("A-A"));
    assert_eq!(reads, vec![String::from("a.html")]);
}

#[test]
fn nested_link_is_relative_to_root() {
    let mut reads = Vec::new();
    let out = compile(
        "<!--?include link=\"sub/a.html\"-->",
        &[
            ("sub/a.html", "[<!--?include link=\"b.html\"-->]"),
            ("b.html", "B"),
            ("sub/b.html", "WRONG"),
        ],
        &mut reads,
    );
    assert_eq!(out.as_deref(), Some("[B]"));
    assert_eq!(reads, vec![String::from("sub/a.html"), String::from("b.html")]);
}

#[test]
fn unknown_macro_gives_error_comment() {
    let mut reads = Vec::new();
    let out = compile("x<!--?foo a=1-->y", &[], &mut reads);
    assert_eq!(out.as_deref(), Some("x<!--?error-->y"));
}

#[test]
fn include_without_link_gives_error_comment() {
    let mut reads = Vec::new();
    let out = compile("<!--?include href=a-->", &[], &mut reads);
    assert_eq!(out.as_deref(), Some("<!--?error-->"));
}

#[test]
fn malformed_linked_file_stops_compilation() {
    let mut reads = Vec::new();
    let out = compile("<!--?include link=\"a.html\"-->", &[("a.html", "<div")], &mut reads);
    assert_eq!(out, None);
}

#[test]
fn malformed_root_stops_compilation() {
    let mut reads = Vec::new();
    assert_eq!(compile("<!-- open", &[], &mut reads), None);
}

#[test]
fn self_inclusion_is_bounded() {
    let mut reads = Vec::new();
    let out = compile("<!--?include link=\"a.html\"-->", &[("a.html", "<!--?include link=\"a.html\"-->")], &mut reads);
    assert_eq!(out.as_deref(), Some("<!--?error-->"));
    assert_eq!(reads.len(), 1);
}

#[test]
fn cached_file_is_returned() {
    let mut cfg = Config::new(String::from("root"));
    assert!(cfg.read_relative("a.html").is_none());
    cfg.insert_file(String::from("a.html"), String::from("first"));
    cfg.insert_file(String::from("a.html"), String::from("second"));
    assert_eq!(cfg.read_relative("a.html").map(|s| s.as_str()), Some("first"));
}

#[test]
fn trim_link_strips_quotes() {
    assert_eq!(trim_link("\"a.html\""), "a.html");
    assert_eq!(trim_link("a.html"), "a.html");
    assert_eq!(trim_link("\"\"x\"\""), "x");
    assert_eq!(trim_link("\"\"\""), "");
}

#[test]
fn body_markers_validation() {
    assert!(validate_body_tag(&vec![], &vec![]));
    assert!(validate_body_tag(&vec![1], &vec![3]));
    assert!(!validate_body_tag(&vec![1, 2], &vec![3]));
    assert!(!validate_body_tag(&vec![1], &vec![3, 4]));
    assert!(!validate_body_tag(&vec![1], &vec![]));
    assert!(!validate_body_tag(&vec![], &vec![2]));
}

#[test]
fn missing_file_is_requested_by_link() {
    let cfg = Config::new(String::from("x<!--?include link=\"dir/a.html\"-->"));
    match cfg.compile() {
        Err(Interrupt::NeedFile(p)) => assert_eq!(p, "dir/a.html"),
        _ => panic!("the linked file must be requested"),
    }
}

#[test]
fn nested_includes_expand_in_place() {
    let mut reads = Vec::new();
    let out = compile(
        "<main><!--?include link=\"a.html\"--></main>",
        &[
            ("a.html", "<html><body><h1>A</h1><!--?include link=\"b.html\"--></body></html>"),
            ("b.html", "<body><p>B</p></body>"),
        ],
        &mut reads,
    );
    assert_eq!(out.as_deref(), Some("<main><h1>A</h1><p>B</p></main>"));
}
