use htmlc::parse::component::Component;
use htmlc::parse::doc::Doc;
use htmlc::parse::tag::Tag;
use htmlc::source::SourceManager;
use htmlc::util::{first_not_of, first_of, VecDict};

fn chars(s: &str) -> Vec<char> {
    s.chars().collect()
}

#[test]
fn round_trip_reproduces_text() {
    let src = "<!DOCTYPE html>\n<html lang=en><!-- a comment --><body class=\"main page\">Hello, wörld</body></html>\n";
    let doc = Doc::new(src).expect("well-formed");
    assert_eq!(doc.render(), src);
}

#[test]
fn round_trip_keeps_macros_verbatim() {
    let src = "a<!--?include link=\"x.html\"-->b<!--?foo bar-->c";
    let doc = Doc::new(src).expect("well-formed");
    assert_eq!(doc.len(), 5);
    assert!(matches!(doc.get(1), Component::CustomTag(_, _)));
    assert!(matches!(doc.get(3), Component::CustomComment(_)));
    assert!(matches!(doc.get(0), Component::Text(_)));
    assert_eq!(doc.render(), src);
}

#[test]
fn empty_source_has_no_nodes() {
    let doc = Doc::new("").expect("well-formed");
    assert_eq!(doc.len(), 0);
    assert_eq!(doc.render(), "");
}

#[test]
fn text_only_is_one_node() {
    let doc = Doc::new("plain text").expect("well-formed");
    assert_eq!(doc.len(), 1);
    assert_eq!(doc.render(), "plain text");
}

#[test]
fn malformed_macro_degrades_to_comment() {
    let doc = Doc::new("<!--?foo bar-->").expect("a broken macro is still a comment");
    assert_eq!(doc.len(), 1);
    assert!(matches!(doc.get(0), Component::CustomComment(_)));
    assert_eq!(doc.render(), "<!--?foo bar-->");
}

#[test]
fn unterminated_comment_is_rejected() {
    assert!(Doc::new("x<!-- never closed").is_none());
    assert!(Doc::new("<!-->").is_none());
}

#[test]
fn unterminated_macro_is_rejected() {
    assert!(Doc::new("<!--?include link=\"a\"").is_none());
}

#[test]
fn unterminated_doctype_is_rejected() {
    assert!(Doc::new("<!DOCTYPE html").is_none());
}

#[test]
fn unterminated_tag_is_rejected() {
    assert!(Doc::new("text <div").is_none());
}

#[test]
fn malformed_tag_attributes_are_rejected() {
    assert!(Doc::new("<div a>").is_none());
    assert!(Doc::new("<div a=>").is_none());
    assert!(Doc::new("<div a=\"open>").is_none());
}

#[test]
fn tag_is_written_in_canonical_form() {
    let doc = Doc::new("<div  a=1   b=2>").expect("well-formed");
    assert_eq!(doc.render(), "<div a=1 b=2>");
}

#[test]
fn attributes_keep_order() {
    let mut t = Tag::new("div a=1 b=2").expect("well-formed");
    assert_eq!(t.tag(), "div");
    assert_eq!(t.render(), "div a=1 b=2");
    assert_eq!(t.consume("a"), Some(String::from("1")));
    assert_eq!(t.consume("b"), Some(String::from("2")));
}

#[test]
fn duplicate_attribute_keeps_first() {
    let mut t = Tag::new("div a=1 a=2").expect("well-formed");
    assert_eq!(t.render(), "div a=1");
    assert_eq!(t.consume("a"), Some(String::from("1")));
}

#[test]
fn quoted_value_keeps_quotes_and_spaces() {
    let mut t = Tag::new("a href=\"x y\" k=v").expect("well-formed");
    assert_eq!(t.consume("href"), Some(String::from("\"x y\"")));
    assert_eq!(t.consume("k"), Some(String::from("v")));
}

#[test]
fn consume_leaves_empty_value() {
    let mut t = Tag::new("i link=x").expect("well-formed");
    assert_eq!(t.consume("link"), Some(String::from("x")));
    assert_eq!(t.consume("link"), Some(String::new()));
    assert_eq!(t.consume("missing"), None);
}

#[test]
fn key_without_separator_is_an_error() {
    assert!(Tag::new("foo bar").is_none());
    assert!(Tag::new("foo a b=1").is_none());
    assert!(Tag::new("foo a= b").is_none());
}

#[test]
fn new_once_reads_one_tag() {
    let mut s: &str = "<p a=1>rest";
    let t = Tag::new_once(&mut s).expect("a tag");
    assert_eq!(t.render(), "p a=1");
    assert_eq!(s, "rest");
    let mut u: &str = "no tag";
    assert!(Tag::new_once(&mut u).is_none());
    assert_eq!(u, "no tag");
}

#[test]
fn find_tags_lists_positions() {
    let doc = Doc::new("<body>x</body><p><body>").expect("well-formed");
    assert_eq!(doc.find_tags("body"), vec![0, 4]);
    assert_eq!(doc.find_tags("/body"), vec![2]);
    assert_eq!(doc.find_tags("div"), Vec::<usize>::new());
}

#[test]
fn extract_keeps_range() {
    let mut doc = Doc::new("<html><body>INNER</body></html>").expect("well-formed");
    doc.extract(2..3);
    assert_eq!(doc.render(), "INNER");
}

#[test]
fn extract_clamps_and_empties() {
    let mut doc = Doc::new("a<b>c").expect("well-formed");
    doc.extract(1..10);
    assert_eq!(doc.render(), "<b>c");
    let mut other = Doc::new("a<b>c").expect("well-formed");
    other.extract(2..1);
    assert_eq!(other.render(), "");
}

#[test]
fn reassign_custom_replaces_macros() {
    let mut doc = Doc::new("x<!--?m a=1-->y").expect("well-formed");
    let r: Result<(), ()> = doc.reassign_custom(|t: Tag| Ok(Component::Text(t.render())));
    assert!(r.is_ok());
    assert_eq!(doc.render(), "xm a=1y");
}

#[test]
fn swap_null_takes_the_node() {
    let mut c = Component::Text(String::from("t"));
    let taken = c.swap_null();
    assert_eq!(taken.render(), "t");
    assert!(matches!(c, Component::Null));
}

#[test]
fn first_of_finds_or_gives_length() {
    let s = chars("a=b=c");
    assert_eq!(first_of(&s, '=', 0), 1);
    assert_eq!(first_of(&s, '=', 2), 3);
    assert_eq!(first_of(&s, 'x', 0), 5);
    assert_eq!(first_of(&s, '=', 9), 5);
}

#[test]
fn first_not_of_skips() {
    let s = chars("   x ");
    assert_eq!(first_not_of(&s, ' ', 0), 3);
    assert_eq!(first_not_of(&s, ' ', 4), 5);
}

#[test]
fn source_manager_scans() {
    let s = chars("ab<!--c-->");
    let mut m = SourceManager::new(&s);
    assert!(m.next_at_first_of(&['<']));
    assert_eq!(m.window(), &['a', 'b']);
    m.move_to_next();
    assert!(m.pop_if_starts_with(&['!', '-', '-']));
    assert!(!m.pop_if_starts_with(&['x']));
    assert!(m.next_at_first_of(&['-', '-', '>']));
    assert_eq!(m.window(), &['c']);
    m.move_to_next();
    assert!(m.is_empty());
    assert!(!m.next_at_first_of(&['<']));
}

#[test]
fn source_manager_finds_mismatch() {
    let s = chars("ababx");
    let mut m = SourceManager::new(&s);
    assert!(m.next_at_first_not_of(&['a', 'b']));
    assert_eq!(m.window(), &['a']);
    let t = chars("aaaa");
    let mut n = SourceManager::new(&t);
    assert!(!n.next_at_first_not_of(&['a']));
    assert!(!n.next_at_first_not_of(&[]));
}

#[test]
fn vec_dict_first_value_wins() {
    let mut d: VecDict<u32> = VecDict::new();
    d.push_unique(String::from("a"), 1);
    d.push_unique(String::from("b"), 2);
    d.push_unique(String::from("a"), 3);
    assert!(d.contains("a"));
    assert!(!d.contains("c"));
    assert_eq!(d.get("a"), Some(&1));
    assert_eq!(d.get("b"), Some(&2));
    assert_eq!(d.position("b"), Some(1));
    assert_eq!(d.entries().len(), 2);
    if let Some(v) = d.get_mut("a") {
        *v = 7;
    }
    assert_eq!(d.get("a"), Some(&7));
    assert!(d.get_mut("z").is_none());
}
