use deptree::dependency_tree::{DependencyTree, SourceOutput, TreeError};
use deptree::model::ParseError;
use deptree::package_id::{crate_name_from_package_id, identity_of};
use deptree::parser::Parser;
use deptree::text::{read_depth, split_lines, to_chars, to_string};

fn child_names(tree: &DependencyTree, name: &str) -> Vec<String> {
    let node = tree.get(name).expect("node");
    let mut it = node.into_iter();
    let mut out = Vec::new();
    while let Some(child) = it.next() {
        out.push(child.name().to_string());
    }
    out
}

fn chars(text: &str) -> Vec<char> {
    text.chars().collect()
}

fn line_strings(text: &str) -> Vec<String> {
    split_lines(&to_chars(text)).iter().map(|l| to_string(l)).collect()
}

#[test]
fn one_root_with_two_children() {
    let tree = DependencyTree::parse("0 foo v1.0.0\n1 bar v2.0.0\n1 baz v0.3.0");
    assert_eq!(tree.root().name(), "foo 1.0.0");
    assert_eq!(tree.node_count(), 3);
    assert_eq!(child_names(&tree, "foo 1.0.0"), vec!["bar 2.0.0", "baz 0.3.0"]);
    assert_eq!(child_names(&tree, "bar 2.0.0"), Vec::<String>::new());
    assert_eq!(child_names(&tree, "baz 0.3.0"), Vec::<String>::new());
}

#[test]
fn same_root_twice_is_one_node_and_two_roots() {
    let mut parser = Parser::new();
    parser.feed_line("0 foo v1.0.0").unwrap();
    parser.feed_line("").unwrap();
    parser.feed_line("0 foo v1.0.0").unwrap();
    assert_eq!(parser.node_count(), 1);
    assert_eq!(parser.roots(), vec!["foo 1.0.0", "foo 1.0.0"]);
    assert_eq!(parser.depth(), 0);
    let tree = parser.finish().unwrap();
    assert_eq!(tree.root().name(), "workspace");
    assert_eq!(child_names(&tree, "workspace"), vec!["foo 1.0.0"]);
    assert_eq!(tree.node_count(), 2);
}

#[test]
fn node_count_is_the_number_of_distinct_identities() {
    let text = "0 a v1\n1 b v1\n2 c v1\n1 c v1\n1 d v2\n2 b v1";
    let tree = DependencyTree::parse(text);
    assert_eq!(tree.node_count(), 4);
    assert_eq!(child_names(&tree, "a 1"), vec!["b 1", "c 1", "d 2"]);
    assert_eq!(child_names(&tree, "b 1"), vec!["c 1"]);
    assert_eq!(child_names(&tree, "d 2"), vec!["b 1"]);
    assert_eq!(child_names(&tree, "c 1"), Vec::<String>::new());
}

#[test]
fn repeated_edge_is_listed_once() {
    let tree = DependencyTree::parse("0 a v1\n1 b v1\n1 b v1\n1 b v1");
    assert_eq!(child_names(&tree, "a 1"), vec!["b 1"]);
    assert_eq!(tree.node_count(), 2);
}

#[test]
fn ancestor_on_the_stack_is_passed_over() {
    let mut parser = Parser::new();
    parser.feed_line("0 a v1").unwrap();
    parser.feed_line("1 b v1").unwrap();
    assert_eq!(parser.depth(), 2);
    assert_eq!(parser.feed_line("2 a v1"), Ok(()));
    assert_eq!(parser.depth(), 2);
    assert_eq!(parser.open_ancestors(), vec!["a 1", "b 1"]);
    assert_eq!(parser.node_count(), 2);
    // a line that names itself as its own ancestor one level up
    assert_eq!(parser.feed_line("1 a v1"), Ok(()));
    assert_eq!(parser.depth(), 1);
    let tree = parser.finish().unwrap();
    assert_eq!(child_names(&tree, "b 1"), Vec::<String>::new());
    assert_eq!(child_names(&tree, "a 1"), vec!["b 1"]);
}

#[test]
fn several_roots_hang_on_a_workspace() {
    let text = "0 one v1\n1 x v1\n\n0 two v1\n1 x v1\n\n0 three v1\n";
    let tree = DependencyTree::parse(text);
    assert_eq!(tree.root().name(), "workspace");
    assert_eq!(tree.root().children_count(), 3);
    assert_eq!(child_names(&tree, "workspace"), vec!["one 1", "two 1", "three 1"]);
    assert_eq!(child_names(&tree, "one 1"), vec!["x 1"]);
    assert_eq!(child_names(&tree, "two 1"), vec!["x 1"]);
    assert_eq!(tree.node_count(), 5);
}

#[test]
fn known_root_is_not_descended_again() {
    let mut parser = Parser::new();
    for line in ["0 a v1", "1 b v1", "", "0 b v1"] {
        parser.feed_line(line).unwrap();
    }
    assert_eq!(parser.roots(), vec!["a 1", "b 1"]);
    assert_eq!(parser.depth(), 0);
    // what follows the known root finds no open ancestor
    parser.feed_line("1 c v1").unwrap();
    assert_eq!(parser.node_count(), 2);
    let tree = parser.finish().unwrap();
    assert_eq!(child_names(&tree, "workspace"), vec!["a 1", "b 1"]);
    assert!(tree.get("c 1").is_none());
}

#[test]
fn orphaned_line_is_passed_over() {
    let tree = DependencyTree::parse("0 a v1\n2 lost v1\n1 b v1");
    assert!(tree.get("lost 1").is_none());
    assert_eq!(child_names(&tree, "a 1"), vec!["b 1"]);
    // an orphan is passed over whatever follows its depth
    let tree = DependencyTree::parse("0 a v1\n5 nospace");
    assert_eq!(tree.node_count(), 1);
}

#[test]
fn second_root_without_separator_replaces_the_first() {
    let tree = DependencyTree::parse("0 a v1\n0 b v1");
    assert_eq!(tree.root().name(), "b 1");
    assert_eq!(tree.node_count(), 2);
}

#[test]
fn malformed_depth_is_an_error() {
    assert_eq!(DependencyTree::try_parse("foo v1").err(), Some(ParseError::MalformedDepth));
    assert_eq!(DependencyTree::try_parse("0 a v1\n12").err(), Some(ParseError::MalformedDepth));
    assert_eq!(
        DependencyTree::try_parse("99999999999999999999999999999999999999999 a v1").err(),
        Some(ParseError::MalformedDepth)
    );
    assert_eq!(DependencyTree::try_parse(" 0 a v1").err(), Some(ParseError::MalformedDepth));
}

#[test]
fn malformed_package_is_an_error() {
    assert_eq!(DependencyTree::try_parse("0 nospace").err(), Some(ParseError::MalformedPackage));
    assert_eq!(DependencyTree::try_parse("0 a v1\n1   \n").err(), Some(ParseError::MalformedPackage));
}

#[test]
fn first_failure_wins() {
    assert_eq!(
        DependencyTree::try_parse("0 a v1\n1 nospace\nxyz").err(),
        Some(ParseError::MalformedPackage)
    );
    assert_eq!(
        DependencyTree::try_parse("0 a v1\nxyz\n1 nospace").err(),
        Some(ParseError::MalformedDepth)
    );
}

#[test]
fn failed_line_leaves_the_parser_as_it_was() {
    let mut parser = Parser::new();
    parser.feed_line("0 a v1").unwrap();
    parser.feed_line("1 b v1").unwrap();
    assert_eq!(parser.feed_line("0 bad"), Err(ParseError::MalformedPackage));
    assert_eq!(parser.open_ancestors(), vec!["a 1", "b 1"]);
    assert_eq!(parser.feed_line("x"), Err(ParseError::MalformedDepth));
    assert_eq!(parser.open_ancestors(), vec!["a 1", "b 1"]);
}

#[test]
fn no_root_is_an_error() {
    assert_eq!(DependencyTree::try_parse("").err(), Some(ParseError::NoRoot));
    assert_eq!(DependencyTree::try_parse("\n\n").err(), Some(ParseError::NoRoot));
    assert_eq!(DependencyTree::try_parse("3 a v1").err(), Some(ParseError::NoRoot));
}

#[test]
fn cycle_is_an_error() {
    let text = "0 a v1\n1 b v1\n2 c v1\n1 c v1\n2 b v1";
    assert_eq!(DependencyTree::try_parse(text).err(), Some(ParseError::Cycle));
}

fn output(success: bool, code: Option<i32>, stdout: &str, stderr: &str) -> SourceOutput {
    SourceOutput { success, code, stdout: stdout.to_string(), stderr: stderr.to_string() }
}

#[test]
fn failed_source_gives_code_and_diagnostics() {
    let out = output(false, Some(101), "0 a v1", "error: could not find `Cargo.toml`\n");
    assert_eq!(
        DependencyTree::new(&out).err(),
        Some((101, "error: could not find `Cargo.toml`\n".to_string()))
    );
    assert_eq!(
        DependencyTree::try_new(&out).err(),
        Some(TreeError::Source { code: 101, diagnostics: "error: could not find `Cargo.toml`\n".to_string() })
    );
    let out = output(false, None, "", "");
    assert_eq!(DependencyTree::new(&out).err(), Some((-1, String::new())));
    assert_eq!(
        DependencyTree::try_new(&out).err(),
        Some(TreeError::Source { code: -1, diagnostics: String::new() })
    );
}

#[test]
fn failed_source_is_not_read() {
    let out = output(false, Some(3), "not a dump", "broken");
    assert_eq!(DependencyTree::new(&out).err(), Some((3, "broken".to_string())));
}

#[test]
fn successful_source_is_parsed() {
    let out = output(true, Some(0), "0 a v1\n1 b v2\n", "warning\n");
    let tree = DependencyTree::new(&out).unwrap();
    assert_eq!(tree.root().name(), "a 1");
    assert_eq!(child_names(&tree, "a 1"), vec!["b 2"]);
    let tree = DependencyTree::try_new(&out).unwrap();
    assert_eq!(tree.root().name(), "a 1");
}

#[test]
fn malformed_dump_of_a_successful_source_is_reported() {
    let out = output(true, Some(0), "nothing", "");
    assert_eq!(DependencyTree::try_new(&out).err(), Some(TreeError::Format(ParseError::MalformedDepth)));
    let out = output(true, Some(0), "0 foo v1.0.0\nbar v2.0.0", "");
    assert_eq!(DependencyTree::try_new(&out).err(), Some(TreeError::Format(ParseError::MalformedDepth)));
    let out = output(true, Some(0), "1 foo v1.0.0", "");
    assert_eq!(DependencyTree::try_new(&out).err(), Some(TreeError::Format(ParseError::NoRoot)));
    let out = output(true, Some(0), "0 a v1\n1 b v1\n2 a v1\n1 c v1\n2 b v1\n3 c v1", "");
    assert!(DependencyTree::try_new(&out).is_ok());
}

#[test]
fn identity_of_package_id() {
    assert_eq!(crate_name_from_package_id("foo v1.0.0"), "foo 1.0.0");
    assert_eq!(crate_name_from_package_id(" foo_bar v0.1.2 (/some/path)"), "foo-bar 0.1.2");
    assert_eq!(crate_name_from_package_id("foo 1.0.0 (registry+https://x)"), "foo 1.0.0");
    assert_eq!(crate_name_from_package_id("a_b_c  v2 "), "a-b-c  2");
    assert_eq!(crate_name_from_package_id("my crate v_1"), "my crate _1");
    assert_eq!(crate_name_from_package_id("my_crate v_1"), "my-crate _1");
    assert_eq!(crate_name_from_package_id("a v"), "a ");
    assert_eq!(crate_name_from_package_id("\u{a0}a vv1\u{3000}"), "a v1");
    assert_eq!(crate_name_from_package_id("a v1 (x) (y)"), "a 1");
    assert_eq!(crate_name_from_package_id("a v1(x)"), "a 1(x)");
}

#[test]
fn identity_needs_a_space() {
    assert_eq!(identity_of(&chars("foo")), None);
    assert_eq!(identity_of(&chars("")), None);
    assert_eq!(identity_of(&chars("  foo  ")), None);
    assert_eq!(identity_of(&chars("foo (a b)")), None);
    assert_eq!(identity_of(&chars("foo v1")), Some("foo 1".to_string()));
}

#[test]
fn depth_prefix() {
    assert_eq!(read_depth(&chars("0 a")), Some((0, 1)));
    assert_eq!(read_depth(&chars("12foo")), Some((12, 2)));
    assert_eq!(read_depth(&chars("007 a")), Some((7, 3)));
    assert_eq!(read_depth(&chars("12")), None);
    assert_eq!(read_depth(&chars("a1")), None);
    assert_eq!(read_depth(&chars("")), None);
    assert_eq!(read_depth(&chars("+1 a")), None);
    assert_eq!(read_depth(&chars("340282366920938463463374607431768211456 a")), None);
    assert_eq!(read_depth(&chars("\u{661} a")), None);
}

#[test]
fn lines_of_a_text() {
    assert_eq!(line_strings(""), Vec::<String>::new());
    assert_eq!(line_strings("a"), vec!["a"]);
    assert_eq!(line_strings("a\n"), vec!["a"]);
    assert_eq!(line_strings("a\n\n"), vec!["a", ""]);
    assert_eq!(line_strings("a\r\nb\r"), vec!["a", "b\r"]);
    assert_eq!(line_strings("\na\r\r\n"), vec!["", "a\r"]);
    for text in ["", "a", "a\n", "a\n\nb", "a\r\nb\r", "\n\r\n\n", "x\ny\r\n"] {
        let expected: Vec<String> = text.lines().map(|l| l.to_string()).collect();
        assert_eq!(line_strings(text), expected);
    }
}

#[test]
fn characters_round_trip() {
    let text = "0 f\u{fc}r v1 \u{1f600}";
    assert_eq!(to_chars(text), chars(text));
    assert_eq!(to_string(&to_chars(text)), text);
}

#[test]
fn carriage_returns_end_lines_of_a_dump() {
    let tree = DependencyTree::parse("0 a v1\r\n1 b v1\r\n\r\n0 c v1\r\n");
    assert_eq!(child_names(&tree, "workspace"), vec!["a 1", "c 1"]);
}
