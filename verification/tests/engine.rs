use std::collections::{HashMap, HashSet};

use mogglo::cli::{parse_error_action, OnParseError, ParseErrorAction};
use mogglo::driver::Candidate;
use mogglo::env::{Env, Metavar};
use mogglo::node_types::NodeTypes;
use mogglo::pattern::{FindExpr, HackVariant, LuaCode, Pattern, TmpVar};
use mogglo::tree::SynTree;
use mogglo::ts::parse_tree;

fn lang() -> tree_sitter::Language {
    tree_sitter_rust::language()
}

fn nts() -> NodeTypes {
    match NodeTypes::new(tree_sitter_rust::NODE_TYPES) {
        Ok(nt) => nt,
        Err(_) => panic!("schema rejected"),
    }
}

fn pat(s: &str) -> Pattern {
    Pattern::parse(&lang(), &nts(), s.as_bytes().to_vec()).unwrap()
}

fn parse_input(text: &str) -> SynTree {
    parse_tree(&lang(), &text.as_bytes().to_vec()).unwrap().0
}

fn exprs_map(p: &Pattern) -> HashMap<TmpVar, FindExpr> {
    p.exprs.iter().cloned().collect()
}

fn env_to_map(env: &Env, tree: &SynTree) -> HashMap<String, HashSet<String>> {
    env.bindings
        .iter()
        .map(|(mv, nodes)| {
            (
                String::from_utf8(mv.0.clone()).unwrap(),
                nodes
                    .iter()
                    .map(|n| String::from_utf8(tree.node_text(*n)).unwrap())
                    .collect(),
            )
        })
        .collect()
}

fn match_one(s: &str, tree: &SynTree) -> Option<Env> {
    pat(s)
        .match_node(Env::new(), Candidate { tree, node: 0 })
        .map(|m| m.env)
}

fn matches(s: &str, tree: &SynTree) -> Option<HashMap<String, HashSet<String>>> {
    match_one(s, tree).map(|env| env_to_map(&env, tree))
}

fn expected(pairs: &[(&str, &[&str])]) -> HashMap<String, HashSet<String>> {
    pairs
        .iter()
        .map(|(k, vs)| {
            (
                k.to_string(),
                vs.iter().map(|v| v.to_string()).collect::<HashSet<String>>(),
            )
        })
        .collect()
}

fn replace(text: &str, find: &str, replacement: &str) -> String {
    let tree = parse_input(text);
    let m = pat(find)
        .match_node(Env::new(), Candidate { tree: &tree, node: 0 })
        .unwrap();
    let p = pat(replacement);
    let mut buf = text.as_bytes().to_vec();
    p.replace(&m, &tree, &mut buf, 0);
    String::from_utf8(buf).unwrap()
}

#[test]
fn test_optional() {
    let nt = nts();
    assert!(nt.is_child_of("array_expression", "_expression"));
    assert!(nt.is_descendant_of("array_expression", "_expression"));
    assert!(nt.is_parent_of("_expression", "array_expression"));
    assert!(!nt.is_child_of("_expression", "empty_statement"));
    assert!(!nt.is_child_of("empty_statement", "_expression"));
}

#[test]
fn test_pattern_parse() {
    assert_eq!(HashMap::new(), exprs_map(&pat("")));
    assert_eq!(
        HashMap::from([(
            Pattern::meta(0),
            FindExpr::Metavar(Metavar(b"x".to_vec()))
        )]),
        exprs_map(&pat("$x"))
    );
    assert_eq!(
        HashMap::from([(Pattern::meta(0), FindExpr::Anonymous)]),
        exprs_map(&pat("$_"))
    );
    assert_eq!(
        HashMap::from([(Pattern::meta(0), FindExpr::Lua(LuaCode(b"true".to_vec())))]),
        exprs_map(&pat("${{true}}"))
    );
    assert_eq!(
        HashMap::from([
            (Pattern::meta(0), FindExpr::Lua(LuaCode(b"true".to_vec()))),
            (Pattern::meta(1), FindExpr::Lua(LuaCode(b"false".to_vec())))
        ]),
        exprs_map(&pat("${{true}} == ${{false}}"))
    );
    assert_eq!(
        HashMap::from([(
            Pattern::meta(0),
            FindExpr::Lua(LuaCode(br#"match("$x")"#.to_vec()))
        )]),
        exprs_map(&pat(r#"${{match("$x")}}"#))
    );
    assert_eq!(
        HashMap::from([
            (Pattern::meta(0), FindExpr::Metavar(Metavar(b"x".to_vec()))),
            (Pattern::meta(1), FindExpr::Metavar(Metavar(b"y".to_vec())))
        ]),
        exprs_map(&pat("let $x = $y;"))
    );
    assert_eq!(
        HashMap::from([(
            Pattern::meta(0),
            FindExpr::Lua(LuaCode(br#"not match("${{false}}")"#.to_vec()))
        ),]),
        exprs_map(&pat(r#"${{not match("${{false}}")}}"#))
    );
}

#[test]
fn test_matches() {
    let tree = parse_input("");
    let empty = match_one("$_", &tree);
    assert!(empty.is_some());
    assert_eq!(0, empty.unwrap().bindings.len());

    let tree = parse_input("a");
    assert_eq!(Some(HashMap::new()), matches("$_", &tree));

    let tree = parse_input("let a = b;");
    assert_eq!(
        Some(expected(&[("x", &["a"]), ("y", &["b"])])),
        matches("let $x = $y;", &tree)
    );

    let tree = parse_input("let a = a;");
    assert_eq!(
        Some(expected(&[("x", &["a"])])),
        matches("let $x = $x;", &tree)
    );

    let tree = parse_input("let a = b;");
    assert_eq!(None, matches("let $x = $x;", &tree));

    let tree = parse_input("0 + 1");
    assert_eq!(
        Some(expected(&[("x", &["0"]), ("y", &["1"])])),
        matches("$x + $y", &tree)
    );

    let tree = parse_input("if a ==  () { }");
    assert_eq!(
        Some(expected(&[("x", &["a"]), ("y", &["()"])])),
        matches("if $x == $y {}", &tree)
    );

    let tree = parse_input("{ a; b; c + d; }");
    assert_eq!(
        Some(expected(&[("x", &["a"]), ("y", &["c"]), ("z", &["d"])])),
        matches("{ $x; $y + $z; }", &tree)
    );

    let tree = parse_input("if a == () { let b = c; }");
    assert_eq!(
        Some(expected(&[("x", &["a"]), ("y", &["()"])])),
        matches("if $x == $y { $.. }", &tree)
    );
}

#[test]
fn test_ellipses() {
    let tree = parse_input("{ a; b; c; }");
    assert_eq!(
        Some(expected(&[("x", &["a"])])),
        matches("{ $x; $.. }", &tree)
    );

    let tree = parse_input("{ a; b; c; }");
    assert_eq!(
        Some(expected(&[("x", &["b"])])),
        matches("{ $..; $x; $.. }", &tree)
    );
}

#[test]
fn test_all_matches() {
    let text = "if a == () { let b = c; }";
    let tree = parse_input(text);
    let ms = pat("let $x = $y;").matches(&tree, &Env::new(), false, None);
    let maps: Vec<HashMap<String, HashSet<String>>> =
        ms.iter().map(|m| env_to_map(&m.env, &tree)).collect();
    assert_eq!(vec![expected(&[("x", &["b"]), ("y", &["c"])])], maps);
}

#[test]
fn test_replace() {
    assert_eq!("a", replace("let a = b;", "let $x = $y;", "$x"));
    assert_eq!(
        "let b = a;",
        replace("let a = b;", "let $x = $y;", "let $y = $x;")
    );
    assert_eq!("", replace("let a = b;", "let $x = $y;", r#"${{""}}"#));
}

#[test]
fn ellipsis_accepts_empty_suffix() {
    let tree = parse_input("{ a; }");
    assert_eq!(
        Some(expected(&[("x", &["a"])])),
        matches("{ $x; $.. }", &tree)
    );
}

#[test]
fn empty_pattern_needs_empty_text() {
    let tree = parse_input("a;");
    let ms = pat("").matches(&tree, &Env::new(), true, None);
    assert_eq!(0, ms.len());
}

#[test]
fn driver_ranges_are_distinct() {
    let text = "let a = b; let a = b; let a = b;";
    let tree = parse_input(text);
    let ms = pat("let $x = $y;").matches(&tree, &Env::new(), true, None);
    assert_eq!(3, ms.len());
    let mut ranges: Vec<(usize, usize)> = ms
        .iter()
        .map(|m| (tree.start_byte(m.root), tree.end_byte(m.root)))
        .collect();
    let before = ranges.len();
    ranges.sort();
    ranges.dedup();
    assert_eq!(before, ranges.len());
}

#[test]
fn nonrecursive_matches_are_recursive_matches() {
    let text = "if a == () { let b = c; if d == () { let e = f; } }";
    let tree = parse_input(text);
    let p = pat("let $x = $y;");
    let plain = p.matches(&tree, &Env::new(), false, None);
    let rec = p.matches(&tree, &Env::new(), true, None);
    let rec_ranges: HashSet<(usize, usize)> = rec
        .iter()
        .map(|m| (tree.start_byte(m.root), tree.end_byte(m.root)))
        .collect();
    for m in &plain {
        assert!(rec_ranges.contains(&(tree.start_byte(m.root), tree.end_byte(m.root))));
    }
}

#[test]
fn match_limit_caps_results() {
    let text = "let a = b; let c = d; let e = f;";
    let tree = parse_input(text);
    let ms = pat("let $x = $y;").matches(&tree, &Env::new(), true, Some(2));
    assert_eq!(2, ms.len());
}

#[test]
fn metavar_global_present_when_singleton() {
    let tree = parse_input("let a = b;");
    assert!(matches(r#"let $x = ${{ return x == "a" }};"#, &tree).is_some());
    assert!(matches(r#"let $x = ${{ return meta("x") == "a" }};"#, &tree).is_some());
    assert!(matches(r#"let $x = ${{ return meta("nosuch") == nil }};"#, &tree).is_some());
}

#[test]
fn regex_predicate_filters() {
    let tree = parse_input("let aa = b;");
    assert!(matches(r#"let ${{ return rx("^a+$", t) }} = $y;"#, &tree).is_some());
    let tree = parse_input("let c = b;");
    assert!(matches(r#"let ${{ return rx("^a+$", t) }} = $y;"#, &tree).is_none());
}

#[test]
fn recursive_search_callback() {
    let tree = parse_input("if a == () { let b = c; }");
    assert!(matches(r#"if $x == $y { ${{ return rec("c") }} }"#, &tree).is_some());
    assert!(matches(r#"if $x == $y { ${{ return rec("zzz") }} }"#, &tree).is_none());
}

#[test]
fn bind_with_nonlinear_check() {
    let text = "let a = a;\nlet a = b;\nlet b = c;\n";
    let tree = parse_input(text);
    let p = pat(r#"let ${{ bind("x"); return true }} = $x;"#);
    let ms = p.matches(&tree, &Env::new(), false, None);
    assert_eq!(1, ms.len());
    assert_eq!(
        "let a = a;",
        String::from_utf8(tree.node_text(ms[0].root)).unwrap()
    );
}

#[test]
fn where_filter_and_unrolling() {
    let text = "fn main() { for j in 0..24 { x += j.pow(2); } }";
    let tree = parse_input(text);
    let mut p = pat("for $i in 0..$h { $b; }");
    p.add_where(vec![LuaCode(
        b"h_num = tonumber(h)\nreturn h_num ~= nil and h_num % 4 == 0".to_vec(),
    )]);
    let ms = p.matches(&tree, &Env::new(), false, None);
    assert_eq!(1, ms.len());
    let r = pat(
        r#"for $i in 0..${{ return string.format("%.0f", h / 4) }} { $b; $b; $b; $b; }"#,
    );
    let mut buf = text.as_bytes().to_vec();
    r.replace(&ms[0], &tree, &mut buf, 0);
    let out = String::from_utf8(buf).unwrap();
    assert!(out.contains("for j in 0..6"));
    assert_eq!(4, out.matches("x += j.pow(2);").count());
}

#[test]
fn same_pattern_round_trip_is_identity() {
    let text = "let a = b;";
    let tree = parse_input(text);
    let m = pat("let $x = $y;")
        .match_node(Env::new(), Candidate { tree: &tree, node: 0 })
        .unwrap();
    let out = replace(text, "let $x = $y;", "let $x = $y;");
    assert_eq!(text, out);
    let _ = m;
}

#[test]
fn anonymous_in_replacement_is_refused() {
    assert_eq!("", replace("let a = b;", "let $x = $y;", "$_"));
}

#[test]
fn schema_errors_are_classified() {
    assert!(matches!(
        NodeTypes::new("this is not json"),
        Err(mogglo::node_types::SchemaError::Json(_))
    ));
    assert!(matches!(
        NodeTypes::new("{}"),
        Err(mogglo::node_types::SchemaError::Shape)
    ));
    assert!(matches!(
        NodeTypes::new(r#"[{"type": 3, "named": true}]"#),
        Err(mogglo::node_types::SchemaError::Shape)
    ));
}

#[test]
fn placeholder_tokens_are_deterministic() {
    assert_eq!(b"mogglo_tmp_var_0".to_vec(), Pattern::meta(0).0);
    assert_eq!(b"mogglo_tmp_var_12".to_vec(), Pattern::meta(12).0);
    assert_eq!(
        FindExpr::Anonymous,
        FindExpr::parse(b"_".to_vec())
    );
    assert_eq!(FindExpr::Ellipsis, FindExpr::parse(b"..".to_vec()));
    assert_eq!(
        FindExpr::Metavar(Metavar(b"abc".to_vec())),
        FindExpr::parse(b"abc".to_vec())
    );
}

#[test]
fn script_inside_nested_pattern() {
    let tree = parse_input("let a = b;");
    assert!(matches(
        r#"let $x = ${{ return match('${{ return t == "b" }}') }};"#,
        &tree
    )
    .is_some());
    assert!(matches(
        r#"let $x = ${{ return match('${{ return t == "zz" }}') }};"#,
        &tree
    )
    .is_none());
}

#[test]
fn nested_match_callback() {
    let tree = parse_input("let a = b;");
    assert!(matches(r#"let $x = ${{ return match("b") }};"#, &tree).is_some());
    assert!(matches(r#"let $x = ${{ return match("zz") }};"#, &tree).is_none());
}

#[test]
fn stray_braces_and_bare_dollars_are_literal() {
    let p = pat("}}");
    assert!(p.exprs.is_empty());
    assert_eq!(b"}}".to_vec(), p.text);
    let p = pat("${x");
    assert!(p.exprs.is_empty());
    assert_eq!(b"${x".to_vec(), p.text);
    let p = pat("$1");
    assert!(p.exprs.is_empty());
    assert_eq!(b"$1".to_vec(), p.text);
}

#[test]
fn ancestor_is_converse_of_descendant() {
    let nt = nts();
    assert!(nt.is_ancestor_of("_expression", "array_expression"));
    assert!(!nt.is_ancestor_of("array_expression", "_expression"));
    // A chain of two subtype edges, where the swapped recursion went wrong.
    assert!(nt.is_descendant_of("string_literal", "_expression"));
    assert!(nt.is_ancestor_of("_expression", "string_literal"));
}

#[test]
fn expression_hack_variant_is_exposed() {
    assert_eq!(HackVariant::Plain, pat("let $x = $y;").hack);
    assert_eq!(HackVariant::Braced, pat("$x + $y").hack);
}

#[test]
fn substitution_handles_prefix_tokens() {
    // Thirteen placeholders: the token numbered one is a decimal prefix of
    // the tokens numbered ten, eleven and twelve, so substitution must run
    // in descending token order to keep the round trip exact.
    let find = "{ $a; $b; $c; $d; $e; $f; $g; $h; $i; $j; $k; $l; $m; }";
    let text = "{ qa; qb; qc; qd; qe; qf; qg; qh; qi; qj; qk; ql; qm; }";
    assert_eq!(text, replace(text, find, find));
}

#[test]
fn parse_error_policy_decides() {
    assert_eq!(
        ParseErrorAction::Proceed,
        parse_error_action(&OnParseError::Error, false)
    );
    assert_eq!(
        ParseErrorAction::Proceed,
        parse_error_action(&OnParseError::Ignore, true)
    );
    assert_eq!(
        ParseErrorAction::WarnAndProceed,
        parse_error_action(&OnParseError::Warn, true)
    );
    assert_eq!(
        ParseErrorAction::Stop,
        parse_error_action(&OnParseError::Error, true)
    );
    assert_eq!("ignore", OnParseError::default().label());
}
