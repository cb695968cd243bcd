use pantry::strmap::StrMap;
use pantry::template::{is_valid_name, parse_assignment_values, placeholders, render, Template};

#[test]
fn extracts_unique_placeholders() {
    let got = placeholders("git checkout {branch} && git pull {remote} {branch}");
    assert_eq!(got, vec!["branch".to_string(), "remote".to_string()]);
}

#[test]
fn renders_placeholders() {
    let mut values = StrMap::new();
    values.insert("branch".to_string(), "main".to_string());
    values.insert("remote".to_string(), "origin".to_string());
    let got = render("git pull {remote} {branch}", &values);
    assert_eq!(got, "git pull origin main");
}

#[test]
fn parses_assignment_values() {
    let got = parse_assignment_values("branch=main remote=origin");
    assert_eq!(got.get("branch"), Some(&"main".to_string()));
    assert_eq!(got.get("remote"), Some(&"origin".to_string()));
}

#[test]
fn handles_escaped_braces() {
    let command = "echo {{not_a_placeholder}} {is_placeholder} }}";
    let found = placeholders(command);
    assert_eq!(found, vec!["is_placeholder".to_string()]);

    let mut values = StrMap::new();
    values.insert("is_placeholder".to_string(), "fixed".to_string());
    let rendered = render(command, &values);
    assert_eq!(rendered, "echo {not_a_placeholder} fixed }");
}

#[test]
fn placeholders_are_sorted_and_skip_invalid_names() {
    let got = placeholders("{zeta} {alpha} {not valid} {} {beta-2} {under_score} {alpha}");
    assert_eq!(
        got,
        vec![
            "alpha".to_string(),
            "beta-2".to_string(),
            "under_score".to_string(),
            "zeta".to_string()
        ]
    );
}

#[test]
fn placeholders_of_unclosed_brace() {
    assert_eq!(placeholders("echo {open"), Vec::<String>::new());
    assert_eq!(placeholders("{a"), Vec::<String>::new());
    assert_eq!(placeholders("{x}{y}"), vec!["x".to_string(), "y".to_string()]);
}

#[test]
fn render_keeps_unknown_placeholders() {
    let values = StrMap::new();
    assert_eq!(render("deploy {env} now", &values), "deploy {env} now");
    assert_eq!(render("a {{b}} c", &values), "a {b} c");
    assert_eq!(render("no braces at all", &values), "no braces at all");
}

#[test]
fn render_looks_up_invalid_names_too() {
    let mut values = StrMap::new();
    values.insert("a b".to_string(), "X".to_string());
    assert_eq!(render("[{a b}]", &values), "[X]");
}

#[test]
fn render_with_value_containing_braces() {
    let mut values = StrMap::new();
    values.insert("v".to_string(), "{w}".to_string());
    assert_eq!(render("{v}", &values), "{w}");
}

#[test]
fn assignment_values_rules() {
    let got = parse_assignment_values("  a=1\tb= c=x=y bad=  d=2 a=3 =z  e f-g=h ");
    assert_eq!(got.get("a"), Some(&"3".to_string()));
    assert_eq!(got.get("b"), None);
    assert_eq!(got.get("c"), Some(&"x=y".to_string()));
    assert_eq!(got.get("d"), Some(&"2".to_string()));
    assert_eq!(got.get("bad"), None);
    assert_eq!(got.get("e"), None);
    assert_eq!(got.get("f-g"), Some(&"h".to_string()));
    assert_eq!(got.len(), 4);
}

#[test]
fn assignment_values_split_on_unicode_whitespace() {
    let got = parse_assignment_values("a=1\u{3000}b=2\u{a0}c=3");
    assert_eq!(got.get("a"), Some(&"1".to_string()));
    assert_eq!(got.get("b"), Some(&"2".to_string()));
    assert_eq!(got.get("c"), Some(&"3".to_string()));
}

#[test]
fn valid_names() {
    assert!(is_valid_name("abc_DEF-123"));
    assert!(!is_valid_name(""));
    assert!(!is_valid_name("a b"));
    assert!(!is_valid_name("é"));
}

#[test]
fn template_matches_free_functions() {
    let command = "run {b} {a} {{x}}";
    let template = Template::parse(command);
    assert_eq!(template.source(), command);
    assert_eq!(template.placeholders(), placeholders(command));
    let mut values = StrMap::new();
    values.insert("a".to_string(), "1".to_string());
    values.insert("b".to_string(), "2".to_string());
    assert_eq!(template.render(&values), render(command, &values));
    assert_eq!(template.render(&values), "run 2 1 {x}");
}

#[test]
fn single_placeholder_and_its_escape() {
    assert_eq!(placeholders("ls {dir} -la"), vec!["dir".to_string()]);
    assert!(placeholders("ls {{dir}} -la").is_empty());
    assert_eq!(render("ls {{dir}} -la", &StrMap::new()), "ls {dir} -la");
}

#[test]
fn any_braced_name_is_substituted_or_kept() {
    let mut values = StrMap::new();
    values.insert("x y".to_string(), "Z".to_string());
    assert_eq!(render("a {x y} b", &values), "a Z b");
    assert_eq!(render("a {x y} b", &StrMap::new()), "a {x y} b");
}

#[test]
fn lone_braces_render_as_themselves() {
    let command = "awk '{ print $1 }' | sed 's/{/(/' {";
    assert_eq!(render(command, &StrMap::new()), command);
}

#[test]
fn joined_assignments_read_back() {
    let values = parse_assignment_values("env=prod zone=eu-1 key=a=b");
    assert_eq!(values.len(), 3);
    assert_eq!(values.get("env"), Some(&"prod".to_string()));
    assert_eq!(values.get("zone"), Some(&"eu-1".to_string()));
    assert_eq!(values.get("key"), Some(&"a=b".to_string()));
}
