use largo_core::load_order::{resolve_load_order, PluginSource};
use largo_core::requirements::parse_requirements;

fn plugin(name: &str, content: &str) -> PluginSource {
    PluginSource { name: name.to_string(), content: Some(content.to_string()) }
}

fn order(plugins: Vec<PluginSource>) -> Vec<String> {
    resolve_load_order(&plugins).order
}

#[test]
fn requirements_are_read_from_marker_lines() {
    let text = "(define x 1)\n;; @require: base.scm\n;; @require:   util.scm  \r\n(display x)\n";
    assert_eq!(parse_requirements(text), vec!["base.scm".to_string(), "util.scm".to_string()]);
}

#[test]
fn requirements_need_the_marker_at_line_start() {
    let text = "  ;; @require: a.scm\n; @require: b.scm\n;;@require: c.scm\n";
    assert!(parse_requirements(text).is_empty());
}

#[test]
fn repeated_markers_are_all_removed() {
    let text = ";; @require:;; @require: twice.scm";
    assert_eq!(parse_requirements(text), vec!["twice.scm".to_string()]);
}

#[test]
fn empty_requirement_line_names_the_empty_name() {
    assert_eq!(parse_requirements(";; @require:\t \n"), vec!["".to_string()]);
    assert!(parse_requirements("").is_empty());
}

#[test]
fn unicode_whitespace_is_trimmed() {
    let text = ";; @require:\u{3000}wide.scm\u{a0}";
    assert_eq!(parse_requirements(text), vec!["wide.scm".to_string()]);
}

#[test]
fn independent_plugins_load_in_name_order() {
    let out = order(vec![plugin("c.scm", ""), plugin("a.scm", ""), plugin("b.scm", "")]);
    assert_eq!(out, vec!["a.scm", "b.scm", "c.scm"]);
}

#[test]
fn required_plugins_load_first() {
    let out = order(vec![
        plugin("a.scm", ";; @require: c.scm\n"),
        plugin("b.scm", ""),
        plugin("c.scm", ";; @require: b.scm\n"),
    ]);
    assert_eq!(out, vec!["b.scm", "c.scm", "a.scm"]);
}

#[test]
fn least_ready_name_goes_first() {
    let out = order(vec![
        plugin("z.scm", ""),
        plugin("m.scm", ";; @require: z.scm\n"),
        plugin("a.scm", ""),
    ]);
    assert_eq!(out, vec!["a.scm", "z.scm", "m.scm"]);
}

#[test]
fn missing_requirement_is_taken_in_name_order() {
    let out = order(vec![plugin("b.scm", ";; @require: zz.scm\n"), plugin("c.scm", "")]);
    assert_eq!(out, vec!["c.scm", "b.scm"]);
}

#[test]
fn circular_plugins_come_last_in_name_order() {
    let out = order(vec![
        plugin("y.scm", ";; @require: x.scm\n"),
        plugin("x.scm", ";; @require: y.scm\n"),
        plugin("w.scm", ";; @require: x.scm\n"),
        plugin("m.scm", ""),
    ]);
    assert_eq!(out, vec!["m.scm", "w.scm", "x.scm", "y.scm"]);
}

#[test]
fn self_requirement_is_circular() {
    let out = order(vec![plugin("a.scm", ";; @require: a.scm\n"), plugin("b.scm", "")]);
    assert_eq!(out, vec!["b.scm", "a.scm"]);
}

#[test]
fn unreadable_plugin_has_no_requirements() {
    let out = order(vec![
        PluginSource { name: "b.scm".to_string(), content: None },
        plugin("a.scm", ";; @require: b.scm\n"),
    ]);
    assert_eq!(out, vec!["b.scm", "a.scm"]);
}

#[test]
fn duplicate_requirement_lines_count_once() {
    let out = order(vec![
        plugin("a.scm", ";; @require: b.scm\n;; @require: b.scm\n"),
        plugin("b.scm", ""),
    ]);
    assert_eq!(out, vec!["b.scm", "a.scm"]);
}

#[test]
fn no_plugins_no_order() {
    assert!(order(vec![]).is_empty());
}

#[test]
fn every_plugin_loads_once() {
    let plugins = vec![
        plugin("d.scm", ";; @require: a.scm\n;; @require: c.scm\n"),
        plugin("c.scm", ";; @require: d.scm\n"),
        plugin("b.scm", ";; @require: a.scm\n"),
        plugin("a.scm", ""),
    ];
    let out = order(plugins);
    let mut sorted = out.clone();
    sorted.sort();
    assert_eq!(sorted, vec!["a.scm", "b.scm", "c.scm", "d.scm"]);
    assert_eq!(out, vec!["a.scm", "b.scm", "c.scm", "d.scm"]);
}

#[test]
fn order_does_not_depend_on_listing_order() {
    let one = order(vec![plugin("b.scm", ";; @require: c.scm\n"), plugin("c.scm", ""), plugin("a.scm", "")]);
    let two = order(vec![plugin("a.scm", ""), plugin("c.scm", ""), plugin("b.scm", ";; @require: c.scm\n")]);
    assert_eq!(one, two);
    assert_eq!(one, vec!["a.scm", "c.scm", "b.scm"]);
}

#[test]
fn names_compare_by_code_point() {
    let out = order(vec![plugin("é.scm", ""), plugin("z.scm", ""), plugin("B.scm", "")]);
    assert_eq!(out, vec!["B.scm", "z.scm", "é.scm"]);
}

#[test]
fn dependency_ordered_count_excludes_circular_plugins() {
    let plan = resolve_load_order(&vec![
        plugin("y.scm", ";; @require: x.scm\n"),
        plugin("x.scm", ";; @require: y.scm\n"),
        plugin("m.scm", ""),
    ]);
    assert_eq!(plan.order, vec!["m.scm", "x.scm", "y.scm"]);
    assert_eq!(plan.in_dependency_order, 1);
}

#[test]
fn acyclic_plugins_are_all_in_dependency_order() {
    let plan = resolve_load_order(&vec![
        plugin("a.scm", ";; @require: b.scm\n;; @require: missing.scm\n"),
        plugin("b.scm", ""),
    ]);
    assert_eq!(plan.order, vec!["b.scm", "a.scm"]);
    assert_eq!(plan.in_dependency_order, 2);
}
