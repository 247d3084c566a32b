use lazy_regex::Regex;
use oxc_tools::unused_names::{
    free_underscore_name, unused_name_under, IgnorePattern, NoUnusedVars, Symbol,
};

fn symbol(name: &str, bindings: &[&str]) -> Symbol {
    Symbol {
        name: name.to_string(),
        scope_bindings: bindings.iter().map(|b| b.to_string()).collect(),
    }
}

#[test]
fn unused_becomes_unused_zero_where_the_name_is_taken() {
    let s = symbol("unused", &["unused", "_unused"]);
    let rule = NoUnusedVars {
        args_ignore_pattern: IgnorePattern::Default,
        vars_ignore_pattern: IgnorePattern::Nothing,
    };
    assert_eq!(rule.get_unused_arg_name(&s).as_deref(), Some("_unused0"));
    assert_eq!(rule.get_unused_var_name(&s), None);
}

#[test]
fn free_name_is_taken_as_it_is() {
    assert_eq!(free_underscore_name(&symbol("x", &["x", "y"])), "_x");
    assert_eq!(free_underscore_name(&symbol("x", &[])), "_x");
}

#[test]
fn the_first_free_number_is_taken() {
    assert_eq!(free_underscore_name(&symbol("x", &["_x", "_x1", "_x0"])), "_x2");
    assert_eq!(free_underscore_name(&symbol("x", &["_x", "_x1"])), "_x0");
    let taken: Vec<String> =
        std::iter::once("_x".to_string()).chain((0..123).map(|i| format!("_x{i}"))).collect();
    let s = Symbol { name: "x".to_string(), scope_bindings: taken };
    assert_eq!(free_underscore_name(&s), "_x123");
}

#[test]
fn names_need_not_be_ascii() {
    assert_eq!(free_underscore_name(&symbol("größe", &["_größe"])), "_größe0");
}

#[test]
fn only_the_underscore_pattern_is_supported() {
    let s = symbol("x", &[]);
    let underscore = IgnorePattern::Matching(Regex::new("^_").unwrap());
    assert_eq!(NoUnusedVars::get_unused_name(&s, &underscore).as_deref(), Some("_x"));
    let other = IgnorePattern::Matching(Regex::new("^ignored").unwrap());
    assert_eq!(NoUnusedVars::get_unused_name(&s, &other), None);
    let longer = IgnorePattern::Matching(Regex::new("^_.*").unwrap());
    assert_eq!(NoUnusedVars::get_unused_name(&s, &longer), None);
    assert_eq!(NoUnusedVars::get_unused_name(&s, &IgnorePattern::Nothing), None);
    assert_eq!(NoUnusedVars::get_unused_name(&s, &IgnorePattern::Default).as_deref(), Some("_x"));
}

#[test]
fn patterns_count_by_their_source() {
    let s = symbol("x", &["_x"]);
    assert_eq!(unused_name_under(&s, &IgnorePattern::Matching("^_".to_string())).as_deref(), Some("_x0"));
    assert_eq!(unused_name_under(&s, &IgnorePattern::Matching("_".to_string())), None);
    assert_eq!(unused_name_under(&s, &IgnorePattern::Default).as_deref(), Some("_x0"));
    assert_eq!(unused_name_under(&s, &IgnorePattern::Nothing), None);
}
