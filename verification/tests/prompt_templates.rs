use sovereign_os::execution_mode::ExecutionMode;
use sovereign_os::profile_bundles::BundleName;
use sovereign_os::prompt_templates::{PromptTemplate, TemplateError, TemplateRegistry};
use std::collections::BTreeMap;

fn tpl(name: &str, body: &str, vars: &[&str]) -> PromptTemplate {
    PromptTemplate {
        name: name.into(),
        body: body.into(),
        variables: vars.iter().map(|s| s.to_string()).collect(),
        allowed_modes: vec![ExecutionMode::Plan, ExecutionMode::Execute],
        allowed_bundles: vec![BundleName::Careful, BundleName::Sovereign],
    }
}

#[test]
fn empty_registry_validates() {
    TemplateRegistry::new().validate().unwrap();
}

#[test]
fn add_and_render() {
    let mut r = TemplateRegistry::new();
    r.add(tpl("greet", "hello {{name}}", &["name"])).unwrap();
    let mut vars = BTreeMap::new();
    vars.insert("name".into(), "world".into());
    assert_eq!(r.render("greet", &vars).unwrap(), "hello world");
}

#[test]
fn render_missing_var_caught() {
    let r = TemplateRegistry::new();
    let mut r = r;
    r.add(tpl("greet", "hello {{name}}", &["name"])).unwrap();
    let vars = BTreeMap::new();
    assert!(matches!(r.render("greet", &vars).unwrap_err(), TemplateError::RenderMissing(ref v) if v == "name"));
}

#[test]
fn undeclared_variable_in_body_caught() {
    let t = tpl("x", "{{undeclared}}", &[]);
    assert!(matches!(t.validate().unwrap_err(), TemplateError::UndeclaredVariable(_, ref v) if v == "undeclared"));
}

#[test]
fn unused_declared_variable_caught() {
    let t = tpl("x", "plain text", &["unused"]);
    assert!(matches!(t.validate().unwrap_err(), TemplateError::UnusedVariable(_, ref v) if v == "unused"));
}

#[test]
fn duplicate_name_rejected() {
    let mut r = TemplateRegistry::new();
    r.add(tpl("a", "x {{v}}", &["v"])).unwrap();
    assert!(matches!(r.add(tpl("a", "y {{v}}", &["v"])).unwrap_err(), TemplateError::DuplicateName(ref n) if n == "a"));
}

#[test]
fn empty_name_rejected() {
    let t = tpl("", "x {{v}}", &["v"]);
    assert!(matches!(t.validate().unwrap_err(), TemplateError::EmptyName));
}

#[test]
fn no_modes_rejected() {
    let mut t = tpl("x", "y {{v}}", &["v"]);
    t.allowed_modes.clear();
    assert!(matches!(t.validate().unwrap_err(), TemplateError::NoModes(_)));
}

#[test]
fn no_bundles_rejected() {
    let mut t = tpl("x", "y {{v}}", &["v"]);
    t.allowed_bundles.clear();
    assert!(matches!(t.validate().unwrap_err(), TemplateError::NoBundles(_)));
}

#[test]
fn available_in_filters_by_mode_and_bundle() {
    let mut r = TemplateRegistry::new();
    let mut t1 = tpl("a", "x {{v}}", &["v"]);
    t1.allowed_modes = vec![ExecutionMode::Plan];
    t1.allowed_bundles = vec![BundleName::Careful];
    let mut t2 = tpl("b", "y {{v}}", &["v"]);
    t2.allowed_modes = vec![ExecutionMode::Execute];
    t2.allowed_bundles = vec![BundleName::Sovereign];
    r.add(t1).unwrap();
    r.add(t2).unwrap();
    let v = r.available_in(ExecutionMode::Plan, BundleName::Careful);
    assert_eq!(v.len(), 1);
    assert_eq!(v[0].name, "a");
}

#[test]
fn unknown_template_caught() {
    let r = TemplateRegistry::new();
    let vars = BTreeMap::new();
    assert!(matches!(r.render("none", &vars).unwrap_err(), TemplateError::Unknown(ref n) if n == "none"));
}

#[test]
fn multi_var_render_all_substituted() {
    let mut r = TemplateRegistry::new();
    r.add(tpl("note", "User {{user}} performed {{action}} at {{time}}", &["user", "action", "time"])).unwrap();
    let mut vars = BTreeMap::new();
    vars.insert("user".into(), "alice".into());
    vars.insert("action".into(), "commit".into());
    vars.insert("time".into(), "03:00".into());
    assert_eq!(r.render("note", &vars).unwrap(), "User alice performed commit at 03:00");
}

#[test]
fn template_slot_names_are_trimmed_and_unclosed_slots_are_text() {
    let t = tpl("t", "a {{ who }} b {{who}} {{ }} c {{open", &["who"]);
    t.validate().unwrap();
    let mut vars = BTreeMap::new();
    vars.insert("who".to_string(), "W".to_string());
    vars.insert(String::new(), "E".to_string());
    assert_eq!(t.render(&vars).unwrap(), "a W b W E c {{open");
}

#[test]
fn template_registry_get_and_default() {
    let mut r = TemplateRegistry::default();
    r.add(tpl("a", "{{v}}", &["v"])).unwrap();
    assert_eq!(r.get("a").unwrap().body, "{{v}}");
    assert!(matches!(r.get("b").unwrap_err(), TemplateError::Unknown(ref n) if n == "b"));
    assert!(r.templates[0].is_available(ExecutionMode::Execute, BundleName::Sovereign));
    assert!(!r.templates[0].is_available(ExecutionMode::Replay, BundleName::Sovereign));
    r.templates.push(tpl("a", "{{w}}", &["w"]));
    assert!(matches!(r.validate().unwrap_err(), TemplateError::DuplicateName(ref n) if n == "a"));
}

#[test]
fn template_render_copies_bytes_outside_slots() {
    let t = tpl("t", "\u{e9} {{v}}", &["v"]);
    let mut vars = BTreeMap::new();
    vars.insert("v".to_string(), "\u{e9}".to_string());
    assert_eq!(t.render(&vars).unwrap(), "\u{c3}\u{a9} \u{e9}");
}

#[test]
fn slot_names_are_trimmed_of_unicode_whitespace() {
    let t = tpl("t", "[{{\u{3000}who\u{2009}\t}}] [{{\u{85}who\u{a0}}}]", &["who"]);
    t.validate().unwrap();
    let mut vars = BTreeMap::new();
    vars.insert("who".to_string(), "W".to_string());
    assert_eq!(t.render(&vars).unwrap(), "[W] [W]");
    let u = tpl("u", "{{\u{200b}who}}", &["who"]);
    assert!(u.validate().is_err());
}
