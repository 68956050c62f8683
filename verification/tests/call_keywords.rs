use prose::call_keywords::{keyword_args, CallArg, KeywordArgIn, Params};

fn pos(text: &str) -> CallArg {
    CallArg { text: text.to_string(), starred: false }
}

fn kw(name: &str, value: &str) -> KeywordArgIn {
    KeywordArgIn { name: Some(name.to_string()), text: format!("{name}={value}"), value: value.to_string() }
}

fn params(posonly: &[&str], args: &[&str]) -> Params {
    Params {
        posonly: posonly.iter().map(|s| s.to_string()).collect(),
        args: args.iter().map(|s| s.to_string()).collect(),
    }
}

#[test]
fn keyword_args_names_positionals_from_the_signature() {
    let p = params(&[], &["b", "a"]);
    let k = keyword_args(&[pos("1"), pos("2")], &[], Some(&p)).expect("keyword form");
    let rendered: Vec<&str> = k.args.iter().map(|a| a.rendered.as_str()).collect();
    assert_eq!(rendered, vec!["b=1", "a=2"]);
    assert_eq!(k.args[0].name, "b");
    assert_eq!(k.args[1].value, "2");
    assert!(!k.has_posonly_prefix);
}

#[test]
fn keyword_args_keeps_keywords_after_the_named_positionals() {
    let p = params(&[], &["x", "y"]);
    let k = keyword_args(&[pos("f(0)")], &[kw("y", "3")], Some(&p)).expect("keyword form");
    let rendered: Vec<&str> = k.args.iter().map(|a| a.rendered.as_str()).collect();
    assert_eq!(rendered, vec!["x=f(0)", "y=3"]);
    assert_eq!(k.args[1].value, "3");
}

#[test]
fn keyword_args_skips_the_positional_only_prefix() {
    let p = params(&["self"], &["a"]);
    let k = keyword_args(&[pos("s"), pos("1")], &[], Some(&p)).expect("keyword form");
    assert_eq!(k.args.len(), 1);
    assert_eq!(k.args[0].rendered, "a=1");
    assert!(k.has_posonly_prefix);
}

#[test]
fn keyword_args_no_prefix_flag_when_no_positional_fills_it() {
    let p = params(&["self"], &["a"]);
    let k = keyword_args(&[], &[kw("a", "1")], Some(&p)).expect("keyword form");
    assert!(!k.has_posonly_prefix);
    assert_eq!(k.args[0].rendered, "a=1");
}

#[test]
fn keyword_args_refuses_a_starred_positional() {
    let p = params(&[], &["a"]);
    let starred = CallArg { text: "*xs".to_string(), starred: true };
    assert!(keyword_args(&[starred], &[], Some(&p)).is_none());
}

#[test]
fn keyword_args_refuses_a_double_star_keyword() {
    let splat = KeywordArgIn { name: None, text: "**kw".to_string(), value: "kw".to_string() };
    assert!(keyword_args(&[], &[splat], None).is_none());
}

#[test]
fn keyword_args_refuses_positionals_of_an_unresolved_callee() {
    assert!(keyword_args(&[pos("1")], &[], None).is_none());
}

#[test]
fn keyword_args_accepts_keywords_of_an_unresolved_callee() {
    let k = keyword_args(&[], &[kw("a", "1"), kw("b", "2")], None).expect("keyword form");
    assert_eq!(k.args.len(), 2);
    assert_eq!(k.args[1].rendered, "b=2");
}

#[test]
fn keyword_args_refuses_overflow_past_the_named_parameters() {
    let p = params(&["s"], &["a"]);
    assert!(keyword_args(&[pos("s"), pos("1"), pos("2")], &[], Some(&p)).is_none());
}

#[test]
fn keyword_args_refuses_a_name_bound_twice() {
    let p = params(&[], &["a"]);
    assert!(keyword_args(&[pos("1")], &[kw("a", "2")], Some(&p)).is_none());
}
