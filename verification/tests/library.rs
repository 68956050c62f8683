use prose::aligner::{emit_group, reading_order_groups, Member, Settings};
use prose::config::{
    AlignmentConfig, BareImportAllowlistConfig, BareImportsConfig, CacheConfig, CallLayoutConfig,
    CollectionLayoutConfig, DocstringStructuredPolicy, MaxAlignShiftPolicy, MaxShift, SignatureLayoutConfig,
    ToggleOnly, config_choice, optional_cap_from_switch, Config, ConfigSource, RuleConfigs,
};
use prose::edit::{apply_edits, narrow_edit, space_padding_edit, Edit};
use prose::file_uri::{file_path_of, from_path, has_drive_prefix, local_path, to_path, uri_for_path};
use prose::imports::{
    future_annotations_alias, import_group, import_sort_key, is_first_party, least_alias, same_import_group,
    top_level_module, ImportGroup, ImportStmt,
};
use prose::inline::{collapse_soft_wraps, is_operator_atom_tree, whitespace_runs, ExprShape};
use prose::orderer::permute_full;
use prose::scope::{resolve_in_chain, Scope, ScopeKind};

fn s(x: &str) -> String {
    x.to_string()
}

#[test]
fn names_top_level_module_returns_first_segment() {
    assert_eq!(top_level_module("a"), "a");
    assert_eq!(top_level_module("a.b"), "a");
    assert_eq!(top_level_module("a.b.c"), "a");
    assert_eq!(top_level_module(""), "");
}

#[test]
fn bound_names_top_level_module_returns_first_segment() {
    assert_eq!(top_level_module("a"), "a");
    assert_eq!(top_level_module("a.b"), "a");
    assert_eq!(top_level_module("a.b.c"), "a");
    assert_eq!(top_level_module(""), "");
}

#[test]
fn import_group_ranks_bare_before_external_before_local() {
    assert!(ImportGroup::Bare < ImportGroup::ExternalFrom);
    assert!(ImportGroup::ExternalFrom < ImportGroup::Local);
    assert!(ImportGroup::Bare.rank() < ImportGroup::ExternalFrom.rank());
    assert!(ImportGroup::ExternalFrom.rank() < ImportGroup::Local.rank());
}

fn import(names: &[&str]) -> ImportStmt {
    ImportStmt::Import { names: names.iter().map(|n| s(n)).collect() }
}

fn from(level: u32, module: Option<&str>) -> ImportStmt {
    ImportStmt::ImportFrom { level, module: module.map(s), names: vec![s("x")] }
}

#[test]
fn import_group_classifies_by_kind_relativity_and_first_party() {
    let fp = vec![s("myapp")];
    assert_eq!(import_group(&import(&["os"]), &[]), Some(ImportGroup::Bare));
    assert_eq!(import_group(&import(&["myapp"]), &fp), Some(ImportGroup::Local));
    assert_eq!(import_group(&import(&["myapp.core"]), &fp), Some(ImportGroup::Local));
    assert_eq!(import_group(&import(&["os", "myapp"]), &fp), Some(ImportGroup::Local));
    assert_eq!(import_group(&import(&["myapplication"]), &fp), Some(ImportGroup::Bare));
    assert_eq!(import_group(&from(0, Some("collections")), &[]), Some(ImportGroup::ExternalFrom));
    assert_eq!(import_group(&from(0, Some("myapp.db")), &fp), Some(ImportGroup::Local));
    assert_eq!(import_group(&from(0, Some("myapp")), &[s("other")]), Some(ImportGroup::ExternalFrom));
    assert_eq!(import_group(&from(1, None), &[]), Some(ImportGroup::Local));
    assert_eq!(import_group(&from(2, Some("pkg")), &[]), Some(ImportGroup::Local));
    assert_eq!(import_group(&ImportStmt::Other, &[]), None);
    assert!(is_first_party("myapp.x", &fp));
    assert!(!is_first_party("other", &fp));
}

#[test]
fn least_alias_and_sort_key() {
    assert_eq!(least_alias(&[s("sys"), s("os"), s("abc")]), "abc");
    let key = import_sort_key(&import(&["sys", "os"]), &[]).expect("import");
    assert_eq!((key.group, key.kind, key.level, key.name.as_str()), (ImportGroup::Bare, 0, 0, "os"));
    let key = import_sort_key(&from(1, Some("pkg")), &[]).expect("import");
    assert_eq!((key.group, key.kind, key.level, key.name.as_str()), (ImportGroup::Local, 1, 1, "pkg"));
    assert!(import_sort_key(&ImportStmt::Other, &[]).is_none());
    assert!(same_import_group(&import(&["os"]), &import(&["sys"]), &[]));
    assert!(!same_import_group(&import(&["os"]), &from(0, Some("collections")), &[]));
    assert!(!same_import_group(&ImportStmt::Other, &ImportStmt::Other, &[]));
}

#[test]
fn future_annotations_alias_finds_the_name() {
    let stmt = ImportStmt::ImportFrom {
        level: 0,
        module: Some(s("__future__")),
        names: vec![s("division"), s("annotations")],
    };
    assert_eq!(future_annotations_alias(&stmt), Some(1));
    assert_eq!(future_annotations_alias(&from(0, Some("typing"))), None);
}

#[test]
fn collapse_soft_wraps_folds_only_runs_carrying_a_break() {
    for (src, expected) in [
        ("a", "a"),
        ("a\n    + b", "a + b"),
        ("a +  b", "a +  b"),
        ("first\n    and second", "first and second"),
    ] {
        assert_eq!(collapse_soft_wraps(src), expected);
    }
}

#[test]
fn whitespace_runs_reports_byte_spans() {
    assert_eq!(whitespace_runs("a  b\n c"), vec![(1, 2), (4, 2)]);
    assert_eq!(whitespace_runs("é x"), vec![(2, 1)]);
    assert!(whitespace_runs("abc").is_empty());
}

fn scope(kind: ScopeKind, parent: Option<u32>, names: &[(&str, u32)]) -> Scope {
    Scope { bindings: names.iter().map(|(n, b)| (s(n), *b)).collect(), kind, parent }
}

#[test]
fn resolve_in_chain_skips_enclosing_class_scopes() {
    let scopes = vec![
        scope(ScopeKind::Module, None, &[("x", 0), ("y", 1)]),
        scope(ScopeKind::Class, Some(0), &[("x", 2), ("z", 3)]),
        scope(ScopeKind::Function, Some(1), &[("w", 4)]),
    ];
    assert_eq!(resolve_in_chain(&scopes, 2, "w"), Some(4));
    assert_eq!(resolve_in_chain(&scopes, 2, "x"), Some(0));
    assert_eq!(resolve_in_chain(&scopes, 2, "z"), None);
    assert_eq!(resolve_in_chain(&scopes, 1, "x"), Some(2));
    assert_eq!(resolve_in_chain(&scopes, 0, "q"), None);
}

#[test]
fn from_path_passes_a_relative_path_through_unchanged() {
    assert_eq!(from_path("src/My Project/mod.py"), "src/My Project/mod.py");
}

#[test]
fn from_path_encodes_an_absolute_path() {
    for (path, expected) in [
        ("/tmp/My Project/mod.py", "file:///tmp/My%20Project/mod.py"),
        ("/tmp/café/mod.py", "file:///tmp/caf%C3%A9/mod.py"),
        ("/tmp/a#b?c[d]/mod.py", "file:///tmp/a%23b%3Fc%5Bd%5D/mod.py"),
    ] {
        assert_eq!(from_path(path), expected);
        assert_eq!(uri_for_path(path, true), expected);
    }
}

#[test]
fn drive_prefix_and_local_path() {
    assert!(has_drive_prefix("C:/x"));
    assert!(!has_drive_prefix("/C:"));
    assert!(!has_drive_prefix("1:"));
    assert_eq!(local_path("/C:/dir/a.py"), "C:/dir/a.py");
    assert_eq!(local_path("/tmp/a b.py"), "/tmp/a b.py");
}

#[test]
fn config_defaults() {
    let a = AlignmentConfig::default();
    assert!(a.enabled);
    assert_eq!(a.max_shift, MaxShift::Cap(16));
    assert_eq!(MaxShift::from_count(0), MaxShift::NoShift);
    assert_eq!(MaxShift::from_count(3), MaxShift::Cap(3));
    assert_eq!(MaxShift::from_switch(false), Ok(MaxShift::Unlimited));
    assert!(MaxShift::from_switch(true).is_err());
    assert_eq!(MaxAlignShiftPolicy::default(), MaxAlignShiftPolicy::Split);
    assert_eq!(DocstringStructuredPolicy::default(), DocstringStructuredPolicy::CodeLineLength);
    let c = CacheConfig::default();
    assert!(c.enabled && c.max_size_mib == 100);
    assert_eq!(CallLayoutConfig::default().max_inline_args, Some(3));
    let cl = CollectionLayoutConfig::default();
    assert_eq!((cl.max_atomics_per_line, cl.max_inline_dict_entries), (Some(8), Some(3)));
    assert_eq!(SignatureLayoutConfig::with_enabled(false).max_inline_params, Some(4));
    assert!(!ToggleOnly::with_enabled(false).enabled);
    let b = BareImportsConfig::default();
    assert_eq!((b.allow_aliased, b.max_attributes), (true, 4));
    assert_eq!(BareImportAllowlistConfig::default().allow, vec![s("numpy"), s("pandas")]);
    assert_eq!(optional_cap_from_switch(false, "max-inline-args"), Ok(None));
    assert_eq!(
        optional_cap_from_switch(true, "max-inline-args"),
        Err(s("`max-inline-args` accepts a positive integer or `false`, not `true`"))
    );
}

#[test]
fn apply_edits_splices_sorted_edits() {
    let edits = vec![
        Edit::range_replacement(s("X"), 4, 5),
        Edit::insertion(s(" "), 1),
        Edit::range_deletion(2, 3),
    ];
    assert_eq!(apply_edits("abcdef", edits), "a bdXf");
}

#[test]
fn narrow_edit_trims_the_shared_prefix_and_suffix() {
    let narrowed = narrow_edit(s("x  = 1"), 10, 15, "x = 1");
    assert_eq!(narrowed, Some((12, 12, s(" "))));
    assert_eq!(narrow_edit(s("same"), 0, 4, "same"), None);
}

#[test]
fn space_padding_edit_inserts_or_replaces() {
    let src = b"xy\n";
    let e = space_padding_edit(src, 1, 1, 2).expect("0-vs-2 spaces emits");
    assert_eq!((e.start, e.end, e.content.as_deref()), (1, 1, Some("  ")));
    let src = b"a:b\n";
    let e = space_padding_edit(src, 1, 2, 1).expect("non-space content emits");
    assert_eq!((e.start, e.end, e.content.as_deref()), (1, 2, Some(" ")));
    let src = b"a  b";
    assert!(space_padding_edit(src, 1, 3, 2).is_none());
}

#[test]
fn permute_full_sorts_keyed_items_stably() {
    let keys = vec![Some(b"b".to_vec()), None, Some(b"a".to_vec()), Some(b"b".to_vec())];
    let mut order = vec![0, 1, 2, 3];
    assert!(permute_full(&mut order, &keys));
    assert_eq!(order, vec![2, 1, 0, 3]);
    assert!(!permute_full(&mut order, &keys));
}

fn member(line_start: u32, gap_start: u32, gap_end: u32, width: usize) -> Member {
    Member { gap_start, gap_end, line_start, op_width: 0, width }
}

#[test]
fn reading_order_groups_split_on_the_cap() {
    let members = [member(0, 1, 2, 1), member(4, 7, 8, 3), member(10, 30, 31, 20)];
    assert_eq!(reading_order_groups(&members, MaxShift::Cap(4)), vec![(0, 2, 3), (2, 3, 20)]);
    assert_eq!(reading_order_groups(&members, MaxShift::Unlimited), vec![(0, 3, 20)]);
    assert_eq!(reading_order_groups(&members, MaxShift::NoShift).len(), 3);
}

#[test]
fn emit_group_pads_each_gap_to_the_column() {
    let source = "a = 1\nbbb = 2\n";
    let members = [member(0, 1, 2, 1), member(6, 9, 10, 3)];
    let edits = emit_group(source, &members, Settings::aligned(MaxShift::Unlimited));
    let out = apply_edits(source, edits);
    assert_eq!(out, "a   = 1\nbbb = 2\n");
}

fn key_tuple(stmt: &ImportStmt, first_party: &[String]) -> (ImportGroup, u8, u32, String) {
    let k = import_sort_key(stmt, first_party).expect("import statement");
    (k.group, k.kind, k.level, k.name)
}

#[test]
fn import_sort_key_ranks_groups_then_bare_before_from_within_local() {
    let first_party = vec![s("myapp")];
    // import os / from os import path / import myapp.core / from myapp import app
    let stmts = [
        import(&["os"]),
        ImportStmt::ImportFrom { level: 0, module: Some(s("os")), names: vec![s("path")] },
        import(&["myapp.core"]),
        ImportStmt::ImportFrom { level: 0, module: Some(s("myapp")), names: vec![s("app")] },
    ];
    let keys: Vec<_> = stmts.iter().map(|st| key_tuple(st, &first_party)).collect();
    assert!(
        keys[0] < keys[1] && keys[1] < keys[2] && keys[2] < keys[3],
        "expected bare-external < external-from < local-bare < local-from",
    );
}

#[test]
fn import_sort_key_returns_none_for_non_import() {
    assert!(import_sort_key(&ImportStmt::Other, &[]).is_none());
}

#[test]
fn least_alias_returns_alphabetically_min_name() {
    // import sys, os, abc
    assert_eq!(least_alias(&[s("sys"), s("os"), s("abc")]), "abc");
}

#[test]
fn to_path_decodes_percent_escapes() {
    assert_eq!(to_path("file:///tmp/a%20b.py"), Some(s("/tmp/a b.py")));
}

#[test]
fn to_path_rejects_a_non_file_scheme() {
    assert!(to_path("untitled:Untitled-1").is_none());
}

#[test]
fn to_path_strips_a_windows_drive_slash() {
    assert_eq!(to_path("file:///C:/Users/x.py"), Some(s("C:/Users/x.py")));
}

#[test]
fn to_path_round_trips_an_encoded_absolute_path() {
    for path in ["/tmp/My Project/mod.py", "/tmp/café/mod.py", "/tmp/a#b?c[d]/mod.py"] {
        let uri = uri_for_path(path, true);
        assert_eq!(to_path(&uri), Some(path.to_string()));
    }
    assert!(to_path("not a uri").is_none());
}

#[test]
fn file_path_of_needs_the_file_scheme_and_a_decoded_path() {
    assert_eq!(file_path_of("file", Some("/C:/x.py")), Some(s("C:/x.py")));
    assert_eq!(file_path_of("file", Some("/tmp/x.py")), Some(s("/tmp/x.py")));
    assert!(file_path_of("http", Some("/tmp/x.py")).is_none());
    assert!(file_path_of("file", None).is_none());
}

#[test]
fn config_choice_prefers_prose_toml_and_notes_a_shadowed_table() {
    assert_eq!(config_choice(true, true), Some((ConfigSource::ProseToml, true)));
    assert_eq!(config_choice(true, false), Some((ConfigSource::ProseToml, false)));
    assert_eq!(config_choice(false, true), Some((ConfigSource::Pyproject, false)));
    assert_eq!(config_choice(false, false), None);
}

fn bin(l: ExprShape, r: ExprShape) -> ExprShape {
    ExprShape::BinOp { left: Box::new(l), right: Box::new(r) }
}

fn name() -> ExprShape {
    ExprShape::DottedName
}

#[test]
fn is_operator_atom_tree_accepts_operator_trees_over_atoms_only() {
    // a + b, a + b * c, (a + b) * c
    assert!(is_operator_atom_tree(&bin(name(), name())));
    assert!(is_operator_atom_tree(&bin(name(), bin(name(), name()))));
    assert!(is_operator_atom_tree(&bin(bin(name(), name()), name())));
    // a and b
    assert!(is_operator_atom_tree(&ExprShape::BoolOp { values: vec![name(), name()] }));
    // a < b <= c
    assert!(is_operator_atom_tree(&ExprShape::Compare { left: Box::new(name()), comparators: vec![name(), name()] }));
    // -a + b
    assert!(is_operator_atom_tree(&bin(ExprShape::UnaryOp { operand: Box::new(name()) }, name())));
    // 2 ** depth
    assert!(is_operator_atom_tree(&bin(ExprShape::Literal, name())));
    // a + helper(b), prefix + values[0], greeting + "!"
    assert!(!is_operator_atom_tree(&bin(name(), ExprShape::Other)));
    // a and (b or helper())
    let nested = ExprShape::BoolOp { values: vec![name(), ExprShape::BoolOp { values: vec![name(), ExprShape::Other] }] };
    assert!(!is_operator_atom_tree(&nested));
}

#[test]
fn config_defaults_carry_the_documented_budgets() {
    let c = Config::default();
    assert_eq!(c.code_width(), 88);
    assert_eq!(c.docstring_width(), 76);
    assert_eq!(c.import_width(), 120);
    assert!(c.first_party().is_empty());
    assert_eq!(c.rules.single_use_variables.allow_pattern, "^_");
    assert!(c.rules.enabled_flags().iter().all(|&e| e));
    assert_eq!(c.rules.enabled_flags().len(), 24);
}

#[test]
fn import_width_falls_back_to_the_code_budget() {
    let mut c = Config::default();
    c.import_line_length = None;
    c.code_line_length = Some(100);
    assert_eq!(c.import_width(), 100);
    c.import_line_length = Some(60);
    assert_eq!(c.import_width(), 60);
    c.imports.first_party = vec![s("myapp"), s("lib")];
    assert_eq!(c.first_party(), vec![s("myapp"), s("lib")]);
}

#[test]
fn selected_rules_follow_toggles_select_and_ignore() {
    let mut rules = RuleConfigs::default();
    rules.align_equals.enabled = false;
    let c = Config { rules, ..Config::default() };
    let all = c.selected_rules(&[], &[]);
    assert_eq!(all.len(), 23);
    assert!(all.iter().all(|id| id.as_str() != "align-equals"));
    let picked = c.selected_rules(
        &[prose::rule::RuleId("align-equals"), prose::rule::RuleId("blank-lines")],
        &[prose::rule::RuleId("blank-lines")],
    );
    assert_eq!(picked.iter().map(|id| id.as_str()).collect::<Vec<_>>(), vec!["align-equals"]);
}

#[test]
fn collapse_soft_wraps_folds_exactly_the_whitespace_std_knows() {
    for c in (0u32..0x3100).filter_map(char::from_u32) {
        let text = format!("a{c}\nb");
        let expected = if c.is_whitespace() { "a b".to_string() } else { format!("a{c} b") };
        assert_eq!(collapse_soft_wraps(&text), expected, "character U+{:04X}", c as u32);
    }
}
