use prose::aligner::{emit_group, emit_with_paddings, emit_with_policy, keyed_line_adjacent_groups, Member, RowFacts, Settings};
use prose::config::{MaxAlignShiftPolicy, MaxShift};
use prose::edit::Edit;

/// Builds a source where each row is `x...x{spaces}= 0\n`, with one
/// member per row pointing at that row's pre-`=` whitespace.
fn rows(specs: &[(usize, usize)]) -> (String, Vec<Member>) {
    let mut text = String::new();
    let mut members = Vec::new();
    for &(width, gap_chars) in specs {
        let line_start = text.len() as u32;
        text.push_str(&"x".repeat(width));
        let gap_start = text.len() as u32;
        text.push_str(&" ".repeat(gap_chars));
        let gap_end = text.len() as u32;
        text.push_str("= 0\n");
        members.push(Member { gap_start, gap_end, line_start, op_width: 0, width });
    }
    (text, members)
}

fn summary(edit: &Edit) -> (u32, u32, String) {
    (edit.start, edit.end, edit.content.clone().unwrap_or_default())
}

fn sorted_summaries(edits: &[Edit]) -> Vec<(u32, u32, String)> {
    let mut out: Vec<_> = edits.iter().map(summary).collect();
    out.sort();
    out
}

fn delete(member: &Member) -> (u32, u32, String) {
    (member.gap_start, member.gap_end, String::new())
}

fn fill(member: &Member, n: usize) -> (u32, u32, String) {
    (member.gap_start, member.gap_end, " ".repeat(n))
}

fn with_policy(source: &str, members: &[Member], cap: usize, policy: MaxAlignShiftPolicy) -> Vec<Edit> {
    emit_with_policy(source, members, cap, policy, false)
}

fn with_policy_strip(source: &str, members: &[Member], cap: usize, policy: MaxAlignShiftPolicy) -> Vec<Edit> {
    emit_with_policy(source, members, cap, policy, true)
}

#[test]
fn aligner_emit_group_aligns_to_shared_column_when_spread_fits_under_cap() {
    let (source, members) = rows(&[(1, 1), (2, 1), (3, 1)]);
    let edits = with_policy(&source, &members, 10, MaxAlignShiftPolicy::Split);
    assert_eq!(sorted_summaries(&edits), vec![fill(&members[0], 3), fill(&members[1], 2)]);
}

#[test]
fn aligner_emit_group_collapses_single_member_gap_to_suffix_len() {
    let (source, members) = rows(&[(3, 5)]);
    let edits = with_policy(&source, &members, 8, MaxAlignShiftPolicy::Split);
    assert_eq!(sorted_summaries(&edits), vec![fill(&members[0], 1)]);
}

#[test]
fn emit_group_drop_emits_nothing_when_kept_set_under_two() {
    let (source, members) = rows(&[(1, 1), (15, 1), (30, 1)]);
    let edits = with_policy(&source, &members, 4, MaxAlignShiftPolicy::Drop);
    assert!(edits.is_empty(), "drop policy must emit nothing when fewer than two members fit the cap");
}

#[test]
fn emit_group_drop_excludes_outliers_and_aligns_remainder() {
    let (source, members) = rows(&[(1, 1), (2, 1), (15, 1), (3, 1)]);
    let edits = with_policy(&source, &members, 8, MaxAlignShiftPolicy::Drop);
    assert_eq!(sorted_summaries(&edits), vec![fill(&members[0], 3), fill(&members[1], 2)]);
}

#[test]
fn aligner_emit_group_handles_empty_member_slice() {
    let edits = with_policy("x = 0\n", &[], 8, MaxAlignShiftPolicy::Split);
    assert!(edits.is_empty());
}

#[test]
fn emit_group_split_distances_widest_singleton_when_strip_is_set() {
    let (source, members) = rows(&[(13, 1), (4, 1), (11, 1), (7, 1)]);
    let edits = with_policy_strip(&source, &members, 8, MaxAlignShiftPolicy::Split);
    assert_eq!(
        sorted_summaries(&edits),
        vec![delete(&members[0]), fill(&members[1], 8), fill(&members[3], 5)],
    );
}

#[test]
fn emit_group_split_partitions_into_contiguous_subgroups() {
    let (source, members) = rows(&[(1, 1), (2, 1), (15, 1), (3, 1), (4, 1)]);
    let edits = with_policy(&source, &members, 8, MaxAlignShiftPolicy::Split);
    assert_eq!(sorted_summaries(&edits), vec![fill(&members[0], 2), fill(&members[3], 2)]);
}

#[test]
fn emit_group_split_strips_every_isolated_singleton() {
    let (source, members) = rows(&[(13, 1), (4, 1), (13, 1)]);
    let edits = with_policy_strip(&source, &members, 8, MaxAlignShiftPolicy::Split);
    assert_eq!(
        sorted_summaries(&edits),
        vec![delete(&members[0]), delete(&members[1]), delete(&members[2])],
    );
}

#[test]
fn emit_group_split_strips_singleton_subgroup_when_flag_is_set() {
    let (source, members) = rows(&[(10, 1), (11, 1), (1, 1), (12, 1), (13, 1)]);
    let edits = with_policy_strip(&source, &members, 8, MaxAlignShiftPolicy::Split);
    assert_eq!(
        sorted_summaries(&edits),
        vec![fill(&members[0], 2), delete(&members[2]), fill(&members[3], 2)],
    );
}

#[test]
fn aligner_emit_with_paddings_emits_deletion_when_target_len_is_zero() {
    let (source, members) = rows(&[(3, 4)]);
    // max_w == width, no operator padding, no suffix: a zero target.
    let edits = emit_with_paddings(&source, &members, &[0]);
    assert_eq!(edits.len(), 1);
    assert_eq!(summary(&edits[0]), (members[0].gap_start, members[0].gap_end, String::new()));
}

#[test]
fn aligner_emit_with_paddings_skips_already_correct_gap() {
    let (source, members) = rows(&[(3, 1)]);
    let edits = emit_with_paddings(&source, &members, &[1]);
    assert!(edits.is_empty(), "gap that already matches the target width must not emit");
}

#[test]
fn emit_emit_group_aligns_to_shared_column_when_spread_fits_under_cap() {
    let (source, members) = rows(&[(1, 1), (2, 1), (3, 1)]);
    let edits = emit_group(&source, &members, Settings::aligned(MaxShift::Cap(10)));
    assert_eq!(sorted_summaries(&edits), vec![fill(&members[0], 3), fill(&members[1], 2)]);
}

#[test]
fn emit_emit_group_collapses_single_member_gap_to_suffix_len() {
    let (source, members) = rows(&[(3, 5)]);
    let edits = emit_group(&source, &members, Settings::aligned(MaxShift::Cap(8)));
    assert_eq!(sorted_summaries(&edits), vec![fill(&members[0], 1)]);
}

#[test]
fn emit_emit_group_handles_empty_member_slice() {
    let edits = emit_group("x = 0\n", &[], Settings::aligned(MaxShift::Cap(8)));
    assert!(edits.is_empty());
}

#[test]
fn emit_group_strips_lone_member_gap_when_flag_is_set() {
    let (source, members) = rows(&[(3, 5)]);
    let edits = emit_group(&source, &members, Settings::aligned(MaxShift::Cap(8)).with_singleton_strip());
    assert_eq!(sorted_summaries(&edits), vec![delete(&members[0])]);
}

#[test]
fn emit_emit_with_paddings_emits_deletion_when_target_len_is_zero() {
    let (source, members) = rows(&[(3, 4)]);
    let edits = emit_with_paddings(&source, &members, &[0]);
    assert_eq!(edits.len(), 1);
    assert_eq!(summary(&edits[0]), (members[0].gap_start, members[0].gap_end, String::new()));
}

#[test]
fn emit_emit_with_paddings_skips_already_correct_gap() {
    let (source, members) = rows(&[(3, 1)]);
    let edits = emit_with_paddings(&source, &members, &[1]);
    assert!(edits.is_empty(), "gap that already matches the target width must not emit");
}

#[test]
fn no_shift_collapses_every_row_to_one_space() {
    let (source, members) = rows(&[(1, 3), (2, 3), (3, 3)]);
    let edits = emit_group(&source, &members, Settings::aligned(MaxShift::NoShift));
    assert_eq!(
        sorted_summaries(&edits),
        vec![fill(&members[0], 1), fill(&members[1], 1), fill(&members[2], 1)],
    );
}

#[test]
fn no_shift_keeps_equal_width_rows_flush() {
    let (source, members) = rows(&[(5, 3), (5, 3)]);
    let edits = emit_group(&source, &members, Settings::aligned(MaxShift::NoShift).with_singleton_strip());
    assert_eq!(sorted_summaries(&edits), vec![delete(&members[0]), delete(&members[1])]);
}

#[test]
fn unlimited_folds_over_cap_spread_into_one_column() {
    let (source, members) = rows(&[(1, 1), (50, 1)]);
    let edits = emit_group(&source, &members, Settings::aligned(MaxShift::Unlimited));
    assert_eq!(sorted_summaries(&edits), vec![fill(&members[0], 50)]);
}

#[test]
fn walk_breaks_run_at_first_over_cap_row() {
    let (source, members) = rows(&[(1, 1), (2, 1), (3, 1), (15, 1)]);
    let edits = emit_group(&source, &members, Settings::aligned(MaxShift::Cap(8)));
    assert_eq!(sorted_summaries(&edits), vec![fill(&members[0], 3), fill(&members[1], 2)]);
}

#[test]
fn walk_groups_in_source_order_not_by_width() {
    let (source, members) = rows(&[(1, 1), (2, 1), (15, 1), (3, 1), (4, 1)]);
    let edits = emit_group(&source, &members, Settings::aligned(MaxShift::Cap(8)));
    assert_eq!(sorted_summaries(&edits), vec![fill(&members[0], 2), fill(&members[3], 2)]);
}

#[test]
fn walk_keeps_row_at_exact_cap_boundary() {
    let (source, members) = rows(&[(1, 1), (9, 1)]);
    let edits = emit_group(&source, &members, Settings::aligned(MaxShift::Cap(8)));
    assert_eq!(sorted_summaries(&edits), vec![fill(&members[0], 9)]);
}

#[test]
fn walk_leaves_over_cap_pair_natural() {
    let (source, members) = rows(&[(20, 1), (4, 1)]);
    let edits = emit_group(&source, &members, Settings::aligned(MaxShift::Cap(8)));
    assert!(edits.is_empty());
}

#[test]
fn walk_right_aligns_operators_within_a_group() {
    let (source, members) = rows(&[(12, 1), (11, 1), (1, 1)]);
    let members = [members[0].with_op_width(2), members[1].with_op_width(1), members[2].with_op_width(1)];
    let edits = emit_group(&source, &members, Settings::aligned(MaxShift::Cap(8)));
    assert_eq!(sorted_summaries(&edits), vec![fill(&members[1], 3)]);
}

#[test]
fn walk_strips_a_singleton_broken_off_mid_run() {
    let (source, members) = rows(&[(20, 1), (2, 1), (3, 1)]);
    let edits = emit_group(&source, &members, Settings::aligned(MaxShift::Cap(8)).with_singleton_strip());
    assert_eq!(sorted_summaries(&edits), vec![delete(&members[0]), fill(&members[1], 2)]);
}

// Run grouping over the facts a body's statements give. Each helper
// row describes one statement: its key (None when the rule does not
// qualify it), whether a skip directive holds it, whether it fits on
// one line, whether it is line-adjacent to the statement before it,
// and whether it sits on the line right after that statement.

fn stmt(key: Option<u64>) -> RowFacts {
    RowFacts { key, held: false, single_line: true, adjacent: true, consecutive: true }
}

fn held(key: Option<u64>) -> RowFacts {
    RowFacts { held: true, ..stmt(key) }
}

fn after_gap(key: Option<u64>) -> RowFacts {
    RowFacts { adjacent: false, consecutive: false, ..stmt(key) }
}

fn lens(groups: &[Vec<usize>]) -> Vec<usize> {
    groups.iter().map(Vec::len).collect()
}

#[test]
fn keyed_line_adjacent_groups_breaks_on_standalone_comment_after_held() {
    // x = 1 / y = 2  # prose: skip[align-equals] / # note / z = 3
    let groups = keyed_line_adjacent_groups(&[stmt(Some(0)), held(Some(0)), after_gap(Some(0))]);
    assert_eq!(lens(&groups), vec![1, 1]);
}

#[test]
fn keyed_line_adjacent_groups_flushes_trailing_active_run() {
    let groups = keyed_line_adjacent_groups(&[stmt(Some(0)), stmt(Some(0))]);
    assert_eq!(groups.len(), 1);
    assert_eq!(groups[0].len(), 2);
}

#[test]
fn keyed_line_adjacent_groups_holds_member_with_extra_comment_on_its_line() {
    // y's line carries `# note  # prose: skip[...]`; z follows on the next line.
    let mut z = stmt(Some(0));
    z.adjacent = false;
    let groups = keyed_line_adjacent_groups(&[stmt(Some(0)), held(Some(0)), z]);
    assert_eq!(groups.len(), 1);
    assert_eq!(groups[0].len(), 2);
}

#[test]
fn keyed_line_adjacent_groups_holds_skip_suppressed_member_and_bridges_run() {
    let mut z = stmt(Some(0));
    z.adjacent = false;
    let groups = keyed_line_adjacent_groups(&[stmt(Some(0)), held(Some(0)), z]);
    assert_eq!(groups.len(), 1);
    assert_eq!(groups[0].len(), 2);
}

#[test]
fn keyed_line_adjacent_groups_merges_same_key_adjacent_stmts() {
    let groups = keyed_line_adjacent_groups(&[stmt(Some(0)), stmt(Some(0)), stmt(Some(0))]);
    assert_eq!(groups.len(), 1);
    assert_eq!(groups[0].len(), 3);
}

#[test]
fn keyed_line_adjacent_groups_non_qualifier_closes_active_run() {
    // x = 1 / pass / y = 2
    let groups = keyed_line_adjacent_groups(&[stmt(Some(0)), stmt(None), stmt(Some(0))]);
    assert_eq!(lens(&groups), vec![1, 1]);
}

#[test]
fn keyed_line_adjacent_groups_returns_empty_for_empty_body() {
    assert!(keyed_line_adjacent_groups(&[]).is_empty());
}

#[test]
fn keyed_line_adjacent_groups_splits_on_blank_line() {
    let groups = keyed_line_adjacent_groups(&[stmt(Some(0)), after_gap(Some(0))]);
    assert_eq!(lens(&groups), vec![1, 1]);
}

#[test]
fn keyed_line_adjacent_groups_splits_on_comment_in_gap() {
    let groups = keyed_line_adjacent_groups(&[stmt(Some(0)), after_gap(Some(0))]);
    assert_eq!(lens(&groups), vec![1, 1]);
}

#[test]
fn keyed_line_adjacent_groups_splits_on_key_change_at_adjacent_boundary() {
    // x = 1 / y += 2 / z = 3: assign, aug-assign, assign.
    let groups = keyed_line_adjacent_groups(&[stmt(Some(0)), stmt(Some(1)), stmt(Some(0))]);
    assert_eq!(lens(&groups), vec![1, 1, 1]);
}

#[test]
fn keyed_line_adjacent_groups_splits_on_multiline_prior_stmt() {
    let mut x = stmt(Some(0));
    x.single_line = false;
    let groups = keyed_line_adjacent_groups(&[x, stmt(Some(0))]);
    assert_eq!(lens(&groups), vec![1, 1]);
}

#[test]
fn keyed_line_adjacent_groups_yields_singleton_for_lone_qualifier() {
    let groups = keyed_line_adjacent_groups(&[stmt(Some(0))]);
    assert_eq!(groups.len(), 1);
    assert_eq!(groups[0].len(), 1);
}
