use prose::orderer::{assemble_blocks, block_range, blocks_span, permute_in_place, reorder_text};

fn keys(items: &[&str]) -> Vec<Option<Vec<u8>>> {
    items.iter().map(|s| Some(s.as_bytes().to_vec())).collect()
}

fn keys_except_x(items: &[&str]) -> Vec<Option<Vec<u8>>> {
    items.iter().map(|s| if *s != "x" { Some(s.as_bytes().to_vec()) } else { None }).collect()
}

fn slices(source: &str, blocks: &[(u32, u32)]) -> Vec<String> {
    blocks.iter().map(|&(a, b)| source[a as usize..b as usize].to_string()).collect()
}

#[test]
fn assemble_blocks_substitutes_gap_when_override_returns_some() {
    let source = "def a(): pass\ndef b(): pass\n";
    let blocks = [(0, 13), (14, 27)];
    let rendered = slices(source, &blocks);
    let overrides = [Some(" ; ".to_string()), Some(" ; ".to_string())];
    let assembled = assemble_blocks(source, &blocks, &rendered, &[0, 1], &overrides);
    assert_eq!(assembled, "def a(): pass ; def b(): pass");
}

#[test]
fn permute_in_place_leaves_slots_outside_range_untouched() {
    let mut order = vec![0, 1, 2, 3];
    let permuted = permute_in_place(&mut order, &keys(&["d", "c", "b", "a"]), 1, 3);
    assert!(permuted);
    assert_eq!(order, vec![0, 2, 1, 3]);
}

#[test]
fn permute_in_place_pins_unclassified() {
    let mut order = vec![0, 1, 2];
    let permuted = permute_in_place(&mut order, &keys_except_x(&["b", "x", "a"]), 0, 3);
    assert!(permuted);
    assert_eq!(order, vec![2, 1, 0]);
}

#[test]
fn permute_in_place_preserves_relative_order_of_equal_keys() {
    let mut order = vec![0, 1, 2, 3];
    let items: [(u8, char); 4] = [(2, 'a'), (1, 'b'), (1, 'c'), (1, 'd')];
    let ks: Vec<Option<Vec<u8>>> = items.iter().map(|t| Some(vec![t.0])).collect();
    let permuted = permute_in_place(&mut order, &ks, 0, 4);
    assert!(permuted);
    assert_eq!(order, vec![1, 2, 3, 0]);
}

#[test]
fn permute_in_place_returns_false_when_already_sorted() {
    let mut order = vec![0, 1, 2];
    let permuted = permute_in_place(&mut order, &keys(&["a", "b", "c"]), 0, 3);
    assert!(!permuted);
    assert_eq!(order, vec![0, 1, 2]);
}

#[test]
fn permute_in_place_returns_false_when_fewer_than_two_classified() {
    let mut order = vec![0, 1, 2];
    let permuted = permute_in_place(&mut order, &keys_except_x(&["x", "x", "a"]), 0, 3);
    assert!(!permuted);
    assert_eq!(order, vec![0, 1, 2]);
}

#[test]
fn reorder_text_inline_swaps_two_items() {
    // The parameters of `def f(b, a): pass`.
    let source = "def f(b, a): pass\n";
    let blocks = [(6, 7), (9, 10)];
    let out = reorder_text(source, &blocks, &keys(&["b", "a"]), &[None, None]);
    assert_eq!(out.as_deref(), Some("a, b"));
}

#[test]
fn reorder_text_pins_non_classified() {
    let source = "def b(): pass\nCONST = 1\ndef a(): pass\n";
    let blocks = [(0, 13), (14, 23), (24, 37)];
    let ks = vec![Some(b"b".to_vec()), None, Some(b"a".to_vec())];
    let out = reorder_text(source, &blocks, &ks, &[None, None, None]);
    assert_eq!(out.as_deref(), Some("def a(): pass\nCONST = 1\ndef b(): pass"));
}

#[test]
fn reorder_text_returns_borrowed_when_already_sorted_and_no_render_change() {
    let source = "def a(): pass\ndef b(): pass\n";
    let blocks = [(0, 13), (14, 27)];
    assert!(reorder_text(source, &blocks, &keys(&["a", "b"]), &[None, None]).is_none());
}

#[test]
fn reorder_text_returns_empty_borrowed_for_empty_items() {
    assert!(reorder_text("", &[], &[], &[]).is_none());
}

#[test]
fn reorder_text_returns_owned_when_render_block_owns_even_without_sort() {
    let source = "def a(): pass\ndef b(): pass\n";
    let blocks = [(0, 13), (14, 27)];
    let rendered = [Some("def A(): pass".to_string()), None];
    let out = reorder_text(source, &blocks, &keys(&["a", "b"]), &rendered).expect("owned");
    assert!(out.contains("def A"));
}

#[test]
fn reorder_text_returns_owned_when_sort_and_render_owned_combine() {
    let source = "def b(): pass\ndef a(): pass\n";
    let blocks = [(0, 13), (14, 27)];
    let rendered: Vec<Option<String>> =
        slices(source, &blocks).iter().map(|s| Some(s.replace("def ", "DEF "))).collect();
    let out = reorder_text(source, &blocks, &keys(&["b", "a"]), &rendered);
    assert_eq!(out.as_deref(), Some("DEF a(): pass\nDEF b(): pass"));
}

/// The `#` comments of a string-free source, each to its line's end.
fn comments(src: &str) -> Vec<(u32, u32)> {
    let mut out = Vec::new();
    let mut offset = 0;
    for line in src.split_inclusive('\n') {
        let body = line.trim_end_matches(['\n', '\r']);
        if let Some(k) = body.find('#') {
            out.push(((offset + k) as u32, (offset + body.len()) as u32));
        }
        offset += line.len();
    }
    out
}

fn block_slice<'a>(src: &'a str, items: &[(u32, u32)], i: usize) -> &'a str {
    let outer = (0, src.len() as u32);
    let (a, b) = block_range(src.as_bytes(), &comments(src), items, i, outer);
    &src[a as usize..b as usize]
}

#[test]
fn block_range_excludes_detached_comment_above_blank_line() {
    let src = "# detached\n\ndef a(): pass\n";
    assert_eq!(block_slice(src, &[(12, 25)], 0), "def a(): pass");
}

#[test]
fn block_range_extends_back_through_attached_comments() {
    let src = "# one\n# two\ndef a(): pass\n";
    assert_eq!(block_slice(src, &[(12, 25)], 0), "# one\n# two\ndef a(): pass");
}

#[test]
fn block_range_extends_forward_through_inline_trailing_comment() {
    let src = "def a(): pass  # trailing\n";
    assert_eq!(block_slice(src, &[(0, 13)], 0), "def a(): pass  # trailing");
}

#[test]
fn block_range_extends_to_end_of_final_line_for_multi_line_item() {
    let src = "def a(\n    x,\n    y,\n): pass  # trailing\n";
    let end = (src.find("pass").expect("body") + 4) as u32;
    assert_eq!(block_slice(src, &[(0, end)], 0), "def a(\n    x,\n    y,\n): pass  # trailing");
}

#[test]
fn block_range_last_item_uses_outer_end_as_upper_bound() {
    let src = "def a(): pass\ndef b(): pass  # trailing\n";
    assert_eq!(block_slice(src, &[(0, 13), (14, 27)], 1), "def b(): pass  # trailing");
}

#[test]
fn block_range_lower_bound_blocks_back_extension_into_prior_item() {
    let src = "def a(): pass\ndef b(): pass\n";
    assert_eq!(block_slice(src, &[(0, 13), (14, 27)], 1), "def b(): pass");
}

#[test]
fn block_range_stops_at_an_inline_comment_above() {
    // `x = 1  # note` is not an own-line comment, so it does not attach.
    let src = "x = 1  # note\n# own\ny = 2\n";
    assert_eq!(block_slice(src, &[(0, 5), (20, 25)], 1), "# own\ny = 2");
}

#[test]
fn blocks_span_covers_first_start_to_last_end() {
    assert_eq!(blocks_span(&[(3, 5), (7, 9), (10, 12)]), (3, 12));
}
