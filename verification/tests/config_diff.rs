use config_diff::block::normalize_line;
use config_diff::block::Block;
use config_diff::config::parse;
use config_diff::matcher::compare_configs;
use config_diff::matcher::CompareResult;

fn chars(s: &str) -> Vec<char> {
    s.chars().collect()
}

#[test]
fn normalize_line_removes_all_whitespace() {
    assert_eq!(normalize_line(&chars("a b\tc")), chars("abc"));
    assert_eq!(normalize_line(&chars("  a\t\tb  ")), chars("ab"));
    assert_eq!(normalize_line(&chars("abc")), chars("abc"));
    assert_eq!(normalize_line(&chars(" \t ")), chars(""));
}

#[test]
fn normalization_within_blocks() {
    let mut a = parse("a b\tc");
    let mut b = parse("abc");
    let r = compare_configs(&mut a, &mut b);
    assert!(r.is_equivalent());
}

#[test]
fn block_splitting() {
    let config = parse("x\ny\n\nz");
    assert_eq!(config.len(), 2);
    assert_eq!(config.blocks[0].len(), 2);
    assert!(config.blocks[0].contains_line(&chars("x")));
    assert!(config.blocks[0].contains_line(&chars("y")));
    assert_eq!(config.blocks[1].len(), 1);
    assert!(config.blocks[1].contains_line(&chars("z")));
}

#[test]
fn extra_blank_lines_change_nothing() {
    let plain = "x\ny\n\nz";
    let padded = "\n\n\nx\ny\n\n\n\nz\n\n";
    let padded_config = parse(padded);
    assert_eq!(padded_config.len(), 2);
    let mut a = parse(plain);
    let mut b = parse(padded);
    let r = compare_configs(&mut a, &mut b);
    assert!(r.is_equivalent());
}

#[test]
fn duplicate_lines_collapse() {
    let config = parse("a\na\n");
    assert_eq!(config.len(), 1);
    assert_eq!(config.blocks[0].len(), 1);
    assert!(config.blocks[0].contains_line(&chars("a")));
}

#[test]
fn duplicate_after_normalization_collapses() {
    let config = parse("a b\nab\n");
    assert_eq!(config.len(), 1);
    assert_eq!(config.blocks[0].len(), 1);
    assert!(config.blocks[0].contains_line(&chars("ab")));
}

#[test]
fn line_order_is_irrelevant() {
    let mut a = parse("x\ny\n");
    let mut b = parse("y\nx\n");
    let r = compare_configs(&mut a, &mut b);
    assert!(r.is_equivalent());
}

#[test]
fn block_order_is_irrelevant() {
    let mut a = parse("a\n\nb\n");
    let mut b = parse("b\n\na\n");
    let r = compare_configs(&mut a, &mut b);
    assert!(r.is_equivalent());
}

#[test]
fn multiset_equality_not_set_equality() {
    let mut a = parse("a\n");
    let mut b = parse("a\n\na\n");
    let r = compare_configs(&mut a, &mut b);
    match r {
        CompareResult::LeftoverBlocks(rest) => {
            assert_eq!(rest.len(), 1);
            assert!(rest[0].contains_line(&chars("a")));
        },
        _ => panic!("expected leftover blocks"),
    }
}

#[test]
fn first_config_leftover_is_reported_unmatched() {
    // The first configuration keeps a block that the second cannot match
    // while the second runs dry: the comparison must fail, naming that
    // block, rather than stop as soon as the second side is empty.
    let mut a = parse("a\n\nb\n");
    let mut b = parse("b\n");
    let r = compare_configs(&mut a, &mut b);
    match r {
        CompareResult::UnmatchedBlock(blk) => {
            assert_eq!(blk.len(), 1);
            assert!(blk.contains_line(&chars("a")));
        },
        _ => panic!("expected an unmatched block"),
    }
}

#[test]
fn scenario_whitespace_and_order_insensitive_match() {
    let mut a = parse("key1=1\nkey2=2\n");
    let mut b = parse("key2 = 2\nkey1= 1\n");
    let r = compare_configs(&mut a, &mut b);
    assert!(r.is_equivalent());
}

#[test]
fn scenario_missing_block_is_reported() {
    let mut a = parse("p\nq\n\nr\n");
    let mut b = parse("r\n");
    let r = compare_configs(&mut a, &mut b);
    match r {
        CompareResult::UnmatchedBlock(blk) => {
            assert_eq!(blk.len(), 2);
            assert!(blk.contains_line(&chars("p")));
            assert!(blk.contains_line(&chars("q")));
        },
        _ => panic!("expected an unmatched block"),
    }
}

#[test]
fn scenario_empty_files_match() {
    let mut a = parse("");
    let mut b = parse("");
    assert_eq!(a.len(), 0);
    assert_eq!(b.len(), 0);
    let r = compare_configs(&mut a, &mut b);
    assert!(r.is_equivalent());
}

#[test]
fn blank_only_input_has_no_blocks() {
    assert_eq!(parse("\n").len(), 0);
    assert_eq!(parse("\n\n\n").len(), 0);
    assert_eq!(parse("\r\n\r\n").len(), 0);
}

#[test]
fn whitespace_only_line_keeps_an_empty_entry() {
    // A line of spaces is not an empty line: it belongs to a block, and its
    // normalized form is the empty string.
    let config = parse("  \n");
    assert_eq!(config.len(), 1);
    assert_eq!(config.blocks[0].len(), 1);
    assert!(config.blocks[0].contains_line(&chars("")));
}

#[test]
fn carriage_return_before_newline_is_stripped() {
    let mut a = parse("a\r\nb\r\n");
    let mut b = parse("a\nb\n");
    let r = compare_configs(&mut a, &mut b);
    assert!(r.is_equivalent());
}

#[test]
fn carriage_return_without_newline_is_kept() {
    let config = parse("a\r");
    assert_eq!(config.len(), 1);
    assert!(config.blocks[0].contains_line(&chars("a\r")));
    assert!(!config.blocks[0].contains_line(&chars("a")));
}

#[test]
fn no_trailing_newline_still_ends_the_block() {
    let config = parse("a\n\nb");
    assert_eq!(config.len(), 2);
    assert!(config.blocks[1].contains_line(&chars("b")));
}

#[test]
fn disjoint_configs_report_unmatched() {
    let mut a = parse("a\n");
    let mut b = parse("b\n");
    let r = compare_configs(&mut a, &mut b);
    match r {
        CompareResult::UnmatchedBlock(blk) => {
            assert!(blk.contains_line(&chars("a")));
        },
        _ => panic!("expected an unmatched block"),
    }
}

#[test]
fn leftover_blocks_carry_everything_unmatched() {
    let mut a = parse("");
    let mut b = parse("a\n\nb\n");
    let r = compare_configs(&mut a, &mut b);
    match r {
        CompareResult::LeftoverBlocks(rest) => {
            assert_eq!(rest.len(), 2);
        },
        _ => panic!("expected leftover blocks"),
    }
}

#[test]
fn equivalent_comparison_drains_both_configs() {
    let mut a = parse("a\n\nb\n");
    let mut b = parse("b\n\na\n");
    let r = compare_configs(&mut a, &mut b);
    assert!(r.is_equivalent());
    assert!(a.is_empty());
    assert!(b.is_empty());
}

#[test]
fn block_insert_is_idempotent() {
    let mut blk = Block::new();
    assert!(blk.is_empty());
    blk.insert(chars("ab"));
    blk.insert(chars("ab"));
    assert_eq!(blk.len(), 1);
    blk.insert(chars("cd"));
    assert_eq!(blk.len(), 2);
    assert!(blk.contains_line(&chars("ab")));
    assert!(blk.contains_line(&chars("cd")));
    assert!(!blk.contains_line(&chars("ef")));
}

#[test]
fn equal_blocks_compare_equal_in_any_line_order() {
    let mut x = Block::new();
    x.insert(chars("a"));
    x.insert(chars("b"));
    let mut y = Block::new();
    y.insert(chars("b"));
    y.insert(chars("a"));
    assert!(x.eq_block(&y));
    y.insert(chars("c"));
    assert!(!x.eq_block(&y));
}

#[test]
fn duplicate_blocks_on_first_side_are_unmatched() {
    // The same block twice in the first configuration, once in the second:
    // one copy matches, the second must be reported unmatched even though
    // the second configuration is already empty by then.
    let mut a = parse("a\n\na\n");
    let mut b = parse("a\n");
    let r = compare_configs(&mut a, &mut b);
    match r {
        CompareResult::UnmatchedBlock(blk) => {
            assert!(blk.contains_line(&chars("a")));
        },
        _ => panic!("expected an unmatched block"),
    }
}
