use braces::highlight::ansi::{colour_text, cyan, Color, Highlight};
use braces::processor::expansion::{compose_label_and_items, compute_reprs, render_node};
use braces::processor::normalise::{
    can_stem_split, clean_trailing_sep, find_common_string_prefix, find_common_string_suffix,
    find_common_suffix, normalise_separators, validate_separators,
};
use braces::processor::trie::build_trie;
use braces::processor::trie::ordered_map::OrderedMap;
use braces::{brace_paths, expand_braces, pretty_braces, BraceConfig, BraceError};

fn owned(items: &[&str]) -> Vec<String> {
    items.iter().map(|s| s.to_string()).collect()
}

fn sorted(mut items: Vec<String>) -> Vec<String> {
    items.sort();
    items
}

#[test]
fn trailing_separator_becomes_empty_alternative() {
    let result = brace_paths(&["a/", "a/b"], &BraceConfig::default()).unwrap();
    assert_eq!(result, "a/{,b}");
}

#[test]
fn mixed_separators_error_carries_what_was_found() {
    let result = brace_paths(&["foo/bar", "foo\\baz", "x:y"], &BraceConfig::default());
    assert_eq!(
        result,
        Err(BraceError::MixedSeparators {
            found: vec!["\\".to_string(), ":".to_string()],
            expected: "/".to_string(),
        })
    );
}

#[test]
fn brace_in_input_error_names_first_offending_path() {
    let result = brace_paths(&["plain", "a}b", "c{d"], &BraceConfig::default());
    assert_eq!(
        result,
        Err(BraceError::InvalidBraceInput {
            path: "a}b".to_string(),
            reason: "reprocessing disabled".to_string(),
        })
    );
}

#[test]
fn empty_input_is_refused_before_anything_else() {
    let config = BraceConfig {
        reprocess_braces: true,
        allow_mixed_separators: true,
        ..Default::default()
    };
    let none: Vec<&str> = Vec::new();
    assert_eq!(brace_paths(&none, &config), Err(BraceError::EmptyInput));
}

#[test]
fn error_messages_are_exact() {
    assert_eq!(BraceError::EmptyInput.message(), "No paths provided");
    let mixed = BraceError::MixedSeparators {
        found: vec!["\\".to_string(), ":".to_string()],
        expected: "/".to_string(),
    };
    assert_eq!(
        mixed.message(),
        "Mixed path separators found: [\"\\\\\", \":\"], expected: /"
    );
    let brace = BraceError::InvalidBraceInput {
        path: "foo/{bar}".to_string(),
        reason: "test".to_string(),
    };
    assert_eq!(brace.message(), "Invalid braces input 'foo/{bar}': test");
    assert_eq!(
        BraceError::DepthLimitExceeded { limit: 5 }.message(),
        "Brace depth limit of 5 exceeded"
    );
    assert_eq!(
        BraceError::DepthLimitExceeded { limit: 1203 }.message(),
        "Brace depth limit of 1203 exceeded"
    );
    assert_eq!(
        BraceError::DepthLimitExceeded { limit: 0 }.message(),
        "Brace depth limit of 0 exceeded"
    );
}

#[test]
fn dropping_repeats_beforehand_changes_nothing() {
    let with_repeats = ["x/a", "x/b", "x/a", "y", "x/b"];
    let without = ["x/a", "x/b", "y"];
    for sort_items in [false, true] {
        let config = BraceConfig {
            sort_items,
            ..Default::default()
        };
        assert_eq!(
            brace_paths(&with_repeats, &config),
            brace_paths(&without, &config)
        );
    }
    assert_eq!(
        brace_paths(&with_repeats, &BraceConfig::default()).unwrap(),
        "{x/{a,b},y}"
    );
}

#[test]
fn kept_repeats_become_separate_alternatives() {
    let config = BraceConfig {
        deduplicate_inputs: false,
        ..Default::default()
    };
    let result = brace_paths(&["foo/bar.rs", "foo/bar.rs", "foo/baz.rs"], &config).unwrap();
    assert_eq!(result, "foo/{bar,bar,baz}.rs");
}

#[test]
fn single_path_stays_literal_in_every_configuration() {
    for bits in 0..64u32 {
        let (separator, path) = if bits & 1 == 0 {
            ("/", "some/deep/path,with.comma")
        } else {
            ("", "plain,name.x")
        };
        let config = BraceConfig {
            path_separator: separator.to_string(),
            max_depth: (bits & 2) as usize,
            max_brace_size: if bits & 4 == 0 { None } else { Some(1) },
            allow_stem_split: bits & 8 != 0,
            allow_segment_split: bits & 16 != 0,
            sort_items: bits & 32 != 0,
            disallow_empty_braces: bits & 1 != 0,
            preserve_order_within_braces: bits & 2 != 0,
            allow_mixed_separators: false,
            deduplicate_inputs: bits & 4 != 0,
            reprocess_braces: bits & 8 != 0,
        };
        assert_eq!(brace_paths(&[path], &config).unwrap(), path);
    }
}

#[test]
fn raising_the_depth_limit_never_adds_fallbacks() {
    let paths = owned(&["a/b/c/1", "a/b/c/2", "a/b/d/3", "a/x", "q/r/s/t/u/v"]);
    let config = BraceConfig::default();
    let (nodes, root) = build_trie(&paths, "/", &config);
    assert_eq!(root, 0);
    let fallbacks =
        |limit: usize| nodes.iter().filter(|n| n.depth > limit).count();
    let counts: Vec<usize> = (0..8).map(fallbacks).collect();
    assert_eq!(counts, vec![14, 12, 9, 6, 2, 1, 0, 0]);
    for limit in 0..7 {
        assert!(fallbacks(limit + 1) <= fallbacks(limit));
    }
}

#[test]
fn depth_limit_zero_nests_two_levels() {
    let config = BraceConfig {
        max_depth: 0,
        ..Default::default()
    };
    let result = brace_paths(&["a/x", "a/y", "b/z", "b/w"], &config).unwrap();
    assert_eq!(result, "{a/{x,y},b/{z,w}}");
}

#[test]
fn sorted_groups_list_alternatives_in_order() {
    let config = BraceConfig {
        sort_items: true,
        ..Default::default()
    };
    let result = brace_paths(&["d/z", "d/b", "d/m", "a"], &config).unwrap();
    assert_eq!(result, "{a,d/{b,m,z}}");
    let unsorted = brace_paths(&["d/z", "d/b", "d/m", "a"], &BraceConfig::default()).unwrap();
    assert_eq!(unsorted, "{d/{z,b,m},a}");
}

#[test]
fn outer_group_of_chunks_follows_the_chunks_not_the_order() {
    let config = BraceConfig {
        sort_items: true,
        max_brace_size: Some(2),
        ..Default::default()
    };
    let result = brace_paths(&["L/z", "L/b", "L/a"], &config).unwrap();
    assert_eq!(result, "{L/{a,b},L/z}");
}

#[test]
fn sorting_is_by_code_point() {
    let items = owned(&["b", "B", "a", "", "é", "ab"]);
    let result = compose_label_and_items("", "/", &items, None, true);
    assert_eq!(result, "{,B,a,ab,b,é}");
}

#[test]
fn separable_paths_round_trip() {
    let paths = ["src/a.rs", "src/b/c.rs", "src/b/d.rs", "tests/e.rs", "f/g/h/i/j/k/l/m.rs"];
    let result = brace_paths(&paths, &BraceConfig::default()).unwrap();
    assert_eq!(result, "{src/{a,b/{c,d}},tests/e,f/g/h/i/j/k/l/m}.rs");
    assert_eq!(sorted(expand_braces(&result)), sorted(owned(&paths)));
}

#[test]
fn path_that_continues_another_does_not_round_trip() {
    let result = brace_paths(&["a/b", "a/b/c"], &BraceConfig::default()).unwrap();
    assert_eq!(result, "a/b/{c,}");
    assert_eq!(expand_braces(&result), owned(&["a/b/c", "a/b/"]));
}

#[test]
fn expansion_is_nested_and_ordered() {
    assert_eq!(expand_braces("plain"), owned(&["plain"]));
    assert_eq!(expand_braces(""), owned(&[""]));
    assert_eq!(expand_braces("a{b,c}d"), owned(&["abd", "acd"]));
    assert_eq!(
        expand_braces("a/{b,c/{d,e}}.x"),
        owned(&["a/b.x", "a/c/d.x", "a/c/e.x"])
    );
    assert_eq!(
        expand_braces("{a,b}{1,2}"),
        owned(&["a1", "a2", "b1", "b2"])
    );
    assert_eq!(expand_braces("x{}y"), owned(&["xy"]));
    assert_eq!(expand_braces("{,a}"), owned(&["", "a"]));
}

#[test]
fn expansion_survives_unbalanced_braces() {
    assert_eq!(expand_braces("{a,b"), owned(&["a", "b"]));
    assert_eq!(expand_braces("a}b"), owned(&["a}b"]));
    assert_eq!(expand_braces("x{a,{b,c"), owned(&["xa", "xb", "xc"]));
    assert_eq!(expand_braces("{a}}"), owned(&["a}"]));
}

#[test]
fn expansion_follows_nesting_of_any_depth() {
    let depth = 500;
    let open = "{".repeat(depth);
    assert_eq!(expand_braces(&open), owned(&[""]));
    let closed = format!("{}a,b{}", open, "}".repeat(depth));
    assert_eq!(expand_braces(&closed), owned(&["a", "b"]));
}

#[test]
fn reprocessing_expands_then_compresses() {
    let config = BraceConfig {
        reprocess_braces: true,
        ..Default::default()
    };
    let result = brace_paths(&["a/{b,c}", "a/d", "a/b"], &config).unwrap();
    assert_eq!(result, "a/{b,c,d}");
}

#[test]
fn chunks_are_labelled_groups_in_an_outer_group() {
    let items = owned(&["b", "c", "d"]);
    assert_eq!(
        compose_label_and_items("a", "/", &items, Some(2), false),
        "{a/{b,c},a/d}"
    );
    assert_eq!(
        compose_label_and_items("", "/", &items, Some(2), false),
        "{{b,c},d}"
    );
    assert_eq!(
        compose_label_and_items("a", "/", &items, Some(3), false),
        "a/{b,c,d}"
    );
    assert_eq!(
        compose_label_and_items("a", "/", &items, Some(1), false),
        "{a/b,a/c,a/d}"
    );
}

#[test]
fn compose_renders_sole_empty_item_as_the_label() {
    assert_eq!(compose_label_and_items("a", "/", &owned(&[""]), None, false), "a");
    assert_eq!(compose_label_and_items("a", "/", &[], None, false), "a");
    assert_eq!(compose_label_and_items("", "/", &owned(&[""]), None, false), "");
    assert_eq!(compose_label_and_items("a", "/", &owned(&["b"]), None, false), "a/b");
    assert_eq!(
        compose_label_and_items("a", "/", &owned(&["", "b"]), None, false),
        "a/{,b}"
    );
}

#[test]
fn brace_size_limit_applies_to_whole_paths() {
    let config = BraceConfig {
        max_brace_size: Some(2),
        ..Default::default()
    };
    let result = brace_paths(&["a/b", "a/c", "a/d"], &config).unwrap();
    assert_eq!(result, "{a/{b,c},a/d}");
}

#[test]
fn render_node_follows_the_policies() {
    let raws = owned(&["n/x", "n"]);
    let items = owned(&["x", ""]);
    let plain = BraceConfig::default();
    assert_eq!(render_node("n", "/", 1, &raws, &items, &plain), "n/{x,}");
    let strict = BraceConfig {
        disallow_empty_braces: true,
        ..Default::default()
    };
    assert_eq!(render_node("n", "/", 1, &raws, &items, &strict), "n/x n");
    let shallow = BraceConfig {
        max_depth: 0,
        ..Default::default()
    };
    let deep_raws = owned(&["n/x/1", "n/x/2"]);
    let deep_items = owned(&["x/{1,2}"]);
    assert_eq!(
        render_node("n", "/", 1, &deep_raws, &deep_items, &shallow),
        "n/{x/1,x/2}"
    );
    assert_eq!(
        render_node("n", "/", 0, &deep_raws, &deep_items, &shallow),
        "n/x/{1,2}"
    );
    let stem = BraceConfig {
        allow_stem_split: true,
        ..Default::default()
    };
    let siblings = owned(&["bar.rs", "baz.rs"]);
    assert_eq!(
        render_node("foo", "/", 1, &siblings, &siblings, &stem),
        "foo/ba{r,z}.rs"
    );
    assert_eq!(
        render_node("", "/", 0, &siblings, &siblings, &stem),
        "ba{r,z}.rs"
    );
}

#[test]
fn computed_maps_cover_the_nodes_below_the_root() {
    let paths = owned(&["a/b", "a/c", "d"]);
    let config = BraceConfig::default();
    let (nodes, root) = build_trie(&paths, "/", &config);
    assert_eq!(nodes.len(), 5);
    let (reprs, raws) = compute_reprs(&nodes, root, "/", &config);
    assert_eq!(reprs.len(), 5);
    assert_eq!(reprs[&0], "{a/{b,c},d}");
    assert_eq!(reprs[&1], "a/{b,c}");
    assert_eq!(reprs[&2], "b");
    assert_eq!(raws[&0], owned(&["a/b", "a/c", "d"]));
    assert_eq!(raws[&1], owned(&["a/b", "a/c"]));
    assert_eq!(raws[&4], owned(&["d"]));
    let (below_a, _) = compute_reprs(&nodes, 1, "/", &config);
    assert_eq!(below_a.len(), 3);
    assert!(below_a.contains_key(&1) && below_a.contains_key(&2) && below_a.contains_key(&3));
    assert_eq!(below_a[&1], "a/{b,c}");
    let (leaf, _) = compute_reprs(&nodes, 4, "/", &config);
    assert_eq!(leaf.len(), 1);
    assert_eq!(leaf[&4], "d");
}

#[test]
fn trie_keeps_first_seen_order_and_marks_ends() {
    let paths = owned(&["z/", "a", "z/q"]);
    let (nodes, _) = build_trie(&paths, "/", &BraceConfig::default());
    let labels: Vec<&str> = nodes.iter().map(|n| n.label.as_str()).collect();
    assert_eq!(labels, vec!["", "z", "", "a", "q"]);
    let depths: Vec<usize> = nodes.iter().map(|n| n.depth).collect();
    assert_eq!(depths, vec![0, 1, 2, 1, 2]);
    let leaves: Vec<bool> = nodes.iter().map(|n| n.is_leaf).collect();
    assert_eq!(leaves, vec![false, false, true, true, true]);
    let trailing: Vec<bool> = nodes.iter().map(|n| n.is_trailing_sep).collect();
    assert_eq!(trailing, vec![false, false, true, false, false]);
    let root_children: Vec<usize> = nodes[0].children.values().into_iter().copied().collect();
    assert_eq!(root_children, vec![1, 3]);
}

#[test]
fn without_segment_splitting_only_the_first_separator_cuts() {
    let config = BraceConfig {
        allow_segment_split: false,
        ..Default::default()
    };
    let paths = owned(&["a/b/c", "a/b/d", "e"]);
    let (nodes, _) = build_trie(&paths, "/", &config);
    let labels: Vec<&str> = nodes.iter().map(|n| n.label.as_str()).collect();
    assert_eq!(labels, vec!["", "a", "b/c", "b/d", "e"]);
    assert_eq!(
        brace_paths(&["a/b/c", "a/b/d", "e"], &config).unwrap(),
        "{a/{b/c,b/d},e}"
    );
}

#[test]
fn separators_are_rewritten_one_candidate_after_another() {
    assert_eq!(normalise_separators("a\\b:c/d", "/"), "a/b/c/d");
    assert_eq!(normalise_separators("a/b", "\\"), "a\\b");
    assert_eq!(normalise_separators("a/b", "::"), "a::::b");
    assert_eq!(normalise_separators("a/b:c", ""), "abc");
    assert_eq!(normalise_separators("plain", "/"), "plain");
}

#[test]
fn separator_check_reports_candidates_in_fixed_order() {
    assert_eq!(validate_separators(&owned(&["a/b", "c"]), "/"), Ok(()));
    assert_eq!(validate_separators(&owned(&["a::b"]), "::"), Ok(()));
    assert_eq!(
        validate_separators(&owned(&["a:b", "c\\d", "e/f"]), "-"),
        Err(BraceError::MixedSeparators {
            found: owned(&["/", "\\", ":"]),
            expected: "-".to_string(),
        })
    );
}

#[test]
fn common_endings_and_beginnings_are_the_longest() {
    assert_eq!(find_common_suffix(&owned(&["abcdef", "ef"])), "ef");
    assert_eq!(find_common_suffix(&owned(&["ef", "abcdef"])), "ef");
    assert_eq!(find_common_suffix(&owned(&["a.rs", "b.rs", "c.rs"])), ".rs");
    assert_eq!(find_common_suffix(&owned(&["only"])), "only");
    assert_eq!(find_common_suffix(&[]), "");
    assert_eq!(find_common_suffix(&owned(&["x", ""])), "");
    assert_eq!(find_common_string_suffix(&owned(&["xa", "ya"])), "a");
    assert_eq!(find_common_string_prefix(&owned(&["bar", "baz"])), "ba");
    assert_eq!(find_common_string_prefix(&owned(&["bar", "", "baz"])), "");
    assert_eq!(find_common_string_prefix(&[]), "");
    assert!(can_stem_split(&owned(&["bar", "baz"])));
    assert!(can_stem_split(&owned(&["xa", "ya"])));
    assert!(!can_stem_split(&owned(&["bar"])));
    assert!(!can_stem_split(&owned(&["a", "b"])));
    assert_eq!(clean_trailing_sep("a/b/", "/"), "a/b");
    assert_eq!(clean_trailing_sep("a/b", "/"), "a/b");
    assert_eq!(clean_trailing_sep("a::", "::"), "a");
}

#[test]
fn stem_splitting_keeps_overlapping_items_whole() {
    let config = BraceConfig {
        allow_stem_split: true,
        ..Default::default()
    };
    let items = owned(&["aa", "aaa"]);
    assert_eq!(render_node("", "/", 0, &items, &items, &config), "aa{aa,aaa}aa");
}

#[test]
fn ordered_map_keeps_insertion_order() {
    let mut map: OrderedMap<u32, &str> = OrderedMap::new();
    assert!(map.is_empty());
    assert_eq!(map.insert(3, "three"), None);
    assert_eq!(map.insert(1, "one"), None);
    assert_eq!(map.insert(3, "drei"), Some("three"));
    assert_eq!(map.len(), 2);
    assert!(!map.is_empty());
    assert_eq!(map.get(&3), Some(&"drei"));
    assert_eq!(map.get(&2), None);
    assert_eq!(map.keys(), vec![&3, &1]);
    assert_eq!(map.values(), vec![&"drei", &"one"]);
    assert_eq!(map.get_index(1), Some((&1, &"one")));
    assert_eq!(map.get_index(2), None);
    let seen: Vec<(u32, &str)> = map.iter().copied().collect();
    assert_eq!(seen, vec![(3, "drei"), (1, "one")]);
}

#[test]
fn pretty_printer_ends_lines_at_braces_and_commas() {
    assert_eq!(pretty_braces("{a, }"), "{\n a,\n}");
    assert_eq!(pretty_braces("{a,}"), "{\n a,\n}");
    assert_eq!(pretty_braces("}"), "}");
    assert_eq!(pretty_braces(""), "");
    assert_eq!(pretty_braces("a,b"), "a,\nb");
}

#[test]
fn pretty_printer_ignores_escape_sequences_for_columns() {
    let input = "a/\u{1b}[36m{\u{1b}[39mb\u{1b}[36m,\u{1b}[39mc\u{1b}[36m}\u{1b}[39m";
    assert_eq!(
        pretty_braces(input),
        "a/\u{1b}[36m{\n   \u{1b}[39mb\u{1b}[36m,\n   \u{1b}[39mc\u{1b}[36m\n  }"
    );
}

#[test]
fn ansi_colours_wrap_text_and_reset() {
    assert_eq!(colour_text("x", cyan()), "\u{1b}[36mx\u{1b}[0m");
    assert_eq!(colour_text("", Color::new(7)), "\u{1b}[7m\u{1b}[0m");
    assert_eq!('{'.color(Color::new(134)), "\u{1b}[134m{\u{1b}[0m");
    assert_eq!("ab".color(Color::new(33)), "\u{1b}[33mab\u{1b}[0m");
}
