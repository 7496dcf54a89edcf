use tz_complete::matcher::{autocomplete_tz, select_by_scores, select_top_k, TopKError};

#[test]
fn autocomplete_queries() {
    let names = autocomplete_tz("Asia/Ma", 5).unwrap();
    assert_eq!(&names[..5], &["Asia/Macao", "Asia/Macau", "Asia/Manila", "Asia/Magadan", "Asia/Makassar"]);
}

#[test]
fn autocomplete_returns_exactly_count() {
    let names = autocomplete_tz("Europe/Ber", 25).unwrap();
    assert_eq!(names.len(), 25);
    assert_eq!(names[0], "Europe/Berlin");
}

#[test]
fn autocomplete_empty_query_gives_count_results() {
    let names = autocomplete_tz("", 7).unwrap();
    assert_eq!(names.len(), 7);
}

#[test]
fn autocomplete_rejects_count_not_below_table() {
    assert_eq!(autocomplete_tz("UTC", 100_000), Err(TopKError::InvalidArgument));
}

#[test]
fn autocomplete_zero_count_is_empty() {
    assert!(autocomplete_tz("Asia", 0).unwrap().is_empty());
}

#[test]
fn autocomplete_is_deterministic() {
    assert_eq!(autocomplete_tz("America/N", 10), autocomplete_tz("America/N", 10));
}

#[test]
fn autocomplete_smaller_count_is_a_prefix() {
    let small = autocomplete_tz("Asia/Ma", 3).unwrap();
    let large = autocomplete_tz("Asia/Ma", 8).unwrap();
    assert_eq!(&large[..3], &small[..]);
}

#[test]
fn scores_rank_best_first_ties_by_position() {
    let c = vec!["a", "b", "c", "d"];
    let s = vec![1u64, 3, 3, 2];
    assert_eq!(select_by_scores(&c, &s, 2), Ok(vec!["b", "c"]));
    assert_eq!(select_by_scores(&c, &s, 3), Ok(vec!["b", "c", "d"]));
}

#[test]
fn scores_all_but_one_leaves_out_the_worst() {
    let c = vec!["a", "b", "c", "d", "e"];
    let s = vec![5u64, 9, 0, 7, 5];
    assert_eq!(select_by_scores(&c, &s, 4), Ok(vec!["b", "d", "a", "e"]));
}

#[test]
fn scores_equal_everywhere_keep_position_order() {
    let c = vec!["w", "x", "y", "z"];
    let s = vec![4u64, 4, 4, 4];
    assert_eq!(select_by_scores(&c, &s, 3), Ok(vec!["w", "x", "y"]));
}

#[test]
fn scores_zero_count_is_empty() {
    let c = vec!["a", "b"];
    let s = vec![1u64, 2];
    assert_eq!(select_by_scores(&c, &s, 0), Ok(vec![]));
}

#[test]
fn scores_count_at_length_is_invalid() {
    let c = vec!["a", "b"];
    let s = vec![1u64, 2];
    assert_eq!(select_by_scores(&c, &s, 2), Err(TopKError::InvalidArgument));
    assert_eq!(select_by_scores(&c, &s, 3), Err(TopKError::InvalidArgument));
}

#[test]
fn select_uses_similarity_to_query() {
    let c = vec!["abc", "xyz", "abd"];
    assert_eq!(select_top_k(&c, "xyz", 1), Ok(vec!["xyz"]));
    assert_eq!(select_top_k(&c, "abc", 2), Ok(vec!["abc", "abd"]));
}

#[test]
fn select_count_at_length_is_invalid() {
    let c = vec!["abc", "xyz"];
    assert_eq!(select_top_k(&c, "abc", 2), Err(TopKError::InvalidArgument));
}

#[test]
fn select_empty_query_still_answers() {
    let c = vec!["abc", "xyz", "abd", "q"];
    assert_eq!(select_top_k(&c, "", 3).unwrap().len(), 3);
}

#[test]
fn autocomplete_results_are_distinct_time_zones() {
    let names = autocomplete_tz("Pacific/A", 25).unwrap();
    for (a, name) in names.iter().enumerate() {
        assert!(name.parse::<chrono_tz::Tz>().is_ok());
        for other in &names[a + 1..] {
            assert_ne!(name, other);
        }
    }
}

#[test]
fn autocomplete_no_left_out_zone_scores_higher() {
    let query = "Europe/Lon";
    let names = autocomplete_tz(query, 10).unwrap();
    let worst_kept = names
        .iter()
        .map(|n| strsim::jaro_winkler(query, n))
        .fold(f64::INFINITY, f64::min);
    for tz in chrono_tz::TZ_VARIANTS.iter() {
        let name = tz.name();
        if !names.contains(&name) {
            assert!(strsim::jaro_winkler(query, name) <= worst_kept);
        }
    }
    assert_eq!(names[0], "Europe/London");
}

#[test]
fn autocomplete_kept_scores_descend() {
    let query = "America/Sao";
    let names = autocomplete_tz(query, 12).unwrap();
    for pair in names.windows(2) {
        assert!(strsim::jaro_winkler(query, pair[0]) >= strsim::jaro_winkler(query, pair[1]));
    }
}

#[test]
fn autocomplete_counts_up_to_the_table_size() {
    let n = chrono_tz::TZ_VARIANTS.len();
    assert_eq!(autocomplete_tz("Asia", 100).unwrap().len(), 100);
    assert_eq!(autocomplete_tz("Asia", n), Err(TopKError::InvalidArgument));
    let all_but_one = autocomplete_tz("Asia", n - 1).unwrap();
    assert_eq!(all_but_one.len(), n - 1);
    let left_out: Vec<&str> = chrono_tz::TZ_VARIANTS
        .iter()
        .map(|tz| tz.name())
        .filter(|name| !all_but_one.contains(name))
        .collect();
    assert_eq!(left_out.len(), 1);
    let worst = strsim::jaro_winkler("Asia", left_out[0]);
    for name in &all_but_one {
        assert!(strsim::jaro_winkler("Asia", name) >= worst);
    }
}

#[test]
fn autocomplete_empty_query_keeps_table_order() {
    let names = autocomplete_tz("", 4).unwrap();
    let table: Vec<&str> = chrono_tz::TZ_VARIANTS.iter().take(4).map(|tz| tz.name()).collect();
    assert_eq!(names, table);
}
