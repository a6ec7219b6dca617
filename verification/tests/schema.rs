use sismokaos::schema::{column_names, dev_column_name, sorted_feature_names, str_lex_le};

#[test]
fn feature_names_sort_like_str() {
    let names: Vec<String> = ["Z_RMS", "E_PEAK", "EN_CROSS_CORR", "E_STA_LTA_Max", "E_STA_LTA_Mean", "N_ZCR", "E_RMS"]
        .iter()
        .map(|s| s.to_string())
        .collect();
    let mut expected = names.clone();
    expected.sort();
    assert_eq!(sorted_feature_names(names.clone()), expected);
    let mut reversed = names.clone();
    reversed.reverse();
    assert_eq!(sorted_feature_names(reversed), expected);
    assert!(sorted_feature_names(Vec::new()).is_empty());
}

#[test]
fn lexicographic_comparison_matches_str() {
    let words = ["", "a", "ab", "abc", "b", "B", "_", "E_DEV", "E_", "é", "z"];
    for a in words {
        for b in words {
            assert_eq!(str_lex_le(a, b), a <= b, "{a:?} <= {b:?}");
        }
    }
}

#[test]
fn columns_frame_features_and_their_deviations() {
    let names = vec!["A".to_string(), "B".to_string()];
    let cols = column_names(&names);
    assert_eq!(
        cols,
        vec!["Pencere_ID", "Zaman_Dk", "A", "B", "A_DEV", "B_DEV", "E_INTERP_FRAC", "N_INTERP_FRAC", "Z_INTERP_FRAC"]
    );
    assert_eq!(dev_column_name("E_RMS"), "E_RMS_DEV");
}
