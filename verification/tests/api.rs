use verrost::{parse_range, parse_version, satisfies};

#[test]
fn parse_version_api_1_dot_2_dot_3() {
    assert_eq!(parse_version("1.2.3").is_ok(), true);
}

#[test]
fn parse_version_api_1_dot_2_dot_3_dash_alpha() {
    assert_eq!(parse_version("1.2.3-alpha").is_ok(), true);
}

#[test]
fn parse_version_api_1_dot_2_dot_3_plus_build() {
    assert_eq!(parse_version("1.2.3+build").is_ok(), true);
}

#[test]
fn parse_version_api_1_dot_2_dot_3_dash_alpha_plus_build() {
    assert_eq!(parse_version("1.2.3-alpha+build").is_ok(), true);
}

#[test]
fn parse_version_api_1() {
    assert_eq!(parse_version("1").is_ok(), false);
}

#[test]
fn parse_version_api_1_dot_2() {
    assert_eq!(parse_version("1.2").is_ok(), false);
}

#[test]
fn parse_version_api_1_dot_x() {
    assert_eq!(parse_version("1.x").is_ok(), false);
}

#[test]
fn parse_version_api_caret_1_dot_2_dot_3() {
    assert_eq!(parse_version("^1.2.3").is_ok(), false);
}

#[test]
fn parse_range_api_1_dot_2_dot_3() {
    assert_eq!(parse_range("1.2.3").is_ok(), true);
}

#[test]
fn parse_range_api_caret_1_dot_2_dot_3() {
    assert_eq!(parse_range("^1.2.3").is_ok(), true);
}

#[test]
fn parse_range_api_tilde_1_dot_2() {
    assert_eq!(parse_range("~1.2").is_ok(), true);
}

#[test]
fn parse_range_api_gte_1_dot_2_dot_3_sp_lt_2_dot_0_dot_0() {
    assert_eq!(parse_range(">=1.2.3 <2.0.0").is_ok(), true);
}

#[test]
fn parse_range_api_1_dot_x() {
    assert_eq!(parse_range("1.x").is_ok(), true);
}

#[test]
fn parse_range_api_star() {
    assert_eq!(parse_range("*").is_ok(), true);
}

#[test]
fn parse_range_api_empty() {
    assert_eq!(parse_range("").is_ok(), false);
}

#[test]
fn satisfies_api_1_dot_2_dot_3_in_1_dot_2_dot_3() {
    assert_eq!(satisfies("1.2.3", "1.2.3"), Ok(true));
}

#[test]
fn satisfies_api_1_dot_2_dot_4_in_1_dot_2_dot_3() {
    assert_eq!(satisfies("1.2.4", "1.2.3"), Ok(false));
}

#[test]
fn satisfies_api_1_dot_2_dot_4_in_gt_1_dot_2_dot_3() {
    assert_eq!(satisfies("1.2.4", ">1.2.3"), Ok(true));
}

#[test]
fn satisfies_api_1_dot_2_dot_3_in_gt_1_dot_2_dot_3() {
    assert_eq!(satisfies("1.2.3", ">1.2.3"), Ok(false));
}

#[test]
fn satisfies_api_1_dot_2_dot_3_in_gte_1_dot_2_dot_3() {
    assert_eq!(satisfies("1.2.3", ">=1.2.3"), Ok(true));
}

#[test]
fn satisfies_api_1_dot_2_dot_2_in_gte_1_dot_2_dot_3() {
    assert_eq!(satisfies("1.2.2", ">=1.2.3"), Ok(false));
}

#[test]
fn satisfies_api_1_dot_2_dot_2_in_lt_1_dot_2_dot_3() {
    assert_eq!(satisfies("1.2.2", "<1.2.3"), Ok(true));
}

#[test]
fn satisfies_api_1_dot_2_dot_3_in_lt_1_dot_2_dot_3() {
    assert_eq!(satisfies("1.2.3", "<1.2.3"), Ok(false));
}

#[test]
fn satisfies_api_1_dot_2_dot_3_in_lte_1_dot_2_dot_3() {
    assert_eq!(satisfies("1.2.3", "<=1.2.3"), Ok(true));
}

#[test]
fn satisfies_api_1_dot_2_dot_4_in_lte_1_dot_2_dot_3() {
    assert_eq!(satisfies("1.2.4", "<=1.2.3"), Ok(false));
}

#[test]
fn satisfies_api_1_dot_5_dot_0_in_caret_1_dot_2_dot_3() {
    assert_eq!(satisfies("1.5.0", "^1.2.3"), Ok(true));
}

#[test]
fn satisfies_api_2_dot_0_dot_0_in_caret_1_dot_2_dot_3() {
    assert_eq!(satisfies("2.0.0", "^1.2.3"), Ok(false));
}

#[test]
fn satisfies_api_1_dot_2_dot_9_in_tilde_1_dot_2_dot_3() {
    assert_eq!(satisfies("1.2.9", "~1.2.3"), Ok(true));
}

#[test]
fn satisfies_api_1_dot_3_dot_0_in_tilde_1_dot_2_dot_3() {
    assert_eq!(satisfies("1.3.0", "~1.2.3"), Ok(false));
}

#[test]
fn satisfies_api_1_dot_5_dot_7_in_1_dot_x() {
    assert_eq!(satisfies("1.5.7", "1.x"), Ok(true));
}

#[test]
fn satisfies_api_2_dot_0_dot_0_in_1_dot_x() {
    assert_eq!(satisfies("2.0.0", "1.x"), Ok(false));
}

#[test]
fn satisfies_api_1_dot_5_dot_0_in_gte_1_dot_2_dot_3_sp_lt_2_dot_0_dot_0() {
    assert_eq!(satisfies("1.5.0", ">=1.2.3 <2.0.0"), Ok(true));
}

#[test]
fn satisfies_api_2_dot_0_dot_0_in_gte_1_dot_2_dot_3_sp_lt_2_dot_0_dot_0() {
    assert_eq!(satisfies("2.0.0", ">=1.2.3 <2.0.0"), Ok(false));
}

#[test]
fn satisfies_api_1_dot_5_dot_0_in_lt_2_dot_0_dot_0_sp_or_sp_gte_3_dot_0_dot_0() {
    assert_eq!(satisfies("1.5.0", "<2.0.0 || >=3.0.0"), Ok(true));
}

#[test]
fn satisfies_api_3_dot_1_dot_0_in_lt_2_dot_0_dot_0_sp_or_sp_gte_3_dot_0_dot_0() {
    assert_eq!(satisfies("3.1.0", "<2.0.0 || >=3.0.0"), Ok(true));
}

#[test]
fn satisfies_api_2_dot_5_dot_0_in_lt_2_dot_0_dot_0_sp_or_sp_gte_3_dot_0_dot_0() {
    assert_eq!(satisfies("2.5.0", "<2.0.0 || >=3.0.0"), Ok(false));
}

#[test]
fn satisfies_invalid_version_1() {
    assert!(satisfies("1", "1.2.3").is_err());
}

#[test]
fn satisfies_invalid_version_1_dot_x() {
    assert!(satisfies("1.x", "1.2.3").is_err());
}

#[test]
fn satisfies_invalid_version_caret_1_dot_2_dot_3() {
    assert!(satisfies("^1.2.3", "1.2.3").is_err());
}

#[test]
fn satisfies_invalid_range_empty() {
    assert!(satisfies("1.2.3", "").is_err());
}
