use verrost::lexer::{Comparator, Lexer, Token};

#[test]
fn lexes_1_dot_2_dot_3() {
    let mut lexer = Lexer::new();
    let actual = lexer.parse("1.2.3");
    let expected = vec![
        Token::Number("1"),
        Token::Dot,
        Token::Number("2"),
        Token::Dot,
        Token::Number("3"),
        Token::Eof,
    ];
    assert_eq!(actual, expected);
}

#[test]
fn lexes_v1_dot_2_dot_3() {
    let mut lexer = Lexer::new();
    let actual = lexer.parse("v1.2.3");
    let expected = vec![
        Token::Text("v"),
        Token::Number("1"),
        Token::Dot,
        Token::Number("2"),
        Token::Dot,
        Token::Number("3"),
        Token::Eof,
    ];
    assert_eq!(actual, expected);
}

#[test]
fn lexes_10_dot_20_dot_30() {
    let mut lexer = Lexer::new();
    let actual = lexer.parse("10.20.30");
    let expected = vec![
        Token::Number("10"),
        Token::Dot,
        Token::Number("20"),
        Token::Dot,
        Token::Number("30"),
        Token::Eof,
    ];
    assert_eq!(actual, expected);
}

#[test]
fn lexes_1() {
    let mut lexer = Lexer::new();
    let actual = lexer.parse("1");
    let expected = vec![
        Token::Number("1"),
        Token::Eof,
    ];
    assert_eq!(actual, expected);
}

#[test]
fn lexes_1_dot_2() {
    let mut lexer = Lexer::new();
    let actual = lexer.parse("1.2");
    let expected = vec![
        Token::Number("1"),
        Token::Dot,
        Token::Number("2"),
        Token::Eof,
    ];
    assert_eq!(actual, expected);
}

#[test]
fn lexes_eq() {
    let mut lexer = Lexer::new();
    let actual = lexer.parse("=");
    let expected = vec![
        Token::Comparator(Comparator::Eq),
        Token::Eof,
    ];
    assert_eq!(actual, expected);
}

#[test]
fn lexes_eq_1_dot_2_dot_3() {
    let mut lexer = Lexer::new();
    let actual = lexer.parse("=1.2.3");
    let expected = vec![
        Token::Comparator(Comparator::Eq),
        Token::Number("1"),
        Token::Dot,
        Token::Number("2"),
        Token::Dot,
        Token::Number("3"),
        Token::Eof,
    ];
    assert_eq!(actual, expected);
}

#[test]
fn lexes_eq_sp_1_dot_2_dot_3() {
    let mut lexer = Lexer::new();
    let actual = lexer.parse("= 1.2.3");
    let expected = vec![
        Token::Comparator(Comparator::Eq),
        Token::Whitespace(" "),
        Token::Number("1"),
        Token::Dot,
        Token::Number("2"),
        Token::Dot,
        Token::Number("3"),
        Token::Eof,
    ];
    assert_eq!(actual, expected);
}

#[test]
fn lexes_eq_1_dot_2_dot_3_sp_or_sp_eq_2_dot_0_dot_0() {
    let mut lexer = Lexer::new();
    let actual = lexer.parse("=1.2.3 || =2.0.0");
    let expected = vec![
        Token::Comparator(Comparator::Eq),
        Token::Number("1"),
        Token::Dot,
        Token::Number("2"),
        Token::Dot,
        Token::Number("3"),
        Token::Whitespace(" "),
        Token::LogicalOr,
        Token::Whitespace(" "),
        Token::Comparator(Comparator::Eq),
        Token::Number("2"),
        Token::Dot,
        Token::Number("0"),
        Token::Dot,
        Token::Number("0"),
        Token::Eof,
    ];
    assert_eq!(actual, expected);
}

#[test]
fn lexes_caret_1_dot_2_dot_3() {
    let mut lexer = Lexer::new();
    let actual = lexer.parse("^1.2.3");
    let expected = vec![
        Token::Caret,
        Token::Number("1"),
        Token::Dot,
        Token::Number("2"),
        Token::Dot,
        Token::Number("3"),
        Token::Eof,
    ];
    assert_eq!(actual, expected);
}

#[test]
fn lexes_tilde_1_dot_2_dot_3() {
    let mut lexer = Lexer::new();
    let actual = lexer.parse("~1.2.3");
    let expected = vec![
        Token::Tilde,
        Token::Number("1"),
        Token::Dot,
        Token::Number("2"),
        Token::Dot,
        Token::Number("3"),
        Token::Eof,
    ];
    assert_eq!(actual, expected);
}

#[test]
fn lexes_gte_1_dot_2_dot_3() {
    let mut lexer = Lexer::new();
    let actual = lexer.parse(">=1.2.3");
    let expected = vec![
        Token::Comparator(Comparator::Gte),
        Token::Number("1"),
        Token::Dot,
        Token::Number("2"),
        Token::Dot,
        Token::Number("3"),
        Token::Eof,
    ];
    assert_eq!(actual, expected);
}

#[test]
fn lexes_lte_1_dot_2_dot_3() {
    let mut lexer = Lexer::new();
    let actual = lexer.parse("<=1.2.3");
    let expected = vec![
        Token::Comparator(Comparator::Lte),
        Token::Number("1"),
        Token::Dot,
        Token::Number("2"),
        Token::Dot,
        Token::Number("3"),
        Token::Eof,
    ];
    assert_eq!(actual, expected);
}

#[test]
fn lexes_gt_1_dot_2_dot_3() {
    let mut lexer = Lexer::new();
    let actual = lexer.parse(">1.2.3");
    let expected = vec![
        Token::Comparator(Comparator::Gt),
        Token::Number("1"),
        Token::Dot,
        Token::Number("2"),
        Token::Dot,
        Token::Number("3"),
        Token::Eof,
    ];
    assert_eq!(actual, expected);
}

#[test]
fn lexes_lt_1_dot_2_dot_3() {
    let mut lexer = Lexer::new();
    let actual = lexer.parse("<1.2.3");
    let expected = vec![
        Token::Comparator(Comparator::Lt),
        Token::Number("1"),
        Token::Dot,
        Token::Number("2"),
        Token::Dot,
        Token::Number("3"),
        Token::Eof,
    ];
    assert_eq!(actual, expected);
}

#[test]
fn lexes_or() {
    let mut lexer = Lexer::new();
    let actual = lexer.parse("||");
    let expected = vec![
        Token::LogicalOr,
        Token::Eof,
    ];
    assert_eq!(actual, expected);
}

#[test]
fn lexes_1_dot_2_dot_3_sp_or_sp_2_dot_0_dot_0() {
    let mut lexer = Lexer::new();
    let actual = lexer.parse("1.2.3 || 2.0.0");
    let expected = vec![
        Token::Number("1"),
        Token::Dot,
        Token::Number("2"),
        Token::Dot,
        Token::Number("3"),
        Token::Whitespace(" "),
        Token::LogicalOr,
        Token::Whitespace(" "),
        Token::Number("2"),
        Token::Dot,
        Token::Number("0"),
        Token::Dot,
        Token::Number("0"),
        Token::Eof,
    ];
    assert_eq!(actual, expected);
}

#[test]
fn lexes_gte_1_dot_2_dot_3_sp_lt_2_dot_0_dot_0() {
    let mut lexer = Lexer::new();
    let actual = lexer.parse(">=1.2.3 <2.0.0");
    let expected = vec![
        Token::Comparator(Comparator::Gte),
        Token::Number("1"),
        Token::Dot,
        Token::Number("2"),
        Token::Dot,
        Token::Number("3"),
        Token::Whitespace(" "),
        Token::Comparator(Comparator::Lt),
        Token::Number("2"),
        Token::Dot,
        Token::Number("0"),
        Token::Dot,
        Token::Number("0"),
        Token::Eof,
    ];
    assert_eq!(actual, expected);
}

#[test]
fn lexes_gte_1_dot_2_dot_3_dash_0_sp_lt_2_dot_0_dot_0() {
    let mut lexer = Lexer::new();
    let actual = lexer.parse(">=1.2.3-0 <2.0.0");
    let expected = vec![
        Token::Comparator(Comparator::Gte),
        Token::Number("1"),
        Token::Dot,
        Token::Number("2"),
        Token::Dot,
        Token::Number("3"),
        Token::Dash,
        Token::Number("0"),
        Token::Whitespace(" "),
        Token::Comparator(Comparator::Lt),
        Token::Number("2"),
        Token::Dot,
        Token::Number("0"),
        Token::Dot,
        Token::Number("0"),
        Token::Eof,
    ];
    assert_eq!(actual, expected);
}

#[test]
fn lexes_1_dot_x_sp_gte_1_dot_2_dot_0() {
    let mut lexer = Lexer::new();
    let actual = lexer.parse("1.x >=1.2.0");
    let expected = vec![
        Token::Number("1"),
        Token::Dot,
        Token::Text("x"),
        Token::Whitespace(" "),
        Token::Comparator(Comparator::Gte),
        Token::Number("1"),
        Token::Dot,
        Token::Number("2"),
        Token::Dot,
        Token::Number("0"),
        Token::Eof,
    ];
    assert_eq!(actual, expected);
}

#[test]
fn lexes_tilde_1_dot_2_sp_gte_1_dot_2_dot_3() {
    let mut lexer = Lexer::new();
    let actual = lexer.parse("~1.2 >=1.2.3");
    let expected = vec![
        Token::Tilde,
        Token::Number("1"),
        Token::Dot,
        Token::Number("2"),
        Token::Whitespace(" "),
        Token::Comparator(Comparator::Gte),
        Token::Number("1"),
        Token::Dot,
        Token::Number("2"),
        Token::Dot,
        Token::Number("3"),
        Token::Eof,
    ];
    assert_eq!(actual, expected);
}

#[test]
fn lexes_gte_1_dot_0_dot_0_sp_lt_2_dot_0_dot_0_sp_gte_1_dot_5_dot_0() {
    let mut lexer = Lexer::new();
    let actual = lexer.parse(">=1.0.0 <2.0.0 >=1.5.0");
    let expected = vec![
        Token::Comparator(Comparator::Gte),
        Token::Number("1"),
        Token::Dot,
        Token::Number("0"),
        Token::Dot,
        Token::Number("0"),
        Token::Whitespace(" "),
        Token::Comparator(Comparator::Lt),
        Token::Number("2"),
        Token::Dot,
        Token::Number("0"),
        Token::Dot,
        Token::Number("0"),
        Token::Whitespace(" "),
        Token::Comparator(Comparator::Gte),
        Token::Number("1"),
        Token::Dot,
        Token::Number("5"),
        Token::Dot,
        Token::Number("0"),
        Token::Eof,
    ];
    assert_eq!(actual, expected);
}

#[test]
fn lexes_gte_1_dot_0_dot_0_sp_lt_2_dot_0_dot_0_sp_or_sp_gte_3_dot_0_dot_0() {
    let mut lexer = Lexer::new();
    let actual = lexer.parse(">=1.0.0 <2.0.0 || >=3.0.0");
    let expected = vec![
        Token::Comparator(Comparator::Gte),
        Token::Number("1"),
        Token::Dot,
        Token::Number("0"),
        Token::Dot,
        Token::Number("0"),
        Token::Whitespace(" "),
        Token::Comparator(Comparator::Lt),
        Token::Number("2"),
        Token::Dot,
        Token::Number("0"),
        Token::Dot,
        Token::Number("0"),
        Token::Whitespace(" "),
        Token::LogicalOr,
        Token::Whitespace(" "),
        Token::Comparator(Comparator::Gte),
        Token::Number("3"),
        Token::Dot,
        Token::Number("0"),
        Token::Dot,
        Token::Number("0"),
        Token::Eof,
    ];
    assert_eq!(actual, expected);
}

#[test]
fn lexes_1_dot_0_dot_0_dash_alpha_dot_1() {
    let mut lexer = Lexer::new();
    let actual = lexer.parse("1.0.0-alpha.1");
    let expected = vec![
        Token::Number("1"),
        Token::Dot,
        Token::Number("0"),
        Token::Dot,
        Token::Number("0"),
        Token::Dash,
        Token::Text("alpha"),
        Token::Dot,
        Token::Number("1"),
        Token::Eof,
    ];
    assert_eq!(actual, expected);
}

#[test]
fn lexes_1_dot_0_dot_0_dash_alpha_dot_beta() {
    let mut lexer = Lexer::new();
    let actual = lexer.parse("1.0.0-alpha.beta");
    let expected = vec![
        Token::Number("1"),
        Token::Dot,
        Token::Number("0"),
        Token::Dot,
        Token::Number("0"),
        Token::Dash,
        Token::Text("alpha"),
        Token::Dot,
        Token::Text("beta"),
        Token::Eof,
    ];
    assert_eq!(actual, expected);
}

#[test]
fn lexes_1_dot_0_dot_0_dash_0_dot_3_dot_7() {
    let mut lexer = Lexer::new();
    let actual = lexer.parse("1.0.0-0.3.7");
    let expected = vec![
        Token::Number("1"),
        Token::Dot,
        Token::Number("0"),
        Token::Dot,
        Token::Number("0"),
        Token::Dash,
        Token::Number("0"),
        Token::Dot,
        Token::Number("3"),
        Token::Dot,
        Token::Number("7"),
        Token::Eof,
    ];
    assert_eq!(actual, expected);
}

#[test]
fn lexes_1_dot_0_dot_0_dash_x_dot_7_dot_z_dot_92() {
    let mut lexer = Lexer::new();
    let actual = lexer.parse("1.0.0-x.7.z.92");
    let expected = vec![
        Token::Number("1"),
        Token::Dot,
        Token::Number("0"),
        Token::Dot,
        Token::Number("0"),
        Token::Dash,
        Token::Text("x"),
        Token::Dot,
        Token::Number("7"),
        Token::Dot,
        Token::Text("z"),
        Token::Dot,
        Token::Number("92"),
        Token::Eof,
    ];
    assert_eq!(actual, expected);
}

#[test]
fn lexes_1_dot_0_dot_0_plus_build_dot_1() {
    let mut lexer = Lexer::new();
    let actual = lexer.parse("1.0.0+build.1");
    let expected = vec![
        Token::Number("1"),
        Token::Dot,
        Token::Number("0"),
        Token::Dot,
        Token::Number("0"),
        Token::Plus,
        Token::Text("build"),
        Token::Dot,
        Token::Number("1"),
        Token::Eof,
    ];
    assert_eq!(actual, expected);
}

#[test]
fn lexes_1_dot_2_dot_3_dash_beta_dot_4_plus_build_dot_5678() {
    let mut lexer = Lexer::new();
    let actual = lexer.parse("1.2.3-beta.4+build.5678");
    let expected = vec![
        Token::Number("1"),
        Token::Dot,
        Token::Number("2"),
        Token::Dot,
        Token::Number("3"),
        Token::Dash,
        Token::Text("beta"),
        Token::Dot,
        Token::Number("4"),
        Token::Plus,
        Token::Text("build"),
        Token::Dot,
        Token::Number("5678"),
        Token::Eof,
    ];
    assert_eq!(actual, expected);
}

#[test]
fn lexes_gte_1_dot_2_dot_3_dash_alpha_sp_or_sp_lte_2_dot_0_dot_0_plus_build_dot_42() {
    let mut lexer = Lexer::new();
    let actual = lexer.parse(">=1.2.3-alpha || <=2.0.0+build.42");
    let expected = vec![
        Token::Comparator(Comparator::Gte),
        Token::Number("1"),
        Token::Dot,
        Token::Number("2"),
        Token::Dot,
        Token::Number("3"),
        Token::Dash,
        Token::Text("alpha"),
        Token::Whitespace(" "),
        Token::LogicalOr,
        Token::Whitespace(" "),
        Token::Comparator(Comparator::Lte),
        Token::Number("2"),
        Token::Dot,
        Token::Number("0"),
        Token::Dot,
        Token::Number("0"),
        Token::Plus,
        Token::Text("build"),
        Token::Dot,
        Token::Number("42"),
        Token::Eof,
    ];
    assert_eq!(actual, expected);
}

#[test]
fn lexes_gte_sp_1_dot_2_dot_3() {
    let mut lexer = Lexer::new();
    let actual = lexer.parse(">= 1.2.3");
    let expected = vec![
        Token::Comparator(Comparator::Gte),
        Token::Whitespace(" "),
        Token::Number("1"),
        Token::Dot,
        Token::Number("2"),
        Token::Dot,
        Token::Number("3"),
        Token::Eof,
    ];
    assert_eq!(actual, expected);
}

#[test]
fn lexes_1_dot_2_dot_3_sp_sp_sp_or_sp_sp_sp_4_dot_5_dot_6() {
    let mut lexer = Lexer::new();
    let actual = lexer.parse("1.2.3   ||   4.5.6");
    let expected = vec![
        Token::Number("1"),
        Token::Dot,
        Token::Number("2"),
        Token::Dot,
        Token::Number("3"),
        Token::Whitespace("   "),
        Token::LogicalOr,
        Token::Whitespace("   "),
        Token::Number("4"),
        Token::Dot,
        Token::Number("5"),
        Token::Dot,
        Token::Number("6"),
        Token::Eof,
    ];
    assert_eq!(actual, expected);
}

#[test]
fn lexes_sp_sp_sp_1_dot_2_dot_3_sp_sp_sp() {
    let mut lexer = Lexer::new();
    let actual = lexer.parse("   1.2.3   ");
    let expected = vec![
        Token::Whitespace("   "),
        Token::Number("1"),
        Token::Dot,
        Token::Number("2"),
        Token::Dot,
        Token::Number("3"),
        Token::Whitespace("   "),
        Token::Eof,
    ];
    assert_eq!(actual, expected);
}

#[test]
fn lexes_x() {
    let mut lexer = Lexer::new();
    let actual = lexer.parse("x");
    let expected = vec![
        Token::Text("x"),
        Token::Eof,
    ];
    assert_eq!(actual, expected);
}

#[test]
fn lexes_upper_x() {
    let mut lexer = Lexer::new();
    let actual = lexer.parse("X");
    let expected = vec![
        Token::Text("X"),
        Token::Eof,
    ];
    assert_eq!(actual, expected);
}

#[test]
fn lexes_star() {
    let mut lexer = Lexer::new();
    let actual = lexer.parse("*");
    let expected = vec![
        Token::Wildcard,
        Token::Eof,
    ];
    assert_eq!(actual, expected);
}

#[test]
fn lexes_1_dot_x() {
    let mut lexer = Lexer::new();
    let actual = lexer.parse("1.x");
    let expected = vec![
        Token::Number("1"),
        Token::Dot,
        Token::Text("x"),
        Token::Eof,
    ];
    assert_eq!(actual, expected);
}

#[test]
fn lexes_1_dot_upper_x() {
    let mut lexer = Lexer::new();
    let actual = lexer.parse("1.X");
    let expected = vec![
        Token::Number("1"),
        Token::Dot,
        Token::Text("X"),
        Token::Eof,
    ];
    assert_eq!(actual, expected);
}

#[test]
fn lexes_1_dot_star() {
    let mut lexer = Lexer::new();
    let actual = lexer.parse("1.*");
    let expected = vec![
        Token::Number("1"),
        Token::Dot,
        Token::Wildcard,
        Token::Eof,
    ];
    assert_eq!(actual, expected);
}

#[test]
fn lexes_1_dot_x_dot_x() {
    let mut lexer = Lexer::new();
    let actual = lexer.parse("1.x.x");
    let expected = vec![
        Token::Number("1"),
        Token::Dot,
        Token::Text("x"),
        Token::Dot,
        Token::Text("x"),
        Token::Eof,
    ];
    assert_eq!(actual, expected);
}

#[test]
fn lexes_1_dot_upper_x_dot_star() {
    let mut lexer = Lexer::new();
    let actual = lexer.parse("1.X.*");
    let expected = vec![
        Token::Number("1"),
        Token::Dot,
        Token::Text("X"),
        Token::Dot,
        Token::Wildcard,
        Token::Eof,
    ];
    assert_eq!(actual, expected);
}

#[test]
fn lexes_x_dot_x_dot_x() {
    let mut lexer = Lexer::new();
    let actual = lexer.parse("x.x.x");
    let expected = vec![
        Token::Text("x"),
        Token::Dot,
        Token::Text("x"),
        Token::Dot,
        Token::Text("x"),
        Token::Eof,
    ];
    assert_eq!(actual, expected);
}

#[test]
fn lexes_caret_1_dot_x() {
    let mut lexer = Lexer::new();
    let actual = lexer.parse("^1.x");
    let expected = vec![
        Token::Caret,
        Token::Number("1"),
        Token::Dot,
        Token::Text("x"),
        Token::Eof,
    ];
    assert_eq!(actual, expected);
}

#[test]
fn lexes_1_dot_2_dot_3_sp_dash_sp_2_dot_3_dot_4() {
    let mut lexer = Lexer::new();
    let actual = lexer.parse("1.2.3 - 2.3.4");
    let expected = vec![
        Token::Number("1"),
        Token::Dot,
        Token::Number("2"),
        Token::Dot,
        Token::Number("3"),
        Token::Whitespace(" "),
        Token::Dash,
        Token::Whitespace(" "),
        Token::Number("2"),
        Token::Dot,
        Token::Number("3"),
        Token::Dot,
        Token::Number("4"),
        Token::Eof,
    ];
    assert_eq!(actual, expected);
}

#[test]
fn lexes_caret_0_dot_0_dot_3() {
    let mut lexer = Lexer::new();
    let actual = lexer.parse("^0.0.3");
    let expected = vec![
        Token::Caret,
        Token::Number("0"),
        Token::Dot,
        Token::Number("0"),
        Token::Dot,
        Token::Number("3"),
        Token::Eof,
    ];
    assert_eq!(actual, expected);
}

#[test]
fn lexes_0_dot_0_dot_0_dash_0() {
    let mut lexer = Lexer::new();
    let actual = lexer.parse("0.0.0-0");
    let expected = vec![
        Token::Number("0"),
        Token::Dot,
        Token::Number("0"),
        Token::Dot,
        Token::Number("0"),
        Token::Dash,
        Token::Number("0"),
        Token::Eof,
    ];
    assert_eq!(actual, expected);
}

#[test]
fn lexes_gte_1_dot_2_dot_3_dash_0() {
    let mut lexer = Lexer::new();
    let actual = lexer.parse(">=1.2.3-0");
    let expected = vec![
        Token::Comparator(Comparator::Gte),
        Token::Number("1"),
        Token::Dot,
        Token::Number("2"),
        Token::Dot,
        Token::Number("3"),
        Token::Dash,
        Token::Number("0"),
        Token::Eof,
    ];
    assert_eq!(actual, expected);
}

#[test]
fn lexes_git_colon_slash_slash_github_dot_com_slash_user_slash_project_dot_git() {
    let mut lexer = Lexer::new();
    let actual = lexer.parse("git://github.com/user/project.git");
    let expected = vec![
        Token::Text("git://github"),
        Token::Dot,
        Token::Text("com/user/project"),
        Token::Dot,
        Token::Text("git"),
        Token::Eof,
    ];
    assert_eq!(actual, expected);
}

#[test]
fn lexes_file_colon_dot_dot_slash_local_dash_pkg() {
    let mut lexer = Lexer::new();
    let actual = lexer.parse("file:../local-pkg");
    let expected = vec![
        Token::Text("file:"),
        Token::Dot,
        Token::Dot,
        Token::Unknown("/"),
        Token::Text("local-pkg"),
        Token::Eof,
    ];
    assert_eq!(actual, expected);
}

#[test]
fn lexes_1_dot_0_dot_0_dash_alpha_dash_beta() {
    let mut lexer = Lexer::new();
    let actual = lexer.parse("1.0.0-alpha-beta");
    let expected = vec![
        Token::Number("1"),
        Token::Dot,
        Token::Number("0"),
        Token::Dot,
        Token::Number("0"),
        Token::Dash,
        Token::Text("alpha-beta"),
        Token::Eof,
    ];
    assert_eq!(actual, expected);
}

#[test]
fn lexes_1_dot_0_dot_0_dash_x_dash_y_dash_z() {
    let mut lexer = Lexer::new();
    let actual = lexer.parse("1.0.0-x-y-z");
    let expected = vec![
        Token::Number("1"),
        Token::Dot,
        Token::Number("0"),
        Token::Dot,
        Token::Number("0"),
        Token::Dash,
        Token::Text("x-y-z"),
        Token::Eof,
    ];
    assert_eq!(actual, expected);
}

#[test]
fn lexes_github_colon_user_slash_repo_hash_v1_dot_0_dot_0() {
    let mut lexer = Lexer::new();
    let actual = lexer.parse("github:user/repo#v1.0.0");
    let expected = vec![
        Token::Text("github:user/repo"),
        Token::Unknown("#"),
        Token::Text("v"),
        Token::Number("1"),
        Token::Dot,
        Token::Number("0"),
        Token::Dot,
        Token::Number("0"),
        Token::Eof,
    ];
    assert_eq!(actual, expected);
}

#[test]
fn lexes_npm_colon_lodash_at_caret_3_dot_0_dot_0() {
    let mut lexer = Lexer::new();
    let actual = lexer.parse("npm:lodash@^3.0.0");
    let expected = vec![
        Token::Text("npm:lodash"),
        Token::Unknown("@"),
        Token::Caret,
        Token::Number("3"),
        Token::Dot,
        Token::Number("0"),
        Token::Dot,
        Token::Number("0"),
        Token::Eof,
    ];
    assert_eq!(actual, expected);
}

#[test]
fn lexes_npm_colon_at_org_slash_pkg_at_1_dot_2_dot_3() {
    let mut lexer = Lexer::new();
    let actual = lexer.parse("npm:@org/pkg@1.2.3");
    let expected = vec![
        Token::Text("npm:"),
        Token::Unknown("@"),
        Token::Text("org/pkg"),
        Token::Unknown("@"),
        Token::Number("1"),
        Token::Dot,
        Token::Number("2"),
        Token::Dot,
        Token::Number("3"),
        Token::Eof,
    ];
    assert_eq!(actual, expected);
}
