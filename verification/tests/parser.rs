use verrost::lexer::Lexer;
use verrost::parser::{
    Comparator, ComparatorOp, ComparatorSet, Identifier, Parser, ParserError, PartialComparator,
    PartialComparatorOp, PartialVersion, Version, VersionComponent, VersionRange,
};
use VersionComponent::{Number, Wildcard};

fn bare(op: ComparatorOp, major: u32, minor: u32, patch: u32) -> Comparator<'static> {
    Comparator {
        op,
        version: Version { major, minor, patch, pre_release: vec![], build: vec![] },
    }
}

#[test]
fn parses_1_dot_2_dot_3() {
    let tokens = Lexer::new().parse("1.2.3");
    let mut parser = Parser::new(tokens);
    let actual = parser.parse();
    let expected: Result<VersionRange, ParserError> = Ok(VersionRange {
        sets: vec![
            ComparatorSet {
                comparators: vec![
                    Comparator {
                        op: ComparatorOp::Eq,
                        version: Version {
                            major: 1,
                            minor: 2,
                            patch: 3,
                            pre_release: vec![],
                            build: vec![],
                        },
                    },
                ],
            },
        ],
    });
    assert_eq!(actual, expected);
}

#[test]
fn parses_1() {
    let tokens = Lexer::new().parse("1");
    let mut parser = Parser::new(tokens);
    let actual = parser.parse();
    let expected: Result<VersionRange, ParserError> = Ok(VersionRange {
        sets: vec![
            ComparatorSet {
                comparators: vec![
                    Comparator {
                        op: ComparatorOp::Gte,
                        version: Version {
                            major: 1,
                            minor: 0,
                            patch: 0,
                            pre_release: vec![],
                            build: vec![],
                        },
                    },
                    Comparator {
                        op: ComparatorOp::Lt,
                        version: Version {
                            major: 2,
                            minor: 0,
                            patch: 0,
                            pre_release: vec![],
                            build: vec![],
                        },
                    },
                ],
            },
        ],
    });
    assert_eq!(actual, expected);
}

#[test]
fn parses_1_dot_2() {
    let tokens = Lexer::new().parse("1.2");
    let mut parser = Parser::new(tokens);
    let actual = parser.parse();
    let expected: Result<VersionRange, ParserError> = Ok(VersionRange {
        sets: vec![
            ComparatorSet {
                comparators: vec![
                    Comparator {
                        op: ComparatorOp::Gte,
                        version: Version {
                            major: 1,
                            minor: 2,
                            patch: 0,
                            pre_release: vec![],
                            build: vec![],
                        },
                    },
                    Comparator {
                        op: ComparatorOp::Lt,
                        version: Version {
                            major: 1,
                            minor: 3,
                            patch: 0,
                            pre_release: vec![],
                            build: vec![],
                        },
                    },
                ],
            },
        ],
    });
    assert_eq!(actual, expected);
}

#[test]
fn parses_1_dot_2_dot_3_dash_alpha() {
    let tokens = Lexer::new().parse("1.2.3-alpha");
    let mut parser = Parser::new(tokens);
    let actual = parser.parse();
    let expected: Result<VersionRange, ParserError> = Ok(VersionRange {
        sets: vec![
            ComparatorSet {
                comparators: vec![
                    Comparator {
                        op: ComparatorOp::Eq,
                        version: Version {
                            major: 1,
                            minor: 2,
                            patch: 3,
                            pre_release: vec![
                                Identifier::Text("alpha".into()),
                            ],
                            build: vec![],
                        },
                    },
                ],
            },
        ],
    });
    assert_eq!(actual, expected);
}

#[test]
fn parses_1_dot_2_dot_3_plus_build() {
    let tokens = Lexer::new().parse("1.2.3+build");
    let mut parser = Parser::new(tokens);
    let actual = parser.parse();
    let expected: Result<VersionRange, ParserError> = Ok(VersionRange {
        sets: vec![
            ComparatorSet {
                comparators: vec![
                    Comparator {
                        op: ComparatorOp::Eq,
                        version: Version {
                            major: 1,
                            minor: 2,
                            patch: 3,
                            pre_release: vec![],
                            build: vec![
                                Identifier::Text("build".into()),
                            ],
                        },
                    },
                ],
            },
        ],
    });
    assert_eq!(actual, expected);
}

#[test]
fn parses_1_dot_2_dot_3_dash_alpha_plus_build() {
    let tokens = Lexer::new().parse("1.2.3-alpha+build");
    let mut parser = Parser::new(tokens);
    let actual = parser.parse();
    let expected: Result<VersionRange, ParserError> = Ok(VersionRange {
        sets: vec![
            ComparatorSet {
                comparators: vec![
                    Comparator {
                        op: ComparatorOp::Eq,
                        version: Version {
                            major: 1,
                            minor: 2,
                            patch: 3,
                            pre_release: vec![
                                Identifier::Text("alpha".into()),
                            ],
                            build: vec![
                                Identifier::Text("build".into()),
                            ],
                        },
                    },
                ],
            },
        ],
    });
    assert_eq!(actual, expected);
}

#[test]
fn parses_1_dot_2_dot_3_dash_rc_dot_1_plus_exp_dot_sha_dot_5114f85() {
    let tokens = Lexer::new().parse("1.2.3-rc.1+exp.sha.5114f85");
    let mut parser = Parser::new(tokens);
    let actual = parser.parse();
    let expected: Result<VersionRange, ParserError> = Ok(VersionRange {
        sets: vec![
            ComparatorSet {
                comparators: vec![
                    Comparator {
                        op: ComparatorOp::Eq,
                        version: Version {
                            major: 1,
                            minor: 2,
                            patch: 3,
                            pre_release: vec![
                                Identifier::Text("rc".into()),
                                Identifier::Number(1),
                            ],
                            build: vec![
                                Identifier::Text("exp".into()),
                                Identifier::Text("sha".into()),
                                Identifier::Text("5114f85".into()),
                            ],
                        },
                    },
                ],
            },
        ],
    });
    assert_eq!(actual, expected);
}

#[test]
fn parses_1_dot_2_dot_3_plus_build_dash_alpha() {
    let tokens = Lexer::new().parse("1.2.3+build-alpha");
    let mut parser = Parser::new(tokens);
    let actual = parser.parse();
    let expected: Result<VersionRange, ParserError> = Ok(VersionRange {
        sets: vec![
            ComparatorSet {
                comparators: vec![
                    Comparator {
                        op: ComparatorOp::Eq,
                        version: Version {
                            major: 1,
                            minor: 2,
                            patch: 3,
                            pre_release: vec![],
                            build: vec![
                                Identifier::Text("build-alpha".into()),
                            ],
                        },
                    },
                ],
            },
        ],
    });
    assert_eq!(actual, expected);
}

#[test]
fn parses_1_dot_2_dot_3_plus_build_dash_alpha_dot_1() {
    let tokens = Lexer::new().parse("1.2.3+build-alpha.1");
    let mut parser = Parser::new(tokens);
    let actual = parser.parse();
    let expected: Result<VersionRange, ParserError> = Ok(VersionRange {
        sets: vec![
            ComparatorSet {
                comparators: vec![
                    Comparator {
                        op: ComparatorOp::Eq,
                        version: Version {
                            major: 1,
                            minor: 2,
                            patch: 3,
                            pre_release: vec![],
                            build: vec![
                                Identifier::Text("build-alpha".into()),
                                Identifier::Number(1),
                            ],
                        },
                    },
                ],
            },
        ],
    });
    assert_eq!(actual, expected);
}

#[test]
fn parses_1_dot_2_dot_3_dash_1() {
    let tokens = Lexer::new().parse("1.2.3-1");
    let mut parser = Parser::new(tokens);
    let actual = parser.parse();
    let expected: Result<VersionRange, ParserError> = Ok(VersionRange {
        sets: vec![
            ComparatorSet {
                comparators: vec![
                    Comparator {
                        op: ComparatorOp::Eq,
                        version: Version {
                            major: 1,
                            minor: 2,
                            patch: 3,
                            pre_release: vec![
                                Identifier::Number(1),
                            ],
                            build: vec![],
                        },
                    },
                ],
            },
        ],
    });
    assert_eq!(actual, expected);
}

#[test]
fn parses_1_dot_2_dot_3_dash_001() {
    let tokens = Lexer::new().parse("1.2.3-001");
    let mut parser = Parser::new(tokens);
    let actual = parser.parse();
    let expected: Result<VersionRange, ParserError> = Err(ParserError::NumericIdentifierLeadingZero);
    assert_eq!(actual, expected);
}

#[test]
fn parses_1_dot_2_dot_3_plus_build_plus_foo() {
    let tokens = Lexer::new().parse("1.2.3+build+foo");
    let mut parser = Parser::new(tokens);
    let actual = parser.parse();
    let expected: Result<VersionRange, ParserError> = Err(ParserError::InvalidMetadataIdentifier);
    assert_eq!(actual, expected);
}

#[test]
fn parses_gte_1_dot_2_dot_3_sp_lt_2_dot_0_dot_0_sp_or_sp_caret_3_dot_0_dot_0() {
    let tokens = Lexer::new().parse(">=1.2.3 <2.0.0 || ^3.0.0");
    let mut parser = Parser::new(tokens);
    let actual = parser.parse();
    let expected: Result<VersionRange, ParserError> = Ok(VersionRange {
        sets: vec![
            ComparatorSet {
                comparators: vec![
                    // >=1.2.3
                    Comparator {
                        op: ComparatorOp::Gte,
                        version: Version {
                            major: 1,
                            minor: 2,
                            patch: 3,
                            pre_release: vec![],
                            build: vec![],
                        },
                    },
                    // <2.0.0
                    Comparator {
                        op: ComparatorOp::Lt,
                        version: Version {
                            major: 2,
                            minor: 0,
                            patch: 0,
                            pre_release: vec![],
                            build: vec![],
                        },
                    },
                ],
            },
            ComparatorSet {
                comparators: vec![
                    // >=3.0.0 (from ^3.0.0)
                    Comparator {
                        op: ComparatorOp::Gte,
                        version: Version {
                            major: 3,
                            minor: 0,
                            patch: 0,
                            pre_release: vec![],
                            build: vec![],
                        },
                    },
                    // <4.0.0 (from ^3.0.0)
                    Comparator {
                        op: ComparatorOp::Lt,
                        version: Version {
                            major: 4,
                            minor: 0,
                            patch: 0,
                            pre_release: vec![],
                            build: vec![],
                        },
                    },
                ],
            },
        ],
    });
    assert_eq!(actual, expected);
}

#[test]
fn parses_1_dot_0_dot_0_sp_or_sp_2_dot_0_dot_0_sp_or_sp_3_dot_0_dot_0() {
    let tokens = Lexer::new().parse("1.0.0 || 2.0.0 || 3.0.0");
    let mut parser = Parser::new(tokens);
    let actual = parser.parse();
    let expected: Result<VersionRange, ParserError> = Ok(VersionRange {
        sets: vec![
            ComparatorSet {
                comparators: vec![
                    Comparator {
                        op: ComparatorOp::Eq,
                        version: Version { major: 1, minor: 0, patch: 0, pre_release: vec![], build: vec![] },
                    },
                ],
            },
            ComparatorSet {
                comparators: vec![
                    Comparator {
                        op: ComparatorOp::Eq,
                        version: Version { major: 2, minor: 0, patch: 0, pre_release: vec![], build: vec![] },
                    },
                ],
            },
            ComparatorSet {
                comparators: vec![
                    Comparator {
                        op: ComparatorOp::Eq,
                        version: Version { major: 3, minor: 0, patch: 0, pre_release: vec![], build: vec![] },
                    },
                ],
            },
        ],
    });
    assert_eq!(actual, expected);
}

#[test]
fn parses_1_dot_2_or_2_dot_3() {
    let tokens = Lexer::new().parse("1.2||2.3");
    let mut parser = Parser::new(tokens);
    let actual = parser.parse();
    let expected: Result<VersionRange, ParserError> = Ok(VersionRange {
        sets: vec![
            ComparatorSet {
                comparators: vec![
                    Comparator {
                        op: ComparatorOp::Gte,
                        version: Version { major: 1, minor: 2, patch: 0, pre_release: vec![], build: vec![] },
                    },
                    Comparator {
                        op: ComparatorOp::Lt,
                        version: Version { major: 1, minor: 3, patch: 0, pre_release: vec![], build: vec![] },
                    },
                ],
            },
            ComparatorSet {
                comparators: vec![
                    Comparator {
                        op: ComparatorOp::Gte,
                        version: Version { major: 2, minor: 3, patch: 0, pre_release: vec![], build: vec![] },
                    },
                    Comparator {
                        op: ComparatorOp::Lt,
                        version: Version { major: 2, minor: 4, patch: 0, pre_release: vec![], build: vec![] },
                    },
                ],
            },
        ],
    });
    assert_eq!(actual, expected);
}

#[test]
fn parses_1_dot_2_dot_3_sp_or() {
    let tokens = Lexer::new().parse("1.2.3 ||");
    let mut parser = Parser::new(tokens);
    let actual = parser.parse();
    let expected: Result<VersionRange, ParserError> = Err(ParserError::ExpectedVersionComponent);
    assert_eq!(actual, expected);
}

#[test]
fn parses_star() {
    let tokens = Lexer::new().parse("*");
    let mut parser = Parser::new(tokens);
    let actual = parser.parse();
    let expected: Result<VersionRange, ParserError> = Ok(VersionRange {
        sets: vec![
            ComparatorSet {
                comparators: vec![
                    Comparator {
                        op: ComparatorOp::Gte,
                        version: Version {
                            major: 0,
                            minor: 0,
                            patch: 0,
                            pre_release: vec![],
                            build: vec![],
                        },
                    },
                ],
            },
        ],
    });
    assert_eq!(actual, expected);
}

#[test]
fn parses_1_dot_x_dot_x() {
    let tokens = Lexer::new().parse("1.x.x");
    let mut parser = Parser::new(tokens);
    let actual = parser.parse();
    let expected: Result<VersionRange, ParserError> = Ok(VersionRange {
        sets: vec![
            ComparatorSet {
                comparators: vec![
                    Comparator {
                        op: ComparatorOp::Gte,
                        version: Version {
                            major: 1,
                            minor: 0,
                            patch: 0,
                            pre_release: vec![],
                            build: vec![],
                        },
                    },
                    Comparator {
                        op: ComparatorOp::Lt,
                        version: Version {
                            major: 2,
                            minor: 0,
                            patch: 0,
                            pre_release: vec![],
                            build: vec![],
                        },
                    },
                ],
            },
        ],
    });
    assert_eq!(actual, expected);
}

#[test]
fn parses_1_again() {
    let tokens = Lexer::new().parse("1");
    let mut parser = Parser::new(tokens);
    let actual = parser.parse();
    let expected: Result<VersionRange, ParserError> = Ok(VersionRange {
        sets: vec![
            ComparatorSet {
                comparators: vec![
                    Comparator {
                        op: ComparatorOp::Gte,
                        version: Version {
                            major: 1,
                            minor: 0,
                            patch: 0,
                            pre_release: vec![],
                            build: vec![],
                        },
                    },
                    Comparator {
                        op: ComparatorOp::Lt,
                        version: Version {
                            major: 2,
                            minor: 0,
                            patch: 0,
                            pre_release: vec![],
                            build: vec![],
                        },
                    },
                ],
            },
        ],
    });
    assert_eq!(actual, expected);
}

#[test]
fn parses_1_dot_x() {
    let tokens = Lexer::new().parse("1.x");
    let mut parser = Parser::new(tokens);
    let actual = parser.parse();
    let expected: Result<VersionRange, ParserError> = Ok(VersionRange {
        sets: vec![
            ComparatorSet {
                comparators: vec![
                    Comparator {
                        op: ComparatorOp::Gte,
                        version: Version {
                            major: 1,
                            minor: 0,
                            patch: 0,
                            pre_release: vec![],
                            build: vec![],
                        },
                    },
                    Comparator {
                        op: ComparatorOp::Lt,
                        version: Version {
                            major: 2,
                            minor: 0,
                            patch: 0,
                            pre_release: vec![],
                            build: vec![],
                        },
                    },
                ],
            },
        ],
    });
    assert_eq!(actual, expected);
}

#[test]
fn parses_1_dot_star() {
    let tokens = Lexer::new().parse("1.*");
    let mut parser = Parser::new(tokens);
    let actual = parser.parse();
    let expected: Result<VersionRange, ParserError> = Ok(VersionRange {
        sets: vec![
            ComparatorSet {
                comparators: vec![
                    Comparator {
                        op: ComparatorOp::Gte,
                        version: Version {
                            major: 1,
                            minor: 0,
                            patch: 0,
                            pre_release: vec![],
                            build: vec![],
                        },
                    },
                    Comparator {
                        op: ComparatorOp::Lt,
                        version: Version {
                            major: 2,
                            minor: 0,
                            patch: 0,
                            pre_release: vec![],
                            build: vec![],
                        },
                    },
                ],
            },
        ],
    });
    assert_eq!(actual, expected);
}

#[test]
fn parses_1_dot_upper_x() {
    let tokens = Lexer::new().parse("1.X");
    let mut parser = Parser::new(tokens);
    let actual = parser.parse();
    let expected: Result<VersionRange, ParserError> = Ok(VersionRange {
        sets: vec![
            ComparatorSet {
                comparators: vec![
                    Comparator {
                        op: ComparatorOp::Gte,
                        version: Version {
                            major: 1,
                            minor: 0,
                            patch: 0,
                            pre_release: vec![],
                            build: vec![],
                        },
                    },
                    Comparator {
                        op: ComparatorOp::Lt,
                        version: Version {
                            major: 2,
                            minor: 0,
                            patch: 0,
                            pre_release: vec![],
                            build: vec![],
                        },
                    },
                ],
            },
        ],
    });
    assert_eq!(actual, expected);
}

#[test]
fn desugars_caret_0_0_3() {
    let parser = Parser::new(vec![]);
    let input = PartialComparator {
        op: PartialComparatorOp::Caret,
        version: PartialVersion {
            major: Number(0),
            minor: Number(0),
            patch: Number(3),
            pre_release: vec![],
            build: vec![],
        },
    };
    let expected = Ok(vec![
        bare(ComparatorOp::Gte, 0, 0, 3),
        bare(ComparatorOp::Lt, 0, 0, 4),
    ]);
    assert_eq!(parser.desugar_partial_comparator(input), expected);
}

#[test]
fn desugars_caret_0_2_3() {
    let parser = Parser::new(vec![]);
    let input = PartialComparator {
        op: PartialComparatorOp::Caret,
        version: PartialVersion {
            major: Number(0),
            minor: Number(2),
            patch: Number(3),
            pre_release: vec![],
            build: vec![],
        },
    };
    let expected = Ok(vec![
        bare(ComparatorOp::Gte, 0, 2, 3),
        bare(ComparatorOp::Lt, 0, 3, 0),
    ]);
    assert_eq!(parser.desugar_partial_comparator(input), expected);
}

#[test]
fn desugars_caret_1_2_3() {
    let parser = Parser::new(vec![]);
    let input = PartialComparator {
        op: PartialComparatorOp::Caret,
        version: PartialVersion {
            major: Number(1),
            minor: Number(2),
            patch: Number(3),
            pre_release: vec![],
            build: vec![],
        },
    };
    let expected = Ok(vec![
        bare(ComparatorOp::Gte, 1, 2, 3),
        bare(ComparatorOp::Lt, 2, 0, 0),
    ]);
    assert_eq!(parser.desugar_partial_comparator(input), expected);
}

#[test]
fn desugars_caret_0_0_x() {
    let parser = Parser::new(vec![]);
    let input = PartialComparator {
        op: PartialComparatorOp::Caret,
        version: PartialVersion {
            major: Number(0),
            minor: Number(0),
            patch: Wildcard,
            pre_release: vec![],
            build: vec![],
        },
    };
    let expected = Ok(vec![
        bare(ComparatorOp::Gte, 0, 0, 0),
        bare(ComparatorOp::Lt, 0, 1, 0),
    ]);
    assert_eq!(parser.desugar_partial_comparator(input), expected);
}

#[test]
fn desugars_caret_0_2_x() {
    let parser = Parser::new(vec![]);
    let input = PartialComparator {
        op: PartialComparatorOp::Caret,
        version: PartialVersion {
            major: Number(0),
            minor: Number(2),
            patch: Wildcard,
            pre_release: vec![],
            build: vec![],
        },
    };
    let expected = Ok(vec![
        bare(ComparatorOp::Gte, 0, 2, 0),
        bare(ComparatorOp::Lt, 0, 3, 0),
    ]);
    assert_eq!(parser.desugar_partial_comparator(input), expected);
}

#[test]
fn desugars_caret_1_2_x() {
    let parser = Parser::new(vec![]);
    let input = PartialComparator {
        op: PartialComparatorOp::Caret,
        version: PartialVersion {
            major: Number(1),
            minor: Number(2),
            patch: Wildcard,
            pre_release: vec![],
            build: vec![],
        },
    };
    let expected = Ok(vec![
        bare(ComparatorOp::Gte, 1, 2, 0),
        bare(ComparatorOp::Lt, 2, 0, 0),
    ]);
    assert_eq!(parser.desugar_partial_comparator(input), expected);
}

#[test]
fn desugars_caret_0_x_x() {
    let parser = Parser::new(vec![]);
    let input = PartialComparator {
        op: PartialComparatorOp::Caret,
        version: PartialVersion {
            major: Number(0),
            minor: Wildcard,
            patch: Wildcard,
            pre_release: vec![],
            build: vec![],
        },
    };
    let expected = Ok(vec![
        bare(ComparatorOp::Gte, 0, 0, 0),
        bare(ComparatorOp::Lt, 1, 0, 0),
    ]);
    assert_eq!(parser.desugar_partial_comparator(input), expected);
}

#[test]
fn desugars_caret_1_x_x() {
    let parser = Parser::new(vec![]);
    let input = PartialComparator {
        op: PartialComparatorOp::Caret,
        version: PartialVersion {
            major: Number(1),
            minor: Wildcard,
            patch: Wildcard,
            pre_release: vec![],
            build: vec![],
        },
    };
    let expected = Ok(vec![
        bare(ComparatorOp::Gte, 1, 0, 0),
        bare(ComparatorOp::Lt, 2, 0, 0),
    ]);
    assert_eq!(parser.desugar_partial_comparator(input), expected);
}

#[test]
fn desugars_tilde_0_2_3() {
    let parser = Parser::new(vec![]);
    let input = PartialComparator {
        op: PartialComparatorOp::Tilde,
        version: PartialVersion {
            major: Number(0),
            minor: Number(2),
            patch: Number(3),
            pre_release: vec![],
            build: vec![],
        },
    };
    let expected = Ok(vec![
        bare(ComparatorOp::Gte, 0, 2, 3),
        bare(ComparatorOp::Lt, 0, 3, 0),
    ]);
    assert_eq!(parser.desugar_partial_comparator(input), expected);
}

#[test]
fn desugars_tilde_1_2_3() {
    let parser = Parser::new(vec![]);
    let input = PartialComparator {
        op: PartialComparatorOp::Tilde,
        version: PartialVersion {
            major: Number(1),
            minor: Number(2),
            patch: Number(3),
            pre_release: vec![],
            build: vec![],
        },
    };
    let expected = Ok(vec![
        bare(ComparatorOp::Gte, 1, 2, 3),
        bare(ComparatorOp::Lt, 1, 3, 0),
    ]);
    assert_eq!(parser.desugar_partial_comparator(input), expected);
}

#[test]
fn desugars_tilde_0_2_x() {
    let parser = Parser::new(vec![]);
    let input = PartialComparator {
        op: PartialComparatorOp::Tilde,
        version: PartialVersion {
            major: Number(0),
            minor: Number(2),
            patch: Wildcard,
            pre_release: vec![],
            build: vec![],
        },
    };
    let expected = Ok(vec![
        bare(ComparatorOp::Gte, 0, 2, 0),
        bare(ComparatorOp::Lt, 0, 3, 0),
    ]);
    assert_eq!(parser.desugar_partial_comparator(input), expected);
}

#[test]
fn desugars_tilde_1_2_x() {
    let parser = Parser::new(vec![]);
    let input = PartialComparator {
        op: PartialComparatorOp::Tilde,
        version: PartialVersion {
            major: Number(1),
            minor: Number(2),
            patch: Wildcard,
            pre_release: vec![],
            build: vec![],
        },
    };
    let expected = Ok(vec![
        bare(ComparatorOp::Gte, 1, 2, 0),
        bare(ComparatorOp::Lt, 1, 3, 0),
    ]);
    assert_eq!(parser.desugar_partial_comparator(input), expected);
}

#[test]
fn desugars_tilde_0_x_x() {
    let parser = Parser::new(vec![]);
    let input = PartialComparator {
        op: PartialComparatorOp::Tilde,
        version: PartialVersion {
            major: Number(0),
            minor: Wildcard,
            patch: Wildcard,
            pre_release: vec![],
            build: vec![],
        },
    };
    let expected = Ok(vec![
        bare(ComparatorOp::Gte, 0, 0, 0),
        bare(ComparatorOp::Lt, 1, 0, 0),
    ]);
    assert_eq!(parser.desugar_partial_comparator(input), expected);
}

#[test]
fn desugars_tilde_1_x_x() {
    let parser = Parser::new(vec![]);
    let input = PartialComparator {
        op: PartialComparatorOp::Tilde,
        version: PartialVersion {
            major: Number(1),
            minor: Wildcard,
            patch: Wildcard,
            pre_release: vec![],
            build: vec![],
        },
    };
    let expected = Ok(vec![
        bare(ComparatorOp::Gte, 1, 0, 0),
        bare(ComparatorOp::Lt, 2, 0, 0),
    ]);
    assert_eq!(parser.desugar_partial_comparator(input), expected);
}

#[test]
fn desugars_eq_1_2_3() {
    let parser = Parser::new(vec![]);
    let input = PartialComparator {
        op: PartialComparatorOp::Eq,
        version: PartialVersion {
            major: Number(1),
            minor: Number(2),
            patch: Number(3),
            pre_release: vec![],
            build: vec![],
        },
    };
    let expected = Ok(vec![
        bare(ComparatorOp::Eq, 1, 2, 3),
    ]);
    assert_eq!(parser.desugar_partial_comparator(input), expected);
}

#[test]
fn desugars_eq_1_2_x() {
    let parser = Parser::new(vec![]);
    let input = PartialComparator {
        op: PartialComparatorOp::Eq,
        version: PartialVersion {
            major: Number(1),
            minor: Number(2),
            patch: Wildcard,
            pre_release: vec![],
            build: vec![],
        },
    };
    let expected = Ok(vec![
        bare(ComparatorOp::Gte, 1, 2, 0),
        bare(ComparatorOp::Lt, 1, 3, 0),
    ]);
    assert_eq!(parser.desugar_partial_comparator(input), expected);
}

#[test]
fn desugars_eq_0_2_x() {
    let parser = Parser::new(vec![]);
    let input = PartialComparator {
        op: PartialComparatorOp::Eq,
        version: PartialVersion {
            major: Number(0),
            minor: Number(2),
            patch: Wildcard,
            pre_release: vec![],
            build: vec![],
        },
    };
    let expected = Ok(vec![
        bare(ComparatorOp::Gte, 0, 2, 0),
        bare(ComparatorOp::Lt, 0, 3, 0),
    ]);
    assert_eq!(parser.desugar_partial_comparator(input), expected);
}

#[test]
fn desugars_eq_1_x_x() {
    let parser = Parser::new(vec![]);
    let input = PartialComparator {
        op: PartialComparatorOp::Eq,
        version: PartialVersion {
            major: Number(1),
            minor: Wildcard,
            patch: Wildcard,
            pre_release: vec![],
            build: vec![],
        },
    };
    let expected = Ok(vec![
        bare(ComparatorOp::Gte, 1, 0, 0),
        bare(ComparatorOp::Lt, 2, 0, 0),
    ]);
    assert_eq!(parser.desugar_partial_comparator(input), expected);
}

#[test]
fn desugars_eq_0_x_x() {
    let parser = Parser::new(vec![]);
    let input = PartialComparator {
        op: PartialComparatorOp::Eq,
        version: PartialVersion {
            major: Number(0),
            minor: Wildcard,
            patch: Wildcard,
            pre_release: vec![],
            build: vec![],
        },
    };
    let expected = Ok(vec![
        bare(ComparatorOp::Gte, 0, 0, 0),
        bare(ComparatorOp::Lt, 1, 0, 0),
    ]);
    assert_eq!(parser.desugar_partial_comparator(input), expected);
}

#[test]
fn desugars_gt_1_2_3() {
    let parser = Parser::new(vec![]);
    let input = PartialComparator {
        op: PartialComparatorOp::Gt,
        version: PartialVersion {
            major: Number(1),
            minor: Number(2),
            patch: Number(3),
            pre_release: vec![],
            build: vec![],
        },
    };
    let expected = Ok(vec![
        bare(ComparatorOp::Gt, 1, 2, 3),
    ]);
    assert_eq!(parser.desugar_partial_comparator(input), expected);
}

#[test]
fn desugars_gte_1_2_3() {
    let parser = Parser::new(vec![]);
    let input = PartialComparator {
        op: PartialComparatorOp::Gte,
        version: PartialVersion {
            major: Number(1),
            minor: Number(2),
            patch: Number(3),
            pre_release: vec![],
            build: vec![],
        },
    };
    let expected = Ok(vec![
        bare(ComparatorOp::Gte, 1, 2, 3),
    ]);
    assert_eq!(parser.desugar_partial_comparator(input), expected);
}

#[test]
fn desugars_lt_1_2_3() {
    let parser = Parser::new(vec![]);
    let input = PartialComparator {
        op: PartialComparatorOp::Lt,
        version: PartialVersion {
            major: Number(1),
            minor: Number(2),
            patch: Number(3),
            pre_release: vec![],
            build: vec![],
        },
    };
    let expected = Ok(vec![
        bare(ComparatorOp::Lt, 1, 2, 3),
    ]);
    assert_eq!(parser.desugar_partial_comparator(input), expected);
}

#[test]
fn desugars_lte_1_2_3() {
    let parser = Parser::new(vec![]);
    let input = PartialComparator {
        op: PartialComparatorOp::Lte,
        version: PartialVersion {
            major: Number(1),
            minor: Number(2),
            patch: Number(3),
            pre_release: vec![],
            build: vec![],
        },
    };
    let expected = Ok(vec![
        bare(ComparatorOp::Lte, 1, 2, 3),
    ]);
    assert_eq!(parser.desugar_partial_comparator(input), expected);
}

#[test]
fn desugars_gt_1_2_x() {
    let parser = Parser::new(vec![]);
    let input = PartialComparator {
        op: PartialComparatorOp::Gt,
        version: PartialVersion {
            major: Number(1),
            minor: Number(2),
            patch: Wildcard,
            pre_release: vec![],
            build: vec![],
        },
    };
    let expected = Ok(vec![
        bare(ComparatorOp::Gt, 1, 2, 0),
    ]);
    assert_eq!(parser.desugar_partial_comparator(input), expected);
}

#[test]
fn desugars_gte_1_2_x() {
    let parser = Parser::new(vec![]);
    let input = PartialComparator {
        op: PartialComparatorOp::Gte,
        version: PartialVersion {
            major: Number(1),
            minor: Number(2),
            patch: Wildcard,
            pre_release: vec![],
            build: vec![],
        },
    };
    let expected = Ok(vec![
        bare(ComparatorOp::Gte, 1, 2, 0),
    ]);
    assert_eq!(parser.desugar_partial_comparator(input), expected);
}

#[test]
fn desugars_gt_1_x_x() {
    let parser = Parser::new(vec![]);
    let input = PartialComparator {
        op: PartialComparatorOp::Gt,
        version: PartialVersion {
            major: Number(1),
            minor: Wildcard,
            patch: Wildcard,
            pre_release: vec![],
            build: vec![],
        },
    };
    let expected = Ok(vec![
        bare(ComparatorOp::Gt, 1, 0, 0),
    ]);
    assert_eq!(parser.desugar_partial_comparator(input), expected);
}

#[test]
fn desugars_gte_1_x_x() {
    let parser = Parser::new(vec![]);
    let input = PartialComparator {
        op: PartialComparatorOp::Gte,
        version: PartialVersion {
            major: Number(1),
            minor: Wildcard,
            patch: Wildcard,
            pre_release: vec![],
            build: vec![],
        },
    };
    let expected = Ok(vec![
        bare(ComparatorOp::Gte, 1, 0, 0),
    ]);
    assert_eq!(parser.desugar_partial_comparator(input), expected);
}

#[test]
fn desugars_lt_1_2_x() {
    let parser = Parser::new(vec![]);
    let input = PartialComparator {
        op: PartialComparatorOp::Lt,
        version: PartialVersion {
            major: Number(1),
            minor: Number(2),
            patch: Wildcard,
            pre_release: vec![],
            build: vec![],
        },
    };
    let expected = Ok(vec![
        bare(ComparatorOp::Lt, 1, 3, 0),
    ]);
    assert_eq!(parser.desugar_partial_comparator(input), expected);
}

#[test]
fn desugars_lte_1_2_x() {
    let parser = Parser::new(vec![]);
    let input = PartialComparator {
        op: PartialComparatorOp::Lte,
        version: PartialVersion {
            major: Number(1),
            minor: Number(2),
            patch: Wildcard,
            pre_release: vec![],
            build: vec![],
        },
    };
    let expected = Ok(vec![
        bare(ComparatorOp::Lt, 1, 3, 0),
    ]);
    assert_eq!(parser.desugar_partial_comparator(input), expected);
}

#[test]
fn desugars_lt_1_x_x() {
    let parser = Parser::new(vec![]);
    let input = PartialComparator {
        op: PartialComparatorOp::Lt,
        version: PartialVersion {
            major: Number(1),
            minor: Wildcard,
            patch: Wildcard,
            pre_release: vec![],
            build: vec![],
        },
    };
    let expected = Ok(vec![
        bare(ComparatorOp::Lt, 2, 0, 0),
    ]);
    assert_eq!(parser.desugar_partial_comparator(input), expected);
}

#[test]
fn desugars_lte_1_x_x() {
    let parser = Parser::new(vec![]);
    let input = PartialComparator {
        op: PartialComparatorOp::Lte,
        version: PartialVersion {
            major: Number(1),
            minor: Wildcard,
            patch: Wildcard,
            pre_release: vec![],
            build: vec![],
        },
    };
    let expected = Ok(vec![
        bare(ComparatorOp::Lt, 2, 0, 0),
    ]);
    assert_eq!(parser.desugar_partial_comparator(input), expected);
}
