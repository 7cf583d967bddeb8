use rust_regex::class::WORD_CHAR;
use rust_regex::parse_regex::{
    check_pipe, find_paren_match, find_pipes, parts_to_token, process_character_class,
    process_regex, split_pipes, split_pipes_vec, split_to_parts, tokenize, RangeType, RegexError,
    Token, TokenQuantifier,
};
use std::collections::HashSet;

#[test]
fn test_split1() {
    let regex = "a(b|c)d".to_string();
    let tokens = split_to_parts(regex).unwrap();
    assert_eq!(tokens, vec!["a", "(b|c)", "d"]);
}

#[test]
fn test_split_pipe_capture_star() {
    let regex = "a(b|c)*d|e".to_string();
    let tokens = split_to_parts(regex).unwrap();
    assert_eq!(tokens, vec!["a", "(b|c)*", "d", "|", "e"]);
}

#[test]
fn test_split_stars() {
    let regex = r"a*b+".to_string();
    let tokens = split_to_parts(regex).unwrap();
    assert_eq!(tokens, vec![r"a*", r"b+"]);
}

#[test]
fn test_split4() {
    let regex = r"a(b|c)*".to_string();
    let tokens = split_to_parts(regex).unwrap();
    println!("{:?}", tokens);
    assert_eq!(tokens, vec![r"a", r"(b|c)*"]);
}

#[test]
fn test_split_question() {
    let regex = r"a?b".to_string();
    let tokens = split_to_parts(regex).unwrap();
    assert_eq!(tokens, vec![r"a?", r"b"]);
}

#[test]
fn test_split_backslash() {
    let regex = r"a\w".to_string();
    let tokens = split_to_parts(regex).unwrap();
    assert_eq!(tokens, vec![r"a", r"\w"]);
}

#[test]
fn test_split_backslash_quantifier() {
    let regex = r"a\*b".to_string();
    let tokens = split_to_parts(regex).unwrap();
    assert_eq!(tokens, vec![r"a", r"\*", "b"]);
}

#[test]
fn test_split_backslash_parentheses() {
    let regex = r"a\(b".to_string();
    let tokens = split_to_parts(regex).unwrap();
    assert_eq!(tokens, vec![r"a", r"\(", "b"]);
}

#[test]
fn test_split_backslash_backslash() {
    let regex = r"a\\b".to_string();
    let tokens = split_to_parts(regex).unwrap();
    assert_eq!(tokens, vec![r"a", r"\\", "b"]);
}

#[test]
fn test_split_quantifier() {
    let regex = r"a{1,2}b".to_string();
    let tokens = split_to_parts(regex).unwrap();
    assert_eq!(tokens, vec![r"a{1,2}", "b"]);
}

#[test]
fn test_split_pipes_none() {
    let regex = r"a(b|c)d".to_string();
    let tokens = split_pipes(&regex);
    assert_eq!(tokens, vec!["a(b|c)d"]);
}

#[test]
fn test_split_pipes_normal() {
    let regex = r"a(b|c)d|e".to_string();
    let tokens = split_pipes(&regex);
    assert_eq!(tokens, vec!["a(b|c)d", "e"]);
}

#[test]
fn test_split_pipes_empty() {
    let regex = r"a(b|c)d||e".to_string();
    let tokens = split_pipes(&regex);
    assert_eq!(tokens, vec!["a(b|c)d", "", "e"]);
}

#[test]
fn test_split_pipes_vec() {
    let parts: Vec<String> =
        vec!["a(b|c)d".to_string(), "|".to_string(), "e".to_string(), "|".to_string()];
    let tokens = split_pipes_vec(&parts);
    assert_eq!(tokens, vec![vec!["a(b|c)d".to_string()], vec!["e".to_string()], vec![]]);
}

#[test]
fn test_parts_to_token_uninteresting() {
    let regex: String = r"abc*de".to_string();
    let tokens: Vec<Token> = parts_to_token(split_to_parts(regex).unwrap()).unwrap();
    let correct_tokens: Vec<Token> = vec![
        Token::Normal { token: 'a', quantifier: TokenQuantifier::Once },
        Token::Normal { token: 'b', quantifier: TokenQuantifier::Once },
        Token::Normal { token: 'c', quantifier: TokenQuantifier::Star },
        Token::Normal { token: 'd', quantifier: TokenQuantifier::Once },
        Token::Normal { token: 'e', quantifier: TokenQuantifier::Once },
    ];
    assert_eq!(tokens, correct_tokens);
}

#[test]
fn test_parts_to_token_capture() {
    let regex: String = r"a(bc)*d".to_string();
    let tokens: Vec<Token> = parts_to_token(split_to_parts(regex).unwrap()).unwrap();
    let correct_tokens: Vec<Token> = vec![
        Token::Normal { token: 'a', quantifier: TokenQuantifier::Once },
        Token::CaptureGroup {
            sub_groups: vec![
                Token::Normal { token: 'b', quantifier: TokenQuantifier::Once },
                Token::Normal { token: 'c', quantifier: TokenQuantifier::Once },
            ],
            quantifier: TokenQuantifier::Star,
        },
        Token::Normal { token: 'd', quantifier: TokenQuantifier::Once },
    ];
    assert_eq!(tokens, correct_tokens);
}

#[test]
fn test_parts_to_token_class() {
    let regex: String = r"\w[bc]d".to_string();
    let tokens: Vec<Token> = parts_to_token(split_to_parts(regex).unwrap()).unwrap();
    let correct_tokens: Vec<Token> = vec![
        Token::Normal { token: WORD_CHAR, quantifier: TokenQuantifier::Once },
        Token::CharacterClass { class_options: vec!['b', 'c'], quantifier: TokenQuantifier::Once },
        Token::Normal { token: 'd', quantifier: TokenQuantifier::Once },
    ];
    assert_eq!(tokens, correct_tokens);
}

#[test]
fn test_process_character_class() {
    let character_class: String = r"abc".to_string();
    let options: HashSet<char> = process_character_class(character_class).into_iter().collect();
    let correct_options: HashSet<char> = HashSet::from(['a', 'b', 'c']);
    assert_eq!(options, correct_options);
}

#[test]
fn test_process_character_class_range() {
    let character_class: String = r"a-c".to_string();
    let options: HashSet<char> = process_character_class(character_class).into_iter().collect();
    let correct_options: HashSet<char> = HashSet::from(['a', 'b', 'c']);
    assert_eq!(options, correct_options);
}

#[test]
fn test_parts_to_token_class_range() {
    let regex: String = r"\w[a-d]d".to_string();
    let tokens: Vec<Token> = parts_to_token(split_to_parts(regex).unwrap()).unwrap();
    let correct_tokens: Vec<Token> = vec![
        Token::Normal { token: WORD_CHAR, quantifier: TokenQuantifier::Once },
        Token::CharacterClass {
            class_options: vec!['a', 'b', 'c', 'd'],
            quantifier: TokenQuantifier::Once,
        },
        Token::Normal { token: 'd', quantifier: TokenQuantifier::Once },
    ];
    assert_eq!(tokens, correct_tokens);
}

#[test]
fn test_tokenize_nested() {
    let regex: String = r"a\w(c|[a-b]+)*d?".to_string();
    let tokens: Vec<Token> = tokenize(regex).unwrap();
    let correct_tokens: Vec<Token> = vec![
        Token::Normal { token: 'a', quantifier: TokenQuantifier::Once },
        Token::Normal { token: WORD_CHAR, quantifier: TokenQuantifier::Once },
        Token::CaptureGroup {
            sub_groups: vec![Token::Pipe {
                sub_groups: vec![
                    vec![Token::Normal { token: 'c', quantifier: TokenQuantifier::Once }],
                    vec![Token::CharacterClass {
                        class_options: vec!['a', 'b'],
                        quantifier: TokenQuantifier::Plus,
                    }],
                ],
            }],
            quantifier: TokenQuantifier::Star,
        },
        Token::Normal { token: 'd', quantifier: TokenQuantifier::Question },
    ];
    assert_eq!(tokens, correct_tokens);
}

#[test]
fn test_tokenize_pipe() {
    let regex: String = r"a(b|f)*d|e".to_string();
    let tokens: Vec<Token> = tokenize(regex).unwrap();
    let correct_tokens: Vec<Token> = vec![Token::Pipe {
        sub_groups: vec![
            vec![
                Token::Normal { token: 'a', quantifier: TokenQuantifier::Once },
                Token::CaptureGroup {
                    sub_groups: vec![Token::Pipe {
                        sub_groups: vec![
                            vec![Token::Normal { token: 'b', quantifier: TokenQuantifier::Once }],
                            vec![Token::Normal { token: 'f', quantifier: TokenQuantifier::Once }],
                        ],
                    }],
                    quantifier: TokenQuantifier::Star,
                },
                Token::Normal { token: 'd', quantifier: TokenQuantifier::Once },
            ],
            vec![Token::Normal { token: 'e', quantifier: TokenQuantifier::Once }],
        ],
    }];

    assert_eq!(tokens, correct_tokens);
}

#[test]
fn quantifier_forms() {
    let q = |s: &str| TokenQuantifier::from_string(s.to_string());
    assert_eq!(q(""), Ok(TokenQuantifier::Once));
    assert_eq!(q("*"), Ok(TokenQuantifier::Star));
    assert_eq!(q("+?"), Ok(TokenQuantifier::Plus));
    assert_eq!(q("?"), Ok(TokenQuantifier::Question));
    assert_eq!(q("{3}"), Ok(TokenQuantifier::Range(RangeType::Discrete(3))));
    assert_eq!(q("{12,}"), Ok(TokenQuantifier::Range(RangeType::LowerBound(12))));
    assert_eq!(q("{,7}"), Ok(TokenQuantifier::Range(RangeType::UpperBound(7))));
    assert_eq!(q("{2,40}"), Ok(TokenQuantifier::Range(RangeType::Both(2, 40))));
    assert_eq!(q("{2,2}?"), Ok(TokenQuantifier::Range(RangeType::Both(2, 2))));
}

#[test]
fn quantifier_errors() {
    let q = |s: &str| TokenQuantifier::from_string(s.to_string());
    assert_eq!(q("{3,2}"), Err(RegexError::MalformedPattern));
    assert_eq!(q("{,}"), Err(RegexError::MalformedPattern));
    assert_eq!(q("{}"), Err(RegexError::MalformedPattern));
    assert_eq!(q("{a}"), Err(RegexError::MalformedPattern));
    assert_eq!(q("{1,2,3}"), Err(RegexError::MalformedPattern));
    assert_eq!(q("{3"), Err(RegexError::MalformedPattern));
    assert_eq!(q("x"), Err(RegexError::MalformedPattern));
    assert_eq!(q("**"), Err(RegexError::MalformedPattern));
    assert_eq!(q("{99999999999999999999999999}"), Err(RegexError::MalformedPattern));
    assert_eq!(
        TokenQuantifier::range_from_string("*".to_string()),
        Err(RegexError::MalformedPattern)
    );
    assert_eq!(
        TokenQuantifier::range_from_string("{4,}".to_string()),
        Ok(TokenQuantifier::Range(RangeType::LowerBound(4)))
    );
}

#[test]
fn malformed_patterns() {
    for p in ["(ab", "ab)", "[ab", "a]", "*a", "a**", "()", "[]", "a{2", "a{x}", "a\\", "a{3,1}", "+"] {
        assert_eq!(tokenize(p.to_string()), Err(RegexError::MalformedPattern), "{}", p);
    }
    assert_eq!(tokenize("".to_string()), Ok(vec![]));
}

#[test]
fn paren_match_and_pipes() {
    let s = "a(b[)]c{2})|d\\|e|(f|g)".to_string();
    assert_eq!(find_paren_match(&s, 1), Some(10));
    assert_eq!(find_paren_match(&s, 3), Some(5));
    assert_eq!(find_paren_match(&s, 0), None);
    assert_eq!(find_paren_match(&"((a)".to_string(), 0), None);
    assert_eq!(find_pipes(&s), vec![11, 16]);
    assert!(check_pipe(&s));
    assert!(!check_pipe(&"(a|b)".to_string()));
    assert!(check_pipe(&"|a".to_string()));
}

#[test]
fn character_class_edges() {
    let c = |s: &str| process_character_class(s.to_string());
    assert_eq!(c("-a"), vec!['-', 'a']);
    assert_eq!(c("a-"), vec!['a', '-']);
    assert_eq!(c("a-ca"), vec!['a', 'b', 'c']);
    assert_eq!(c("c-a"), Vec::<char>::new());
    assert_eq!(c("\\]x"), vec![']', 'x']);
    assert_eq!(c("\u{D7FE}-\u{E001}"), vec!['\u{D7FE}', '\u{D7FF}', '\u{E000}', '\u{E001}']);
}

#[test]
fn token_from_single_parts() {
    assert_eq!(
        Token::from("\\n+".to_string()),
        Ok(Token::Normal { token: '\n', quantifier: TokenQuantifier::Plus })
    );
    assert_eq!(
        Token::from("x{2,}".to_string()),
        Ok(Token::Normal {
            token: 'x',
            quantifier: TokenQuantifier::Range(RangeType::LowerBound(2))
        })
    );
    assert_eq!(Token::from("".to_string()), Err(RegexError::MalformedPattern));
    assert_eq!(Token::from("ab".to_string()), Err(RegexError::MalformedPattern));
}

#[test]
fn process_regex_flags() {
    let (tokens, flags) = process_regex("/ab/gig").unwrap();
    assert_eq!(
        tokens,
        vec![
            Token::Normal { token: 'a', quantifier: TokenQuantifier::Once },
            Token::Normal { token: 'b', quantifier: TokenQuantifier::Once },
        ]
    );
    assert_eq!(flags, vec!['g', 'i']);
    let (tokens, flags) = process_regex("ab").unwrap();
    assert_eq!(tokens.len(), 2);
    assert!(flags.is_empty());
    assert_eq!(process_regex("/ab"), Err(RegexError::MalformedPattern));
    assert_eq!(process_regex("/"), Err(RegexError::MalformedPattern));
    assert_eq!(process_regex("//"), Ok((vec![], vec![])));
}
