use rust_regex::automata::{NfaNode, DFA, NFA};
use rust_regex::class::EPSILON;
use rust_regex::parse_regex::process_regex;

#[test]
fn nfa_all_normal() {
    let regex = r"ab*c+d?e{2,4}f{,2}g{2}h{2,}";
    let (_, flags) = process_regex(regex).unwrap();
    let nfa = NFA::from(regex.to_string()).unwrap();
    let correct_nfa = NFA {
        regex: regex.to_string(),
        flags: flags.clone(),
        data: vec![
            NfaNode {
                id: 0,
                is_terminal: false,
                paths: vec![('a', 1)],
            },
            NfaNode {
                id: 1,
                is_terminal: false,
                paths: vec![('b', 1), ('c', 2)],
            },
            NfaNode {
                id: 2,
                is_terminal: false,
                paths: vec![('c', 2), ('d', 3), (EPSILON, 3)],
            },
            NfaNode {
                id: 3,
                is_terminal: false,
                paths: vec![('e', 4)],
            },
            NfaNode {
                id: 4,
                is_terminal: false,
                paths: vec![('e', 5)],
            },
            NfaNode {
                id: 5,
                is_terminal: false,
                paths: vec![('e', 6), (EPSILON, 7)]
            },
            NfaNode {
                id: 6,
                is_terminal: false,
                paths: vec![('e', 7), (EPSILON, 7)]
            },
            NfaNode {
                id: 7,
                is_terminal: false,
                paths: vec![('f', 8), (EPSILON, 9)]
            },
            NfaNode {
                id: 8,
                is_terminal: false,
                paths: vec![('f', 9), (EPSILON, 9)]
            },
            NfaNode {
                id: 9,
                is_terminal: false,
                paths: vec![('g', 10)]
            },
            NfaNode {
                id: 10,
                is_terminal: false,
                paths: vec![('g', 11)]
            },
            NfaNode {
                id: 11,
                is_terminal: false,
                paths: vec![('h', 12)]
            },
            NfaNode {
                id: 12,
                is_terminal: false,
                paths: vec![('h', 13)]
            },
            NfaNode {
                id: 13,
                is_terminal: true,
                paths: vec![('h', 13)]
            }
        ],
        cur_last: 13,

    };
    assert_eq!(nfa, correct_nfa);
}

#[test]
fn nfa_normal() {
    let regex = r"ab";
    let (_, flags) = process_regex(regex).unwrap();
    let nfa = NFA::from(regex.to_string()).unwrap();
    let correct_nfa = NFA {
        regex: regex.to_string(),
        flags: flags.clone(),
        data: vec![
            NfaNode {
            id: 0,
            is_terminal: false,
            paths: vec![('a', 1)],
        },
        NfaNode {
            id: 1,
            is_terminal: false,
            paths: vec![('b', 2)],
        },
        NfaNode {
            id: 2,
            is_terminal: true,
            paths: vec![],
        },
        ],
        cur_last: 2,
    };
    assert_eq!(nfa, correct_nfa);
}

#[test]
fn nfa_normal_star() {
    let regex = r"b*";
    let (_, flags) = process_regex(regex).unwrap();
    let nfa = NFA::from(regex.to_string()).unwrap();
    let correct_nfa = NFA {
        regex: regex.to_string(),
        flags: flags.clone(),
        data: vec![
            NfaNode {
                id: 0,
                is_terminal: true,
                paths: vec![('b', 0)],
            },
        ],
        cur_last: 0,
    };
    assert_eq!(nfa, correct_nfa);
}

#[test]
fn nfa_normal_plus() {
    let regex = r"b+";
    let (_, flags) = process_regex(regex).unwrap();
    let nfa = NFA::from(regex.to_string()).unwrap();
    let correct_nfa = NFA {
        regex: regex.to_string(),
        flags: flags.clone(),
        data: vec![
            NfaNode {
                id: 0,
                is_terminal: false,
                paths: vec![('b', 1)],
            },
            NfaNode {
                id: 1,
                is_terminal: true,
                paths: vec![('b', 1)],
            },
        ],
        cur_last: 1,
    };
    assert_eq!(nfa, correct_nfa);
}

#[test]
fn nfa_normal_question() {
    let regex = r"b?";
    let (_, flags) = process_regex(regex).unwrap();
    let nfa = NFA::from(regex.to_string()).unwrap();
    let correct_nfa = NFA {
        regex: regex.to_string(),
        flags: flags.clone(),
        data: vec![
            NfaNode {
                id: 0,
                is_terminal: false,
                paths: vec![('b', 1), (EPSILON, 1)],
            },
            NfaNode {
                id: 1,
                is_terminal: true,
                paths: vec![],
            },
        ],
        cur_last: 1,
    };
    assert_eq!(nfa, correct_nfa);
}

#[test]
fn nfa_normal_range_both() {
    let regex = r"b{2,4}";
    let (_, flags) = process_regex(regex).unwrap();
    let nfa = NFA::from(regex.to_string()).unwrap();
    let correct_nfa = NFA {
        regex: regex.to_string(),
        flags: flags.clone(),
        data: vec![
            NfaNode {
                id: 0,
                is_terminal: false,
                paths: vec![('b', 1)],
            },
            NfaNode {
                id: 1,
                is_terminal: false,
                paths: vec![('b', 2)],
            },
            NfaNode {
                id: 2,
                is_terminal: false,
                paths: vec![('b', 3), (EPSILON, 4)],
            },
            NfaNode {
                id: 3,
                is_terminal: false,
                paths: vec![('b', 4), (EPSILON, 4)],
            },
            NfaNode {
                id: 4,
                is_terminal: true,
                paths: vec![],
            },
        ],
        cur_last: 4,
    };
    assert_eq!(nfa, correct_nfa);
}

#[test]
fn nfa_normal_range_lower() {
    let regex = r"b{2,}";
    let (_, flags) = process_regex(regex).unwrap();
    let nfa = NFA::from(regex.to_string()).unwrap();
    let correct_nfa = NFA {
        regex: regex.to_string(),
        flags: flags.clone(),
        data: vec![
            NfaNode {
                id: 0,
                is_terminal: false,
                paths: vec![('b', 1)],
            },
            NfaNode {
                id: 1,
                is_terminal: false,
                paths: vec![('b', 2)],
            },
            NfaNode {
                id: 2,
                is_terminal: true,
                paths: vec![('b', 2)],
            },
        ],
        cur_last: 2,
    };
    assert_eq!(nfa, correct_nfa);
}

#[test]
fn nfa_normal_range_upper() {
    let regex = r"b{,4}";
    let (_, flags) = process_regex(regex).unwrap();
    let nfa = NFA::from(regex.to_string()).unwrap();
    let correct_nfa = NFA {
        regex: regex.to_string(),
        flags,
        data: vec![
            NfaNode {
                id: 0,
                is_terminal: false,
                paths: vec![('b', 1), (EPSILON, 4)],
            },
            NfaNode {
                id: 1,
                is_terminal: false,
                paths: vec![('b', 2), (EPSILON, 4)],
            },
            NfaNode {
                id: 2,
                is_terminal: false,
                paths: vec![('b', 3), (EPSILON, 4)],
            },
            NfaNode {
                id: 3,
                is_terminal: false,
                paths: vec![('b', 4), (EPSILON, 4)],
            },
            NfaNode {
                id: 4,
                is_terminal: true,
                paths: vec![],
            }
        ],
        cur_last: 4,
    };
    assert_eq!(nfa, correct_nfa);
}

#[test]
fn nfa_normal_range_discrete() {
    let regex = r"b{2}";
    let (_, flags) = process_regex(regex).unwrap();
    let nfa = NFA::from(regex.to_string()).unwrap();
    let correct_nfa =  NFA {
        regex: regex.to_string(),
        flags: flags.clone(),
        data: vec![
            NfaNode {
            id: 0,
            is_terminal: false,
            paths: vec![('b', 1)],
        },
        NfaNode {
            id: 1,
            is_terminal: false,
            paths: vec![('b', 2)],
        },
        NfaNode {
            id: 2,
            is_terminal: true,
            paths: vec![],
        },
        ],
        cur_last: 2,
    };
    assert_eq!(nfa, correct_nfa);
}

#[test]
fn nfa_basic_pipe() {
    let regex = r"ab|cd";
    let (_, flags) = process_regex(regex).unwrap();
    let nfa = NFA::from(regex.to_string()).unwrap();
    let correct_nfa = NFA {
        regex: regex.to_string(),
        flags: flags.clone(),
        data: vec![
            NfaNode {
                id: 0,
                is_terminal: false,
                paths: vec![('a', 1), ('c', 3)],
            },
            NfaNode {
                id: 1,
                is_terminal: false,
                paths: vec![('b', 2)],
            },
            NfaNode {
                id: 2,
                is_terminal: false,
                paths: vec![(EPSILON, 5)],
            },
            NfaNode {
                id: 3,
                is_terminal: false,
                paths: vec![('d', 4)],
            },
            NfaNode {
                id: 4,
                is_terminal: false,
                paths: vec![(EPSILON, 5)],
            },
            NfaNode {
                id: 5,
                is_terminal: true,
                paths: vec![],
            },
        ],
        cur_last: 5,
    };
    assert_eq!(nfa, correct_nfa);
}

#[test]
fn nfa_capture_basic_star() {
    let regex = "(ab)*";
    let (_, flags) = process_regex(regex).unwrap();
    let nfa = NFA::from(regex.to_string()).unwrap();
    let correct_nfa = NFA {
        regex: regex.to_string(),
        flags: flags.clone(),
        data: vec![
            NfaNode {
                id: 0,
                is_terminal: false,
                paths: vec![('a', 1), (EPSILON, 3)],
            },
            NfaNode {
                id: 1,
                is_terminal: false,
                paths: vec![('b', 2)],
            },
            NfaNode {
                id: 2,
                is_terminal: false,
                paths: vec![(EPSILON, 0), (EPSILON, 3)],
            },
            NfaNode {
                id: 3,
                is_terminal: true,
                paths: vec![],
            },
        ],
        cur_last: 3,
    };
    assert_eq!(nfa, correct_nfa);
}

#[test]
fn nfa_comprehensive_rangeless() {
    let regex = r"a+b*c?d(ab|cd)|efgh[j-l]+";
    let nfa = NFA::from(regex.to_string()).unwrap();
    let correct_nfa = NFA {
        regex: regex.to_string(),
        flags: vec![],
        data: vec![
            NfaNode {
                id: 0,
                is_terminal: false,
                paths: vec![('a', 1), ('e', 9)],
            },
            NfaNode {
                id: 1,
                is_terminal: false,
                paths: vec![('a', 1), ('b', 1), ('c', 2), (EPSILON, 2)],
            },
            NfaNode {
                id: 2,
                is_terminal: false,
                paths: vec![('d', 3)],
            },
            NfaNode {
                id: 3,
                is_terminal: false,
                paths: vec![('a', 4), ('c', 6)],
            },
            NfaNode {
                id: 4,
                is_terminal: false,
                paths: vec![('b', 5)],
            },
            NfaNode {
                id: 5,
                is_terminal: false,
                paths: vec![(EPSILON, 8)],
            },
            NfaNode {
                id: 6,
                is_terminal: false,
                paths: vec![('d', 7)],
            },
            NfaNode {
                id: 7,
                is_terminal: false,
                paths: vec![(EPSILON, 8)],
            },
            NfaNode {
                id: 8,
                is_terminal: false,
                paths: vec![(EPSILON, 14)],
            },
            NfaNode {
                id: 9,
                is_terminal: false,
                paths: vec![('f', 10)],
            },
            NfaNode {
                id: 10,
                is_terminal: false,
                paths: vec![('g', 11)],
            },
            NfaNode {
                id: 11,
                is_terminal: false,
                paths: vec![('h', 12)],
            },
            NfaNode {
                id: 12,
                is_terminal: false,
                paths: vec![('j', 13),('k', 13),('l', 13)],
            },
            NfaNode {
                id: 13,
                is_terminal: false,
                paths: vec![('j', 13),('k', 13),('l', 13), (EPSILON, 14)],
            },
            NfaNode {
                id: 14,
                is_terminal: true,
                paths: vec![],
            }
        ],
        cur_last: 14
    };
    assert_eq!(nfa, correct_nfa);
}

#[test]
fn nfa_remove_epsilon_comprehensive() {
    let regex = r"a+b*c?d(ab|cd)|efgh[j-l]+";
    let mut nfa = NFA::from(regex.to_string()).unwrap();
    nfa.remove_epsilons();
    let correct_nfa = NFA {
        regex: regex.to_string(),
        flags: vec![],
        data: vec![
            NfaNode {
                id: 0,
                is_terminal: false,
                paths: vec![('a', 1), ('e', 9)],
            },
            NfaNode {
                id: 1,
                is_terminal: false,
                paths: vec![('a', 1), ('b', 1), ('c', 2), ('d', 3)],
            },
            NfaNode {
                id: 2,
                is_terminal: false,
                paths: vec![('d', 3)],
            },
            NfaNode {
                id: 3,
                is_terminal: false,
                paths: vec![('a', 4), ('c', 6)],
            },
            NfaNode {
                id: 4,
                is_terminal: false,
                paths: vec![('b', 5)],
            },
            NfaNode {
                id: 5,
                is_terminal: true,
                paths: vec![],
            },
            NfaNode {
                id: 6,
                is_terminal: false,
                paths: vec![('d', 7)],
            },
            NfaNode {
                id: 7,
                is_terminal: true,
                paths: vec![],
            },
            NfaNode {
                id: 8,
                is_terminal: true,
                paths: vec![],
            },
            NfaNode {
                id: 9,
                is_terminal: false,
                paths: vec![('f', 10)],
            },
            NfaNode {
                id: 10,
                is_terminal: false,
                paths: vec![('g', 11)],
            },
            NfaNode {
                id: 11,
                is_terminal: false,
                paths: vec![('h', 12)],
            },
            NfaNode {
                id: 12,
                is_terminal: false,
                paths: vec![('j', 13),('k', 13),('l', 13)],
            },
            NfaNode {
                id: 13,
                is_terminal: true,
                paths: vec![('j', 13),('k', 13),('l', 13)],
            },
            NfaNode {
                id: 14,
                is_terminal: true,
                paths: vec![],
            }
        ],
        cur_last: 14
    };
    assert_eq!(nfa, correct_nfa);
}

#[test]
fn automata_dfa_functionality_simple() {
    let regex = r"ab";
    let dfa = DFA::from(regex.to_string()).unwrap();
    assert!(dfa.matches("ab"));
    assert!(!dfa.matches("a"));
    assert!(!dfa.matches("b"));
    assert!(!dfa.matches("ba"));
    assert!(!dfa.matches("abc"));
}

#[test]
fn automata_dfa_functionality_star() {
    let regex = r"ab*";
    let dfa = DFA::from(regex.to_string()).unwrap();
    assert!(dfa.matches("a"));
    assert!(dfa.matches("ab"));
    assert!(dfa.matches("abb"));
    assert!(dfa.matches("abbbbbb"));
}

#[test]
fn automata_dfa_functionality_plus() {
    let regex = r"ab+";
    let dfa = DFA::from(regex.to_string()).unwrap();
    assert!(!dfa.matches("a"));
    assert!(dfa.matches("ab"));
    assert!(dfa.matches("abb"));
    assert!(dfa.matches("abbbbbb"));
    assert!(!dfa.matches("abbba"));
}

#[test]
fn automata_dfa_functionality_question() {
    let regex = r"ab?c";
    let dfa = DFA::from(regex.to_string()).unwrap();
    assert!(dfa.matches("ac"));
    assert!(dfa.matches("abc"));
    assert!(!dfa.matches("abbc"));
    assert!(!dfa.matches("ab"));
}

#[test]
fn automata_dfa_functionality_capture_basic() {
    let regex = r"(abc)";
    let dfa = DFA::from(regex.to_string()).unwrap();
    assert!(dfa.matches("abc"));
    assert!(!dfa.matches("ab"));
    assert!(!dfa.matches("bc"));
    assert!(!dfa.matches("ac"));
    assert!(!dfa.matches("abcd"));
}

#[test]
fn automata_dfa_functionality_capture_inset() {
    let regex = r"a(ab)b";
    let dfa = DFA::from(regex.to_string()).unwrap();
    assert!(dfa.matches("aabb"));
    assert!(!dfa.matches("ab"));
}

#[test]
fn automata_dfa_functionality_capture_nested() {
    let regex = r"(a(bc))";
    let dfa = DFA::from(regex.to_string()).unwrap();
    assert!(dfa.matches("abc"));
    assert!(!dfa.matches("a"));
    assert!(!dfa.matches("bc"));
}

#[test]
fn automata_dfa_functionality_capture_starred() {
    let regex = r"c(ab)*";
    let dfa = DFA::from(regex.to_string()).unwrap();
    assert!(dfa.matches("c"));
    assert!(dfa.matches("cab"));
    assert!(dfa.matches("cabababab"));
    assert!(!dfa.matches("caba"));
}

#[test]
fn automata_dfa_functionality_capture_plussed() {
    let regex = r"c(ab)+";
    let dfa = DFA::from(regex.to_string()).unwrap();
    assert!(!dfa.matches("c"));
    assert!(dfa.matches("cab"));
    assert!(dfa.matches("cabababab"));
    assert!(!dfa.matches("caba"));
}

#[test]
fn automata_dfa_functionality_capture_questioned() {
    let regex = r"c(ab)?";
    let dfa = DFA::from(regex.to_string()).unwrap();
    assert!(dfa.matches("c"));
    assert!(dfa.matches("cab"));
    assert!(!dfa.matches("cabababab"));
    assert!(!dfa.matches("caba"));
}

#[test]
fn automata_dfa_functionality_normal_ranges() {
    let regex_discrete = r"b{2}";
    let regex_lower = r"b{2,}";
    let regex_upper = r"b{,4}";
    let regex_both = r"b{2,4}";
    let dfa_discrete = DFA::from(regex_discrete.to_string()).unwrap();
    let dfa_lower = DFA::from(regex_lower.to_string()).unwrap();
    let dfa_upper = DFA::from(regex_upper.to_string()).unwrap();
    let dfa_both = DFA::from(regex_both.to_string()).unwrap();
    assert!(dfa_discrete.matches("bb"));
    assert!(!dfa_discrete.matches("b"));
    assert!(!dfa_discrete.matches("bbb"));
    assert!(!dfa_discrete.matches("bbbb"));
    assert!(dfa_lower.matches("bb"));
    assert!(dfa_lower.matches("bbb"));
    assert!(!dfa_lower.matches("b"));
    assert!(dfa_upper.matches(""));
    assert!(dfa_upper.matches("b"));
    assert!(dfa_upper.matches("bb"));
    assert!(dfa_upper.matches("bbb"));
    assert!(dfa_upper.matches("bbbb"));
}
