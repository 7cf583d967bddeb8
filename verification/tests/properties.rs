use rust_regex::automata::{DfaNode, NfaNode, DFA, NFA};
use rust_regex::class::EPSILON;
use rust_regex::parse_regex::{RegexError, Token, TokenQuantifier};

fn accepts(pattern: &str, input: &str) -> bool {
    DFA::from(pattern.to_string()).unwrap().matches(input)
}

#[test]
fn literal_pattern_accepts_itself_only() {
    for p in ["", "a", "hello", "a/b", "Zz9 _-=", "\u{e9}t\u{e9}", "\u{1F980}"] {
        assert!(accepts(p, p), "{}", p);
        for x in ["x", "a", " ", "xyz", "\0"] {
            let longer = format!("{}{}", p, x);
            assert!(!accepts(p, &longer), "{} / {}", p, longer);
        }
        if !p.is_empty() {
            assert!(!accepts(p, ""));
            let shorter: String = p.chars().take(p.chars().count() - 1).collect();
            assert!(!accepts(p, &shorter));
        }
    }
}

#[test]
fn concatenation() {
    assert!(accepts("ab", "ab"));
    assert!(!accepts("ab", ""));
    assert!(!accepts("ab", "a"));
    assert!(!accepts("ab", "aba"));
}

#[test]
fn alternation() {
    assert!(accepts("a|b", "a"));
    assert!(accepts("a|b", "b"));
    assert!(!accepts("a|b", ""));
    assert!(!accepts("a|b", "ab"));
    assert!(!accepts("a|b", "c"));
}

#[test]
fn star() {
    assert!(accepts("a*", ""));
    assert!(accepts("a*", "a"));
    assert!(accepts("a*", "aaaa"));
    assert!(!accepts("a*", "b"));
}

#[test]
fn plus() {
    assert!(!accepts("a+", ""));
    assert!(accepts("a+", "a"));
    assert!(accepts("a+", "aaaa"));
}

#[test]
fn bounded_range() {
    for n in 0..7 {
        let input = "b".repeat(n);
        assert_eq!(accepts("b{2,4}", &input), (2..=4).contains(&n), "{}", n);
    }
}

#[test]
fn character_class_with_range() {
    assert!(accepts("[a-c]", "a"));
    assert!(accepts("[a-c]", "b"));
    assert!(accepts("[a-c]", "c"));
    assert!(!accepts("[a-c]", "d"));
    assert!(!accepts("[a-c]", ""));
    assert!(!accepts("[a-c]", "ab"));
}

#[test]
fn capture_group_repetition() {
    assert!(accepts("(ab)+", "ab"));
    assert!(accepts("(ab)+", "abab"));
    assert!(!accepts("(ab)+", ""));
    assert!(!accepts("(ab)+", "aba"));
}

#[test]
fn counted_groups_and_classes() {
    for n in 0..6 {
        let input = "ab".repeat(n);
        assert_eq!(accepts("(ab){2}", &input), n == 2, "{}", n);
        assert_eq!(accepts("(ab){2,}", &input), n >= 2, "{}", n);
        assert_eq!(accepts("(ab){,2}", &input), n <= 2, "{}", n);
        assert_eq!(accepts("(ab){1,3}", &input), (1..=3).contains(&n), "{}", n);
        assert_eq!(accepts("(ab){0}", &input), n == 0, "{}", n);
    }
    for n in 0..6 {
        let input = "abc".chars().cycle().take(n).collect::<String>();
        assert_eq!(accepts("[a-c]{2}", &input), n == 2, "{}", n);
        assert_eq!(accepts("[a-c]{2,}", &input), n >= 2, "{}", n);
        assert_eq!(accepts("[a-c]{,2}", &input), n <= 2, "{}", n);
        assert_eq!(accepts("[a-c]{2,3}", &input), (2..=3).contains(&n), "{}", n);
    }
    for n in 0..6 {
        let input = "x".repeat(n);
        assert_eq!(accepts("x{0}", &input), n == 0);
        assert_eq!(accepts("x{3}", &input), n == 3);
        assert_eq!(accepts("x{2,}", &input), n >= 2);
        assert_eq!(accepts("x{,2}", &input), n <= 2);
        assert_eq!(accepts("x?", &input), n <= 1);
    }
}

#[test]
fn escapes_and_placeholders() {
    assert!(accepts(r"a\*b", "a*b"));
    assert!(!accepts(r"a\*b", "ab"));
    assert!(accepts(r"\(\)", "()"));
    assert!(accepts(r"a\tb", "a\tb"));
    assert!(accepts(r"\n\r", "\n\r"));
    assert!(accepts(r"\w", "\u{1F980}"));
    assert!(!accepts(r"\w", "w"));
    assert!(accepts(".", "\u{1F0CF}"));
    assert!(!accepts(".", "."));
    assert!(accepts(r"\.", "."));
    assert!(accepts("/ab/i", "ab"));
    assert!(!accepts("/ab/i", "/ab/i"));
}

#[test]
fn star_reuses_the_current_state() {
    assert!(accepts("a*b*", ""));
    assert!(accepts("a*b*", "aabb"));
    assert!(accepts("a*b*", "ba"));
    assert!(!accepts("a*b*", "c"));
}

#[test]
fn the_empty_label_is_no_symbol() {
    assert!(!accepts("a?", "\0"));
    assert!(!accepts("a?b", "\0b"));
    let nfa = NFA::from("a?b".to_string()).unwrap();
    assert!(nfa.matches("b"));
    assert!(nfa.matches("ab"));
    assert!(!nfa.matches("\0b"));
}

#[test]
fn malformed_patterns_do_not_compile() {
    for p in ["(", ")", "a(b", "a)b", "[a", "a]", "a{2", "a}", "*", "+a", "?", "a**", "a{}", "a{,}",
        "a{b}", "a{2,1}", "()", "[]", "a\\", "/a", "a|(b", "x{1,2"] {
        assert_eq!(DFA::from(p.to_string()).err(), Some(RegexError::MalformedPattern), "{}", p);
        assert_eq!(NFA::from(p.to_string()).err(), Some(RegexError::MalformedPattern), "{}", p);
    }
}

const CORPUS: [&str; 24] = [
    "", "a", "ab", "a|b", "a*", "a+", "a?", "ab*c+d?", "b{2,4}", "b{,3}", "b{2,}", "b{3}",
    "[a-c]", "[a-c]+x", "(ab)+", "(ab)*c", "(a|b)*abb", "a(b|c)d|e", "(ab|cd){2}", "a|b|c|",
    "x(yz)?x", "(a*)*", "((a|b)(c|d))+", "a+b*c?d(ab|cd)|efgh[j-l]+",
];

const INPUTS: [&str; 30] = [
    "", "a", "b", "c", "ab", "ba", "aa", "bb", "abc", "abab", "ababab", "abb", "aabb", "babb",
    "bbb", "bbbb", "bbbbb", "ax", "abcx", "acd", "abd", "e", "abcd", "cdab", "xx", "xyzx", "ac",
    "bd", "adab", "efghjkl",
];

#[test]
fn both_matchers_agree() {
    for p in CORPUS {
        let dfa = DFA::from(p.to_string()).unwrap();
        let nfa = NFA::from(p.to_string()).unwrap();
        for w in INPUTS {
            assert_eq!(dfa.matches(w), nfa.matches(w), "{} on {}", p, w);
        }
    }
}

#[test]
fn each_stage_keeps_the_language() {
    for p in CORPUS {
        let plain = NFA::from(p.to_string()).unwrap();
        let mut free = NFA::from(p.to_string()).unwrap();
        free.remove_epsilons();
        assert!(!free.has_epsilon(), "{}", p);
        let mut det = NFA::from(p.to_string()).unwrap();
        det.make_dfa();
        let mut dfa = det.to_dfa();
        let unpruned = det.to_dfa();
        dfa.purge();
        let mut cleaned = det.to_dfa();
        cleaned.clean();
        for w in INPUTS {
            let expected = plain.matches(w);
            assert_eq!(free.matches(w), expected, "{} on {}", p, w);
            assert_eq!(det.matches(w), expected, "{} on {}", p, w);
            assert_eq!(unpruned.matches(w), expected, "{} on {}", p, w);
            assert_eq!(dfa.matches(w), expected, "{} on {}", p, w);
            assert_eq!(cleaned.matches(w), expected, "{} on {}", p, w);
        }
    }
}

#[test]
fn determinized_states_have_one_edge_per_symbol() {
    for p in CORPUS {
        let mut nfa = NFA::from(p.to_string()).unwrap();
        nfa.make_dfa();
        assert!(!nfa.has_duplicates(), "{}", p);
        assert!(nfa.validate().is_ok());
        for node in &nfa.data {
            assert!(node.is_dfa());
            for (i, (c, _)) in node.paths.iter().enumerate() {
                assert!(*c != EPSILON);
                assert!(node.paths.iter().skip(i + 1).all(|(d, _)| d != c), "{}", p);
            }
        }
        let dfa = DFA::from(p.to_string()).unwrap();
        assert!(dfa.validate().is_ok());
    }
    let mut nfa = NFA::from("a(b|c)|ab".to_string()).unwrap();
    nfa.remove_epsilons();
    assert!(nfa.has_duplicates());
    nfa.remove_duplicate_connections();
    assert!(!nfa.has_duplicates());
}

fn state(id: usize, is_terminal: bool, paths: Vec<(char, usize)>) -> Option<DfaNode> {
    Some(DfaNode { id, is_terminal, paths })
}

fn sample() -> DFA {
    DFA {
        regex: String::new(),
        flags: vec![],
        data: vec![
            state(0, false, vec![('a', 1), ('d', 3)]),
            state(1, true, vec![('a', 1)]),
            state(2, true, vec![('a', 0)]),
            state(3, false, vec![('d', 3), ('e', 4)]),
            state(4, false, vec![]),
            None,
        ],
    }
}

#[test]
fn purge_removes_what_cannot_be_reached() {
    let mut dfa = sample();
    assert!(dfa.validate().is_ok());
    dfa.purge();
    let alive: Vec<bool> = dfa.data.iter().map(|s| s.is_some()).collect();
    assert_eq!(alive, vec![true, true, false, true, true, false]);
    assert!(dfa.validate().is_ok());
    let once = format!("{:?}", dfa);
    dfa.purge();
    assert_eq!(format!("{:?}", dfa), once);
    for w in ["", "a", "aa", "d", "de", "da"] {
        assert_eq!(dfa.matches(w), sample().matches(w), "{}", w);
    }
}

#[test]
fn clean_removes_what_accepts_nothing() {
    let mut dfa = sample();
    dfa.clean();
    let alive: Vec<bool> = dfa.data.iter().map(|s| s.is_some()).collect();
    assert_eq!(alive, vec![true, true, true, false, false, false]);
    assert_eq!(dfa.data[0].as_ref().unwrap().paths, vec![('a', 1)]);
    assert!(dfa.validate().is_ok());
    let once = format!("{:?}", dfa);
    dfa.clean();
    assert_eq!(format!("{:?}", dfa), once);
    for w in ["", "a", "aa", "d", "de", "da"] {
        assert_eq!(dfa.matches(w), sample().matches(w), "{}", w);
    }
    let mut nothing = DFA { regex: String::new(), flags: vec![], data: vec![state(0, false, vec![('a', 0)])] };
    nothing.clean();
    assert!(nothing.data[0].is_some());
    assert!(nothing.data[0].as_ref().unwrap().paths.is_empty());
    assert!(!nothing.matches(""));
    assert!(!nothing.matches("a"));
}

#[test]
fn pruning_a_compiled_automaton_changes_nothing() {
    for p in CORPUS {
        let mut dfa = DFA::from(p.to_string()).unwrap();
        let before = format!("{:?}", dfa);
        dfa.purge();
        dfa.clean();
        assert_eq!(format!("{:?}", dfa), before, "{}", p);
    }
}

#[test]
fn invalid_automata_are_told() {
    let ok = NFA {
        regex: String::new(),
        flags: vec![],
        data: vec![NfaNode { id: 0, is_terminal: true, paths: vec![('a', 0)] }],
        cur_last: 0,
    };
    assert_eq!(ok.validate(), Ok(()));
    let dangling = NFA {
        regex: String::new(),
        flags: vec![],
        data: vec![NfaNode { id: 0, is_terminal: true, paths: vec![('a', 1)] }],
        cur_last: 0,
    };
    assert_eq!(dangling.validate(), Err(RegexError::InvalidAutomaton));
    let misnumbered = NFA {
        regex: String::new(),
        flags: vec![],
        data: vec![NfaNode { id: 1, is_terminal: true, paths: vec![] }],
        cur_last: 0,
    };
    assert_eq!(misnumbered.validate(), Err(RegexError::InvalidAutomaton));
    let empty = NFA { regex: String::new(), flags: vec![], data: vec![], cur_last: 0 };
    assert_eq!(empty.validate(), Err(RegexError::InvalidAutomaton));

    let dfa = |data: Vec<Option<DfaNode>>| DFA { regex: String::new(), flags: vec![], data };
    assert_eq!(dfa(vec![state(0, true, vec![('a', 0)])]).validate(), Ok(()));
    assert_eq!(dfa(vec![]).validate(), Err(RegexError::InvalidAutomaton));
    assert_eq!(dfa(vec![None]).validate(), Err(RegexError::InvalidAutomaton));
    assert_eq!(dfa(vec![state(0, true, vec![('a', 1)])]).validate(), Err(RegexError::InvalidAutomaton));
    assert_eq!(
        dfa(vec![state(0, true, vec![('a', 1)]), None]).validate(),
        Err(RegexError::InvalidAutomaton)
    );
    assert_eq!(
        dfa(vec![state(0, true, vec![('a', 0), ('a', 1)]), state(1, false, vec![])]).validate(),
        Err(RegexError::InvalidAutomaton)
    );
    assert_eq!(
        dfa(vec![state(0, true, vec![(EPSILON, 0)])]).validate(),
        Err(RegexError::InvalidAutomaton)
    );
    assert_eq!(dfa(vec![state(3, true, vec![])]).validate(), Err(RegexError::InvalidAutomaton));
}

#[test]
fn epsilon_closure_is_followed_through_cycles() {
    let nfa = NFA::from("(ab)*".to_string()).unwrap();
    assert!(nfa.has_epsilon());
    assert_eq!(nfa.follow_epsilon(&vec![2]), vec![true, false, true, true]);
    assert_eq!(nfa.follow_epsilon(&vec![1]), vec![false, true, false, false]);
    assert_eq!(nfa.follow_epsilon(&vec![]), vec![false, false, false, false]);
    assert_eq!(nfa.step_marks(&vec![true, false, true, true], 'a'), vec![false, true, false, false]);
    assert_eq!(nfa.step_marks(&vec![true, false, true, true], EPSILON), vec![false; 4]);
}

#[test]
fn flags_are_kept() {
    let dfa = DFA::from("/a+/gi".to_string()).unwrap();
    assert_eq!(dfa.flags, vec!['g', 'i']);
    assert_eq!(dfa.regex, "/a+/gi");
    assert!(dfa.matches("aa"));
    let nfa = NFA::from("/a+/gig".to_string()).unwrap();
    assert_eq!(nfa.flags, vec!['g', 'i']);
}

#[test]
fn tokens_are_added_where_the_pattern_ends() {
    let mut nfa = NFA::new("ab".to_string(), vec![]);
    assert_eq!(nfa.next_available_id(), 1);
    nfa.add_token(&Token::Normal { token: 'a', quantifier: TokenQuantifier::Once });
    assert_eq!(nfa.next_available_id(), 2);
    assert_eq!(nfa.cur_last, 1);
    nfa.add_token(&Token::Normal { token: 'b', quantifier: TokenQuantifier::Plus });
    assert_eq!(nfa.cur_last, 2);
    nfa.add_token_to(&Token::Normal { token: 'c', quantifier: TokenQuantifier::Star }, 0);
    assert_eq!(nfa.cur_last, 0);
    assert_eq!(nfa.data[0].paths, vec![('a', 1), ('c', 0)]);
    assert_eq!(nfa.data[1].paths, vec![('b', 2)]);
    assert_eq!(nfa.data[2].paths, vec![('b', 2)]);
    nfa.mark_terminal(2);
    assert!(nfa.matches("ccabbb"));
    assert!(!nfa.matches("cca"));
}

#[test]
fn states_of_a_compiled_automaton() {
    let dfa = DFA::from("ab".to_string()).unwrap();
    let front = dfa.get_front();
    assert_eq!(front.id, 0);
    assert!(!front.is_terminal);
    let next = front.follow('a').unwrap();
    assert_eq!(front.follow('b'), None);
    let node = dfa.get_node(next).unwrap();
    assert_eq!(node.id, next);
    assert!(dfa.get_node(dfa.data.len()).is_none());
    let last = dfa.get_node(node.follow('b').unwrap()).unwrap();
    assert!(last.is_terminal);
    assert!(last.paths.is_empty());
}

#[test]
fn compile_and_match() {
    let automaton = rust_regex::automata::compile("(ab|c)+d?").unwrap();
    assert!(rust_regex::automata::matches(&automaton, "abcab"));
    assert!(rust_regex::automata::matches(&automaton, "cd"));
    assert!(!rust_regex::automata::matches(&automaton, "d"));
    assert!(!rust_regex::automata::matches(&automaton, ""));
    assert_eq!(rust_regex::automata::compile("(ab").err(), Some(RegexError::MalformedPattern));
}

#[test]
fn node_copies_and_edges() {
    let mut a = NfaNode::new(3);
    a.add_path('x', 1);
    a.add_path('x', 2);
    a.add_path('x', 1);
    assert_eq!(a.paths, vec![('x', 1), ('x', 2)]);
    assert!(a.has_path('x', 2));
    assert!(!a.has_path('y', 2));
    assert!(a.has_symbol('x'));
    assert!(!a.is_dfa());
    let b = a.clone();
    assert!(a.same_as(&b));
    assert!(a == b);

    let mut d = DfaNode::from(&NfaNode { id: 4, is_terminal: true, paths: vec![('x', 1), ('y', 2)] });
    assert_eq!((d.id, d.is_terminal), (4, true));
    d.add_path('x', 7);
    d.add_path('z', 0);
    assert_eq!(d.follow('x'), Some(7));
    assert_eq!(d.follow('y'), Some(2));
    assert_eq!(d.follow('z'), Some(0));
    assert_eq!(d.follow('w'), None);
    assert_eq!(d.paths.len(), 3);
    let e = d.clone();
    assert_eq!(e.paths, d.paths);
    let fresh = DfaNode::new(9);
    assert_eq!((fresh.id, fresh.is_terminal, fresh.paths.len()), (9, false, 0));
}

#[test]
fn symbols_with_more_than_one_target() {
    let node = NfaNode {
        id: 0,
        is_terminal: false,
        paths: vec![('a', 1), ('b', 2), ('a', 3), ('c', 4), ('a', 1), ('c', 5), ('d', 6)],
    };
    assert_eq!(node.targets_for('a'), vec![1, 3]);
    assert_eq!(node.targets_for('d'), vec![6]);
    assert_eq!(node.targets_for('z'), Vec::<usize>::new());
    assert_eq!(node.find_dupes(), vec![('a', vec![1, 3]), ('c', vec![4, 5])]);
    assert!(NfaNode::new(1).find_dupes().is_empty());
}

#[test]
fn spreading_marks_what_can_be_reached() {
    let dfa = sample();
    let mut visited = vec![false; 6];
    dfa.spread_through(0, &mut visited);
    assert_eq!(visited, vec![true, true, false, true, true, false]);
    let mut visited = vec![false, false, false, true, false, false];
    dfa.spread_through(0, &mut visited);
    assert_eq!(visited, vec![true, true, false, true, false, false]);
    let mut visited = vec![true, false, false, false, false, false];
    dfa.spread_through(0, &mut visited);
    assert_eq!(visited, vec![true, false, false, false, false, false]);
    let mut visited = vec![false; 6];
    dfa.spread_through(2, &mut visited);
    assert_eq!(visited, vec![true, true, true, true, true, false]);
}
