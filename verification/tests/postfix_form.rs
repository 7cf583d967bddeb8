use rust_regex::regex::Regex;

#[test]
fn test_closure() {
    let mut nfa = Regex::from_postfix("a*".to_string()).unwrap();
    assert!(nfa.search((nfa.start, nfa.end), "".to_string()));
    assert!(nfa.search((nfa.start, nfa.end), "a".to_string()));
    assert!(nfa.search((nfa.start, nfa.end), "aa".to_string()));
    assert!(nfa.search((nfa.start, nfa.end), "aaaaaaaa".to_string()));
    assert!(!nfa.search((nfa.start, nfa.end), "b".to_string()));
    assert!(!nfa.search((nfa.start, nfa.end), "dsfsf".to_string()));
    assert!(!nfa.search((nfa.start, nfa.end), "abaa".to_string()));
}


#[test]
fn test_concat() {
    let mut nfa = Regex::from_postfix("ab.".to_string()).unwrap();
    assert!(nfa.search((nfa.start, nfa.end), "ab".to_string()));
    assert!(!nfa.search((nfa.start, nfa.end), "".to_string()));
    assert!(!nfa.search((nfa.start, nfa.end), "a".to_string()));
    assert!(!nfa.search((nfa.start, nfa.end), "aba".to_string()));
    assert!(!nfa.search((nfa.start, nfa.end), "dfhrs".to_string()));
}

#[test]
fn test_union() {
    let mut nfa = Regex::from_postfix("ab|".to_string()).unwrap();
    assert!(nfa.search((nfa.start, nfa.end), "a".to_string()));
    assert!(nfa.search((nfa.start, nfa.end), "b".to_string()));
    assert!(!nfa.search((nfa.start, nfa.end), "ab".to_string()));
    assert!(!nfa.search((nfa.start, nfa.end), "".to_string()));
    assert!(!nfa.search((nfa.start, nfa.end), "aba".to_string()));
    assert!(!nfa.search((nfa.start, nfa.end), "dfhrs".to_string()));
}
