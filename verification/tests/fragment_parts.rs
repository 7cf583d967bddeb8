use rust_regex::node::Node;
use rust_regex::regex::Regex;

fn fresh() -> Regex {
    Regex { all_nodes: vec![], start: 0, end: 0 }
}

fn targets(node: &Node, symbol: char) -> Option<usize> {
    node.target(symbol)
}

#[test]
fn node_constructors() {
    let n = Node::new(true, 7);
    assert_eq!(n.id, 7);
    assert!(n.is_end);
    assert!(n.transition.is_empty());
    assert!(n.epsilon_transitions.is_empty());
    let m = Node::new_full(false, vec![('a', 3), ('a', 4)], vec![1, 2], 7);
    assert_eq!(m.target('a'), Some(3));
    assert_eq!(m.target('b'), None);
    assert_eq!(m.epsilon_transitions, vec![1, 2]);
    assert!(n == m);
    assert!(n != Node::new(true, 8));
    let mut k = m.copy();
    k.set_target('a', 9);
    k.set_target('b', 1);
    assert_eq!(k.target('a'), Some(9));
    assert_eq!(k.target('b'), Some(1));
    assert_eq!(m.target('a'), Some(3));
}

#[test]
fn symbol_and_epsilon_fragments() {
    let mut r = fresh();
    let mut id = 5;
    r.from_symbol('x', &mut id);
    assert_eq!((r.start(), r.end(), id), (0, 1, 7));
    assert_eq!(r.all_nodes[0].id, 5);
    assert_eq!(r.all_nodes[1].id, 6);
    assert!(!r.all_nodes[0].is_end && r.all_nodes[1].is_end);
    assert_eq!(targets(&r.all_nodes[0], 'x'), Some(1));
    assert_eq!(targets(&r.all_nodes[0], 'y'), None);
    r.from_epsilon(&mut id);
    assert_eq!((r.start(), r.end(), id), (2, 3, 9));
    assert_eq!(r.all_nodes[2].epsilon_transitions, vec![3]);
    assert_eq!(r.all_nodes().len(), 4);
}

#[test]
fn operators_wire_fragments() {
    let mut r = fresh();
    let mut id = 0;
    r.from_symbol('a', &mut id);
    r.from_symbol('b', &mut id);
    r.concat((0, 1), (2, 3));
    assert_eq!((r.start, r.end), (0, 3));
    assert_eq!(r.all_nodes[1].epsilon_transitions, vec![2]);
    assert!(!r.all_nodes[1].is_end);

    r.union((0, 1), (2, 3), &mut id);
    assert_eq!((r.start, r.end, id), (4, 5, 6));
    assert_eq!(r.all_nodes[4].epsilon_transitions, vec![0, 2]);
    assert_eq!(r.all_nodes[1].epsilon_transitions, vec![2, 5]);
    assert_eq!(r.all_nodes[3].epsilon_transitions, vec![5]);
    assert!(!r.all_nodes[3].is_end && r.all_nodes[5].is_end);

    r.asterisk((4, 5), &mut id);
    assert_eq!((r.start, r.end), (6, 7));
    assert_eq!(r.all_nodes[5].epsilon_transitions, vec![7, 4]);
    assert_eq!(r.all_nodes[6].epsilon_transitions, vec![7, 4]);
    assert!(!r.all_nodes[5].is_end);

    r.plus((6, 7), &mut id);
    assert_eq!((r.start, r.end), (8, 9));
    assert_eq!(r.all_nodes[7].epsilon_transitions, vec![9, 6]);
    assert_eq!(r.all_nodes[8].epsilon_transitions, vec![6]);

    r.question((8, 9), &mut id);
    assert_eq!((r.start, r.end, id), (10, 11, 12));
    assert_eq!(r.all_nodes[9].epsilon_transitions, vec![11]);
    assert_eq!(r.all_nodes[10].epsilon_transitions, vec![11, 8]);
}

#[test]
fn class_fragment() {
    let mut r = fresh();
    let mut id = 0;
    r.character_class("abca".to_string(), &mut id);
    assert_eq!((r.start, r.end, id), (0, 1, 2));
    for c in ['a', 'b', 'c'] {
        assert_eq!(targets(&r.all_nodes[0], c), Some(1));
    }
    assert_eq!(targets(&r.all_nodes[0], 'd'), None);
}

#[test]
fn add_and_duplicate_copy_states() {
    let mut r = fresh();
    let mut id = 0;
    r.from_symbol('a', &mut id);
    r.add_epsilon_transition(1, 0);
    let copy = r.all_nodes();
    r.add(&copy, &mut id);
    assert_eq!(id, 4);
    assert_eq!(r.all_nodes.len(), 4);
    assert_eq!(r.all_nodes[2].id, 2);
    assert_eq!(targets(&r.all_nodes[2], 'a'), Some(3));
    assert_eq!(r.all_nodes[3].epsilon_transitions, vec![2]);
    assert!(r.all_nodes[3].is_end);
    assert_eq!((r.start, r.end), (0, 1));

    r.duplicate(0, 1, &mut id);
    assert_eq!(id, 6);
    assert_eq!(r.all_nodes.len(), 6);
    assert_eq!(targets(&r.all_nodes[4], 'a'), Some(5));
    assert_eq!(r.all_nodes[5].epsilon_transitions, vec![0]);
}

#[test]
fn precedence_of_operators() {
    let mut r = fresh();
    assert_eq!(r.precedence('|'), 1);
    assert_eq!(r.precedence('.'), 2);
    assert_eq!(r.precedence('*'), 3);
    assert_eq!(r.precedence('('), 0);
    assert_eq!(r.precedence('a'), 0);
}

#[test]
fn dots_are_written_out() {
    let mut r = fresh();
    let mut dots = |s: &str| r.insert_concat(s.to_string());
    assert_eq!(dots("ab"), Some("a.b".to_string()));
    assert_eq!(dots("a"), Some("a".to_string()));
    assert_eq!(dots(""), Some("".to_string()));
    assert_eq!(dots("a*b"), Some("a*.b".to_string()));
    assert_eq!(dots("(a|b)*c"), Some("(a|b)*.c".to_string()));
    assert_eq!(dots("a(b|c)d"), Some("a.(b|c).d".to_string()));
    assert_eq!(dots("b[abc]*"), Some("b.[abc]*".to_string()));
    assert_eq!(dots("[a-c]{2,3}"), Some("[a-c]{2,3}".to_string()));
    assert_eq!(dots("b{4}c"), Some("b{4}c".to_string()));
    assert_eq!(dots("[ab]c"), Some("[ab]c".to_string()));
    assert_eq!(dots("a[bc"), None);
    assert_eq!(dots("a{2"), None);
}

#[test]
fn postfix_form() {
    let mut r = fresh();
    let mut post = |s: &str| r.to_postfix_insert_concat(s.to_string());
    assert_eq!(post("ab"), Some("ab.".to_string()));
    assert_eq!(post("a|b"), Some("ab|".to_string()));
    assert_eq!(post("a*b"), Some("a*b.".to_string()));
    assert_eq!(post("(a|b)*c"), Some("ab|*c.".to_string()));
    assert_eq!(post("(ab)|(cd)"), Some("ab.cd.|".to_string()));
    assert_eq!(post("a(b|c)d"), Some("abc|.d.".to_string()));
    assert_eq!(post("ab|cd"), Some("ab.cd.|".to_string()));
    assert_eq!(post("(aa){2,3}"), Some("aa.{2,3}".to_string()));
    assert_eq!(post("a)b"), Some("ab.".to_string()));
    assert_eq!(post("[ab"), None);
}

#[test]
fn broken_postfix_is_refused() {
    for p in ["*", "a|", "|", ".", "a.", "+", "?", "{2}", "a{x}", "a{2", "[ab", "a{,x}", "[a-"] {
        assert!(Regex::from_postfix(p.to_string()).is_none(), "{}", p);
    }
    assert!(Regex::new("a[bc".to_string()).is_none());
    assert!(Regex::new("|".to_string()).is_none());
    assert!(Regex::new("".to_string()).is_some());
}

#[test]
fn empty_pattern_accepts_the_empty_input() {
    let mut r = Regex::new("".to_string()).unwrap();
    assert!(r.search((r.start(), r.end()), "".to_string()));
    assert!(!r.search((r.start(), r.end()), "a".to_string()));
}

#[test]
fn next_states_are_the_resting_states() {
    let mut r = Regex::new("a|b".to_string()).unwrap();
    let start = r.start();
    let mut next = vec![];
    let mut visited = vec![];
    r.add_next_state(start, &mut next, &mut visited);
    next.sort();
    visited.sort();
    assert_eq!(next, vec![0, 2]);
    assert_eq!(visited, vec![0, 2]);

    let mut next = vec![9];
    let mut visited = vec![0];
    r.add_next_state(start, &mut next, &mut visited);
    next.sort();
    visited.sort();
    assert_eq!(next, vec![2, 9]);
    assert_eq!(visited, vec![0, 2]);

    let mut next = vec![];
    let mut visited = vec![];
    r.add_next_state(0, &mut next, &mut visited);
    assert_eq!(next, vec![0]);
    assert!(visited.is_empty());
}

#[test]
fn search_starts_where_it_is_told() {
    let mut r = Regex::new("ab".to_string()).unwrap();
    assert!(r.search((2, 3), "b".to_string()));
    assert!(!r.search((2, 3), "ab".to_string()));
    assert!(r.search((0, 0), "ab".to_string()));
}
