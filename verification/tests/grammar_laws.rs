use bismuth::{LSystem, UnknownSymbolError};
use std::collections::HashMap;

fn rules(pairs: &[(char, &str)]) -> HashMap<char, String> {
    let mut rule: HashMap<char, String> = HashMap::new();
    for (key, value) in pairs {
        rule.insert(*key, value.to_string());
    }
    rule
}

fn fractal_plant() -> LSystem {
    let mut lsys = LSystem::new("X".to_string());
    lsys.add('F');
    lsys.add_constant('+');
    lsys.add_constant('-');
    lsys.add_constant('[');
    lsys.add_constant(']');
    lsys.push(rules(&[('X', "F[-X][X]F[-X]+FX"), ('F', "FF")]));
    lsys
}

fn closed(lsys: &LSystem) -> bool {
    let known = lsys.alphabet();
    lsys.start().chars().all(|c| known.contains(&c))
        && lsys.constants().iter().all(|c| known.contains(c))
        && known
            .iter()
            .all(|c| lsys.get(*c).map_or(false, |rule| rule.chars().all(|d| known.contains(&d))))
}

#[test]
fn test_new_of_empty_string_has_empty_alphabet() {
    let lsys = LSystem::new(String::new());
    assert!(lsys.alphabet().is_empty());
    assert!(lsys.constants().is_empty());
    assert_eq!(lsys.to_string(), "");
}

#[test]
fn test_new_keeps_order_of_first_occurrence() {
    let lsys = LSystem::new("BABCA".to_string());
    assert_eq!(*lsys.alphabet(), vec!['B', 'A', 'C']);
}

#[test]
fn test_get_of_unknown_symbol_is_an_error() {
    let lsys = LSystem::new("A".to_string());
    assert_eq!(lsys.get('Z'), Err(UnknownSymbolError { symbol: 'Z' }));
}

#[test]
fn test_add_is_idempotent() {
    let mut lsys = LSystem::new("A".to_string());
    lsys.set_rule('A', "AB");
    lsys.add('A');
    lsys.add('B');
    lsys.add('B');
    assert_eq!(*lsys.alphabet(), vec!['A', 'B']);
    assert_eq!(*lsys.get('A').unwrap(), "AB");
}

#[test]
fn test_add_constant_twice_lists_it_once() {
    let mut lsys = LSystem::new("A".to_string());
    lsys.add_constant('+');
    lsys.add_constant('+');
    assert_eq!(*lsys.constants(), vec!['+']);
    assert_eq!(*lsys.alphabet(), vec!['A', '+']);
}

#[test]
fn test_add_constant_discards_an_earlier_rule() {
    let mut lsys = LSystem::new("A".to_string());
    lsys.set_rule('A', "AB");
    lsys.add_constant('A');
    assert_eq!(*lsys.get('A').unwrap(), "A");
    assert_eq!(lsys.next().to_string(), "A");
}

#[test]
fn test_set_rule_registers_key_and_symbols() {
    let mut lsys = LSystem::new("A".to_string());
    lsys.set_rule('B', "CD");
    assert_eq!(*lsys.alphabet(), vec!['A', 'C', 'D', 'B']);
    assert_eq!(*lsys.get('B').unwrap(), "CD");
    assert_eq!(*lsys.get('C').unwrap(), "C");
    assert_eq!(*lsys.get('D').unwrap(), "D");
}

#[test]
fn test_set_rule_on_constant_registers_symbols_only() {
    let mut lsys = LSystem::new("A".to_string());
    lsys.add_constant('A');
    lsys.set_rule('A', "BC");
    assert_eq!(*lsys.get('A').unwrap(), "A");
    assert!(lsys.alphabet().contains(&'B'));
    assert!(lsys.alphabet().contains(&'C'));
}

#[test]
fn test_push_on_constant_registers_symbols_only() {
    let mut lsys = LSystem::new("A".to_string());
    lsys.add_constant('A');
    lsys.push(rules(&[('A', "BC")]));
    assert_eq!(*lsys.get('A').unwrap(), "A");
    assert_eq!(*lsys.get('B').unwrap(), "B");
    assert_eq!(*lsys.get('C').unwrap(), "C");
}

#[test]
fn test_push_with_empty_replacement_erases_symbol() {
    let mut lsys = LSystem::new("ABA".to_string());
    lsys.push(rules(&[('A', "")]));
    assert_eq!(lsys.next().to_string(), "B");
}

#[test]
fn test_push_list_lets_the_later_rule_win() {
    let mut lsys = LSystem::new("A".to_string());
    let list = vec![('A', "B".to_string()), ('A', "CC".to_string())];
    lsys.push_list(&list);
    assert_eq!(*lsys.get('A').unwrap(), "CC");
    assert_eq!(*lsys.alphabet(), vec!['A', 'B', 'C']);
    assert_eq!(lsys.next().to_string(), "CC");
}

#[test]
fn test_push_agrees_with_push_list() {
    let mut by_map = LSystem::new("AB".to_string());
    by_map.push(rules(&[('A', "AB"), ('B', "A")]));
    let mut by_list = LSystem::new("AB".to_string());
    by_list.push_list(&vec![('A', "AB".to_string()), ('B', "A".to_string())]);
    assert_eq!(by_map.next().to_string(), by_list.next().to_string());
    assert_eq!(*by_map.get('A').unwrap(), *by_list.get('A').unwrap());
    assert_eq!(*by_map.get('B').unwrap(), *by_list.get('B').unwrap());
}

#[test]
fn test_closure_holds_after_every_operation() {
    let mut lsys = LSystem::new("X".to_string());
    assert!(closed(&lsys));
    lsys.add('F');
    assert!(closed(&lsys));
    lsys.add_constant('+');
    assert!(closed(&lsys));
    lsys.push(rules(&[('X', "F[-X][X]F[-X]+FX"), ('F', "FF"), ('+', "QR")]));
    assert!(closed(&lsys));
    assert!(lsys.alphabet().contains(&'Q'));
    let mut next = lsys.next();
    assert!(closed(&next));
    assert!(closed(&next.next()));
}

#[test]
fn test_constants_stay_fixed_under_any_rule() {
    let mut lsys = fractal_plant();
    lsys.push(rules(&[('+', "X"), ('-', ""), ('[', "]["), (']', "FF")]));
    for c in ['+', '-', '[', ']'] {
        assert_eq!(*lsys.get(c).unwrap(), c.to_string());
    }
}

#[test]
fn test_next_is_deterministic() {
    let mut lsys = fractal_plant();
    let first = lsys.next().to_string();
    let second = lsys.next().to_string();
    assert_eq!(first, second);
    assert_eq!(first, "F[-X][X]F[-X]+FX");
}

#[test]
fn test_next_leaves_the_system_as_it_is() {
    let mut lsys = fractal_plant();
    let _ = lsys.next();
    assert_eq!(lsys.to_string(), "X");
    assert_eq!(*lsys.get('F').unwrap(), "FF");
}

#[test]
fn test_identity_rules_give_the_same_string() {
    let mut lsys = LSystem::new("HELLO".to_string());
    assert_eq!(lsys.next().to_string(), "HELLO");
    assert_eq!(lsys.next().next().next().to_string(), "HELLO");
}

#[test]
fn test_length_grows_by_at_most_the_longest_rule() {
    let mut lsys = fractal_plant();
    let longest = lsys
        .alphabet()
        .iter()
        .map(|c| lsys.get(*c).unwrap().chars().count())
        .max()
        .unwrap();
    assert_eq!(longest, 16);
    let mut current = lsys.next();
    for _ in 0..4 {
        let next = current.next();
        assert!(next.start().chars().count() <= current.start().chars().count() * longest);
        current = next;
    }
}

#[test]
fn test_second_generation_of_fractal_plant() {
    let mut lsys = fractal_plant();
    let second = lsys.next().next();
    assert_eq!(
        second.to_string(),
        "FF[-F[-X][X]F[-X]+FX][F[-X][X]F[-X]+FX]FF[-F[-X][X]F[-X]+FX]+FFF[-X][X]F[-X]+FX"
    );
}

#[test]
fn test_single_symbol_without_rules_stays() {
    let mut lsys = LSystem::new("A".to_string());
    assert_eq!(lsys.next().to_string(), "A");
}

#[test]
fn test_one_rule_two_generations() {
    let mut lsys = LSystem::new("A".to_string());
    lsys.push(rules(&[('A', "AB")]));
    let mut first = lsys.next();
    assert_eq!(first.to_string(), "AB");
    // `B` maps to itself, so the second generation ends in two of them.
    assert_eq!(first.next().to_string(), "ABB");
}

#[test]
fn test_two_rules_two_generations() {
    let mut lsys = LSystem::new("AB".to_string());
    lsys.push(rules(&[('A', "AB"), ('B', "A")]));
    assert_eq!(lsys.next().next().to_string(), "ABAAB");
}

#[test]
fn test_symbols_beyond_ascii() {
    let mut lsys = LSystem::new("\u{2212}X".to_string());
    lsys.push(rules(&[('X', "X\u{2212}\u{1F331}")]));
    assert_eq!(lsys.next().to_string(), "\u{2212}X\u{2212}\u{1F331}");
    assert_eq!(*lsys.get('\u{1F331}').unwrap(), "\u{1F331}");
}
