use bismuth::LSystem;
use std::collections::HashMap;

#[test]
fn test_new_should_have_correct_alphabet() {
    let lsys: LSystem = LSystem::new("AB".to_string());
    assert!(lsys.alphabet().contains(&'A'));
}

#[test]
fn test_new_should_have_correct_start() {
    let lsys: LSystem = LSystem::new("AB".to_string());
    assert_eq!(lsys.start(), "AB");
}

#[test]
fn test_new_should_not_have_duplicate_alphabet_chars() {
    let lsys: LSystem = LSystem::new("AA".to_string());
    assert_eq!(lsys.alphabet().len(), 1);
}

#[test]
fn test_new_should_add_default_rules() {
    let lsys: LSystem = LSystem::new("A".to_string());
    assert_eq!(*lsys.get('A').unwrap(), "A");
}

#[test]
fn test_add_should_add_to_alphabet() {
    let mut lsys: LSystem = LSystem::new("A".to_string());
    lsys.add('B');
    assert!(lsys.alphabet().contains(&'B'));
}

#[test]
fn test_add_should_add_default_rule() {
    let mut lsys: LSystem = LSystem::new("A".to_string());
    lsys.add('B');
    assert_eq!(*lsys.get('B').unwrap(), "B");
}

#[test]
fn test_add_constant_should_add_to_constants() {
    let mut lsys: LSystem = LSystem::new("A".to_string());
    lsys.add_constant('B');
    assert!(lsys.constants().contains(&'B'));
}

#[test]
fn test_add_constant_should_add_to_alphabet() {
    let mut lsys: LSystem = LSystem::new("A".to_string());
    lsys.add_constant('B');
    assert!(lsys.alphabet().contains(&'B'));
}

#[test]
fn test_add_constant_should_add_default_rule() {
    let mut lsys: LSystem = LSystem::new("A".to_string());
    lsys.add_constant('B');
    assert_eq!(*lsys.get('B').unwrap(), "B");
}

#[test]
fn test_push_should_overwrite_existing_rule() {
    let mut lsys: LSystem = LSystem::new("A".to_string());
    let mut rule: HashMap<char, String> = HashMap::new();
    rule.insert('A', "B".to_string());
    lsys.push(rule);
    assert_eq!(*lsys.get('A').unwrap(), "B");
}

#[test]
fn test_push_should_add_to_alphabet() {
    let mut lsys: LSystem = LSystem::new("A".to_string());
    let mut rule: HashMap<char, String> = HashMap::new();
    rule.insert('A', "B".to_string());
    lsys.push(rule);
    assert!(lsys.alphabet().contains(&'B'));
}

#[test]
fn test_push_should_add_default_rules_for_new_chars() {
    let mut lsys: LSystem = LSystem::new("A".to_string());
    let mut rule: HashMap<char, String> = HashMap::new();
    rule.insert('A', "B".to_string());
    lsys.push(rule);
    assert_eq!(*lsys.get('B').unwrap(), "B");
}

#[test]
fn test_push_should_not_overwrite_constants() {
    let mut lsys: LSystem = LSystem::new("A".to_string());
    lsys.add_constant('A');
    let mut rule: HashMap<char, String> = HashMap::new();
    rule.insert('A', "B".to_string());
    lsys.push(rule);
    assert_eq!(*lsys.get('A').unwrap(), "A");
}

#[test]
fn test_push_should_work_with_multiple_rules() {
    let mut lsys: LSystem = LSystem::new("A".to_string());
    let mut rule: HashMap<char, String> = HashMap::new();
    rule.insert('A', "AB".to_string());
    rule.insert('B', "A".to_string());
    lsys.push(rule);
    assert_eq!(*lsys.get('B').unwrap(), "A");
    assert_eq!(*lsys.get('A').unwrap(), "AB");
}

#[test]
fn test_next_with_simple_rules_should_have_correct_start() {
    let mut lsys: LSystem = LSystem::new("A".to_string());
    let mut rule: HashMap<char, String> = HashMap::new();
    rule.insert('A', "B".to_string());
    lsys.push(rule);
    let next: LSystem = lsys.next();
    assert_eq!(next.start(), "B");
}

#[test]
fn test_next_with_complex_rules_should_have_correct_start() {
    let mut lsys: LSystem = LSystem::new("AB".to_string());
    let mut rule: HashMap<char, String> = HashMap::new();
    rule.insert('A', "AB".to_string());
    rule.insert('B', "A".to_string());
    lsys.push(rule);
    let next: LSystem = lsys.next();
    assert_eq!(next.start(), "ABA");
}

#[test]
fn test_next_should_work_in_chains() {
    let mut lsys: LSystem = LSystem::new("AB".to_string());
    let mut rule: HashMap<char, String> = HashMap::new();
    rule.insert('A', "AB".to_string());
    rule.insert('B', "A".to_string());
    lsys.push(rule);
    let next: LSystem = lsys.next().next();
    assert_eq!(next.start(), "ABAAB");
}

#[test]
fn test_to_string_should_return_start_string() {
    let lsys: LSystem = LSystem::new("AB".to_string());
    assert_eq!(lsys.to_string(), "AB");
}
