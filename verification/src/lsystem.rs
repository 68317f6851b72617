//! The executable L-system: a grammar held in vectors and hash tables.

use crate::grammar::{
    expand, identity, lemma_advance_closed, lemma_derive_closed, lemma_initial_closed,
    lemma_rule_list_is_rule_set, lemma_single_candidates, lemma_with_alternative_closed,
    lemma_with_constant_closed, lemma_with_rule_closed, lemma_with_symbol_closed, rule_or_identity,
    Grammar,
};
use rand::rngs::StdRng;
use rand::RngExt;
use std::collections::HashMap;
use vstd::prelude::*;

verus! {

broadcast use {
    vstd::std_specs::hash::group_hash_axioms,
    vstd::seq_lib::lemma_seq_contains_after_push,
    vstd::seq_lib::lemma_seq_empty_contains_nothing,
};

/// `String::push` of the standard library: the string afterwards is the string
/// before with `c` appended as its last character.
pub assume_specification[ String::push ](s: &mut String, c: char)
    ensures
        final(s)@ == old(s)@.push(c),
;

/// `rand::rngs::StdRng`, the generator that a randomized generation draws from.
#[verifier::external_type_specification]
#[verifier::external_body]
pub struct ExStdRng(StdRng);

/// `RngExt::random_range` of `rand`, on the range from 0 to `max`, both included:
/// the number drawn is at most `max`. Nothing else is said of it.
#[verifier::external_body]
fn draw(rng: &mut StdRng, max: usize) -> (pick: usize)
    ensures
        pick <= max,
{
    rng.random_range(0..=max)
}

/// A rule was asked for a symbol that was never registered.
#[derive(Clone, Copy, Debug, PartialEq, Eq, Structural)]
pub struct UnknownSymbolError {
    /// The symbol that has no rule.
    pub symbol: char,
}

/// A rewriting grammar together with its current string.
///
/// The two tables are keyed by the symbols' scalar values.
pub struct LSystem {
    alphabet: Vec<char>,
    constants: Vec<char>,
    start: String,
    rules: HashMap<u32, String>,
    alternatives: HashMap<u32, Vec<String>>,
}

impl View for LSystem {
    type V = Grammar;

    closed spec fn view(&self) -> Grammar {
        Grammar {
            alphabet: self.alphabet@.to_set(),
            constants: self.constants@.to_set(),
            start: self.start@,
            rules: Map::new(
                |c: char| self.rules@.contains_key(code(c)),
                |c: char| self.rules@[code(c)]@,
            ),
            alternatives: Map::new(
                |c: char| self.alternatives@.contains_key(code(c)),
                |c: char| strings_of(self.alternatives@[code(c)]@),
            ),
        }
    }
}

/// The key under which the tables hold what belongs to `c`: its scalar value.
spec fn code(c: char) -> u32 {
    c as u32
}

/// The symbols of each string of a list, in the order of the list.
pub open spec fn strings_of(list: Seq<String>) -> Seq<Seq<char>> {
    Seq::new(list.len(), |i: int| list[i]@)
}

/// The choices that a list of machine integers stands for.
pub open spec fn picks_of(list: Seq<usize>) -> Seq<nat> {
    Seq::new(list.len(), |i: int| list[i] as nat)
}

/// Computes [`code`].
fn key_of(c: char) -> (k: u32)
    ensures
        k == code(c),
{
    c as u32
}

/// Distinct symbols have distinct keys.
proof fn lemma_code_injective(a: char, b: char)
    ensures
        code(a) == code(b) <==> a == b,
{
}

/// Whether `c` occurs in `v`.
fn occurs(v: &Vec<char>, c: char) -> (found: bool)
    ensures
        found == v@.contains(c),
{
    let mut i: usize = 0;
    while i < v.len()
        invariant
            i <= v.len(),
            forall|j: int| 0 <= j < i ==> v@[j] != c,
        decreases v.len() - i,
    {
        if v[i] == c {
            return true;
        }
        i += 1;
    }
    false
}

/// The identity production of `c` as a string.
fn identity_rule(c: char) -> (s: String)
    ensures
        s@ == identity(c),
{
    let mut s = String::new();
    s.push(c);
    s
}

/// A rule set as the grammar sees it: each key with the symbols of its replacement.
pub open spec fn rule_set(rule: Map<char, String>) -> Map<char, Seq<char>> {
    Map::new(|k: char| rule.contains_key(k), |k: char| rule[k]@)
}

/// A list of productions as the grammar sees it: each key with the symbols of its
/// replacement, in the order of the list.
pub open spec fn productions(rules: Seq<(char, String)>) -> Seq<(char, Seq<char>)> {
    Seq::new(rules.len(), |i: int| (rules[i].0, rules[i].1@))
}

/// `Vec::from_iter` of the standard library, on a hash map: the vector holds the
/// map's entries, each key once and beside its own value. The order in which the
/// entries come is left open.
#[verifier::external_body]
fn entries(rule: HashMap<char, String>) -> (pairs: Vec<(char, String)>)
    ensures
        forall|i: int, j: int| 0 <= i < j < pairs@.len() ==> pairs@[i].0 != pairs@[j].0,
        forall|i: int|
            0 <= i < pairs@.len() ==> rule@.contains_key((#[trigger] pairs@[i]).0)
                && rule@[pairs@[i].0]@ == pairs@[i].1@,
        forall|k: char|
            rule@.contains_key(k) ==> exists|i: int|
                0 <= i < pairs@.len() && (#[trigger] pairs@[i]).0 == k,
{
    Vec::from_iter(rule)
}

impl LSystem {
    /// The representation is sound and the grammar it stands for is closed.
    pub closed spec fn wf(&self) -> bool {
        &&& self.alphabet@.no_duplicates()
        &&& self.constants@.no_duplicates()
        &&& self@.closed()
    }

    /// A well-formed L-system stands for a closed grammar.
    pub proof fn lemma_wf_closed(&self)
        requires
            self.wf(),
        ensures
            self@.closed(),
    {
    }

    /// The L-system that starts from `start`: the alphabet is the set of its symbols,
    /// and every symbol maps to itself.
    pub fn new(start: String) -> (r: LSystem)
        ensures
            r.wf(),
            r@ == Grammar::initial(start@),
    {
        let mut alphabet: Vec<char> = Vec::new();
        let mut rules: HashMap<u32, String> = HashMap::new();
        for c in it: start.as_str().chars()
            invariant
                it.seq() == start@,
                alphabet@.no_duplicates(),
                forall|x: char|
                    alphabet@.contains(x) <==> start@.take(it.index() as int).contains(x),
                forall|x: char| alphabet@.contains(x) <==> rules@.contains_key(code(x)),
                forall|x: char| alphabet@.contains(x) ==> rules@[code(x)]@ == identity(x),
        {
            proof {
                let i = it.index() as int;
                assert(start@.take(i + 1) == start@.take(i).push(c));
            }
            if !occurs(&alphabet, c) {
                alphabet.push(c);
                rules.insert(key_of(c), identity_rule(c));
                assert forall|x: char| alphabet@.contains(x) <==> rules@.contains_key(
                    code(x),
                ) by {
                    lemma_code_injective(x, c);
                }
                assert forall|x: char| alphabet@.contains(x) implies rules@[code(x)]@
                    == identity(x) by {
                    lemma_code_injective(x, c);
                }
            }
        }
        let r = LSystem {
            alphabet,
            constants: Vec::new(),
            start,
            rules,
            alternatives: HashMap::new(),
        };
        proof {
            lemma_initial_closed(start@);
            assert(start@.take(start@.len() as int) == start@);
            assert(r@.alphabet =~= start@.to_set());
            assert(r@.constants =~= Set::<char>::empty());
            assert(r@.rules =~= Grammar::initial(start@).rules);
            assert(r@.alternatives =~= Map::<char, Seq<Seq<char>>>::empty());
        }
        r
    }

    /// The current string.
    pub fn to_string(&self) -> (s: String)
        ensures
            s@ == self@.start,
    {
        self.start.clone()
    }

    /// The known symbols, each once, in the order in which they were registered.
    pub fn alphabet(&self) -> (v: &Vec<char>)
        ensures
            v@.to_set() == self@.alphabet,
            self.wf() ==> v@.no_duplicates(),
    {
        &self.alphabet
    }

    /// The constants, each once, in the order in which they were registered.
    pub fn constants(&self) -> (v: &Vec<char>)
        ensures
            v@.to_set() == self@.constants,
            self.wf() ==> v@.no_duplicates(),
    {
        &self.constants
    }

    /// The current string, borrowed.
    pub fn start(&self) -> (s: &String)
        ensures
            s@ == self@.start,
    {
        &self.start
    }

    /// The production of `key`, or the error that names `key` where it was never
    /// registered.
    pub fn get(&self, key: char) -> (r: Result<&String, UnknownSymbolError>)
        ensures
            match r {
                Ok(rule) => self@.rules.contains_key(key) && rule@ == self@.rules[key],
                Err(e) => !self@.rules.contains_key(key) && e == (UnknownSymbolError {
                    symbol: key,
                }),
            },
    {
        match self.rules.get(&key_of(key)) {
            Some(rule) => Ok(rule),
            None => Err(UnknownSymbolError { symbol: key }),
        }
    }

    /// Registers `c` with the identity production; a known symbol is left as it is.
    pub fn add(&mut self, c: char)
        requires
            old(self).wf(),
        ensures
            final(self).wf(),
            final(self)@ == old(self)@.with_symbol(c),
    {
        if !occurs(&self.alphabet, c) {
            self.alphabet.push(c);
            self.rules.insert(key_of(c), identity_rule(c));
            proof {
                assert forall|x: char| x != c implies code(x) != code(c) by {
                    lemma_code_injective(x, c);
                }
            }
        }
        proof {
            assert(self@.alphabet =~= old(self)@.with_symbol(c).alphabet);
            assert(self@.rules =~= old(self)@.with_symbol(c).rules);
            lemma_with_symbol_closed(old(self)@, c);
        }
    }

    /// Registers `key` and every symbol of `value`, first those of `value` in their
    /// order, then `key`.
    fn register(&mut self, key: char, value: &str)
        requires
            old(self).wf(),
        ensures
            final(self).wf(),
            final(self)@ == old(self)@.with_symbols(key, value@),
    {
        for c in it: value.chars()
            invariant
                it.seq() == value@,
                old(self).wf(),
                self.wf(),
                self@.alphabet == old(self)@.alphabet.union(
                    value@.take(it.index() as int).to_set(),
                ),
                self@.constants == old(self)@.constants,
                self@.start == old(self)@.start,
                self@.alternatives == old(self)@.alternatives,
                self@.rules == Map::new(
                    |x: char| self@.alphabet.contains(x),
                    |x: char| rule_or_identity(old(self)@.rules, x),
                ),
        {
            proof {
                let i = it.index() as int;
                assert(value@.take(i + 1) == value@.take(i).push(c));
            }
            self.add(c);
            proof {
                assert(self@.alphabet =~= old(self)@.alphabet.union(
                    value@.take(it.index() + 1).to_set(),
                ));
                assert(self@.rules =~= Map::new(
                    |x: char| self@.alphabet.contains(x),
                    |x: char| rule_or_identity(old(self)@.rules, x),
                ));
            }
        }
        self.add(key);
        proof {
            assert(value@.take(value@.len() as int) == value@);
            let goal = old(self)@.with_symbols(key, value@);
            assert(self@.alphabet =~= goal.alphabet);
            assert(self@.rules =~= goal.rules);
        }
    }

    /// Makes `value`, whose symbols are all known, the production of the known
    /// symbol `key`, which is no constant, and its only replacement.
    fn overwrite_rule(&mut self, key: &char, value: &str)
        requires
            old(self).wf(),
            old(self)@.alphabet.contains(*key),
            !old(self)@.constants.contains(*key),
            forall|j: int| 0 <= j < value@.len() ==> old(self)@.alphabet.contains(value@[j]),
        ensures
            final(self).wf(),
            final(self)@ == (Grammar {
                rules: old(self)@.rules.insert(*key, value@),
                alternatives: old(self)@.alternatives.remove(*key),
                ..old(self)@
            }),
    {
        self.rules.insert(key_of(*key), value.to_owned());
        self.alternatives.remove(&key_of(*key));
        proof {
            assert forall|x: char| x != *key implies code(x) != code(*key) by {
                lemma_code_injective(x, *key);
            }
            assert(self@.rules =~= old(self)@.rules.insert(*key, value@));
            assert(self@.alternatives =~= old(self)@.alternatives.remove(*key));
            assert(self@.rules.dom() =~= self@.alphabet);
            assert forall|x: char, k: int, j: int|
                self@.alternatives.contains_key(x) && 0 <= k < self@.alternatives[x].len() && 0
                    <= j < self@.alternatives[x][k].len() implies self@.alphabet.contains(
                #[trigger] self@.alternatives[x][k][j],
            ) by {
                assert(old(self)@.alphabet.contains(old(self)@.alternatives[x][k][j]));
            }
        }
    }

    /// Registers `c` as a constant: it maps to itself from now on, whatever
    /// replacements it had, and no later rule changes that.
    pub fn add_constant(&mut self, c: char)
        requires
            old(self).wf(),
        ensures
            final(self).wf(),
            final(self)@ == old(self)@.with_constant(c),
    {
        self.add(c);
        self.rules.insert(key_of(c), identity_rule(c));
        self.alternatives.remove(&key_of(c));
        if !occurs(&self.constants, c) {
            self.constants.push(c);
        }
        proof {
            assert forall|x: char| x != c implies code(x) != code(c) by {
                lemma_code_injective(x, c);
            }
            assert(self@.alphabet =~= old(self)@.with_constant(c).alphabet);
            assert(self@.constants =~= old(self)@.with_constant(c).constants);
            assert(self@.rules =~= old(self)@.with_constant(c).rules);
            assert(self@.alternatives =~= old(self)@.with_constant(c).alternatives);
            lemma_with_constant_closed(old(self)@, c);
        }
    }

    /// Sets one production: registers `key` and every symbol of `value`, then makes
    /// `value` the production of `key` and its only replacement, unless `key` is a
    /// constant.
    pub fn set_rule(&mut self, key: char, value: &str)
        requires
            old(self).wf(),
        ensures
            final(self).wf(),
            final(self)@ == old(self)@.with_rule(key, value@),
    {
        self.register(key, value);
        if !occurs(&self.constants, key) {
            proof {
                assert forall|j: int| 0 <= j < value@.len() implies self@.alphabet.contains(
                    value@[j],
                ) by {
                    assert(value@.contains(value@[j]));
                }
            }
            self.overwrite_rule(&key, value);
        }
        proof {
            lemma_with_rule_closed(old(self)@, key, value@);
        }
    }

    /// Adds a replacement: registers `key` and every symbol of `value`, then puts
    /// `value` behind the replacements that `key` has, unless `key` is a constant.
    /// The production of `key` stays as it is.
    pub fn add_alternative(&mut self, key: char, value: &str)
        requires
            old(self).wf(),
        ensures
            final(self).wf(),
            final(self)@ == old(self)@.with_alternative(key, value@),
    {
        self.register(key, value);
        if !occurs(&self.constants, key) {
            let ghost before = self@;
            let mut list = match self.alternatives.remove(&key_of(key)) {
                Some(list) => list,
                None => Vec::new(),
            };
            proof {
                assert(strings_of(list@) =~= before.extras(key));
            }
            let ghost shorter = list@;
            list.push(value.to_owned());
            proof {
                assert(strings_of(list@) =~= strings_of(shorter).push(value@));
            }
            self.alternatives.insert(key_of(key), list);
            proof {
                assert forall|x: char| x != key implies code(x) != code(key) by {
                    lemma_code_injective(x, key);
                }
                assert(self@.rules =~= before.rules);
                assert(self@.alternatives =~= before.alternatives.insert(
                    key,
                    before.extras(key).push(value@),
                ));
            }
        }
        proof {
            lemma_with_alternative_closed(old(self)@, key, value@);
        }
    }

    /// Sets the productions of `rules` one after the other, the first one first.
    pub fn push_list(&mut self, rules: &Vec<(char, String)>)
        requires
            old(self).wf(),
        ensures
            final(self).wf(),
            final(self)@ == old(self)@.with_rule_list(productions(rules@)),
    {
        let mut i: usize = 0;
        while i < rules.len()
            invariant
                i <= rules.len(),
                self.wf(),
                self@ == old(self)@.with_rule_list(productions(rules@).take(i as int)),
            decreases rules.len() - i,
        {
            proof {
                let all = productions(rules@);
                assert(all.take(i + 1).drop_last() == all.take(i as int));
                assert(all.take(i + 1).last() == (rules@[i as int].0, rules@[i as int].1@));
            }
            self.set_rule(rules[i].0, rules[i].1.as_str());
            i += 1;
        }
        proof {
            let all = productions(rules@);
            assert(all.take(all.len() as int) == all);
        }
    }

    /// Sets a rule set: registers every symbol that `rule` mentions, as a key or
    /// inside a replacement, then gives each key that is no constant its new
    /// production. The rules of constants stay as they are.
    pub fn push(&mut self, rule: HashMap<char, String>)
        requires
            old(self).wf(),
        ensures
            final(self).wf(),
            final(self)@ == old(self)@.with_rules(rule_set(rule@)),
    {
        let ghost wanted = rule_set(rule@);
        let pairs = entries(rule);
        self.push_list(&pairs);
        proof {
            let listed = productions(pairs@);
            assert forall|k: char| wanted.contains_key(k) implies exists|i: int|
                0 <= i < listed.len() && (#[trigger] listed[i]).0 == k by {
                let i = choose|i: int| 0 <= i < pairs@.len() && (#[trigger] pairs@[i]).0 == k;
                assert(listed[i].0 == k);
            }
            assert forall|i: int| 0 <= i < listed.len() implies wanted.contains_key(
                (#[trigger] listed[i]).0,
            ) && wanted[listed[i].0] == listed[i].1 by {
                assert(rule@.contains_key(pairs@[i].0));
            }
            lemma_rule_list_is_rule_set(old(self)@, listed, wanted);
        }
    }

    /// The next generation: every symbol of the current string replaced by its
    /// production, in order. This L-system is left as it is.
    pub fn next(&mut self) -> (r: LSystem)
        requires
            old(self).wf(),
        ensures
            *final(self) == *old(self),
            r.wf(),
            r@ == old(self)@.advance(),
    {
        let mut out = String::new();
        for c in it: self.start.as_str().chars()
            invariant
                *self == *old(self),
                self.wf(),
                it.seq() == self.start@,
                out@ == expand(self@.rules, self.start@.take(it.index() as int)),
        {
            proof {
                let i = it.index() as int;
                assert(self.start@.take(i + 1).drop_last() == self.start@.take(i));
                assert(self@.alphabet.contains(self@.start[i]));
            }
            match self.rules.get(&key_of(c)) {
                Some(rule) => {
                    out.append(rule.as_str());
                },
                None => {
                    assert(false);
                },
            }
        }
        proof {
            assert(self.start@.take(self.start@.len() as int) == self.start@);
            lemma_advance_closed(self@);
        }
        self.with_start(out)
    }

    /// This L-system with `start` as its current string.
    fn with_start(&self, start: String) -> (r: LSystem)
        requires
            self.wf(),
            (Grammar { start: start@, ..self@ }).closed(),
        ensures
            r.wf(),
            r@ == (Grammar { start: start@, ..self@ }),
    {
        let r = LSystem {
            alphabet: self.alphabet.clone(),
            constants: self.constants.clone(),
            start,
            rules: self.rules.clone(),
            alternatives: self.alternatives.clone(),
        };
        proof {
            assert(r.alphabet@ =~= self.alphabet@);
            assert(r.constants@ =~= self.constants@);
            assert(r@.rules =~= self@.rules);
            assert(r@.alternatives =~= self@.alternatives);
        }
        r
    }

    /// All the replacements of `key`, its production first, or the error that names
    /// `key` where it was never registered.
    pub fn candidates(&self, key: char) -> (r: Result<Vec<String>, UnknownSymbolError>)
        ensures
            match r {
                Ok(list) => self@.rules.contains_key(key) && strings_of(list@)
                    == self@.candidates(key),
                Err(e) => !self@.rules.contains_key(key) && e == (UnknownSymbolError {
                    symbol: key,
                }),
            },
    {
        let mut list: Vec<String> = Vec::new();
        match self.rules.get(&key_of(key)) {
            Some(rule) => {
                list.push(rule.clone());
            },
            None => {
                return Err(UnknownSymbolError { symbol: key });
            },
        }
        match self.alternatives.get(&key_of(key)) {
            Some(extras) => {
                let mut i: usize = 0;
                while i < extras.len()
                    invariant
                        i <= extras.len(),
                        list@.len() == i + 1,
                        list@[0]@ == self@.rules[key],
                        forall|j: int| 0 <= j < i ==> list@[j + 1]@ == extras@[j]@,
                    decreases extras.len() - i,
                {
                    list.push(extras[i].clone());
                    i += 1;
                }
                proof {
                    assert(strings_of(list@) =~= self@.candidates(key));
                }
            },
            None => {
                proof {
                    assert(strings_of(list@) =~= self@.candidates(key));
                }
            },
        }
        Ok(list)
    }

    /// The replacement of `key` with number `pick`, where 0 is the production of
    /// `key` and the further replacements follow in the order in which they were
    /// added; `None` where `key` is unknown or has no such replacement.
    pub fn candidate(&self, key: char, pick: usize) -> (r: Option<&String>)
        ensures
            match r {
                Some(rule) => self@.rules.contains_key(key) && pick < self@.candidates(key).len()
                    && rule@ == self@.candidates(key)[pick as int],
                None => !(self@.rules.contains_key(key) && pick < self@.candidates(key).len()),
            },
    {
        match self.rules.get(&key_of(key)) {
            None => None,
            Some(rule) => {
                if pick == 0 {
                    Some(rule)
                } else {
                    match self.alternatives.get(&key_of(key)) {
                        None => None,
                        Some(extras) => {
                            if pick - 1 < extras.len() {
                                Some(&extras[pick - 1])
                            } else {
                                None
                            }
                        },
                    }
                }
            },
        }
    }

    /// The number of further replacements that `key` has beside its production.
    fn extra_count(&self, key: char) -> (n: usize)
        ensures
            n == self@.extras(key).len(),
    {
        match self.alternatives.get(&key_of(key)) {
            Some(extras) => extras.len(),
            None => 0,
        }
    }

    /// The next generation by the choices of `picks`, one for each symbol of the
    /// current string: every symbol is replaced by the replacement that its choice
    /// names. `None` where `picks` has not as many entries as the string has
    /// symbols, or names a replacement that a symbol does not have. This L-system
    /// is left as it is.
    pub fn next_with(&mut self, picks: &Vec<usize>) -> (r: Option<LSystem>)
        requires
            old(self).wf(),
        ensures
            *final(self) == *old(self),
            match r {
                Some(next) => old(self)@.fits(old(self)@.start, picks_of(picks@)) && next.wf()
                    && next@ == old(self)@.derive(picks_of(picks@)),
                None => !old(self)@.fits(old(self)@.start, picks_of(picks@)),
            },
    {
        let mut out = String::new();
        let mut i: usize = 0;
        let ghost all = picks_of(picks@);
        for c in it: self.start.as_str().chars()
            invariant
                *self == *old(self),
                self.wf(),
                it.seq() == self.start@,
                all == picks_of(picks@),
                i == it.index(),
                i <= picks.len(),
                self@.fits(self.start@.take(i as int), all.take(i as int)),
                out@ == self@.expand_picked(self.start@.take(i as int), all.take(i as int)),
        {
            if i >= picks.len() {
                return None;
            }
            proof {
                assert(self.start@.take(i + 1).drop_last() == self.start@.take(i as int));
                assert(all.take(i + 1).drop_last() == all.take(i as int));
                assert(self.start@.take(i + 1).last() == c);
                assert(all.take(i + 1).last() == picks@[i as int] as nat);
            }
            match self.candidate(c, picks[i]) {
                Some(rule) => {
                    out.append(rule.as_str());
                },
                None => {
                    proof {
                        assert(self@.alphabet.contains(self@.start[i as int]));
                        if self@.fits(self@.start, all) {
                            assert(all[i as int] < self@.candidates(self@.start[i as int]).len());
                        }
                    }
                    return None;
                },
            }
            proof {
                let s = self.start@.take(i + 1);
                let p = all.take(i + 1);
                assert forall|j: int| 0 <= j < s.len() implies #[trigger] p[j]
                    < self@.candidates(s[j]).len() by {
                    if j < i {
                        assert(all.take(i as int)[j] == p[j]);
                        assert(self.start@.take(i as int)[j] == s[j]);
                    }
                }
            }
            i += 1;
        }
        if i != picks.len() {
            return None;
        }
        proof {
            assert(self.start@.take(self.start@.len() as int) == self.start@);
            assert(all.take(all.len() as int) == all);
            lemma_derive_closed(self@, all);
        }
        Some(self.with_start(out))
    }

    /// A next generation at random: every symbol of the current string that has
    /// further replacements is replaced by one of its replacements, drawn from
    /// `rng` for this occurrence alone, each with the same chance; a symbol with
    /// one replacement is replaced by it, and no number is drawn. This L-system is
    /// left as it is.
    pub fn next_rand(&mut self, rng: &mut StdRng) -> (r: LSystem)
        requires
            old(self).wf(),
        ensures
            *final(self) == *old(self),
            r.wf(),
            exists|picks: Seq<nat>|
                old(self)@.fits(old(self)@.start, picks) && r@ == #[trigger] old(self)@.derive(
                    picks,
                ),
            (forall|i: int|
                0 <= i < old(self)@.start.len() ==> old(self)@.extras(
                    #[trigger] old(self)@.start[i],
                ).len() == 0) ==> r@ == old(self)@.advance(),
    {
        let mut out = String::new();
        let ghost mut drawn: Seq<nat> = Seq::empty();
        for c in it: self.start.as_str().chars()
            invariant
                *self == *old(self),
                self.wf(),
                it.seq() == self.start@,
                self@.fits(self.start@.take(it.index() as int), drawn),
                out@ == self@.expand_picked(self.start@.take(it.index() as int), drawn),
        {
            let ghost i = it.index() as int;
            let extras = self.extra_count(c);
            let pick = if extras > 0 {
                draw(rng, extras)
            } else {
                0
            };
            proof {
                assert(self@.alphabet.contains(self@.start[i]));
                assert(self.start@.take(i + 1).drop_last() == self.start@.take(i));
                assert(drawn.push(pick as nat).drop_last() == drawn);
                let s = self.start@.take(i + 1);
                let p = drawn.push(pick as nat);
                assert forall|j: int| 0 <= j < s.len() implies #[trigger] p[j]
                    < self@.candidates(s[j]).len() by {
                    if j < i {
                        assert(drawn[j] == p[j]);
                        assert(self.start@.take(i)[j] == s[j]);
                    }
                }
            }
            match self.candidate(c, pick) {
                Some(rule) => {
                    out.append(rule.as_str());
                },
                None => {
                    assert(false);
                },
            }
            proof {
                drawn = drawn.push(pick as nat);
            }
        }
        proof {
            assert(self.start@.take(self.start@.len() as int) == self.start@);
            lemma_derive_closed(self@, drawn);
            if forall|i: int|
                0 <= i < self@.start.len() ==> self@.extras(#[trigger] self@.start[i]).len()
                    == 0 {
                lemma_single_candidates(self@, drawn);
            }
        }
        self.with_start(out)
    }
}

} // verus!
