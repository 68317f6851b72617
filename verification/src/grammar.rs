//! The mathematical model of a rewriting grammar.
//!
//! A [`Grammar`] is a ghost value: an alphabet, the constants among it, one
//! production per symbol and the current string. A symbol may have further
//! replacements beside its production; a randomized generation chooses among them,
//! while the plain one goes by the production alone. The operations below are
//! spec functions from grammar to grammar; the executable `LSystem` is
//! specified by them, and the laws at the end of the file are proved of them.

use vstd::prelude::*;

verus! {

/// A grammar state.
pub struct Grammar {
    /// The known symbols.
    pub alphabet: Set<char>,
    /// The symbols whose production is pinned to the identity.
    pub constants: Set<char>,
    /// The current string: the start string, or a later generation of it.
    pub start: Seq<char>,
    /// The production of each known symbol.
    pub rules: Map<char, Seq<char>>,
    /// The further replacements of the symbols that have any, in the order in which
    /// they were registered.
    pub alternatives: Map<char, Seq<Seq<char>>>,
}

/// The identity production of `c`: the string that holds `c` alone.
pub open spec fn identity(c: char) -> Seq<char> {
    seq![c]
}

/// `s` with every symbol replaced by its production, in the order of `s`.
pub open spec fn expand(rules: Map<char, Seq<char>>, s: Seq<char>) -> Seq<char>
    decreases s.len(),
{
    if s.len() == 0 {
        Seq::empty()
    } else {
        expand(rules, s.drop_last()) + rules[s.last()]
    }
}

/// The symbols that a rule set mentions, as keys or inside replacements.
pub open spec fn symbols_of(rules: Map<char, Seq<char>>) -> Set<char> {
    Set::new(
        |c: char|
            rules.contains_key(c) || exists|k: char|
                #![auto]
                rules.contains_key(k) && rules[k].contains(c),
    )
}

/// The production that symbol `c` has in `rules`, or the identity where it has none yet.
pub open spec fn rule_or_identity(rules: Map<char, Seq<char>>, c: char) -> Seq<char> {
    if rules.contains_key(c) {
        rules[c]
    } else {
        identity(c)
    }
}

impl Grammar {
    /// Every symbol in reach, from the current string or from any replacement, is
    /// known and has its production; a constant maps to itself and has no further
    /// replacement.
    pub open spec fn closed(self) -> bool {
        &&& self.rules.dom() == self.alphabet
        &&& self.constants.subset_of(self.alphabet)
        &&& forall|c: char| #[trigger]
            self.constants.contains(c) ==> self.rules[c] == identity(c)
        &&& forall|i: int|
            0 <= i < self.start.len() ==> self.alphabet.contains(#[trigger] self.start[i])
        &&& forall|c: char, j: int|
            self.alphabet.contains(c) && 0 <= j < self.rules[c].len() ==> self.alphabet.contains(
                #[trigger] self.rules[c][j],
            )
        &&& forall|c: char| #[trigger]
            self.alternatives.contains_key(c) ==> self.alphabet.contains(c)
                && !self.constants.contains(c)
        &&& forall|c: char, k: int, j: int|
            self.alternatives.contains_key(c) && 0 <= k < self.alternatives[c].len() && 0 <= j
                < self.alternatives[c][k].len() ==> self.alphabet.contains(
                #[trigger] self.alternatives[c][k][j],
            )
    }

    /// The further replacements of `c`; none where none was registered.
    pub open spec fn extras(self, c: char) -> Seq<Seq<char>> {
        if self.alternatives.contains_key(c) {
            self.alternatives[c]
        } else {
            Seq::empty()
        }
    }

    /// All the replacements of `c`: its production first, then the further ones.
    pub open spec fn candidates(self, c: char) -> Seq<Seq<char>> {
        seq![self.rules[c]] + self.extras(c)
    }

    /// The grammar that starts from `start`: its symbols, each with the identity production.
    pub open spec fn initial(start: Seq<char>) -> Grammar {
        Grammar {
            alphabet: start.to_set(),
            constants: Set::empty(),
            start,
            rules: Map::new(|c: char| start.contains(c), |c: char| identity(c)),
            alternatives: Map::empty(),
        }
    }

    /// Registers `c`. A new symbol gets the identity production; a known one is left alone.
    pub open spec fn with_symbol(self, c: char) -> Grammar {
        Grammar {
            alphabet: self.alphabet.insert(c),
            constants: self.constants,
            start: self.start,
            rules: if self.rules.contains_key(c) {
                self.rules
            } else {
                self.rules.insert(c, identity(c))
            },
            alternatives: self.alternatives,
        }
    }

    /// Registers `c` as a constant. Whatever replacements it had, the identity is the
    /// only one left.
    pub open spec fn with_constant(self, c: char) -> Grammar {
        Grammar {
            alphabet: self.alphabet.insert(c),
            constants: self.constants.insert(c),
            start: self.start,
            rules: self.rules.insert(c, identity(c)),
            alternatives: self.alternatives.remove(c),
        }
    }

    /// The symbols of a grammar after `key` and every symbol of `value` were registered.
    pub open spec fn alphabet_with(self, key: char, value: Seq<char>) -> Set<char> {
        self.alphabet.insert(key).union(value.to_set())
    }

    /// Registers `key` and every symbol of `value`: those that are new get the
    /// identity production, the others are left alone.
    pub open spec fn with_symbols(self, key: char, value: Seq<char>) -> Grammar {
        let alphabet = self.alphabet_with(key, value);
        Grammar {
            alphabet,
            rules: Map::new(
                |c: char| alphabet.contains(c),
                |c: char| rule_or_identity(self.rules, c),
            ),
            ..self
        }
    }

    /// Registers `key` and every symbol of `value`, then makes `value` the production
    /// of `key` and its only replacement, unless `key` is a constant.
    pub open spec fn with_rule(self, key: char, value: Seq<char>) -> Grammar {
        let g = self.with_symbols(key, value);
        if self.constants.contains(key) {
            g
        } else {
            Grammar {
                rules: g.rules.insert(key, value),
                alternatives: g.alternatives.remove(key),
                ..g
            }
        }
    }

    /// Registers `key` and every symbol of `value`, then adds `value` to the
    /// replacements of `key`, behind those it has, unless `key` is a constant.
    pub open spec fn with_alternative(self, key: char, value: Seq<char>) -> Grammar {
        let g = self.with_symbols(key, value);
        if self.constants.contains(key) {
            g
        } else {
            Grammar { alternatives: g.alternatives.insert(key, g.extras(key).push(value)), ..g }
        }
    }

    /// Registers every symbol that `rules` mentions, then gives each key that is no
    /// constant its new production, as its only replacement.
    pub open spec fn with_rules(self, rules: Map<char, Seq<char>>) -> Grammar {
        let alphabet = self.alphabet.union(symbols_of(rules));
        Grammar {
            alphabet,
            constants: self.constants,
            start: self.start,
            rules: Map::new(
                |c: char| alphabet.contains(c),
                |c: char|
                    if rules.contains_key(c) && !self.constants.contains(c) {
                        rules[c]
                    } else {
                        rule_or_identity(self.rules, c)
                    },
            ),
            alternatives: Map::new(
                |c: char|
                    self.alternatives.contains_key(c) && !(rules.contains_key(c)
                        && !self.constants.contains(c)),
                |c: char| self.alternatives[c],
            ),
        }
    }

    /// The productions of `pairs` applied one after the other, the first one first.
    pub open spec fn with_rule_list(self, pairs: Seq<(char, Seq<char>)>) -> Grammar
        decreases pairs.len(),
    {
        if pairs.len() == 0 {
            self
        } else {
            self.with_rule_list(pairs.drop_last()).with_rule(pairs.last().0, pairs.last().1)
        }
    }

    /// The next generation: the same grammar, with the current string expanded once
    /// by the productions.
    pub open spec fn advance(self) -> Grammar {
        Grammar { start: expand(self.rules, self.start), ..self }
    }

    /// Whether `picks` names, for each symbol of `s`, one of its replacements.
    pub open spec fn fits(self, s: Seq<char>, picks: Seq<nat>) -> bool {
        &&& picks.len() == s.len()
        &&& forall|i: int| 0 <= i < s.len() ==> #[trigger] picks[i] < self.candidates(s[i]).len()
    }

    /// `s` with every symbol replaced by the replacement that `picks` names for it,
    /// in the order of `s`.
    pub open spec fn expand_picked(self, s: Seq<char>, picks: Seq<nat>) -> Seq<char>
        decreases s.len(),
    {
        if s.len() == 0 {
            Seq::empty()
        } else {
            self.expand_picked(s.drop_last(), picks.drop_last()) + self.candidates(
                s.last(),
            )[picks.last() as int]
        }
    }

    /// A next generation by choice: the same grammar, with every symbol of the
    /// current string replaced by the replacement that `picks` names for it.
    pub open spec fn derive(self, picks: Seq<nat>) -> Grammar {
        Grammar { start: self.expand_picked(self.start, picks), ..self }
    }

    /// The grammar after `n` generations.
    pub open spec fn generation(self, n: nat) -> Grammar
        decreases n,
    {
        if n == 0 {
            self
        } else {
            self.generation((n - 1) as nat).advance()
        }
    }
}

/// The grammar that starts from any string is closed.
pub proof fn lemma_initial_closed(start: Seq<char>)
    ensures
        Grammar::initial(start).closed(),
{
    let g = Grammar::initial(start);
    assert(g.rules.dom() =~= g.alphabet);
    assert forall|i: int| 0 <= i < g.start.len() implies g.alphabet.contains(
        #[trigger] g.start[i],
    ) by {
        assert(start.contains(start[i]));
    }
}

/// Registering a symbol keeps a closed grammar closed.
pub proof fn lemma_with_symbol_closed(g: Grammar, c: char)
    requires
        g.closed(),
    ensures
        g.with_symbol(c).closed(),
{
    let h = g.with_symbol(c);
    assert(h.rules.dom() =~= h.alphabet);
}

/// Registering a constant keeps a closed grammar closed.
pub proof fn lemma_with_constant_closed(g: Grammar, c: char)
    requires
        g.closed(),
    ensures
        g.with_constant(c).closed(),
{
    let h = g.with_constant(c);
    assert(h.rules.dom() =~= h.alphabet);
    assert forall|x: char, k: int, j: int|
        h.alternatives.contains_key(x) && 0 <= k < h.alternatives[x].len() && 0 <= j
            < h.alternatives[x][k].len() implies h.alphabet.contains(
        #[trigger] h.alternatives[x][k][j],
    ) by {
        assert(g.alphabet.contains(g.alternatives[x][k][j]));
    }
}

/// Setting one production keeps a closed grammar closed.
pub proof fn lemma_with_rule_closed(g: Grammar, key: char, value: Seq<char>)
    requires
        g.closed(),
    ensures
        g.with_rule(key, value).closed(),
{
    let h = g.with_rule(key, value);
    assert(h.rules.dom() =~= h.alphabet);
    assert forall|c: char, j: int|
        h.alphabet.contains(c) && 0 <= j < h.rules[c].len() implies h.alphabet.contains(
        #[trigger] h.rules[c][j],
    ) by {
        if c == key && !g.constants.contains(key) {
            assert(value.contains(value[j]));
        } else if g.rules.contains_key(c) {
            assert(g.alphabet.contains(g.rules[c][j]));
        }
    }
    assert forall|x: char, k: int, j: int|
        h.alternatives.contains_key(x) && 0 <= k < h.alternatives[x].len() && 0 <= j
            < h.alternatives[x][k].len() implies h.alphabet.contains(
        #[trigger] h.alternatives[x][k][j],
    ) by {
        assert(g.alphabet.contains(g.alternatives[x][k][j]));
    }
}

/// Adding a replacement keeps a closed grammar closed.
pub proof fn lemma_with_alternative_closed(g: Grammar, key: char, value: Seq<char>)
    requires
        g.closed(),
    ensures
        g.with_alternative(key, value).closed(),
{
    let h = g.with_alternative(key, value);
    assert(h.rules.dom() =~= h.alphabet);
    assert forall|c: char, j: int|
        h.alphabet.contains(c) && 0 <= j < h.rules[c].len() implies h.alphabet.contains(
        #[trigger] h.rules[c][j],
    ) by {
        if g.rules.contains_key(c) {
            assert(g.alphabet.contains(g.rules[c][j]));
        }
    }
    assert forall|x: char, k: int, j: int|
        h.alternatives.contains_key(x) && 0 <= k < h.alternatives[x].len() && 0 <= j
            < h.alternatives[x][k].len() implies h.alphabet.contains(
        #[trigger] h.alternatives[x][k][j],
    ) by {
        if x == key && !g.constants.contains(key) && k == g.extras(key).len() {
            assert(value.contains(value[j]));
        } else {
            assert(g.alphabet.contains(g.alternatives[x][k][j]));
        }
    }
}

/// Setting a list of productions keeps a closed grammar closed.
pub proof fn lemma_with_rule_list_closed(g: Grammar, pairs: Seq<(char, Seq<char>)>)
    requires
        g.closed(),
    ensures
        g.with_rule_list(pairs).closed(),
    decreases pairs.len(),
{
    if pairs.len() > 0 {
        lemma_with_rule_list_closed(g, pairs.drop_last());
        lemma_with_rule_closed(
            g.with_rule_list(pairs.drop_last()),
            pairs.last().0,
            pairs.last().1,
        );
    }
}

/// Setting a rule set keeps a closed grammar closed.
pub proof fn lemma_with_rules_closed(g: Grammar, rules: Map<char, Seq<char>>)
    requires
        g.closed(),
    ensures
        g.with_rules(rules).closed(),
{
    let h = g.with_rules(rules);
    assert(h.rules.dom() =~= h.alphabet);
    assert forall|c: char, j: int|
        h.alphabet.contains(c) && 0 <= j < h.rules[c].len() implies h.alphabet.contains(
        #[trigger] h.rules[c][j],
    ) by {
        if rules.contains_key(c) && !g.constants.contains(c) {
            assert(rules[c].contains(rules[c][j]));
            assert(symbols_of(rules).contains(rules[c][j]));
        } else if g.rules.contains_key(c) {
            assert(g.alphabet.contains(g.rules[c][j]));
        }
    }
    assert forall|x: char, k: int, j: int|
        h.alternatives.contains_key(x) && 0 <= k < h.alternatives[x].len() && 0 <= j
            < h.alternatives[x][k].len() implies h.alphabet.contains(
        #[trigger] h.alternatives[x][k][j],
    ) by {
        assert(g.alphabet.contains(g.alternatives[x][k][j]));
    }
}

/// Every symbol of an expansion is a symbol of some production that was used.
pub proof fn lemma_expand_symbols(g: Grammar, s: Seq<char>)
    requires
        g.closed(),
        forall|i: int| 0 <= i < s.len() ==> g.alphabet.contains(#[trigger] s[i]),
    ensures
        forall|i: int|
            0 <= i < expand(g.rules, s).len() ==> g.alphabet.contains(
                #[trigger] expand(g.rules, s)[i],
            ),
    decreases s.len(),
{
    if s.len() > 0 {
        let front = s.drop_last();
        assert forall|i: int| 0 <= i < front.len() implies g.alphabet.contains(
            #[trigger] front[i],
        ) by {
            assert(front[i] == s[i]);
        }
        lemma_expand_symbols(g, front);
        let head = expand(g.rules, front);
        let tail = g.rules[s.last()];
        assert(g.alphabet.contains(s[s.len() - 1]));
        assert forall|i: int| 0 <= i < (head + tail).len() implies g.alphabet.contains(
            #[trigger] (head + tail)[i],
        ) by {
            if i >= head.len() {
                assert((head + tail)[i] == tail[i - head.len()]);
            }
        }
    }
}

/// Advancing a generation keeps a closed grammar closed.
pub proof fn lemma_advance_closed(g: Grammar)
    requires
        g.closed(),
    ensures
        g.advance().closed(),
{
    lemma_expand_symbols(g, g.start);
}

/// Setting the productions of a list with distinct keys, one after the other, gives
/// what setting them at once as a rule set gives.
pub proof fn lemma_rule_list_is_rule_set(
    g: Grammar,
    pairs: Seq<(char, Seq<char>)>,
    rules: Map<char, Seq<char>>,
)
    requires
        g.closed(),
        forall|i: int, j: int| 0 <= i < j < pairs.len() ==> pairs[i].0 != pairs[j].0,
        forall|i: int|
            0 <= i < pairs.len() ==> rules.contains_key((#[trigger] pairs[i]).0)
                && rules[pairs[i].0] == pairs[i].1,
        forall|k: char|
            rules.contains_key(k) ==> exists|i: int|
                0 <= i < pairs.len() && (#[trigger] pairs[i]).0 == k,
    ensures
        g.with_rule_list(pairs) == g.with_rules(rules),
    decreases pairs.len(),
{
    if pairs.len() == 0 {
        let h = g.with_rules(rules);
        assert(symbols_of(rules) =~= Set::<char>::empty());
        assert(h.alphabet =~= g.alphabet);
        assert(h.rules =~= g.rules);
        assert(h.alternatives =~= g.alternatives);
    } else {
        let front = pairs.drop_last();
        let key = pairs.last().0;
        let value = pairs.last().1;
        let rest = rules.remove(key);
        assert forall|k: char| rest.contains_key(k) implies exists|i: int|
            0 <= i < front.len() && (#[trigger] front[i]).0 == k by {
            let i = choose|i: int| 0 <= i < pairs.len() && (#[trigger] pairs[i]).0 == k;
            assert(front[i].0 == k);
        }
        assert forall|i: int| 0 <= i < front.len() implies rest.contains_key(
            (#[trigger] front[i]).0,
        ) && rest[front[i].0] == front[i].1 by {
            assert(front[i] == pairs[i]);
        }
        lemma_rule_list_is_rule_set(g, front, rest);
        lemma_with_rule_after_rules(g, rest, key, value);
        assert(rest.insert(key, value) =~= rules);
    }
}

/// Setting one more production, for a key that the rule set lacks, gives what the
/// rule set with that production added gives.
pub proof fn lemma_with_rule_after_rules(
    g: Grammar,
    rules: Map<char, Seq<char>>,
    key: char,
    value: Seq<char>,
)
    requires
        g.closed(),
        !rules.contains_key(key),
    ensures
        g.with_rules(rules).with_rule(key, value) == g.with_rules(rules.insert(key, value)),
{
    let more = rules.insert(key, value);
    let a = g.with_rules(rules).with_rule(key, value);
    let b = g.with_rules(more);
    assert forall|c: char| symbols_of(more).contains(c) <==> symbols_of(rules).contains(c) || c
        == key || value.contains(c) by {
        if symbols_of(more).contains(c) && !more.contains_key(c) {
            let k = choose|k: char| #![auto] more.contains_key(k) && more[k].contains(c);
            if k != key {
                assert(rules.contains_key(k) && rules[k].contains(c));
            }
        }
        if symbols_of(rules).contains(c) && !rules.contains_key(c) {
            let k = choose|k: char| #![auto] rules.contains_key(k) && rules[k].contains(c);
            assert(more.contains_key(k) && more[k].contains(c));
        }
        if value.contains(c) {
            assert(more.contains_key(key) && more[key].contains(c));
        }
    }
    assert(a.alphabet =~= b.alphabet);
    assert(a.rules =~= b.rules);
    assert(a.alternatives =~= b.alternatives);
}

/// A constant keeps the identity production whatever rule set is set: a rule for it
/// changes nothing.
pub proof fn lemma_constant_keeps_identity(g: Grammar, rules: Map<char, Seq<char>>, c: char)
    requires
        g.closed(),
        g.constants.contains(c),
    ensures
        g.with_rules(rules).constants.contains(c),
        g.with_rules(rules).rules.contains_key(c),
        g.with_rules(rules).rules[c] == identity(c),
{
}

/// In a closed grammar the identity is the only replacement of a constant.
pub proof fn lemma_constant_candidates(g: Grammar, c: char)
    requires
        g.closed(),
        g.constants.contains(c),
    ensures
        g.candidates(c) == seq![identity(c)],
{
    assert(!g.alternatives.contains_key(c));
    assert(g.candidates(c) =~= seq![identity(c)]);
}

/// A constant keeps the identity production when one production is set, be it its own.
pub proof fn lemma_constant_keeps_identity_one(g: Grammar, key: char, value: Seq<char>, c: char)
    requires
        g.closed(),
        g.constants.contains(c),
    ensures
        g.with_rule(key, value).constants.contains(c),
        g.with_rule(key, value).rules.contains_key(c),
        g.with_rule(key, value).rules[c] == identity(c),
{
}

/// A rule set gives each of its keys that is no constant the production it names.
pub proof fn lemma_rules_take_effect(g: Grammar, rules: Map<char, Seq<char>>, key: char)
    requires
        rules.contains_key(key),
        !g.constants.contains(key),
    ensures
        g.with_rules(rules).rules.contains_key(key),
        g.with_rules(rules).rules[key] == rules[key],
{
}

/// A symbol that a rule set first brings in, and for which it has no production,
/// maps to itself.
pub proof fn lemma_new_symbol_maps_to_itself(g: Grammar, rules: Map<char, Seq<char>>, c: char)
    requires
        g.closed(),
        !g.alphabet.contains(c),
        !rules.contains_key(c),
        symbols_of(rules).contains(c),
    ensures
        g.with_rules(rules).rules.contains_key(c),
        g.with_rules(rules).rules[c] == identity(c),
{
}

/// The next string is fixed by the current string and the productions of its
/// symbols: two grammars that agree on these have the same next string.
pub proof fn lemma_advance_deterministic(g: Grammar, h: Grammar)
    requires
        g.start == h.start,
        forall|i: int| 0 <= i < g.start.len() ==> g.rules[g.start[i]] == h.rules[g.start[i]],
    ensures
        g.advance().start == h.advance().start,
{
    lemma_expand_agrees(g.rules, h.rules, g.start);
}

/// Two rule tables that agree on the symbols of `s` expand `s` to the same string.
pub proof fn lemma_expand_agrees(a: Map<char, Seq<char>>, b: Map<char, Seq<char>>, s: Seq<char>)
    requires
        forall|i: int| 0 <= i < s.len() ==> a[s[i]] == b[s[i]],
    ensures
        expand(a, s) == expand(b, s),
    decreases s.len(),
{
    if s.len() > 0 {
        let front = s.drop_last();
        assert forall|i: int| 0 <= i < front.len() implies a[front[i]] == b[front[i]] by {
            assert(front[i] == s[i]);
        }
        lemma_expand_agrees(a, b, front);
        assert(a[s[s.len() - 1]] == b[s[s.len() - 1]]);
    }
}

/// A string whose symbols all map to themselves is its own next generation.
pub proof fn lemma_advance_identity(g: Grammar)
    requires
        forall|i: int| 0 <= i < g.start.len() ==> g.rules[g.start[i]] == identity(g.start[i]),
    ensures
        g.advance() == g,
{
    lemma_expand_identity(g.rules, g.start);
}

/// Expanding a string whose symbols all map to themselves gives the string back.
pub proof fn lemma_expand_identity(rules: Map<char, Seq<char>>, s: Seq<char>)
    requires
        forall|i: int| 0 <= i < s.len() ==> rules[s[i]] == identity(s[i]),
    ensures
        expand(rules, s) == s,
    decreases s.len(),
{
    if s.len() > 0 {
        let front = s.drop_last();
        assert forall|i: int| 0 <= i < front.len() implies rules[front[i]] == identity(
            front[i],
        ) by {
            assert(front[i] == s[i]);
        }
        lemma_expand_identity(rules, front);
        assert(rules[s[s.len() - 1]] == identity(s[s.len() - 1]));
        assert(front + identity(s.last()) =~= s);
    }
}

/// A grammar that has been left at its identity productions never changes its string.
pub proof fn lemma_initial_is_fixed(start: Seq<char>, n: nat)
    ensures
        Grammar::initial(start).generation(n) == Grammar::initial(start),
    decreases n,
{
    if n > 0 {
        lemma_initial_is_fixed(start, (n - 1) as nat);
        let g = Grammar::initial(start);
        assert forall|i: int| 0 <= i < g.start.len() implies g.rules[g.start[i]] == identity(
            g.start[i],
        ) by {
            assert(start.contains(start[i]));
        }
        lemma_advance_identity(g);
    }
}

/// An expansion is at most as long as the string times the longest production used.
pub proof fn lemma_expand_length(rules: Map<char, Seq<char>>, s: Seq<char>, longest: nat)
    requires
        forall|i: int| 0 <= i < s.len() ==> rules[s[i]].len() <= longest,
    ensures
        expand(rules, s).len() <= s.len() * longest,
    decreases s.len(),
{
    if s.len() > 0 {
        let front = s.drop_last();
        assert forall|i: int| 0 <= i < front.len() implies rules[front[i]].len() <= longest by {
            assert(front[i] == s[i]);
        }
        lemma_expand_length(rules, front, longest);
        assert(rules[s[s.len() - 1]].len() <= longest);
        assert(front.len() * longest + longest == s.len() * longest) by (nonlinear_arith)
            requires
                front.len() + 1 == s.len(),
        ;
    }
}

/// The next string is at most as long as the current one times the longest
/// replacement among all productions.
pub proof fn lemma_advance_length(g: Grammar, longest: nat)
    requires
        g.closed(),
        forall|c: char| g.rules.contains_key(c) ==> (#[trigger] g.rules[c]).len() <= longest,
    ensures
        g.advance().start.len() <= g.start.len() * longest,
{
    assert forall|i: int| 0 <= i < g.start.len() implies g.rules[g.start[i]].len()
        <= longest by {
        assert(g.alphabet.contains(g.start[i]));
        assert(g.rules.contains_key(g.start[i]));
    }
    lemma_expand_length(g.rules, g.start, longest);
}

/// A generation by choice keeps a closed grammar closed.
pub proof fn lemma_derive_closed(g: Grammar, picks: Seq<nat>)
    requires
        g.closed(),
        g.fits(g.start, picks),
    ensures
        g.derive(picks).closed(),
{
    lemma_expand_picked_symbols(g, g.start, picks);
}

/// Every replacement of a known symbol is made of known symbols.
pub proof fn lemma_candidate_symbols(g: Grammar, c: char, k: int, j: int)
    requires
        g.closed(),
        g.alphabet.contains(c),
        0 <= k < g.candidates(c).len(),
        0 <= j < g.candidates(c)[k].len(),
    ensures
        g.alphabet.contains(g.candidates(c)[k][j]),
{
    if k == 0 {
        assert(g.alphabet.contains(g.rules[c][j]));
    } else {
        assert(g.alternatives.contains_key(c));
        assert(g.candidates(c)[k] == g.alternatives[c][k - 1]);
        assert(g.alphabet.contains(g.alternatives[c][k - 1][j]));
    }
}

/// Every symbol of an expansion by choice is a known symbol.
pub proof fn lemma_expand_picked_symbols(g: Grammar, s: Seq<char>, picks: Seq<nat>)
    requires
        g.closed(),
        forall|i: int| 0 <= i < s.len() ==> g.alphabet.contains(#[trigger] s[i]),
        g.fits(s, picks),
    ensures
        forall|i: int|
            0 <= i < g.expand_picked(s, picks).len() ==> g.alphabet.contains(
                #[trigger] g.expand_picked(s, picks)[i],
            ),
    decreases s.len(),
{
    if s.len() > 0 {
        let front = s.drop_last();
        let before = picks.drop_last();
        assert forall|i: int| 0 <= i < front.len() implies g.alphabet.contains(
            #[trigger] front[i],
        ) by {
            assert(front[i] == s[i]);
        }
        assert forall|i: int| 0 <= i < front.len() implies #[trigger] before[i] < g.candidates(
            front[i],
        ).len() by {
            assert(before[i] == picks[i]);
        }
        lemma_expand_picked_symbols(g, front, before);
        let head = g.expand_picked(front, before);
        assert(picks[s.len() - 1] < g.candidates(s[s.len() - 1]).len());
        let tail = g.candidates(s.last())[picks.last() as int];
        assert(g.alphabet.contains(s[s.len() - 1]));
        assert forall|i: int| 0 <= i < (head + tail).len() implies g.alphabet.contains(
            #[trigger] (head + tail)[i],
        ) by {
            if i >= head.len() {
                lemma_candidate_symbols(g, s.last(), picks.last() as int, i - head.len());
            }
        }
    }
}

/// Where every choice is the production of its symbol, the expansion by choice is
/// the plain expansion.
pub proof fn lemma_expand_picked_plain(g: Grammar, s: Seq<char>, picks: Seq<nat>)
    requires
        picks.len() == s.len(),
        forall|i: int| 0 <= i < s.len() ==> g.candidates(s[i])[picks[i] as int] == g.rules[s[i]],
    ensures
        g.expand_picked(s, picks) == expand(g.rules, s),
    decreases s.len(),
{
    if s.len() > 0 {
        let front = s.drop_last();
        let before = picks.drop_last();
        assert forall|i: int| 0 <= i < front.len() implies g.candidates(
            front[i],
        )[before[i] as int] == g.rules[front[i]] by {
            assert(front[i] == s[i] && before[i] == picks[i]);
        }
        lemma_expand_picked_plain(g, front, before);
        assert(g.candidates(s[s.len() - 1])[picks[s.len() - 1] as int] == g.rules[s[s.len() - 1]]);
    }
}

/// The generation that always chooses the production is the plain next generation.
pub proof fn lemma_first_choice_is_advance(g: Grammar, picks: Seq<nat>)
    requires
        picks.len() == g.start.len(),
        forall|i: int| 0 <= i < picks.len() ==> picks[i] == 0,
    ensures
        g.derive(picks) == g.advance(),
{
    lemma_expand_picked_plain(g, g.start, picks);
}

/// Where no symbol of the current string has a further replacement, every
/// generation by choice is the plain next generation.
pub proof fn lemma_single_candidates(g: Grammar, picks: Seq<nat>)
    requires
        g.fits(g.start, picks),
        forall|i: int| 0 <= i < g.start.len() ==> g.extras(g.start[i]).len() == 0,
    ensures
        g.derive(picks) == g.advance(),
{
    assert forall|i: int| 0 <= i < g.start.len() implies g.candidates(
        g.start[i],
    )[picks[i] as int] == g.rules[g.start[i]] by {
        assert(picks[i] < g.candidates(g.start[i]).len());
    }
    lemma_expand_picked_plain(g, g.start, picks);
}

/// A generation by choice is at most as long as the current string times the
/// longest replacement among all the candidates.
pub proof fn lemma_derive_length(g: Grammar, picks: Seq<nat>, longest: nat)
    requires
        g.closed(),
        g.fits(g.start, picks),
        forall|c: char, k: int|
            g.rules.contains_key(c) && 0 <= k < g.candidates(c).len() ==> (#[trigger] g.candidates(
                c,
            )[k]).len() <= longest,
    ensures
        g.derive(picks).start.len() <= g.start.len() * longest,
{
    assert forall|i: int| 0 <= i < g.start.len() implies g.candidates(
        g.start[i],
    )[picks[i] as int].len() <= longest by {
        assert(g.alphabet.contains(g.start[i]));
        assert(g.rules.contains_key(g.start[i]));
        assert(picks[i] < g.candidates(g.start[i]).len());
    }
    lemma_expand_picked_length(g, g.start, picks, longest);
}

/// An expansion by choice is at most as long as the string times the longest
/// replacement chosen.
pub proof fn lemma_expand_picked_length(g: Grammar, s: Seq<char>, picks: Seq<nat>, longest: nat)
    requires
        picks.len() == s.len(),
        forall|i: int| 0 <= i < s.len() ==> g.candidates(s[i])[picks[i] as int].len() <= longest,
    ensures
        g.expand_picked(s, picks).len() <= s.len() * longest,
    decreases s.len(),
{
    if s.len() > 0 {
        let front = s.drop_last();
        let before = picks.drop_last();
        assert forall|i: int| 0 <= i < front.len() implies g.candidates(
            front[i],
        )[before[i] as int].len() <= longest by {
            assert(front[i] == s[i] && before[i] == picks[i]);
        }
        lemma_expand_picked_length(g, front, before, longest);
        assert(g.candidates(s[s.len() - 1])[picks[s.len() - 1] as int].len() <= longest);
        assert(front.len() * longest + longest == s.len() * longest) by (nonlinear_arith)
            requires
                front.len() + 1 == s.len(),
        ;
    }
}

} // verus!
