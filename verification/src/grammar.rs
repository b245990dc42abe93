//! The grammar model: symbols, productions, and the grammar that maps each
//! nonterminal to its ordered alternatives and each rule name to its typing
//! rule.  The two maps are association vectors whose keys stay unique, in
//! insertion order.

use vstd::prelude::*;

use crate::typing::clone_opt_string;
use crate::typing::opt_view;
use crate::typing::RuleV;
use crate::typing::TypingRule;

verus! {

/// One grammar symbol: a nonterminal name, a quoted literal, or a
/// slash-delimited regular expression, optionally carrying a binding name.
#[derive(Debug, PartialEq)]
pub struct Symbol {
    pub value: String,
    pub binding: Option<String>,
}

/// Mathematical value of a symbol.
#[verifier::ext_equal]
pub struct SymbolV {
    pub value: Seq<char>,
    pub binding: Option<Seq<char>>,
}

impl View for Symbol {
    type V = SymbolV;

    open spec fn view(&self) -> SymbolV {
        SymbolV { value: self.value@, binding: opt_view(self.binding) }
    }
}

impl DeepView for Symbol {
    type V = SymbolV;

    open spec fn deep_view(&self) -> SymbolV {
        self.view()
    }
}

impl Symbol {
    /// A symbol without a binding.
    pub fn new(value: String) -> (r: Symbol)
        ensures
            r@ == (SymbolV { value: value@, binding: None }),
    {
        Symbol { value, binding: None }
    }

    /// A symbol carrying a binding name.
    pub fn with_binding(value: String, binding: String) -> (r: Symbol)
        ensures
            r@ == (SymbolV { value: value@, binding: Some(binding@) }),
    {
        Symbol { value, binding: Some(binding) }
    }

    /// Duplicate a symbol, keeping its value.
    pub fn duplicate(&self) -> (r: Symbol)
        ensures
            r@ == self@,
    {
        Symbol { value: self.value.clone(), binding: clone_opt_string(&self.binding) }
    }
}

/// One production alternative: the ordered right-hand side, and the name of
/// the typing rule the alternative carries, if any.
#[derive(Debug, PartialEq)]
pub struct Production {
    pub rule: Option<String>,
    pub rhs: Vec<Symbol>,
}

/// Mathematical value of a production.
#[verifier::ext_equal]
pub struct ProductionV {
    pub rule: Option<Seq<char>>,
    pub rhs: Seq<SymbolV>,
}

impl View for Production {
    type V = ProductionV;

    open spec fn view(&self) -> ProductionV {
        ProductionV { rule: opt_view(self.rule), rhs: self.rhs.deep_view() }
    }
}

impl DeepView for Production {
    type V = ProductionV;

    open spec fn deep_view(&self) -> ProductionV {
        self.view()
    }
}

impl Production {
    /// Duplicate a production, keeping its value.
    pub fn duplicate(&self) -> (r: Production)
        ensures
            r@ == self@,
    {
        let mut rhs: Vec<Symbol> = Vec::new();
        let n = self.rhs.len();
        for i in 0..n
            invariant
                n == self.rhs@.len(),
                rhs@.len() == i,
                forall|k: int| 0 <= k < i ==> rhs@[k]@ == self.rhs@[k]@,
        {
            rhs.push(self.rhs[i].duplicate());
        }
        let r = Production { rule: clone_opt_string(&self.rule), rhs };
        proof {
            assert(r.rhs.deep_view() =~~= self.rhs.deep_view());
            assert(r@ =~~= self@);
        }
        r
    }
}

/// A nonterminal name.
pub type Nonterminal = String;

/// A terminal token text.
pub type Terminal = String;

/// Mathematical value of a grammar.
#[verifier::ext_equal]
pub struct GrammarV {
    /// Nonterminal name to ordered alternatives, keys unique, in insertion order.
    pub productions: Seq<(Seq<char>, Seq<ProductionV>)>,
    /// Rule name to typing rule, keys unique, in insertion order.
    pub typing_rules: Seq<(Seq<char>, RuleV)>,
    /// Quoted literal tokens of the notation, unique, in order of first sight.
    pub special_tokens: Seq<Seq<char>>,
}

/// A complete grammar: context-free productions keyed by nonterminal,
/// inference-style typing rules keyed by name, and the literal tokens the
/// tokenizer must know.
#[derive(Debug, PartialEq)]
pub struct Grammar {
    pub productions: Vec<(Nonterminal, Vec<Production>)>,
    pub typing_rules: Vec<(String, TypingRule)>,
    pub special_tokens: Vec<String>,
}

impl View for Grammar {
    type V = GrammarV;

    open spec fn view(&self) -> GrammarV {
        GrammarV {
            productions: Seq::new(
                self.productions@.len(),
                |i: int|
                    (self.productions@[i].0@, self.productions@[i].1.deep_view()),
            ),
            typing_rules: Seq::new(
                self.typing_rules@.len(),
                |i: int| (self.typing_rules@[i].0@, self.typing_rules@[i].1@),
            ),
            special_tokens: self.special_tokens.deep_view(),
        }
    }
}

/// Index of `key` in an association sequence, or `-1` if absent.
pub open spec fn assoc_idx<T>(s: Seq<(Seq<char>, T)>, key: Seq<char>) -> int
    decreases s.len(),
{
    if s.len() == 0 {
        -1
    } else if s[0].0 == key {
        0
    } else {
        let r = assoc_idx(s.drop_first(), key);
        if r < 0 {
            -1
        } else {
            1 + r
        }
    }
}

/// The value under `key`, if any.
pub open spec fn assoc_get<T>(s: Seq<(Seq<char>, T)>, key: Seq<char>) -> Option<T> {
    let i = assoc_idx(s, key);
    if i < 0 {
        None
    } else {
        Some(s[i].1)
    }
}

pub proof fn lemma_assoc_idx<T>(s: Seq<(Seq<char>, T)>, key: Seq<char>)
    ensures
        -1 <= assoc_idx(s, key) < s.len(),
        assoc_idx(s, key) >= 0 ==> s[assoc_idx(s, key)].0 == key,
        forall|j: int|
            0 <= j && (assoc_idx(s, key) == -1 || j < assoc_idx(s, key)) && j < s.len()
                ==> s[j].0 != key,
    decreases s.len(),
{
    if s.len() > 0 && s[0].0 != key {
        lemma_assoc_idx(s.drop_first(), key);
        assert forall|j: int|
            0 <= j && (assoc_idx(s, key) == -1 || j < assoc_idx(s, key)) && j
                < s.len() implies s[j].0 != key by {
            if j > 0 {
                assert(s.drop_first()[j - 1] == s[j]);
            }
        }
    }
}

/// Ordered alternatives of a nonterminal in the grammar model.
pub open spec fn prods_of(g: GrammarV, nt: Seq<char>) -> Option<Seq<ProductionV>> {
    assoc_get(g.productions, nt)
}

/// The typing rule of a name in the grammar model, if the name resolves.
pub open spec fn rule_of(g: GrammarV, name: Seq<char>) -> Option<RuleV> {
    assoc_get(g.typing_rules, name)
}

/// The rule a production attaches: none when the production names none, and
/// none when the name does not resolve.
pub open spec fn attached_rule(g: GrammarV, rule: Option<Seq<char>>) -> Option<RuleV> {
    match rule {
        None => None,
        Some(name) => rule_of(g, name),
    }
}

/// The keys of an association sequence are pairwise distinct.
pub open spec fn keys_unique<T>(s: Seq<(Seq<char>, T)>) -> bool {
    forall|i: int, j: int| 0 <= i < j < s.len() ==> s[i].0 != s[j].0
}

/// The entries of a sequence are pairwise distinct.
pub open spec fn all_distinct(s: Seq<Seq<char>>) -> bool {
    forall|i: int, j: int| 0 <= i < j < s.len() ==> s[i] != s[j]
}

/// Well-formedness of the grammar model: both maps have unique keys and the
/// special tokens hold no repetition.
pub open spec fn wf_grammar(g: GrammarV) -> bool {
    &&& keys_unique(g.productions)
    &&& keys_unique(g.typing_rules)
    &&& all_distinct(g.special_tokens)
}

impl Grammar {
    /// An empty grammar.
    pub fn new() -> (g: Grammar)
        ensures
            g@.productions.len() == 0,
            g@.typing_rules.len() == 0,
            g@.special_tokens.len() == 0,
            wf_grammar(g@),
    {
        let g = Grammar { productions: Vec::new(), typing_rules: Vec::new(), special_tokens: Vec::new() };
        proof {
            assert(g@.productions.len() == 0);
            assert(g@.typing_rules.len() == 0);
            assert(g@.special_tokens.len() == 0);
        }
        g
    }

    /// Register a literal token, keeping the order of first sight, once.
    pub fn add_special_token(&mut self, token: String)
        ensures
            final(self)@.productions == old(self)@.productions,
            final(self)@.typing_rules == old(self)@.typing_rules,
            final(self)@.special_tokens == if old(self)@.special_tokens.contains(token@) {
                old(self)@.special_tokens
            } else {
                old(self)@.special_tokens.push(token@)
            },
            all_distinct(old(self)@.special_tokens) ==> all_distinct(
                final(self)@.special_tokens,
            ),
    {
        let n = self.special_tokens.len();
        for i in 0..n
            invariant
                n == self.special_tokens@.len(),
                self.productions == old(self).productions,
                self.special_tokens == old(self).special_tokens,
                self.typing_rules == old(self).typing_rules,
                forall|k: int| 0 <= k < i ==> self.special_tokens@[k]@ != token@,
        {
            if self.special_tokens[i] == token {
                proof {
                    assert(self@.special_tokens.contains(token@)) by {
                        assert(self@.special_tokens[i as int] == token@);
                    }
                }
                return ;
            }
        }
        proof {
            if self@.special_tokens.contains(token@) {
                let w = choose|w: int|
                    0 <= w < self@.special_tokens.len() && self@.special_tokens[w] == token@;
                assert(self.special_tokens@[w]@ == token@);
            }
        }
        let ghost old_sp = self@.special_tokens;
        self.special_tokens.push(token);
        proof {
            assert(self@.special_tokens =~= old_sp.push(token@));
            assert(self@.productions =~= old(self)@.productions);
            assert(self@.typing_rules =~= old(self)@.typing_rules);
            if all_distinct(old_sp) && !old_sp.contains(token@) {
                assert forall|i: int, j: int|
                    0 <= i < j < self@.special_tokens.len() implies self@.special_tokens[i]
                    != self@.special_tokens[j] by {
                    if j == self@.special_tokens.len() - 1 {
                        assert(old_sp[i] == self@.special_tokens[i]);
                        if self@.special_tokens[i] == token@ {
                            assert(old_sp.contains(token@));
                        }
                    }
                }
            }
        }
    }

    /// Insert a typing rule under its name; a later rule with the same name
    /// replaces the earlier one.
    pub fn add_typing_rule(&mut self, rule: TypingRule)
        ensures
            final(self)@.productions == old(self)@.productions,
            final(self)@.special_tokens == old(self)@.special_tokens,
            final(self)@.typing_rules == {
                let i = assoc_idx(old(self)@.typing_rules, rule.name@);
                if i < 0 {
                    old(self)@.typing_rules.push((rule.name@, rule@))
                } else {
                    old(self)@.typing_rules.update(i, (rule.name@, rule@))
                }
            },
            keys_unique(old(self)@.typing_rules) ==> keys_unique(final(self)@.typing_rules),
    {
        proof {
            lemma_assoc_idx(self@.typing_rules, rule.name@);
        }
        let n = self.typing_rules.len();
        for i in 0..n
            invariant
                n == self.typing_rules@.len(),
                self.productions == old(self).productions,
                self.special_tokens == old(self).special_tokens,
                self.typing_rules == old(self).typing_rules,
                forall|k: int| 0 <= k < i ==> self.typing_rules@[k].0@ != rule.name@,
        {
            if self.typing_rules[i].0 == rule.name {
                proof {
                    assert(self@.typing_rules[i as int].0 == rule.name@);
                    assert(assoc_idx(self@.typing_rules, rule.name@) == i as int) by {
                        lemma_assoc_idx(self@.typing_rules, rule.name@);
                    }
                }
                let ghost old_tr = self@.typing_rules;
                let name = rule.name.clone();
                self.typing_rules.set(i, (name, rule));
                proof {
                    assert(self@.typing_rules =~= old_tr.update(
                        i as int,
                        (rule.name@, rule@),
                    ));
                    assert(self@.productions =~= old(self)@.productions);
                    assert(self@.special_tokens =~= old(self)@.special_tokens);
                    if keys_unique(old_tr) {
                        assert forall|a: int, b: int|
                            0 <= a < b < self@.typing_rules.len() implies self@.typing_rules[a].0
                            != self@.typing_rules[b].0 by {
                            assert(old_tr[a].0 != old_tr[b].0);
                        }
                    }
                }
                return ;
            }
        }
        proof {
            assert(assoc_idx(self@.typing_rules, rule.name@) == -1) by {
                lemma_assoc_idx(self@.typing_rules, rule.name@);
            }
        }
        let ghost old_tr = self@.typing_rules;
        let name = rule.name.clone();
        self.typing_rules.push((name, rule));
        proof {
            assert(self@.typing_rules =~= old_tr.push((rule.name@, rule@)));
            assert(self@.productions =~= old(self)@.productions);
            assert(self@.special_tokens =~= old(self)@.special_tokens);
            if keys_unique(old_tr) {
                assert forall|a: int, b: int|
                    0 <= a < b < self@.typing_rules.len() implies self@.typing_rules[a].0
                    != self@.typing_rules[b].0 by {
                    if b == self@.typing_rules.len() - 1 {
                        assert(self@.typing_rules[a] == old_tr[a]);
                    } else {
                        assert(old_tr[a].0 != old_tr[b].0);
                    }
                }
            }
        }
    }

    /// Index of a nonterminal among the productions, if declared.
    pub fn find_production(&self, name: &str) -> (r: Option<usize>)
        ensures
            match r {
                Some(i) => i as int == assoc_idx(self@.productions, name@) && i
                    < self.productions@.len(),
                None => assoc_idx(self@.productions, name@) == -1,
            },
    {
        proof {
            lemma_assoc_idx(self@.productions, name@);
        }
        let n = self.productions.len();
        for i in 0..n
            invariant
                n == self.productions@.len(),
                forall|k: int| 0 <= k < i ==> self.productions@[k].0@ != name@,
        {
            if crate::strs::str_eq(self.productions[i].0.as_str(), name) {
                proof {
                    assert(self@.productions[i as int].0 == name@);
                    lemma_assoc_idx(self@.productions, name@);
                }
                return Some(i);
            }
        }
        proof {
            lemma_assoc_idx(self@.productions, name@);
        }
        None
    }

    /// Does the grammar declare this nonterminal?
    pub fn has_production(&self, name: &str) -> (r: bool)
        ensures
            r == (prods_of(self@, name@) is Some),
    {
        match self.find_production(name) {
            Some(_) => true,
            None => false,
        }
    }

    /// Index of a rule name among the typing rules, if present.
    pub fn find_typing_rule(&self, name: &str) -> (r: Option<usize>)
        ensures
            match r {
                Some(i) => i as int == assoc_idx(self@.typing_rules, name@) && i
                    < self.typing_rules@.len(),
                None => assoc_idx(self@.typing_rules, name@) == -1,
            },
    {
        proof {
            lemma_assoc_idx(self@.typing_rules, name@);
        }
        let n = self.typing_rules.len();
        for i in 0..n
            invariant
                n == self.typing_rules@.len(),
                forall|k: int| 0 <= k < i ==> self.typing_rules@[k].0@ != name@,
        {
            if crate::strs::str_eq(self.typing_rules[i].0.as_str(), name) {
                proof {
                    assert(self@.typing_rules[i as int].0 == name@);
                    lemma_assoc_idx(self@.typing_rules, name@);
                }
                return Some(i);
            }
        }
        proof {
            lemma_assoc_idx(self@.typing_rules, name@);
        }
        None
    }

    /// Does the grammar hold a typing rule under this name?
    pub fn has_typing_rule(&self, name: &str) -> (r: bool)
        ensures
            r == (rule_of(self@, name@) is Some),
    {
        match self.find_typing_rule(name) {
            Some(_) => true,
            None => false,
        }
    }
}

} // verus!
