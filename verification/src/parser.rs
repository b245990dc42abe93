//! The recursive-descent backtracking parser: tries the alternatives of each
//! nonterminal in declaration order, restores the cursor on failure, and
//! attaches bindings and typing rules to the nodes it builds.  Its contract
//! mirrors the trial order exactly, so what `parse` returns — tree and all —
//! is pinned for every grammar and token sequence.
//!
//! A nonterminal reached again at the same position beyond the nesting
//! budget fails that alternative instead of recursing forever; the budget
//! renews whenever a token is consumed, so any chain the budget cuts off
//! revisits some nonterminal at the same position and could never succeed.

use vstd::prelude::*;

use crate::ast::ASTNode;
use crate::ast::NodeKind;
use crate::ast::NodeV;
use crate::ast::nodes_view;
use crate::ast::SourceSpan;
use crate::grammar::attached_rule;
use crate::grammar::Grammar;
use crate::grammar::GrammarV;
use crate::grammar::lemma_assoc_idx;
use crate::grammar::Production;
use crate::grammar::ProductionV;
use crate::grammar::prods_of;
use crate::grammar::SymbolV;
use crate::strs::views;
use crate::tokenizer::Tokenizer;
use crate::typing::clone_opt_string;
use crate::typing::clone_rule;
use crate::typing::opt_view;
use crate::typing::TypingRule;

verus! {

/// Whether a regular expression matches somewhere in a text; the result
/// depends on the pattern and the text alone.
pub uninterp spec fn regex_is_match(pattern: Seq<char>, text: Seq<char>) -> bool;

/// Relies on `regex::Regex::new` and `regex::Regex::is_match`: whether the
/// pattern compiles and then matches anywhere in the text is a function of
/// the two strings; a pattern that does not compile matches nothing.
#[verifier::external_body]
fn regex_matches(pattern: &str, text: &str) -> (r: bool)
    ensures
        r == regex_is_match(pattern@, text@),
{
    match regex::Regex::new(pattern) {
        Ok(re) => re.is_match(text),
        Err(_) => false,
    }
}

/// Does a terminal symbol match a token: a quoted symbol by equality after
/// stripping its quotes, a slash-delimited symbol by regular-expression
/// match on what is between the slashes, anything else by equality.
pub open spec fn terminal_matches(v: Seq<char>, tok: Seq<char>) -> bool {
    if v.len() >= 1 && v[0] == '\'' && v[v.len() - 1] == '\'' {
        crate::strs::spec_strip(v, '\'') == tok
    } else if v.len() >= 1 && v[0] == '/' && v[v.len() - 1] == '/' {
        regex_is_match(crate::strs::spec_strip(v, '/'), tok)
    } else {
        v == tok
    }
}

/// The nesting budget: one more than the number of declared nonterminals, so
/// that any chain of distinct nonterminals at one position fits.
pub open spec fn fuel_start(g: GrammarV) -> nat {
    if g.productions.len() + 1 > usize::MAX {
        usize::MAX as nat
    } else {
        (g.productions.len() + 1) as nat
    }
}

/// What one symbol yields at a position: a declared nonterminal recurses
/// under the budget and stamps its binding on the node; anything else must
/// match the token at the position, which becomes a terminal node carrying
/// the binding.  Nothing at the end of input.
pub open spec fn peg_sym(
    g: GrammarV,
    toks: Seq<Seq<char>>,
    pos: int,
    sym: SymbolV,
    fuel: nat,
) -> Option<(NodeV, int)>
    decreases toks.len() - pos, fuel, 0int, 0int,
{
    if pos < 0 || pos >= toks.len() {
        None
    } else {
        match prods_of(g, sym.value) {
            Some(_) => {
                if fuel == 0 {
                    None
                } else {
                    match peg_nt(g, toks, pos, sym.value, (fuel - 1) as nat) {
                        None => None,
                        Some((node, p)) => Some((NodeV { binding: sym.binding, ..node }, p)),
                    }
                }
            },
            None => {
                if terminal_matches(sym.value, toks[pos]) {
                    Some(
                        (
                            NodeV {
                                kind: NodeKind::Terminal,
                                value: toks[pos],
                                span: Some((pos, pos + 1)),
                                children: None,
                                binding: sym.binding,
                                typing_rule: None,
                            },
                            pos + 1,
                        ),
                    )
                } else {
                    None
                }
            },
        }
    }
}

/// What one alternative yields: each symbol in turn from where the one
/// before it stopped, the budget renewed at every consumed token.
pub open spec fn peg_seq(
    g: GrammarV,
    toks: Seq<Seq<char>>,
    pos: int,
    syms: Seq<SymbolV>,
    fuel: nat,
) -> Option<(Seq<NodeV>, int)>
    decreases toks.len() - pos, fuel, 1int, syms.len(),
{
    if syms.len() == 0 {
        Some((Seq::empty(), pos))
    } else {
        match peg_sym(g, toks, pos, syms[0], fuel) {
            None => None,
            Some((node, p)) => {
                let p2 = if pos <= p <= toks.len() {
                    p
                } else {
                    pos
                };
                let f2 = if p2 > pos {
                    fuel_start(g)
                } else {
                    fuel
                };
                match peg_seq(g, toks, p2, syms.drop_first(), f2) {
                    None => None,
                    Some((kids, end)) => Some((seq![node] + kids, end)),
                }
            },
        }
    }
}

/// What the alternatives yield: the first that succeeds wins, with the rule
/// name it carries.
pub open spec fn peg_alts(
    g: GrammarV,
    toks: Seq<Seq<char>>,
    pos: int,
    prods: Seq<ProductionV>,
    fuel: nat,
) -> Option<(Seq<NodeV>, int, Option<Seq<char>>)>
    decreases toks.len() - pos, fuel, 2int, prods.len(),
{
    if prods.len() == 0 {
        None
    } else {
        match peg_seq(g, toks, pos, prods[0].rhs, fuel) {
            Some((kids, end)) => Some((kids, end, prods[0].rule)),
            None => peg_alts(g, toks, pos, prods.drop_first(), fuel),
        }
    }
}

/// What a nonterminal yields at a position: its first matching alternative,
/// wrapped in a node that spans the consumed tokens and carries the typing
/// rule its alternative names, where that name resolves.
pub open spec fn peg_nt(
    g: GrammarV,
    toks: Seq<Seq<char>>,
    pos: int,
    nt: Seq<char>,
    fuel: nat,
) -> Option<(NodeV, int)>
    decreases toks.len() - pos, fuel, 3int, 0int,
{
    match prods_of(g, nt) {
        None => None,
        Some(prods) => match peg_alts(g, toks, pos, prods, fuel) {
            None => None,
            Some((kids, end, rule)) => Some(
                (
                    NodeV {
                        kind: NodeKind::Nonterminal,
                        value: nt,
                        span: Some((pos, end)),
                        children: Some(kids),
                        binding: None,
                        typing_rule: attached_rule(g, rule),
                    },
                    end,
                ),
            ),
        },
    }
}

/// The start nonterminal: `Expr` when declared, else `Term` when declared,
/// else the last declared nonterminal — grammars written leaves first
/// declare their most general nonterminal last — else `Term`.
pub open spec fn start_sym(g: GrammarV) -> Seq<char> {
    if prods_of(g, "Expr"@) is Some {
        "Expr"@
    } else if prods_of(g, "Term"@) is Some {
        "Term"@
    } else if g.productions.len() > 0 {
        g.productions.last().0
    } else {
        "Term"@
    }
}

/// The first top-level alternative that consumes every token, with the rule
/// name it carries.
pub open spec fn peg_top_alts(
    g: GrammarV,
    toks: Seq<Seq<char>>,
    prods: Seq<ProductionV>,
) -> Option<(Seq<NodeV>, Option<Seq<char>>)>
    decreases prods.len(),
{
    if prods.len() == 0 {
        None
    } else {
        match peg_seq(g, toks, 0, prods[0].rhs, fuel_start(g)) {
            Some((kids, end)) => {
                if end == toks.len() {
                    Some((kids, prods[0].rule))
                } else {
                    peg_top_alts(g, toks, prods.drop_first())
                }
            },
            None => peg_top_alts(g, toks, prods.drop_first()),
        }
    }
}

/// What a whole parse yields: the first alternative of the start nonterminal
/// that consumes the whole token sequence, as the root node; nothing on
/// empty input, an undeclared start nonterminal, or when no alternative
/// consumes everything.
pub open spec fn spec_parse_result(g: GrammarV, toks: Seq<Seq<char>>) -> Option<NodeV> {
    if toks.len() == 0 {
        None
    } else {
        match prods_of(g, start_sym(g)) {
            None => None,
            Some(prods) => match peg_top_alts(g, toks, prods) {
                None => None,
                Some((kids, rule)) => Some(
                    NodeV {
                        kind: NodeKind::Nonterminal,
                        value: start_sym(g),
                        span: Some((0, toks.len() as int)),
                        children: Some(kids),
                        binding: None,
                        typing_rule: attached_rule(g, rule),
                    },
                ),
            },
        }
    }
}

/// The typing rule a production attaches, copied out of the grammar.
fn rule_for(g: &Grammar, rule: &Option<String>) -> (r: Option<TypingRule>)
    ensures
        match r {
            Some(tr) => attached_rule(g@, opt_view(*rule)) == Some(tr@),
            None => attached_rule(g@, opt_view(*rule)) is None,
        },
{
    match rule {
        None => None,
        Some(name) => match g.find_typing_rule(name.as_str()) {
            Some(i) => {
                proof {
                    lemma_assoc_idx(g@.typing_rules, name@);
                }
                Some(clone_rule(&g.typing_rules[i].1))
            },
            None => None,
        },
    }
}

/// The nesting budget for a parse.
fn fuel_start_exec(g: &Grammar) -> (r: usize)
    ensures
        r as nat == fuel_start(g@),
{
    let n = g.productions.len();
    if n == usize::MAX {
        usize::MAX
    } else {
        n + 1
    }
}

/// Parse one symbol at a position, as `peg_sym` states.
fn parse_symbol(g: &Grammar, toks: &Vec<String>, pos: usize, sym: &crate::grammar::Symbol, fuel: usize) -> (r: Result<
    (ASTNode, usize),
    String,
>)
    requires
        pos <= toks@.len(),
    ensures
        match r {
            Ok(p) => peg_sym(g@, views(toks@), pos as int, sym@, fuel as nat) == Some(
                (p.0@, p.1 as int),
            ) && pos <= p.1 <= toks@.len(),
            Err(_) => peg_sym(g@, views(toks@), pos as int, sym@, fuel as nat) is None,
        },
    decreases toks@.len() - pos, fuel, 0int,
{
    if pos >= toks.len() {
        return Err(String::from_str("Unexpected end of input"));
    }
    proof {
        assert(views(toks@)[pos as int] == toks@[pos as int]@);
    }
    match g.find_production(sym.value.as_str()) {
        Some(_) => {
            if fuel == 0 {
                return Err(String::from_str("Nonterminal nesting budget exhausted"));
            }
            match parse_nonterminal(g, toks, pos, sym.value.as_str(), fuel - 1) {
                Ok((node, p)) => {
                    let ghost nv = node@;
                    let mut node = node;
                    node.binding = clone_opt_string(&sym.binding);
                    proof {
                        assert(node@ =~~= (NodeV { binding: opt_view(sym.binding), ..nv }));
                    }
                    Ok((node, p))
                },
                Err(e) => Err(e),
            }
        },
        None => {
            let token = &toks[pos];
            let n = sym.value.unicode_len();
            let quoted = n >= 1 && sym.value.as_str().get_char(0) == '\''
                && sym.value.as_str().get_char(n - 1) == '\'';
            let matched: bool;
            if quoted {
                let expected = crate::strs::strip_all(sym.value.as_str(), '\'');
                matched = crate::strs::str_eq(expected.as_str(), token.as_str());
            } else {
                let slashed = n >= 1 && sym.value.as_str().get_char(0) == '/'
                    && sym.value.as_str().get_char(n - 1) == '/';
                if slashed {
                    let pattern = crate::strs::strip_all(sym.value.as_str(), '/');
                    matched = regex_matches(pattern.as_str(), token.as_str());
                } else {
                    matched = crate::strs::str_eq(sym.value.as_str(), token.as_str());
                }
            }
            proof {
                assert(matched == terminal_matches(sym.value@, views(toks@)[pos as int]));
            }
            if matched {
                let node = ASTNode {
                    kind: NodeKind::Terminal,
                    span: Some(SourceSpan { start: pos, end: pos + 1 }),
                    value: token.clone(),
                    children: None,
                    binding: clone_opt_string(&sym.binding),
                    typing_rule: None,
                };
                proof {
                    assert(node@ =~~= peg_sym(
                        g@,
                        views(toks@),
                        pos as int,
                        sym@,
                        fuel as nat,
                    )->Some_0.0);
                }
                Ok((node, pos + 1))
            } else {
                let mut msg = String::from_str("Expected '");
                proof {
                    reveal_strlit("Expected '");
                    reveal_strlit("', found '");
                    reveal_strlit("'");
                }
                msg.append(sym.value.as_str());
                msg.append("', found '");
                msg.append(token.as_str());
                msg.append("'");
                Err(msg)
            }
        },
    }
}

/// Parse the symbols of one alternative in turn, as `peg_seq` states.
fn try_production(g: &Grammar, toks: &Vec<String>, pos: usize, production: &Production, fuel: usize) -> (r: Result<
    (Vec<ASTNode>, usize),
    String,
>)
    requires
        pos <= toks@.len(),
    ensures
        match r {
            Ok(p) => peg_seq(g@, views(toks@), pos as int, production.rhs.deep_view(), fuel as nat)
                == Some((nodes_view(p.0@), p.1 as int)) && pos <= p.1 <= toks@.len(),
            Err(_) => peg_seq(
                g@,
                views(toks@),
                pos as int,
                production.rhs.deep_view(),
                fuel as nat,
            ) is None,
        },
    decreases toks@.len() - pos, fuel, 1int,
{
    let mut children: Vec<ASTNode> = Vec::new();
    let mut cur = pos;
    let mut cur_fuel = fuel;
    let n = production.rhs.len();
    let ghost rv = production.rhs.deep_view();
    proof {
        assert(rv.len() == production.rhs@.len());
        assert(rv.skip(0) =~= rv);
    }
    for k in 0..n
        invariant
            n == production.rhs@.len(),
            rv == production.rhs.deep_view(),
            pos <= cur <= toks@.len(),
            cur == pos ==> cur_fuel == fuel,
            cur > pos ==> cur_fuel as nat == fuel_start(g@),
            peg_seq(g@, views(toks@), pos as int, rv, fuel as nat) == (match peg_seq(
                g@,
                views(toks@),
                cur as int,
                rv.skip(k as int),
                cur_fuel as nat,
            ) {
                None => None::<(Seq<NodeV>, int)>,
                Some((ks, e)) => Some((nodes_view(children@) + ks, e)),
            }),
    {
        proof {
            assert(rv.skip(k as int)[0] == production.rhs@[k as int]@);
            assert(rv.skip(k as int).drop_first() =~= rv.skip(k as int + 1));
        }
        match parse_symbol(g, toks, cur, &production.rhs[k], cur_fuel) {
            Ok((node, p)) => {
                let ghost old_children = nodes_view(children@);
                let ghost old_cseq = children@;
                children.push(node);
                proof {
                    crate::ast::lemma_nodes_view_push(old_cseq, node);
                    assert(nodes_view(children@) =~= old_children.push(node@));
                }
                let moved = p > cur;
                let old_cur: Ghost<usize> = Ghost(cur);
                cur = p;
                if moved {
                    cur_fuel = fuel_start_exec(g);
                }
                proof {
                    assert(nodes_view(children@) =~= old_children + seq![node@]);
                    assert((old_children + seq![node@]) + peg_seq(
                        g@,
                        views(toks@),
                        cur as int,
                        rv.skip(k as int + 1),
                        cur_fuel as nat,
                    )->Some_0.0 =~= old_children + (seq![node@] + peg_seq(
                        g@,
                        views(toks@),
                        cur as int,
                        rv.skip(k as int + 1),
                        cur_fuel as nat,
                    )->Some_0.0));
                }
            },
            Err(e) => {
                return Err(e);
            },
        }
    }
    proof {
        assert(rv.skip(n as int) =~= Seq::<SymbolV>::empty());
    }
    Ok((children, cur))
}

/// Parse a nonterminal at a position, as `peg_nt` states: its alternatives
/// tried in declaration order, the cursor restored after each failure.
fn parse_nonterminal(g: &Grammar, toks: &Vec<String>, pos: usize, nt: &str, fuel: usize) -> (r:
    Result<(ASTNode, usize), String>)
    requires
        pos <= toks@.len(),
    ensures
        match r {
            Ok(p) => peg_nt(g@, views(toks@), pos as int, nt@, fuel as nat) == Some(
                (p.0@, p.1 as int),
            ) && pos <= p.1 <= toks@.len(),
            Err(_) => peg_nt(g@, views(toks@), pos as int, nt@, fuel as nat) is None,
        },
    decreases toks@.len() - pos, fuel, 2int,
{
    let idx = match g.find_production(nt) {
        Some(i) => i,
        None => {
            let mut msg = String::from_str("Unable to parse nonterminal: ");
            proof {
                reveal_strlit("Unable to parse nonterminal: ");
            }
            msg.append(nt);
            return Err(msg);
        },
    };
    proof {
        lemma_assoc_idx(g@.productions, nt@);
    }
    let alts = &g.productions[idx].1;
    let ghost av = alts.deep_view();
    proof {
        assert(prods_of(g@, nt@) == Some(av));
        assert(av.len() == alts@.len());
        assert(av.skip(0) =~= av);
    }
    let n = alts.len();
    for j in 0..n
        invariant
            n == alts@.len(),
            av == alts.deep_view(),
            pos <= toks@.len(),
            prods_of(g@, nt@) == Some(av),
            peg_alts(g@, views(toks@), pos as int, av, fuel as nat) == peg_alts(
                g@,
                views(toks@),
                pos as int,
                av.skip(j as int),
                fuel as nat,
            ),
    {
        proof {
            assert(av.skip(j as int)[0] == alts@[j as int]@);
            assert(av.skip(j as int).drop_first() =~= av.skip(j as int + 1));
        }
        match try_production(g, toks, pos, &alts[j], fuel) {
            Ok((children, p)) => {
                let typing_rule = rule_for(g, &alts[j].rule);
                let node = ASTNode {
                    kind: NodeKind::Nonterminal,
                    value: String::from_str(nt),
                    span: Some(SourceSpan { start: pos, end: p }),
                    children: Some(children),
                    binding: None,
                    typing_rule,
                };
                proof {
                    assert(node@ =~~= peg_nt(
                        g@,
                        views(toks@),
                        pos as int,
                        nt@,
                        fuel as nat,
                    )->Some_0.0);
                }
                return Ok((node, p));
            },
            Err(_) => {},
        }
    }
    proof {
        assert(av.skip(n as int) =~= Seq::<ProductionV>::empty());
    }
    let mut msg = String::from_str("Unable to parse nonterminal: ");
    proof {
        reveal_strlit("Unable to parse nonterminal: ");
    }
    msg.append(nt);
    Err(msg)
}

/// A recursive-descent parser over one grammar: it owns the tokenizer built
/// from the grammar's special tokens, and the tokens of the parse under way.
#[derive(Debug)]
pub struct Parser {
    pub grammar: Grammar,
    pub tokenizer: Tokenizer,
    pub tokens: Vec<String>,
    pub pos: usize,
}

/// Duplicate a vector of strings, keeping its values.
fn clone_strings(v: &Vec<String>) -> (r: Vec<String>)
    ensures
        r@ =~= v@,
{
    let mut out: Vec<String> = Vec::new();
    let n = v.len();
    for i in 0..n
        invariant
            n == v@.len(),
            out@ =~= v@.take(i as int),
    {
        out.push(v[i].clone());
        proof {
            assert(out@ =~= v@.take(i as int + 1));
        }
    }
    proof {
        assert(v@.take(n as int) =~= v@);
    }
    out
}

impl Parser {
    /// A parser over a grammar, with a tokenizer that knows the grammar's
    /// special tokens and splits on blanks, tabs and line ends.
    pub fn new(grammar: Grammar) -> (r: Parser)
        ensures
            r.grammar == grammar,
            r.tokenizer.special_tokens@ == grammar.special_tokens@,
            r.tokenizer.delimiters@ == seq![' ', '\t', '\n', '\r'],
            r.tokens@.len() == 0,
            r.pos == 0,
    {
        let specials = clone_strings(&grammar.special_tokens);
        let mut delimiters: Vec<char> = Vec::new();
        delimiters.push(' ');
        delimiters.push('\t');
        delimiters.push('\n');
        delimiters.push('\r');
        proof {
            assert(delimiters@ =~= seq![' ', '\t', '\n', '\r']);
        }
        let tokenizer = Tokenizer::new(specials, delimiters);
        Parser { grammar, tokenizer, tokens: Vec::new(), pos: 0 }
    }

    /// Tokenize the input and parse it from the start nonterminal, as
    /// `spec_parse_result` states over the input's tokens, which the parse
    /// leaves in `tokens`: the first top-level alternative that consumes
    /// every token becomes the root; empty input and leftover tokens are
    /// failures.
    pub fn parse(&mut self, input: &str) -> (r: Result<ASTNode, String>)
        ensures
            final(self).grammar == old(self).grammar,
            final(self).tokenizer == old(self).tokenizer,
            views(final(self).tokens@) == crate::tokenizer::spec_tokenize(
                views(old(self).tokenizer.special_tokens@),
                old(self).tokenizer.delimiters@,
                input@,
            ),
            match r {
                Ok(node) => spec_parse_result(
                    final(self).grammar@,
                    views(final(self).tokens@),
                ) == Some(node@),
                Err(_) => spec_parse_result(
                    final(self).grammar@,
                    views(final(self).tokens@),
                ) is None,
            },
    {
        let toks = self.tokenizer.tokenize(input);
        self.tokens = toks;
        self.pos = 0;
        if self.tokens.len() == 0 {
            return Err(String::from_str("Empty input"));
        }
        let start: String;
        if self.grammar.has_production("Expr") {
            start = String::from_str("Expr");
        } else if self.grammar.has_production("Term") {
            start = String::from_str("Term");
        } else if self.grammar.productions.len() > 0 {
            start = self.grammar.productions[self.grammar.productions.len() - 1].0.clone();
        } else {
            start = String::from_str("Term");
        }
        proof {
            reveal_strlit("Expr");
            reveal_strlit("Term");
            assert(start@ == start_sym(self.grammar@));
        }
        let idx = match self.grammar.find_production(start.as_str()) {
            Some(i) => i,
            None => {
                return Err(String::from_str("Unable to parse input completely"));
            },
        };
        proof {
            lemma_assoc_idx(self.grammar@.productions, start@);
        }
        let ghost gv = self.grammar@;
        let ghost tv = views(self.tokens@);
        let ghost av = self.grammar.productions@[idx as int].1.deep_view();
        proof {
            assert(prods_of(gv, start@) == Some(av));
            assert(av.skip(0) =~= av);
        }
        let fuel = fuel_start_exec(&self.grammar);
        let nalts = self.grammar.productions[idx].1.len();
        for j in 0..nalts
            invariant
                self.grammar == old(self).grammar,
                self.tokenizer == old(self).tokenizer,
                gv == self.grammar@,
                tv == views(self.tokens@),
                tv == crate::tokenizer::spec_tokenize(
                    views(old(self).tokenizer.special_tokens@),
                    old(self).tokenizer.delimiters@,
                    input@,
                ),
                tv.len() > 0,
                idx < self.grammar.productions@.len(),
                nalts == self.grammar.productions@[idx as int].1@.len(),
                av == self.grammar.productions@[idx as int].1.deep_view(),
                prods_of(gv, start@) == Some(av),
                start@ == start_sym(gv),
                fuel as nat == fuel_start(gv),
                peg_top_alts(gv, tv, av) == peg_top_alts(gv, tv, av.skip(j as int)),
        {
            proof {
                assert(av.skip(j as int)[0] == self.grammar.productions@[idx as int].1@[
                    j as int
                ]@);
                assert(av.skip(j as int).drop_first() =~= av.skip(j as int + 1));
            }
            let prod = &self.grammar.productions[idx].1[j];
            match try_production(&self.grammar, &self.tokens, 0, prod, fuel) {
                Ok((children, p)) => {
                    if p == self.tokens.len() {
                        let typing_rule = rule_for(&self.grammar, &prod.rule);
                        let node = ASTNode {
                            kind: NodeKind::Nonterminal,
                            value: start.clone(),
                            span: Some(SourceSpan { start: 0, end: p }),
                            children: Some(children),
                            binding: None,
                            typing_rule,
                        };
                        proof {
                            assert(node@ =~~= spec_parse_result(gv, tv)->Some_0);
                        }
                        return Ok(node);
                    }
                },
                Err(_) => {},
            }
        }
        proof {
            assert(av.skip(nalts as int) =~= Seq::<ProductionV>::empty());
        }
        Err(String::from_str("Unable to parse input completely"))
    }
}

} // verus!
