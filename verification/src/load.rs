//! The grammar notation reader: blank-line-separated blocks, each either
//! production lines or one inference-rule block, folded into a grammar.

use vstd::prelude::*;

use crate::grammar::assoc_idx;
use crate::grammar::keys_unique;
use crate::grammar::lemma_assoc_idx;
use crate::grammar::Grammar;
use crate::grammar::GrammarV;
use crate::grammar::Production;
use crate::grammar::ProductionV;
use crate::grammar::Symbol;
use crate::grammar::SymbolV;
use crate::grammar::wf_grammar;
use crate::notation::spec_parse_inference_rule;
use crate::notation::spec_parse_nonterminal;
use crate::notation::spec_parse_production;
use crate::notation::spec_parse_rhs;
use crate::notation::spec_special_tokens;
use crate::strs::spec_contains;
use crate::strs::spec_join;
use crate::strs::spec_split;
use crate::strs::spec_split_str;
use crate::strs::spec_starts_with;
use crate::strs::spec_trim;
use crate::strs::views;
use crate::typing::RuleV;
use crate::typing::spec_parse_conclusion;
use crate::typing::spec_parse_premises;
use crate::typing::TypingRule;

verus! {

/// The grammar model with nothing declared.
pub open spec fn gv_empty() -> GrammarV {
    GrammarV { productions: Seq::empty(), typing_rules: Seq::empty(), special_tokens: Seq::empty() }
}

/// The model after registering one special token.
pub open spec fn gv_add_special(g: GrammarV, tok: Seq<char>) -> GrammarV {
    if g.special_tokens.contains(tok) {
        g
    } else {
        GrammarV { special_tokens: g.special_tokens.push(tok), ..g }
    }
}

/// The model after registering the tokens in order.
pub open spec fn gv_add_specials(g: GrammarV, toks: Seq<Seq<char>>) -> GrammarV
    decreases toks.len(),
{
    if toks.len() == 0 {
        g
    } else {
        gv_add_specials(gv_add_special(g, toks[0]), toks.drop_first())
    }
}

/// The model after inserting one typing rule under its name; a name already
/// present is overwritten in place.
pub open spec fn gv_add_rule(g: GrammarV, rv: RuleV) -> GrammarV {
    let i = assoc_idx(g.typing_rules, rv.name);
    GrammarV {
        typing_rules: if i < 0 {
            g.typing_rules.push((rv.name, rv))
        } else {
            g.typing_rules.update(i, (rv.name, rv))
        },
        ..g
    }
}

/// The productions made from the alternatives of one line, all under one
/// optional rule name.
pub open spec fn alts_to_prods(rule: Option<Seq<char>>, alts: Seq<Seq<SymbolV>>) -> Seq<
    ProductionV,
> {
    alts.map_values(|rhs: Seq<SymbolV>| ProductionV { rule, rhs })
}

/// The model after appending alternatives under a nonterminal: nothing
/// changes when there are none; a declared nonterminal grows; a new one is
/// appended.
pub open spec fn gv_add_prods(g: GrammarV, name: Seq<char>, vals: Seq<ProductionV>) -> GrammarV {
    if vals.len() == 0 {
        g
    } else {
        let i = assoc_idx(g.productions, name);
        GrammarV {
            productions: if i < 0 {
                g.productions.push((name, vals))
            } else {
                g.productions.update(i, (name, g.productions[i].1 + vals))
            },
            ..g
        }
    }
}

/// The model after one production line group: its special tokens are
/// registered, then its alternatives appended under its left-hand side.
/// Nothing when the group holds no `::=`.
pub open spec fn apply_production_line(g: GrammarV, pstr: Seq<char>) -> Option<GrammarV> {
    match spec_parse_production(pstr) {
        None => None,
        Some((lhs, rhs)) => {
            let (name, rule) = spec_parse_nonterminal(lhs);
            let alts = spec_parse_rhs(rhs);
            let g1 = gv_add_specials(g, spec_special_tokens(rhs));
            Some(gv_add_prods(g1, name, alts_to_prods(rule, alts)))
        },
    }
}

/// Index of the first line at or after `k` that does not continue an
/// alternative list (does not start with `|`), or the number of lines.
pub open spec fn cont_end(lines: Seq<Seq<char>>, k: int) -> int
    recommends
        0 <= k <= lines.len(),
    decreases lines.len() - k,
{
    if k < 0 || k >= lines.len() {
        lines.len() as int
    } else if spec_starts_with(lines[k], "|"@) {
        cont_end(lines, k + 1)
    } else {
        k
    }
}

pub proof fn lemma_cont_end(lines: Seq<Seq<char>>, k: int)
    requires
        0 <= k <= lines.len(),
    ensures
        k <= cont_end(lines, k) <= lines.len(),
    decreases lines.len() - k,
{
    if k < lines.len() && spec_starts_with(lines[k], "|"@) {
        lemma_cont_end(lines, k + 1);
    }
}

/// The model after reading a production block from line `i` on: each line
/// with `::=` starts a group that its `|` continuation lines join.
pub open spec fn load_prod_block(g: GrammarV, lines: Seq<Seq<char>>, i: int) -> Option<GrammarV>
    decreases lines.len() - i,
{
    if i < 0 || i >= lines.len() {
        Some(g)
    } else if !spec_contains(lines[i], "::="@) {
        load_prod_block(g, lines, i + 1)
    } else {
        proof {
            lemma_cont_end(lines, i + 1);
        }
        let j = cont_end(lines, i + 1);
        let pstr = spec_join(lines.subrange(i, j), " "@);
        match apply_production_line(g, pstr) {
            None => None,
            Some(g2) => load_prod_block(g2, lines, j),
        }
    }
}

/// The trimmed, non-blank, non-comment lines of a block.
pub open spec fn grammar_lines(parts: Seq<Seq<char>>) -> Seq<Seq<char>>
    decreases parts.len(),
{
    if parts.len() == 0 {
        Seq::empty()
    } else {
        let h = spec_trim(parts[0]);
        (if h.len() > 0 && !spec_starts_with(h, "//"@) {
            seq![h]
        } else {
            Seq::<Seq<char>>::empty()
        }) + grammar_lines(parts.drop_first())
    }
}

pub proof fn lemma_grammar_lines_take_step(parts: Seq<Seq<char>>, i: int)
    requires
        0 <= i < parts.len(),
    ensures
        grammar_lines(parts.take(i + 1)) =~= grammar_lines(parts.take(i)) + (if spec_trim(
            parts[i],
        ).len() > 0 && !spec_starts_with(spec_trim(parts[i]), "//"@) {
            seq![spec_trim(parts[i])]
        } else {
            Seq::<Seq<char>>::empty()
        }),
    decreases parts.len(),
{
    if i == 0 {
        assert(parts.take(1)[0] == parts[0]);
        assert(parts.take(1).drop_first() =~= Seq::<Seq<char>>::empty());
        assert(parts.take(0) =~= Seq::<Seq<char>>::empty());
    } else {
        assert(parts.take(i + 1)[0] == parts[0]);
        assert(parts.take(i)[0] == parts[0]);
        assert(parts.take(i + 1).drop_first() =~= parts.drop_first().take(i));
        assert(parts.take(i).drop_first() =~= parts.drop_first().take(i - 1));
        lemma_grammar_lines_take_step(parts.drop_first(), i - 1);
    }
}

/// Does any line of the block declare a production?
pub open spec fn has_prod_line(lines: Seq<Seq<char>>) -> bool {
    exists|i: int| 0 <= i < lines.len() && spec_contains(lines[i], "::="@)
}

/// The rule a parsed inference block denotes, when its premises and its
/// conclusion are well formed.
pub open spec fn rule_parsed(premises: Seq<char>, conclusion: Seq<char>, name: Seq<char>) -> Option<
    RuleV,
> {
    if spec_parse_premises(premises) is Some && spec_parse_conclusion(conclusion) is Some {
        Some(
            RuleV {
                name,
                premises: spec_parse_premises(premises)->Some_0,
                conclusion: spec_parse_conclusion(conclusion)->Some_0,
            },
        )
    } else {
        None
    }
}

/// The model after one block: a blank block changes nothing; a block with a
/// production line is read as productions; any other block must be an
/// inference rule.
pub open spec fn load_block(g: GrammarV, block: Seq<char>) -> Option<GrammarV> {
    let lines = grammar_lines(spec_split(block, '\n'));
    if lines.len() == 0 {
        Some(g)
    } else if has_prod_line(lines) {
        load_prod_block(g, lines, 0)
    } else {
        match spec_parse_inference_rule(lines) {
            None => None,
            Some((premises, conclusion, name)) => match rule_parsed(premises, conclusion, name) {
                None => None,
                Some(rv) => Some(gv_add_rule(g, rv)),
            },
        }
    }
}

/// The model after the blocks in order; a failure anywhere fails the whole.
pub open spec fn load_blocks(g: Option<GrammarV>, blocks: Seq<Seq<char>>) -> Option<GrammarV>
    decreases blocks.len(),
{
    match g {
        None => None,
        Some(gv) => {
            if blocks.len() == 0 {
                g
            } else {
                load_blocks(load_block(gv, blocks[0]), blocks.drop_first())
            }
        },
    }
}

/// Loading blocks splits over concatenation.
pub proof fn lemma_load_blocks_split(g: Option<GrammarV>, a: Seq<Seq<char>>, b: Seq<Seq<char>>)
    ensures
        load_blocks(g, a + b) == load_blocks(load_blocks(g, a), b),
    decreases a.len(),
{
    match g {
        None => {
            assert(load_blocks(g, a + b) is None);
        },
        Some(gv) => {
            if a.len() == 0 {
                assert(a + b =~= b);
            } else {
                assert((a + b)[0] == a[0]);
                assert((a + b).drop_first() =~= a.drop_first() + b);
                lemma_load_blocks_split(load_block(gv, a[0]), a.drop_first(), b);
            }
        },
    }
}

/// What a whole specification text denotes: the empty grammar folded over
/// the blank-line-separated blocks; nothing when any block is malformed.
pub open spec fn spec_load(input: Seq<char>) -> Option<GrammarV> {
    load_blocks(Some(gv_empty()), spec_split_str(input, "\n\n"@))
}

pub proof fn lemma_cont_end_at(lines: Seq<Seq<char>>, k: int, j: int)
    requires
        0 <= k <= j <= lines.len(),
        forall|q: int| k <= q < j ==> spec_starts_with(#[trigger] lines[q], "|"@),
        j < lines.len() ==> !spec_starts_with(lines[j], "|"@),
    ensures
        cont_end(lines, k) == j,
    decreases j - k,
{
    if k < j {
        assert(spec_starts_with(lines[k], "|"@));
        lemma_cont_end_at(lines, k + 1, j);
    }
}

impl Grammar {
    /// Append the alternatives of one production line group under a
    /// nonterminal, keeping declaration order.
    fn add_productions(&mut self, name: String, rule: Option<String>, alts: Vec<Vec<Symbol>>)
        ensures
            final(self)@ == gv_add_prods(
                old(self)@,
                name@,
                alts_to_prods(crate::typing::opt_view(rule), alts.deep_view()),
            ),
            keys_unique(old(self)@.productions) ==> keys_unique(final(self)@.productions),
    {
        let ghost vals = alts_to_prods(crate::typing::opt_view(rule), alts.deep_view());
        proof {
            assert(vals.len() == alts.deep_view().len());
        }
        if alts.len() == 0 {
            proof {
                assert(self@ =~~= gv_add_prods(old(self)@, name@, vals));
            }
            return ;
        }
        let mut prods: Vec<Production> = Vec::new();
        let mut rest = alts;
        while rest.len() > 0
            invariant
                self == old(self),
                vals =~= prods.deep_view() + alts_to_prods(
                    crate::typing::opt_view(rule),
                    rest.deep_view(),
                ),
                vals.len() >= 1,
            decreases rest@.len(),
        {
            let ghost old_rest = rest.deep_view();
            let ghost old_prods = prods.deep_view();
            let rhs = rest.remove(0);
            let p = Production { rule: crate::typing::clone_opt_string(&rule), rhs };
            proof {
                assert(p@ == alts_to_prods(crate::typing::opt_view(rule), old_rest)[0]);
            }
            prods.push(p);
            proof {
                assert(prods.deep_view() =~= old_prods.push(
                    alts_to_prods(crate::typing::opt_view(rule), old_rest)[0],
                ));
                assert(rest.deep_view() =~= old_rest.drop_first());
                assert(alts_to_prods(crate::typing::opt_view(rule), rest.deep_view())
                    =~= alts_to_prods(crate::typing::opt_view(rule), old_rest).drop_first());
                assert(vals =~= prods.deep_view() + alts_to_prods(
                    crate::typing::opt_view(rule),
                    rest.deep_view(),
                ));
            }
        }
        proof {
            assert(alts_to_prods(crate::typing::opt_view(rule), rest.deep_view()) =~= Seq::<
                ProductionV,
            >::empty());
            assert(prods.deep_view() =~= vals);
        }
        match self.find_production(name.as_str()) {
            Some(i) => {
                proof {
                    lemma_assoc_idx(self@.productions, name@);
                }
                let mut entry = self.productions.remove(i);
                let ghost old_entry_prods = entry.1.deep_view();
                entry.1.append(&mut prods);
                proof {
                    assert(entry.1.deep_view() =~= old_entry_prods + vals);
                }
                self.productions.insert(i, entry);
                proof {
                    assert(self.productions@ =~= old(self).productions@.update(
                        i as int,
                        self.productions@[i as int],
                    ));
                    assert(self@.productions =~= old(self)@.productions.update(
                        i as int,
                        (name@, old(self)@.productions[i as int].1 + vals),
                    ));
                    assert(self@ =~~= gv_add_prods(old(self)@, name@, vals));
                    if keys_unique(old(self)@.productions) {
                        assert forall|a: int, b: int|
                            0 <= a < b < self@.productions.len() implies self@.productions[a].0
                            != self@.productions[b].0 by {
                            assert(old(self)@.productions[a].0 != old(self)@.productions[b].0);
                            assert(self@.productions[a].0 == old(self)@.productions[a].0);
                            assert(self@.productions[b].0 == old(self)@.productions[b].0);
                        }
                    }
                }
            },
            None => {
                proof {
                    lemma_assoc_idx(self@.productions, name@);
                }
                let ghost nv = name@;
                self.productions.push((name, prods));
                proof {
                    assert(self@.productions =~= old(self)@.productions.push((nv, vals)));
                    assert(self@ =~~= gv_add_prods(old(self)@, nv, vals));
                    if keys_unique(old(self)@.productions) {
                        assert forall|a: int, b: int|
                            0 <= a < b < self@.productions.len() implies self@.productions[a].0
                            != self@.productions[b].0 by {
                            if b == self@.productions.len() - 1 {
                                assert(self@.productions[a] == old(self)@.productions[a]);
                            } else {
                                assert(self@.productions[a] == old(self)@.productions[a]);
                                assert(self@.productions[b] == old(self)@.productions[b]);
                            }
                        }
                    }
                }
            },
        }
    }

    /// Parse a textual specification into a grammar: blocks separated by
    /// blank lines, production blocks recognised by `::=`, every other block
    /// read as one inference rule.  Fails exactly when a block is malformed,
    /// as `spec_load` states.
    #[verifier::rlimit(80)]
    pub fn load(input: &str) -> (r: Result<Grammar, String>)
        ensures
            match r {
                Ok(g) => spec_load(input@) == Some(g@) && wf_grammar(g@),
                Err(_) => spec_load(input@) is None,
            },
    {
        proof {
            reveal_strlit("\n\n");
        }
        let blocks = crate::strs::split_str(input, "\n\n");
        let mut grammar = Grammar::new();
        proof {
            assert(grammar@ =~~= gv_empty());
            assert(views(blocks@).take(0) =~= Seq::<Seq<char>>::empty());
        }
        let nb = blocks.len();
        for bi in 0..nb
            invariant
                nb == blocks@.len(),
                views(blocks@) == spec_split_str(input@, "\n\n"@),
                load_blocks(Some(gv_empty()), views(blocks@).take(bi as int)) == Some(grammar@),
                wf_grammar(grammar@),
        {
            let ghost pre_gv = grammar@;
            let ghost bv = blocks@[bi as int]@;
            proof {
                assert(views(blocks@)[bi as int] == bv);
            }
            let raw = crate::strs::split_char(blocks[bi].as_str(), '\n');
            let mut lines: Vec<String> = Vec::new();
            let nraw = raw.len();
            proof {
                assert(views(raw@).take(0) =~= Seq::<Seq<char>>::empty());
            }
            for k in 0..nraw
                invariant
                    nraw == raw@.len(),
                    views(lines@) =~= grammar_lines(views(raw@).take(k as int)),
            {
                proof {
                    lemma_grammar_lines_take_step(views(raw@), k as int);
                    assert(views(raw@)[k as int] == raw@[k as int]@);
                }
                let t = crate::strs::trim(raw[k].as_str());
                if t.unicode_len() > 0 && !crate::strs::starts_with(t.as_str(), "//") {
                    proof {
                        reveal_strlit("//");
                    }
                    lines.push(t);
                } else {
                    proof {
                        reveal_strlit("//");
                    }
                }
            }
            let ghost lv = grammar_lines(spec_split(bv, '\n'));
            proof {
                assert(views(raw@).take(nraw as int) =~= views(raw@));
                assert(views(lines@) =~= lv);
            }
            if lines.len() == 0 {
                proof {
                    assert(load_block(pre_gv, bv) == Some(grammar@));
                }
            } else {
                let nl = lines.len();
                let mut has = false;
                for k in 0..nl
                    invariant
                        nl == lines@.len(),
                        lv =~= views(lines@),
                        has == exists|q: int|
                            0 <= q < k && spec_contains(#[trigger] views(lines@)[q], "::="@),
                {
                    if crate::strs::contains_str(lines[k].as_str(), "::=") {
                        proof {
                            assert(spec_contains(views(lines@)[k as int], "::="@));
                        }
                        has = true;
                    }
                }
                if has {
                    let mut i: usize = 0;
                    while i < lines.len()
                        invariant
                            lv =~= views(lines@),
                            0 <= i <= lines@.len(),
                            load_prod_block(pre_gv, lv, 0) == load_prod_block(
                                grammar@,
                                lv,
                                i as int,
                            ),
                            wf_grammar(grammar@),
                            nb == blocks@.len(),
                            0 <= bi < nb,
                            views(blocks@) == spec_split_str(input@, "\n\n"@),
                            bv == views(blocks@)[bi as int],
                            load_blocks(Some(gv_empty()), views(blocks@).take(bi as int))
                                == Some(pre_gv),
                            lv == grammar_lines(spec_split(bv, '\n')),
                            lv.len() > 0,
                            has_prod_line(lv),
                        decreases lines@.len() - i,
                    {
                        if !crate::strs::contains_str(lines[i].as_str(), "::=") {
                            proof {
                                assert(lv[i as int] == lines@[i as int]@);
                                assert(load_prod_block(grammar@, lv, i as int)
                                    == load_prod_block(grammar@, lv, i as int + 1));
                            }
                            i += 1;
                        } else {
                            proof {
                                assert(lv[i as int] == lines@[i as int]@);
                            }
                            let mut j: usize = i + 1;
                            while j < lines.len() && crate::strs::starts_with(
                                lines[j].as_str(),
                                "|",
                            )
                                invariant
                                    lv =~= views(lines@),
                                    i as int + 1 <= j <= lines@.len(),
                                    forall|q: int|
                                        i < q < j ==> spec_starts_with(#[trigger] lv[q], "|"@),
                                decreases lines@.len() - j,
                            {
                                proof {
                                    assert(lv[j as int] == lines@[j as int]@);
                                }
                                j += 1;
                            }
                            proof {
                                if (j as int) < lv.len() {
                                    assert(lv[j as int] == lines@[j as int]@);
                                }
                                lemma_cont_end_at(lv, i as int + 1, j as int);
                            }
                            let mut group: Vec<String> = Vec::new();
                            let mut q: usize = i;
                            while q < j
                                invariant
                                    lv =~= views(lines@),
                                    i <= q <= j <= lines@.len(),
                                    views(group@) =~= lv.subrange(i as int, q as int),
                                decreases j - q,
                            {
                                proof {
                                    assert(lv[q as int] == lines@[q as int]@);
                                }
                                let ghost old_group = views(group@);
                                group.push(lines[q].clone());
                                proof {
                                    assert(views(group@) =~= old_group.push(lv[q as int]));
                                    assert(lv.subrange(i as int, q as int + 1) =~= lv.subrange(
                                        i as int,
                                        q as int,
                                    ).push(lv[q as int]));
                                }
                                q += 1;
                            }
                            let pstr = crate::strs::join(&group, " ");
                            proof {
                                assert(pstr@ == spec_join(
                                    lv.subrange(i as int, j as int),
                                    " "@,
                                ));
                            }
                            let (lhs, rhs) = match crate::notation::parse_production(
                                pstr.as_str(),
                            ) {
                                Ok(p) => p,
                                Err(e) => {
                                    proof {
                                        assert(load_prod_block(grammar@, lv, i as int) is None);
                                        lemma_spec_load_none(
                                            input@,
                                            blocks@,
                                            bi as int,
                                            pre_gv,
                                            bv,
                                        );
                                    }
                                    return Err(e);
                                },
                            };
                            let (name, rule) = match crate::notation::parse_nonterminal(
                                lhs.as_str(),
                            ) {
                                Ok(p) => p,
                                Err(e) => {
                                    proof {
                                        assert(false);
                                    }
                                    return Err(e);
                                },
                            };
                            let alts = match crate::notation::parse_rhs(rhs.as_str()) {
                                Ok(a) => a,
                                Err(e) => {
                                    proof {
                                        assert(false);
                                    }
                                    return Err(e);
                                },
                            };
                            let specials = crate::notation::special_tokens(rhs.as_str());
                            let ghost g_mid = grammar@;
                            let ns = specials.len();
                            proof {
                                assert(views(specials@).skip(0) =~= views(specials@));
                            }
                            for si in 0..ns
                                invariant
                                    ns == specials@.len(),
                                    gv_add_specials(g_mid, views(specials@)) == gv_add_specials(
                                        grammar@,
                                        views(specials@).skip(si as int),
                                    ),
                                    wf_grammar(grammar@),
                            {
                                let ghost before = grammar@;
                                grammar.add_special_token(specials[si].clone());
                                proof {
                                    assert(grammar@ =~~= gv_add_special(
                                        before,
                                        specials@[si as int]@,
                                    ));
                                    assert(views(specials@).skip(si as int)[0]
                                        == specials@[si as int]@);
                                    assert(views(specials@).skip(si as int).drop_first()
                                        =~= views(specials@).skip(si as int + 1));
                                }
                            }
                            proof {
                                assert(views(specials@).skip(ns as int) =~= Seq::<
                                    Seq<char>,
                                >::empty());
                                assert(grammar@ == gv_add_specials(
                                    g_mid,
                                    spec_special_tokens(rhs@),
                                ));
                            }
                            let ghost rule_v = crate::typing::opt_view(rule);
                            let ghost alts_v = alts.deep_view();
                            grammar.add_productions(name, rule, alts);
                            proof {
                                assert(apply_production_line(
                                    g_mid,
                                    spec_join(lv.subrange(i as int, j as int), " "@),
                                ) == Some(grammar@));
                                assert(load_prod_block(g_mid, lv, i as int) == load_prod_block(
                                    grammar@,
                                    lv,
                                    j as int,
                                ));
                            }
                            i = j;
                        }
                    }
                    proof {
                        assert(load_prod_block(grammar@, lv, lines@.len() as int) == Some(
                            grammar@,
                        ));
                        assert(load_block(pre_gv, bv) == Some(grammar@));
                    }
                } else {
                    proof {
                        assert(!has_prod_line(lv)) by {
                            if has_prod_line(lv) {
                                let w = choose|w: int|
                                    0 <= w < lv.len() && spec_contains(lv[w], "::="@);
                                assert(spec_contains(views(lines@)[w], "::="@));
                            }
                        }
                    }
                    match crate::notation::parse_inference_rule(&lines) {
                        Err(e) => {
                            proof {
                                assert(load_block(pre_gv, bv) is None);
                                lemma_spec_load_none(input@, blocks@, bi as int, pre_gv, bv);
                            }
                            return Err(e);
                        },
                        Ok((premises, conclusion, name)) => {
                            let ghost pv = premises@;
                            let ghost cv = conclusion@;
                            let ghost nv = name@;
                            match TypingRule::new(premises, conclusion, name) {
                                Err(e) => {
                                    proof {
                                        assert(rule_parsed(pv, cv, nv) is None);
                                        assert(load_block(pre_gv, bv) is None);
                                        lemma_spec_load_none(
                                            input@,
                                            blocks@,
                                            bi as int,
                                            pre_gv,
                                            bv,
                                        );
                                    }
                                    return Err(e);
                                },
                                Ok(rule) => {
                                    let ghost rv = rule@;
                                    let ghost before = grammar@;
                                    grammar.add_typing_rule(rule);
                                    proof {
                                        crate::grammar::lemma_assoc_idx(
                                            before.typing_rules,
                                            rv.name,
                                        );
                                        assert(grammar@ =~~= gv_add_rule(before, rv));
                                        assert(rule_parsed(pv, cv, nv) == Some(rv));
                                        assert(load_block(pre_gv, bv) == Some(grammar@));
                                    }
                                },
                            }
                        },
                    }
                }
            }
            proof {
                assert(views(blocks@).take(bi as int + 1) =~= views(blocks@).take(bi as int)
                    + seq![bv]);
                lemma_load_blocks_split(
                    Some(gv_empty()),
                    views(blocks@).take(bi as int),
                    seq![bv],
                );
                assert(load_blocks(Some(pre_gv), seq![bv]) == load_blocks(
                    load_block(pre_gv, bv),
                    seq![bv].drop_first(),
                ));
                assert(seq![bv].drop_first() =~= Seq::<Seq<char>>::empty());
                assert(load_blocks(Some(gv_empty()), views(blocks@).take(bi as int + 1)) == Some(
                    grammar@,
                ));
            }
        }
        proof {
            assert(views(blocks@).take(nb as int) =~= views(blocks@));
        }
        Ok(grammar)
    }
}

/// When a block fails, the whole text fails.
proof fn lemma_spec_load_none(
    input: Seq<char>,
    blocks: Seq<String>,
    bi: int,
    pre_gv: GrammarV,
    bv: Seq<char>,
)
    requires
        views(blocks) == spec_split_str(input, "\n\n"@),
        0 <= bi < blocks.len(),
        bv == views(blocks)[bi],
        load_blocks(Some(gv_empty()), views(blocks).take(bi)) == Some(pre_gv),
        load_block(pre_gv, bv) is None,
    ensures
        spec_load(input) is None,
{
    lemma_load_blocks_split(Some(gv_empty()), views(blocks).take(bi), seq![bv]);
    assert(views(blocks).take(bi) + seq![bv] =~= views(blocks).take(bi + 1));
    assert(load_blocks(Some(pre_gv), seq![bv]) == load_blocks(
        load_block(pre_gv, bv),
        seq![bv].drop_first(),
    ));
    assert(load_blocks(Some(gv_empty()), views(blocks).take(bi + 1)) is None);
    lemma_load_blocks_split(
        Some(gv_empty()),
        views(blocks).take(bi + 1),
        views(blocks).skip(bi + 1),
    );
    assert(views(blocks).take(bi + 1) + views(blocks).skip(bi + 1) =~= views(blocks));
}

} // verus!