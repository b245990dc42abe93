//! The grammar notation writer: renders the grammar model back into the
//! textual notation, nonterminals and rule names in lexicographic order.

use vstd::prelude::*;

use crate::grammar::assoc_get;
use crate::grammar::assoc_idx;
use crate::grammar::Grammar;
use crate::grammar::GrammarV;
use crate::grammar::lemma_assoc_idx;
use crate::grammar::ProductionV;
use crate::grammar::Symbol;
use crate::grammar::SymbolV;
use crate::strs::lex_le;
use crate::strs::spec_repeat;
use crate::typing::Conclusion;
use crate::typing::ConclusionV;
use crate::typing::ExtV;
use crate::typing::JudgV;
use crate::typing::Premise;
use crate::typing::PremiseV;
use crate::typing::TypingJudgment;
use crate::validation::unicode_alphanumeric;

verus! {

/// `x` placed into an already ordered sequence, before the first entry it
/// does not follow.
pub open spec fn insert_sorted(x: Seq<char>, s: Seq<Seq<char>>) -> Seq<Seq<char>>
    decreases s.len(),
{
    if s.len() == 0 {
        seq![x]
    } else if lex_le(x, s[0]) {
        seq![x] + s
    } else {
        seq![s[0]] + insert_sorted(x, s.drop_first())
    }
}

/// The entries in lexicographic order, by insertion.
pub open spec fn sort_lex(s: Seq<Seq<char>>) -> Seq<Seq<char>>
    decreases s.len(),
{
    if s.len() == 0 {
        Seq::empty()
    } else {
        insert_sorted(s[0], sort_lex(s.drop_first()))
    }
}

/// Exec insertion into an ordered vector.
fn insert_sorted_exec(x: String, v: Vec<String>) -> (r: Vec<String>)
    ensures
        crate::strs::views(r@) =~= insert_sorted(x@, crate::strs::views(v@)),
    decreases v@.len(),
{
    let ghost orig = crate::strs::views(v@);
    let mut v = v;
    if v.len() == 0 {
        v.push(x);
        proof {
            assert(crate::strs::views(v@) =~= seq![x@]);
        }
        return v;
    }
    proof {
        assert(orig[0] == v@[0]@);
    }
    if crate::strs::lex_le_str(x.as_str(), v[0].as_str()) {
        v.insert(0, x);
        proof {
            assert(crate::strs::views(v@) =~= seq![x@] + orig);
        }
        v
    } else {
        let h = v.remove(0);
        proof {
            assert(crate::strs::views(v@) =~= orig.drop_first());
        }
        let ghost tail_views = crate::strs::views(v@);
        let mut r = insert_sorted_exec(x, v);
        r.insert(0, h);
        proof {
            assert(crate::strs::views(r@) =~= seq![h@] + insert_sorted(x@, tail_views));
            assert(crate::strs::views(r@) =~= insert_sorted(x@, orig));
        }
        r
    }
}

/// Exec insertion sort.
fn sort_lex_exec(v: Vec<String>) -> (r: Vec<String>)
    ensures
        crate::strs::views(r@) =~= sort_lex(crate::strs::views(v@)),
    decreases v@.len(),
{
    let ghost orig = crate::strs::views(v@);
    let mut v = v;
    if v.len() == 0 {
        return v;
    }
    proof {
        assert(orig[0] == v@[0]@);
    }
    let h = v.remove(0);
    proof {
        assert(crate::strs::views(v@) =~= orig.drop_first());
    }
    let ghost tail_views = crate::strs::views(v@);
    let rest = sort_lex_exec(v);
    let r = insert_sorted_exec(h, rest);
    proof {
        assert(insert_sorted(h@, sort_lex(tail_views)) == sort_lex(orig));
        assert(crate::strs::views(r@) =~= sort_lex(orig));
    }
    r
}

/// The text of one symbol: a bound symbol as `value[binding]`; a quoted
/// value as it stands; a value with a character outside the alphanumerics
/// as it stands when slash-delimited, else in single quotes; any other
/// value as it stands.
pub open spec fn spec_format_symbol(s: SymbolV) -> Seq<char> {
    match s.binding {
        Some(b) => s.value + seq!['['] + b + seq![']'],
        None => {
            if s.value.len() > 1 && (s.value[0] == '\'' || s.value[0] == '"') {
                s.value
            } else if !(forall|i: int| 0 <= i < s.value.len() ==> unicode_alphanumeric(
                #[trigger] s.value[i],
            )) {
                if s.value.len() >= 1 && s.value[0] == '/' && s.value[s.value.len() - 1] == '/' {
                    s.value
                } else {
                    seq!['\''] + s.value + seq!['\'']
                }
            } else {
                s.value
            }
        },
    }
}

/// The text of a right-hand side: its symbols joined by single spaces.
pub open spec fn spec_format_rhs(syms: Seq<SymbolV>) -> Seq<char>
    decreases syms.len(),
{
    if syms.len() == 0 {
        Seq::empty()
    } else if syms.len() == 1 {
        spec_format_symbol(syms[0])
    } else {
        spec_format_symbol(syms[0]) + seq![' '] + spec_format_rhs(syms.drop_first())
    }
}

/// Exec formatting of one symbol.
fn format_symbol(s: &Symbol) -> (r: String)
    ensures
        r@ == spec_format_symbol(s@),
{
    match &s.binding {
        Some(b) => {
            let mut out = s.value.clone();
            crate::strs::push_char(&mut out, '[');
            out.append(b.as_str());
            crate::strs::push_char(&mut out, ']');
            proof {
                assert(out@ =~= spec_format_symbol(s@));
            }
            out
        },
        None => {
            let n = s.value.unicode_len();
            if n > 1 && (s.value.as_str().get_char(0) == '\'' || s.value.as_str().get_char(0)
                == '"') {
                return s.value.clone();
            }
            let mut all_alnum = true;
            for i in 0..n
                invariant
                    n == s.value@.len(),
                    all_alnum == forall|j: int|
                        0 <= j < i ==> unicode_alphanumeric(#[trigger] s.value@[j]),
            {
                if !crate::validation::char_alphanumeric(s.value.as_str().get_char(i)) {
                    proof {
                        assert(!unicode_alphanumeric(s.value@[i as int]));
                    }
                    all_alnum = false;
                }
            }
            if !all_alnum {
                if n >= 1 && s.value.as_str().get_char(0) == '/' && s.value.as_str().get_char(
                    n - 1,
                ) == '/' {
                    s.value.clone()
                } else {
                    let mut out = String::from_str("'");
                    proof {
                        reveal_strlit("'");
                    }
                    out.append(s.value.as_str());
                    crate::strs::push_char(&mut out, '\'');
                    proof {
                        assert(out@ =~= spec_format_symbol(s@));
                    }
                    out
                }
            } else {
                s.value.clone()
            }
        },
    }
}

/// Exec formatting of a right-hand side from a position on.
fn format_rhs_from(rhs: &Vec<Symbol>, from: usize) -> (r: String)
    requires
        from <= rhs@.len(),
    ensures
        r@ == spec_format_rhs(rhs.deep_view().skip(from as int)),
    decreases rhs@.len() - from,
{
    proof {
        assert(rhs.deep_view().len() == rhs@.len());
    }
    if from == rhs.len() {
        proof {
            assert(rhs.deep_view().skip(from as int) =~= Seq::<SymbolV>::empty());
        }
        return String::new();
    }
    proof {
        assert(rhs.deep_view().skip(from as int)[0] == rhs@[from as int]@);
        assert(rhs.deep_view().skip(from as int).drop_first() =~= rhs.deep_view().skip(
            from as int + 1,
        ));
    }
    let mut out = format_symbol(&rhs[from]);
    if from + 1 < rhs.len() {
        crate::strs::push_char(&mut out, ' ');
        let rest = format_rhs_from(rhs, from + 1);
        out.append(rest.as_str());
        proof {
            assert(out@ =~= spec_format_rhs(rhs.deep_view().skip(from as int)));
        }
    }
    out
}

/// The text of a right-hand side.
pub fn format_rhs(rhs_symbols: &Vec<Symbol>) -> (r: String)
    ensures
        r@ == spec_format_rhs(rhs_symbols.deep_view()),
{
    let r = format_rhs_from(rhs_symbols, 0);
    proof {
        assert(rhs_symbols.deep_view().skip(0) =~= rhs_symbols.deep_view());
    }
    r
}

/// The text of a context: bare, or extended by `var:type` pairs after
/// commas.
pub open spec fn spec_format_ctx(exts: Seq<ExtV>) -> Seq<char>
    decreases exts.len(),
{
    if exts.len() == 0 {
        seq!['\u{0393}']
    } else {
        spec_format_ctx(exts.drop_last()) + seq![','] + exts.last().variable + seq![':']
            + exts.last().type_expr
    }
}

/// The text of a judgment: context, turnstile, expression, colon, type.
pub open spec fn spec_format_judgment(j: JudgV) -> Seq<char> {
    spec_format_ctx(j.extensions) + " \u{22a2} "@ + j.expression + " : "@ + j.type_expr
}

/// Exec formatting of a judgment.
pub fn format_judgment(j: &TypingJudgment) -> (r: String)
    ensures
        r@ == spec_format_judgment(j@),
{
    let mut ctx = String::new();
    crate::strs::push_char(&mut ctx, '\u{0393}');
    proof {
        assert(ctx@ =~= spec_format_ctx(Seq::<ExtV>::empty()));
        assert(j.extensions.deep_view().take(0) =~= Seq::<ExtV>::empty());
    }
    let n = j.extensions.len();
    for i in 0..n
        invariant
            n == j.extensions@.len(),
            ctx@ == spec_format_ctx(j.extensions.deep_view().take(i as int)),
    {
        crate::strs::push_char(&mut ctx, ',');
        ctx.append(j.extensions[i].variable.as_str());
        crate::strs::push_char(&mut ctx, ':');
        ctx.append(j.extensions[i].type_expr.as_str());
        proof {
            assert(j.extensions.deep_view().take(i as int + 1).drop_last()
                =~= j.extensions.deep_view().take(i as int));
            assert(j.extensions.deep_view().take(i as int + 1).last() == j.extensions@[
                i as int
            ]@);
            assert(ctx@ =~= spec_format_ctx(j.extensions.deep_view().take(i as int + 1)));
        }
    }
    proof {
        assert(j.extensions.deep_view().take(n as int) =~= j.extensions.deep_view());
        reveal_strlit(" \u{22a2} ");
        reveal_strlit(" : ");
    }
    let mut out = ctx;
    out.append(" \u{22a2} ");
    out.append(j.expression.as_str());
    out.append(" : ");
    out.append(j.type_expr.as_str());
    proof {
        assert(out@ =~= spec_format_judgment(j@));
    }
    out
}

/// The surface text of one premise.
pub open spec fn spec_format_premise(p: PremiseV) -> Seq<char>
    decreases p, 1int, 0int,
{
    match p {
        PremiseV::Judgment(j) => spec_format_judgment(j),
        PremiseV::Membership { variable, context } => variable + " \u{2208} "@ + context,
        PremiseV::TypeRelation { left_type, right_type, relation } => left_type + seq![' ']
            + relation + seq![' '] + right_type,
        PremiseV::Compound(inner) => spec_format_premises(inner),
    }
}

/// The surface text of premises, joined by comma and space.
pub open spec fn spec_format_premises(ps: Seq<PremiseV>) -> Seq<char>
    decreases ps, 0int, 0int,
{
    if ps.len() == 0 {
        Seq::empty()
    } else if ps.len() == 1 {
        spec_format_premise(ps[0])
    } else {
        spec_format_premise(ps[0]) + ", "@ + spec_format_premises(ps.drop_first())
    }
}

/// Exec formatting of one premise.
pub fn format_premise(p: &Premise) -> (r: String)
    ensures
        r@ == spec_format_premise(p@),
    decreases *p, 1int, 0int,
{
    match p {
        Premise::Judgment(j) => format_judgment(j),
        Premise::Membership { variable, context } => {
            let mut out = variable.clone();
            proof {
                reveal_strlit(" \u{2208} ");
            }
            out.append(" \u{2208} ");
            out.append(context.as_str());
            proof {
                assert(out@ =~= spec_format_premise(p@));
            }
            out
        },
        Premise::TypeRelation { left_type, right_type, relation } => {
            let mut out = left_type.clone();
            crate::strs::push_char(&mut out, ' ');
            out.append(relation.as_str());
            crate::strs::push_char(&mut out, ' ');
            out.append(right_type.as_str());
            proof {
                assert(out@ =~= spec_format_premise(p@));
            }
            out
        },
        Premise::Compound(inner) => {
            proof {
                assert(inner == (*p)->Compound_0);
            }
            let r = format_premises_from(inner, 0);
            proof {
                assert(crate::typing::premises_view(inner@).skip(0)
                    =~= crate::typing::premises_view(inner@));
            }
            r
        },
    }
}

/// Exec formatting of premises from a position on.
pub fn format_premises_from(ps: &Vec<Premise>, from: usize) -> (r: String)
    requires
        from <= ps@.len(),
    ensures
        r@ == spec_format_premises(crate::typing::premises_view(ps@).skip(from as int)),
    decreases *ps, 0int, ps@.len() - from,
{
    proof {
        crate::typing::lemma_premises_view(ps@);
    }
    if from == ps.len() {
        proof {
            assert(crate::typing::premises_view(ps@).skip(from as int) =~= Seq::<
                PremiseV,
            >::empty());
        }
        return String::new();
    }
    proof {
        assert(crate::typing::premises_view(ps@).skip(from as int)[0]
            == crate::typing::premise_view(ps@[from as int]));
        assert(crate::typing::premises_view(ps@).skip(from as int).drop_first()
            =~= crate::typing::premises_view(ps@).skip(from as int + 1));
    }
    let mut out = format_premise(&ps[from]);
    if from + 1 < ps.len() {
        proof {
            reveal_strlit(", ");
        }
        out.append(", ");
        let rest = format_premises_from(ps, from + 1);
        out.append(rest.as_str());
        proof {
            assert(out@ =~= spec_format_premises(
                crate::typing::premises_view(ps@).skip(from as int),
            ));
        }
    }
    out
}

/// The surface text of the premises of a rule.
pub fn format_premises(premises: &Vec<Premise>) -> (r: String)
    ensures
        r@ == spec_format_premises(crate::typing::premises_view(premises@)),
{
    let r = format_premises_from(premises, 0);
    proof {
        assert(crate::typing::premises_view(premises@).skip(0) =~= crate::typing::premises_view(
            premises@,
        ));
    }
    r
}

/// The surface text of a conclusion.
pub open spec fn spec_format_conclusion(c: ConclusionV) -> Seq<char> {
    match c {
        ConclusionV::TypeValue(s) => s,
        ConclusionV::Judgment(j) => spec_format_judgment(j),
        ConclusionV::ContextLookup(v) => "\u{0393}("@ + v + seq![')'],
    }
}

/// Exec formatting of a conclusion.
pub fn format_conclusion(conclusion: &Conclusion) -> (r: String)
    ensures
        r@ == spec_format_conclusion(conclusion@),
{
    match conclusion {
        Conclusion::TypeValue(s) => s.clone(),
        Conclusion::Judgment(j) => format_judgment(j),
        Conclusion::ContextLookup(v) => {
            proof {
                reveal_strlit("\u{0393}(");
            }
            let mut out = String::from_str("\u{0393}(");
            out.append(v.as_str());
            crate::strs::push_char(&mut out, ')');
            proof {
                assert(out@ =~= spec_format_conclusion(conclusion@));
            }
            out
        },
    }
}

/// The left-hand side of a production line: the nonterminal, with the rule
/// name of its first alternative in parentheses when one is named.
pub open spec fn lhs_text(key: Seq<char>, rule: Option<Seq<char>>) -> Seq<char> {
    match rule {
        Some(r) => key + seq!['('] + r + seq![')'],
        None => key,
    }
}

/// The further alternatives of a line, each after ` | `.
pub open spec fn alt_tail_text(alts: Seq<ProductionV>) -> Seq<char>
    decreases alts.len(),
{
    if alts.len() == 0 {
        Seq::empty()
    } else {
        " | "@ + spec_format_rhs(alts[0].rhs) + alt_tail_text(alts.drop_first())
    }
}

/// The line of one nonterminal: left-hand side, `::=`, and the alternatives
/// joined by `|`; an undeclared key yields nothing, a declared key with no
/// alternatives a bare line end.
pub open spec fn nt_line(g: GrammarV, key: Seq<char>) -> Seq<char> {
    match crate::grammar::prods_of(g, key) {
        None => Seq::empty(),
        Some(alts) => {
            if alts.len() == 0 {
                seq!['\n']
            } else {
                lhs_text(key, alts[0].rule) + " ::= "@ + spec_format_rhs(alts[0].rhs)
                    + alt_tail_text(alts.drop_first()) + seq!['\n']
            }
        },
    }
}

/// The production section: one line per key, in the given order.
pub open spec fn prods_text(g: GrammarV, keys: Seq<Seq<char>>) -> Seq<char>
    decreases keys.len(),
{
    if keys.len() == 0 {
        Seq::empty()
    } else {
        nt_line(g, keys[0]) + prods_text(g, keys.drop_first())
    }
}

/// How many dashes the separator line carries: five more than the conclusion
/// is long, and twenty at least.
pub open spec fn dash_count(cl: int) -> int {
    if cl + 5 <= 20 {
        20
    } else if cl + 5 > usize::MAX {
        usize::MAX as int
    } else {
        cl + 5
    }
}

/// The text of one typing rule: premises, dashed separator with the name in
/// parentheses, conclusion, blank line.
pub open spec fn rule_text(g: GrammarV, name: Seq<char>) -> Seq<char> {
    match crate::grammar::rule_of(g, name) {
        None => Seq::empty(),
        Some(rv) => {
            let concl = spec_format_conclusion(rv.conclusion);
            spec_format_premises(rv.premises) + seq!['\n'] + spec_repeat(
                '-',
                dash_count(concl.len() as int) as nat,
            ) + " ("@ + rv.name + ")\n"@ + concl + "\n\n"@
        },
    }
}

/// The typing-rule section: one block per name, in the given order.
pub open spec fn rules_text(g: GrammarV, names: Seq<Seq<char>>) -> Seq<char>
    decreases names.len(),
{
    if names.len() == 0 {
        Seq::empty()
    } else {
        rule_text(g, names[0]) + rules_text(g, names.drop_first())
    }
}

/// The nonterminal names of the grammar model, in declaration order.
pub open spec fn prod_keys(g: GrammarV) -> Seq<Seq<char>> {
    g.productions.map_values(|p: (Seq<char>, Seq<ProductionV>)| p.0)
}

/// The rule names of the grammar model, in insertion order.
pub open spec fn rule_keys(g: GrammarV) -> Seq<Seq<char>> {
    g.typing_rules.map_values(|p: (Seq<char>, crate::typing::RuleV)| p.0)
}

/// What the writer produces: the production lines under their header, keys
/// in lexicographic order, then, when any rule exists, the rule blocks under
/// their header, names in lexicographic order.
pub open spec fn spec_to_spec_string(g: GrammarV) -> Seq<char> {
    "// --- Production Rules ---\n"@ + prods_text(g, sort_lex(prod_keys(g))) + seq!['\n'] + (
    if g.typing_rules.len() > 0 {
        "// --- Typing Rules ---\n"@ + rules_text(g, sort_lex(rule_keys(g)))
    } else {
        Seq::<char>::empty()
    })
}

/// Exec formatting of the tail alternatives from a position on.
fn alt_tail_from(alts: &Vec<crate::grammar::Production>, from: usize) -> (r: String)
    requires
        from <= alts@.len(),
    ensures
        r@ == alt_tail_text(alts.deep_view().skip(from as int)),
    decreases alts@.len() - from,
{
    proof {
        assert(alts.deep_view().len() == alts@.len());
    }
    if from == alts.len() {
        proof {
            assert(alts.deep_view().skip(from as int) =~= Seq::<ProductionV>::empty());
        }
        return String::new();
    }
    proof {
        assert(alts.deep_view().skip(from as int)[0] == alts@[from as int]@);
        assert(alts.deep_view().skip(from as int).drop_first() =~= alts.deep_view().skip(
            from as int + 1,
        ));
        reveal_strlit(" | ");
    }
    let mut out = String::from_str(" | ");
    let rhs = format_rhs(&alts[from].rhs);
    out.append(rhs.as_str());
    let rest = alt_tail_from(alts, from + 1);
    out.append(rest.as_str());
    proof {
        assert(out@ =~= alt_tail_text(alts.deep_view().skip(from as int)));
    }
    out
}

impl Grammar {
    /// Render the grammar back into its textual notation: production lines
    /// with nonterminals in lexicographic order, then the typing rules in
    /// lexicographic order of name, as `spec_to_spec_string` states.
    #[verifier::rlimit(60)]
    pub fn to_spec_string(&self) -> (r: String)
        ensures
            r@ == spec_to_spec_string(self@),
    {
        let mut keys: Vec<String> = Vec::new();
        let np = self.productions.len();
        for i in 0..np
            invariant
                np == self.productions@.len(),
                keys@.len() == i,
                forall|k: int| 0 <= k < i ==> keys@[k]@ == prod_keys(self@)[k],
        {
            keys.push(self.productions[i].0.clone());
        }
        proof {
            assert(crate::strs::views(keys@) =~= prod_keys(self@));
        }
        let sorted = sort_lex_exec(keys);
        let ghost sv = sort_lex(prod_keys(self@));
        proof {
            reveal_strlit("// --- Production Rules ---\n");
        }
        let mut out = String::from_str("// --- Production Rules ---\n");
        let ghost header = "// --- Production Rules ---\n"@;
        let ns = sorted.len();
        proof {
            assert(crate::strs::views(sorted@).skip(0) =~= sv);
        }
        for k in 0..ns
            invariant
                ns == sorted@.len(),
                sv =~= crate::strs::views(sorted@),
                header + prods_text(self@, sv) =~= out@ + prods_text(
                    self@,
                    crate::strs::views(sorted@).skip(k as int),
                ),
        {
            let ghost key = sorted@[k as int]@;
            let ghost rest = crate::strs::views(sorted@).skip(k as int);
            proof {
                assert(rest[0] == key);
                assert(rest.drop_first() =~= crate::strs::views(sorted@).skip(k as int + 1));
            }
            match self.find_production(sorted[k].as_str()) {
                Some(i) => {
                    proof {
                        lemma_assoc_idx(self@.productions, key);
                    }
                    let alts = &self.productions[i].1;
                    proof {
                        assert(self@.productions[i as int].1 == alts.deep_view());
                        assert(crate::grammar::prods_of(self@, key) == Some(alts.deep_view()));
                        assert(alts.deep_view().len() == alts@.len());
                    }
                    if alts.len() == 0 {
                        crate::strs::push_char(&mut out, '\n');
                        proof {
                            assert(nt_line(self@, key) =~= seq!['\n']);
                        }
                    } else {
                        proof {
                            assert(alts.deep_view()[0] == alts@[0]@);
                        }
                        let mut line = sorted[k].clone();
                        match &alts[0].rule {
                            Some(rn) => {
                                crate::strs::push_char(&mut line, '(');
                                line.append(rn.as_str());
                                crate::strs::push_char(&mut line, ')');
                            },
                            None => {},
                        }
                        proof {
                            assert(line@ =~= lhs_text(key, alts.deep_view()[0].rule));
                            reveal_strlit(" ::= ");
                        }
                        line.append(" ::= ");
                        let rhs0 = format_rhs(&alts[0].rhs);
                        line.append(rhs0.as_str());
                        let tail = alt_tail_from(alts, 1);
                        line.append(tail.as_str());
                        crate::strs::push_char(&mut line, '\n');
                        proof {
                            assert(alts.deep_view().skip(1) =~= alts.deep_view().drop_first());
                            assert(line@ =~= nt_line(self@, key));
                        }
                        out.append(line.as_str());
                    }
                },
                None => {
                    proof {
                        assert(crate::grammar::prods_of(self@, key) is None);
                        assert(nt_line(self@, key) =~= Seq::<char>::empty());
                    }
                },
            }
            proof {
                assert(prods_text(self@, rest) =~= nt_line(self@, key) + prods_text(
                    self@,
                    rest.drop_first(),
                ));
                assert(header + prods_text(self@, sv) =~= out@ + prods_text(
                    self@,
                    crate::strs::views(sorted@).skip(k as int + 1),
                ));
            }
        }
        proof {
            assert(crate::strs::views(sorted@).skip(ns as int) =~= Seq::<Seq<char>>::empty());
            assert(out@ =~= header + prods_text(self@, sv));
        }
        crate::strs::push_char(&mut out, '\n');
        if self.typing_rules.len() > 0 {
            let mut names: Vec<String> = Vec::new();
            let nr = self.typing_rules.len();
            for i in 0..nr
                invariant
                    nr == self.typing_rules@.len(),
                    nr > 0,
                    names@.len() == i,
                    forall|q: int| 0 <= q < i ==> names@[q]@ == rule_keys(self@)[q],
            {
                names.push(self.typing_rules[i].0.clone());
            }
            proof {
                assert(crate::strs::views(names@) =~= rule_keys(self@));
            }
            let rsorted = sort_lex_exec(names);
            let ghost rv_names = sort_lex(rule_keys(self@));
            proof {
                reveal_strlit("// --- Typing Rules ---\n");
            }
            out.append("// --- Typing Rules ---\n");
            let ghost out_base = out@;
            let nrs = rsorted.len();
            proof {
                assert(crate::strs::views(rsorted@).skip(0) =~= rv_names);
            }
            for k in 0..nrs
                invariant
                    nrs == rsorted@.len(),
                    rv_names =~= crate::strs::views(rsorted@),
                    out_base + rules_text(self@, rv_names) =~= out@ + rules_text(
                        self@,
                        crate::strs::views(rsorted@).skip(k as int),
                    ),
            {
                let ghost nm = rsorted@[k as int]@;
                let ghost rest = crate::strs::views(rsorted@).skip(k as int);
                proof {
                    assert(rest[0] == nm);
                    assert(rest.drop_first() =~= crate::strs::views(rsorted@).skip(
                        k as int + 1,
                    ));
                }
                match self.find_typing_rule(rsorted[k].as_str()) {
                    Some(i) => {
                        proof {
                            lemma_assoc_idx(self@.typing_rules, nm);
                        }
                        let rule = &self.typing_rules[i].1;
                        proof {
                            assert(self@.typing_rules[i as int].1 == rule@);
                            assert(crate::grammar::rule_of(self@, nm) == Some(rule@));
                        }
                        let prem = format_premises(&rule.premises);
                        out.append(prem.as_str());
                        crate::strs::push_char(&mut out, '\n');
                        let concl = format_conclusion(&rule.conclusion);
                        let cl = concl.unicode_len();
                        let dn: usize = if cl <= 15 {
                            20
                        } else if cl > usize::MAX - 5 {
                            usize::MAX
                        } else {
                            cl + 5
                        };
                        proof {
                            assert(dn as int == dash_count(concl@.len() as int));
                        }
                        let dashes = crate::strs::repeat_char('-', dn);
                        out.append(dashes.as_str());
                        proof {
                            reveal_strlit(" (");
                            reveal_strlit(")\n");
                            reveal_strlit("\n\n");
                        }
                        out.append(" (");
                        out.append(rule.name.as_str());
                        out.append(")\n");
                        out.append(concl.as_str());
                        out.append("\n\n");
                        proof {
                            assert(rules_text(self@, rest) =~= rule_text(self@, nm)
                                + rules_text(self@, rest.drop_first()));
                            assert(out_base + rules_text(self@, rv_names) =~= out@
                                + rules_text(
                                self@,
                                crate::strs::views(rsorted@).skip(k as int + 1),
                            ));
                        }
                    },
                    None => {
                        proof {
                            assert(crate::grammar::rule_of(self@, nm) is None);
                            assert(rules_text(self@, rest) =~= rule_text(self@, nm)
                                + rules_text(self@, rest.drop_first()));
                            assert(rule_text(self@, nm) =~= Seq::<char>::empty());
                            assert(out_base + rules_text(self@, rv_names) =~= out@
                                + rules_text(
                                self@,
                                crate::strs::views(rsorted@).skip(k as int + 1),
                            ));
                        }
                    },
                }
            }
            proof {
                assert(crate::strs::views(rsorted@).skip(nrs as int) =~= Seq::<
                    Seq<char>,
                >::empty());
                assert(out@ =~= spec_to_spec_string(self@));
            }
        } else {
            proof {
                assert(out@ =~= spec_to_spec_string(self@));
            }
        }
        out
    }
}

} // verus!
// The round trip of the notation for one symbol: the reader reads back what
// the writer renders.
verus! {

/// A symbol the notation carries back and forth unchanged: no brackets in
/// the value or the binding, and an unbound value either slash-delimited,
/// quoted, or alphanumeric — the shapes the reader itself produces.
pub open spec fn wf_notation_symbol(v: SymbolV) -> bool {
    &&& !v.value.contains('[')
    &&& !v.value.contains(']')
    &&& match v.binding {
        Some(b) => !b.contains('[') && !b.contains(']'),
        None => crate::notation::spec_is_regex(v.value) || (v.value.len() > 1 && (v.value[0]
            == '\'' || v.value[0] == '"')) || (forall|i: int|
            0 <= i < v.value.len() ==> unicode_alphanumeric(#[trigger] v.value[i])),
    }
}

/// One symbol read back from its rendered text is the same symbol: the
/// grammar round trip, shown for single symbols.
pub proof fn lemma_symbol_roundtrip(v: SymbolV)
    requires
        wf_notation_symbol(v),
    ensures
        crate::notation::spec_symbol_of_token(spec_format_symbol(v)) == v,
{
    let f = spec_format_symbol(v);
    let vl = v.value.len() as int;
    match v.binding {
        Some(b) => {
            let bl = b.len() as int;
            assert(f =~= v.value + seq!['['] + b + seq![']']);
            assert(f.len() == vl + bl + 2);
            assert(f[f.len() - 1] == ']');
            assert(!crate::notation::spec_is_regex(f));
            crate::strs::lemma_find_ch(f, '[');
            assert(f[vl] == '[');
            assert(crate::strs::find_ch(f, '[') == vl) by {
                crate::strs::lemma_find_ch(f, '[');
                let fi = crate::strs::find_ch(f, '[');
                if fi < vl {
                    assert(f[fi] == v.value[fi]);
                    assert(v.value.contains('[')) by {
                        assert(v.value[fi] == '[');
                    }
                }
            }
            assert(crate::strs::rfind_ch(f, ']') == f.len() - 1);
            assert(f.take(vl) =~= v.value);
            assert(f.subrange(vl + 1, f.len() - 1) =~= b);
            assert(crate::notation::spec_symbol_of_token(f) =~~= v);
        },
        None => {
            assert(f =~= v.value) by {
                if v.value.len() > 1 && (v.value[0] == '\'' || v.value[0] == '"') {
                } else if crate::notation::spec_is_regex(v.value) {
                } else {
                    assert(forall|i: int|
                        0 <= i < v.value.len() ==> unicode_alphanumeric(
                            #[trigger] v.value[i],
                        ));
                }
            }
            if crate::notation::spec_is_regex(f) {
                assert(crate::notation::spec_symbol_of_token(f) =~~= v);
            } else {
                crate::strs::lemma_find_ch(f, '[');
                let fi = crate::strs::find_ch(f, '[');
                assert(fi == f.len()) by {
                    if fi < f.len() {
                        assert(v.value.contains('[')) by {
                            assert(v.value[fi] == '[');
                        }
                    }
                }
                assert(crate::notation::spec_symbol_of_token(f) =~~= v);
            }
        },
    }
}

} // verus!

// The round trip of the notation for one alternative: the reader reads back
// the symbol sequence the writer renders.
verus! {

/// A symbol as it stands inside an alternative: carried back and forth
/// unchanged, non-empty, and free of whitespace, so that the word split
/// leaves it whole.
pub open spec fn wf_alt_symbol(v: SymbolV) -> bool {
    &&& wf_notation_symbol(v)
    &&& v.value.len() > 0
    &&& (forall|i: int| 0 <= i < v.value.len() ==> !crate::strs::is_ws(#[trigger] v.value[i]))
    &&& match v.binding {
        Some(b) => forall|i: int| 0 <= i < b.len() ==> !crate::strs::is_ws(#[trigger] b[i]),
        None => true,
    }
}

/// Every symbol of the alternative is well formed.
pub open spec fn wf_alt_symbols(syms: Seq<SymbolV>) -> bool
    decreases syms.len(),
{
    if syms.len() == 0 {
        true
    } else {
        wf_alt_symbol(syms[0]) && wf_alt_symbols(syms.drop_first())
    }
}

/// The rendered text of a well-formed symbol is non-empty and free of
/// whitespace.
proof fn lemma_format_symbol_solid(v: SymbolV)
    requires
        wf_alt_symbol(v),
    ensures
        spec_format_symbol(v).len() > 0,
        forall|i: int|
            0 <= i < spec_format_symbol(v).len() ==> !crate::strs::is_ws(
                #[trigger] spec_format_symbol(v)[i],
            ),
{
    let f = spec_format_symbol(v);
    match v.binding {
        Some(b) => {
            assert(f =~= v.value + seq!['['] + b + seq![']']);
            assert forall|i: int| 0 <= i < f.len() implies !crate::strs::is_ws(f[i]) by {
                if i < v.value.len() {
                    assert(f[i] == v.value[i]);
                } else if i == v.value.len() {
                    assert(f[i] == '[');
                } else if i < v.value.len() + 1 + b.len() {
                    assert(f[i] == b[i - v.value.len() - 1]);
                } else {
                    assert(f[i] == ']');
                }
            }
        },
        None => {
            assert(f =~= v.value) by {
                if v.value.len() > 1 && (v.value[0] == '\'' || v.value[0] == '"') {
                } else if crate::notation::spec_is_regex(v.value) {
                } else {
                    assert(forall|i: int|
                        0 <= i < v.value.len() ==> unicode_alphanumeric(
                            #[trigger] v.value[i],
                        ));
                }
            }
        },
    }
}

/// The word scan stops exactly at a known first whitespace.
proof fn lemma_find_ws_at(s: Seq<char>, j: int)
    requires
        0 <= j <= s.len(),
        forall|q: int| 0 <= q < j ==> !crate::strs::is_ws(#[trigger] s[q]),
        j < s.len() ==> crate::strs::is_ws(s[j]),
    ensures
        crate::strs::find_ws(s) == j,
    decreases j,
{
    if j > 0 {
        let t = s.drop_first();
        assert forall|q: int| 0 <= q < j - 1 implies !crate::strs::is_ws(#[trigger] t[q]) by {
            assert(t[q] == s[q + 1]);
        }
        if j - 1 < t.len() {
            assert(t[j - 1] == s[j]);
        }
        lemma_find_ws_at(t, j - 1);
    }
}

/// A non-blank whitespace-free word before a space is split off whole.
proof fn lemma_words_prefix(a: Seq<char>, r: Seq<char>)
    requires
        a.len() > 0,
        forall|q: int| 0 <= q < a.len() ==> !crate::strs::is_ws(#[trigger] a[q]),
    ensures
        crate::strs::spec_words(a + seq![' '] + r) =~= seq![a] + crate::strs::spec_words(r),
{
    let s = a + seq![' '] + r;
    assert(s[0] == a[0]);
    assert forall|q: int| 0 <= q < a.len() implies !crate::strs::is_ws(#[trigger] s[q]) by {
        assert(s[q] == a[q]);
    }
    assert(crate::strs::is_ws(s[a.len() as int]));
    lemma_find_ws_at(s, a.len() as int);
    assert(s.take(a.len() as int) =~= a);
    let s2 = s.skip(a.len() as int);
    assert(s2 =~= seq![' '] + r);
    assert(crate::strs::is_ws(s2[0]));
    assert(s2.drop_first() =~= r);
    assert(crate::strs::spec_words(s) == seq![a] + crate::strs::spec_words(s2));
    assert(crate::strs::spec_words(s2) == crate::strs::spec_words(r));
}

/// A whole whitespace-free word is one word.
proof fn lemma_words_single(a: Seq<char>)
    requires
        a.len() > 0,
        forall|q: int| 0 <= q < a.len() ==> !crate::strs::is_ws(#[trigger] a[q]),
    ensures
        crate::strs::spec_words(a) =~= seq![a],
{
    lemma_find_ws_at(a, a.len() as int);
    assert(a.take(a.len() as int) =~= a);
    assert(a.skip(a.len() as int) =~= Seq::<char>::empty());
    assert(crate::strs::spec_words(Seq::<char>::empty()) =~= Seq::<Seq<char>>::empty());
    assert(crate::strs::spec_words(a) == seq![a] + crate::strs::spec_words(
        a.skip(a.len() as int),
    ));
    assert(seq![a] + Seq::<Seq<char>>::empty() =~= seq![a]);
}

/// One alternative read back from its rendered text is the same symbol
/// sequence: the grammar round trip, shown for one alternative.
pub proof fn lemma_alt_roundtrip(syms: Seq<SymbolV>)
    requires
        wf_alt_symbols(syms),
    ensures
        crate::notation::spec_alt_symbols(spec_format_rhs(syms)) =~= syms,
    decreases syms.len(),
{
    if syms.len() == 0 {
        assert(crate::strs::spec_words(Seq::<char>::empty()) =~= Seq::<Seq<char>>::empty());
    } else if syms.len() == 1 {
        let f0 = spec_format_symbol(syms[0]);
        lemma_format_symbol_solid(syms[0]);
        lemma_words_single(f0);
        lemma_symbol_roundtrip(syms[0]);
        assert(crate::notation::spec_alt_symbols(f0) =~= syms);
    } else {
        let f0 = spec_format_symbol(syms[0]);
        let rest = spec_format_rhs(syms.drop_first());
        lemma_format_symbol_solid(syms[0]);
        assert(spec_format_rhs(syms) =~= f0 + seq![' '] + rest);
        lemma_words_prefix(f0, rest);
        lemma_alt_roundtrip(syms.drop_first());
        lemma_symbol_roundtrip(syms[0]);
        let ws = crate::strs::spec_words(spec_format_rhs(syms));
        assert(ws =~= seq![f0] + crate::strs::spec_words(rest));
        assert forall|q: int|
            0 <= q < syms.len() implies crate::notation::spec_alt_symbols(
            spec_format_rhs(syms),
        )[q] == syms[q] by {
            if q == 0 {
                assert(ws[0] == f0);
            } else {
                assert(ws[q] == crate::strs::spec_words(rest)[q - 1]);
                assert(crate::notation::spec_alt_symbols(rest)[q - 1] == syms.drop_first()[q
                    - 1]);
            }
        }
    }
}

} // verus!
