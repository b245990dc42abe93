//! Helpers of the grammar notation: recognising regex terminals, splitting a
//! production line, reading a left-hand side with its optional rule name,
//! reading right-hand-side alternatives with bindings, collecting quoted
//! special tokens, and reading one inference-rule block.

use vstd::prelude::*;

use crate::grammar::Symbol;
use crate::grammar::SymbolV;
use crate::strs::find_ch;
use crate::strs::rfind_ch;
use crate::strs::spec_split;
use crate::strs::spec_split_once;
use crate::strs::spec_strip;
use crate::strs::spec_trim;
use crate::strs::spec_words;
use crate::strs::split_char;
use crate::strs::views;

verus! {

/// The comma-separated (or line) pieces trimmed, blanks dropped.
pub open spec fn keep_nonblank(parts: Seq<Seq<char>>) -> Seq<Seq<char>>
    decreases parts.len(),
{
    if parts.len() == 0 {
        Seq::empty()
    } else {
        let h = spec_trim(parts[0]);
        (if h.len() > 0 {
            seq![h]
        } else {
            Seq::<Seq<char>>::empty()
        }) + keep_nonblank(parts.drop_first())
    }
}

/// The kept pieces of a prefix are a prefix of the kept pieces.
pub proof fn lemma_keep_nonblank_take(parts: Seq<Seq<char>>, i: int)
    requires
        0 <= i <= parts.len(),
    ensures
        keep_nonblank(parts.take(i)).len() <= keep_nonblank(parts).len(),
        keep_nonblank(parts.take(i)) =~= keep_nonblank(parts).take(
            keep_nonblank(parts.take(i)).len() as int,
        ),
    decreases parts.len(),
{
    if i == 0 {
        assert(parts.take(0) =~= Seq::<Seq<char>>::empty());
    } else {
        assert(parts.take(i)[0] == parts[0]);
        assert(parts.take(i).drop_first() =~= parts.drop_first().take(i - 1));
        lemma_keep_nonblank_take(parts.drop_first(), i - 1);
    }
}

/// Keeping pieces of one more element appends its trimmed text when that is
/// non-blank, and nothing otherwise.
pub proof fn lemma_keep_nonblank_take_step(parts: Seq<Seq<char>>, i: int)
    requires
        0 <= i < parts.len(),
    ensures
        keep_nonblank(parts.take(i + 1)) =~= keep_nonblank(parts.take(i)) + (if spec_trim(
            parts[i],
        ).len() > 0 {
            seq![spec_trim(parts[i])]
        } else {
            Seq::<Seq<char>>::empty()
        }),
    decreases parts.len(),
{
    if i == 0 {
        assert(parts.take(1)[0] == parts[0]);
        assert(parts.take(1).drop_first() =~= Seq::<Seq<char>>::empty());
        assert(parts.take(0) =~= Seq::<Seq<char>>::empty());
    } else {
        assert(parts.take(i + 1)[0] == parts[0]);
        assert(parts.take(i)[0] == parts[0]);
        assert(parts.take(i + 1).drop_first() =~= parts.drop_first().take(i));
        assert(parts.take(i).drop_first() =~= parts.drop_first().take(i - 1));
        lemma_keep_nonblank_take_step(parts.drop_first(), i - 1);
    }
}

/// Is a token a slash-delimited regular-expression terminal?
pub open spec fn spec_is_regex(s: Seq<char>) -> bool {
    s.len() > 2 && s[0] == '/' && s[s.len() - 1] == '/'
}

/// Only slash-delimited patterns of at least one inner character count as
/// regex terminals.
pub fn is_regex(pattern: &str) -> (r: bool)
    ensures
        r == spec_is_regex(pattern@),
{
    let n = pattern.unicode_len();
    n > 2 && pattern.get_char(0) == '/' && pattern.get_char(n - 1) == '/'
}

/// The two sides of a production line around the first `::=`, trimmed;
/// nothing when the line holds no `::=`.
pub open spec fn spec_parse_production(line: Seq<char>) -> Option<(Seq<char>, Seq<char>)> {
    match spec_split_once(line, "::="@) {
        None => None,
        Some((l, r)) => Some((spec_trim(l), spec_trim(r))),
    }
}

/// Split a production line `LHS ::= RHS` into its trimmed sides.  Fails when
/// the line holds no `::=`.
pub fn parse_production(line: &str) -> (r: Result<(String, String), String>)
    ensures
        match r {
            Ok(p) => spec_parse_production(line@) == Some((p.0@, p.1@)),
            Err(_) => spec_parse_production(line@) is None,
        },
{
    match crate::strs::split_once_str(line, "::=") {
        Some((l, r)) => Ok((crate::strs::trim(l.as_str()), crate::strs::trim(r.as_str()))),
        None => Err(String::from_str("Invalid production line: ").concat(line)),
    }
}

/// The nonterminal name and optional rule name of a left-hand side: the rule
/// name sits between the first `(` and the last `)`, and an empty rule name
/// counts as none.
pub open spec fn spec_parse_nonterminal(s: Seq<char>) -> (Seq<char>, Option<Seq<char>>) {
    let o = find_ch(s, '(');
    let c = rfind_ch(s, ')');
    if o < s.len() && c > o {
        let name = spec_trim(s.take(o));
        let rule = spec_trim(s.subrange(o + 1, c));
        (
            name,
            if rule.len() == 0 {
                None
            } else {
                Some(rule)
            },
        )
    } else {
        (spec_trim(s), None)
    }
}

/// Read a left-hand side such as `Lambda(lambda)` into the nonterminal name
/// and the optional rule name.
pub fn parse_nonterminal(nt_str: &str) -> (r: Result<(String, Option<String>), String>)
    ensures
        r is Ok,
        r matches Ok(p) ==> spec_parse_nonterminal(nt_str@) == (
            p.0@,
            crate::typing::opt_view(p.1),
        ),
{
    let n = nt_str.unicode_len();
    let o = crate::strs::find_char(nt_str, '(');
    let c = crate::strs::rfind_char(nt_str, ')');
    proof {
        crate::strs::lemma_find_ch(nt_str@, '(');
        crate::strs::lemma_rfind_ch(nt_str@, ')');
    }
    match c {
        Some(ci) if o < n && ci > o => {
            let name = crate::strs::trim(nt_str.substring_char(0, o));
            let rule = crate::strs::trim(nt_str.substring_char(o + 1, ci));
            proof {
                assert(nt_str@.subrange(0, o as int) =~= nt_str@.take(o as int));
            }
            if rule.unicode_len() == 0 {
                Ok((name, None))
            } else {
                Ok((name, Some(rule)))
            }
        },
        _ => Ok((crate::strs::trim(nt_str), None)),
    }
}

/// The symbol one right-hand-side token denotes: a regex terminal passes
/// through whole; `name[binding]` carries a binding; anything else is a bare
/// symbol.
pub open spec fn spec_symbol_of_token(t: Seq<char>) -> SymbolV {
    if spec_is_regex(t) {
        SymbolV { value: t, binding: None }
    } else {
        let o = find_ch(t, '[');
        let c = rfind_ch(t, ']');
        if o < t.len() && c > o {
            SymbolV { value: t.take(o), binding: Some(t.subrange(o + 1, c)) }
        } else {
            SymbolV { value: t, binding: None }
        }
    }
}

/// Read one token into its symbol.
fn symbol_of_token(t: &str) -> (r: Symbol)
    ensures
        r@ == spec_symbol_of_token(t@),
{
    let n = t.unicode_len();
    if is_regex(t) {
        return Symbol::new(String::from_str(t));
    }
    let o = crate::strs::find_char(t, '[');
    let c = crate::strs::rfind_char(t, ']');
    proof {
        crate::strs::lemma_find_ch(t@, '[');
        crate::strs::lemma_rfind_ch(t@, ']');
    }
    match c {
        Some(ci) if o < n && ci > o => {
            let value = String::from_str(t.substring_char(0, o));
            let binding = String::from_str(t.substring_char(o + 1, ci));
            proof {
                assert(t@.subrange(0, o as int) =~= t@.take(o as int));
            }
            Symbol::with_binding(value, binding)
        },
        _ => Symbol::new(String::from_str(t)),
    }
}

/// The symbols of one alternative: its whitespace-separated tokens, each
/// read as a symbol.
pub open spec fn spec_alt_symbols(alt: Seq<char>) -> Seq<SymbolV> {
    spec_words(alt).map_values(|t: Seq<char>| spec_symbol_of_token(t))
}

/// The alternatives denoted by the `|`-separated pieces from the front:
/// each non-blank piece, trimmed, read as a symbol sequence.
pub open spec fn alts_of_pieces(parts: Seq<Seq<char>>) -> Seq<Seq<SymbolV>>
    decreases parts.len(),
{
    if parts.len() == 0 {
        Seq::empty()
    } else {
        let h = spec_trim(parts[0]);
        (if h.len() > 0 {
            seq![spec_alt_symbols(h)]
        } else {
            Seq::<Seq<SymbolV>>::empty()
        }) + alts_of_pieces(parts.drop_first())
    }
}

/// The alternatives a right-hand side denotes: the non-blank `|`-separated
/// pieces, each read as a symbol sequence.
pub open spec fn spec_parse_rhs(rhs: Seq<char>) -> Seq<Seq<SymbolV>> {
    alts_of_pieces(spec_split(rhs, '|'))
}

/// Read the symbols of one trimmed alternative.
fn symbols_of_alt(alt: &str) -> (r: Vec<Symbol>)
    ensures
        r.deep_view() =~= spec_alt_symbols(alt@),
{
    let toks = crate::strs::words(alt);
    let mut symbols: Vec<Symbol> = Vec::new();
    let m = toks.len();
    for k in 0..m
        invariant
            m == toks@.len(),
            views(toks@) == spec_words(alt@),
            symbols@.len() == k,
            forall|q: int| 0 <= q < k ==> symbols@[q]@ == spec_symbol_of_token(toks@[q]@),
    {
        symbols.push(symbol_of_token(toks[k].as_str()));
    }
    proof {
        assert(symbols.deep_view() =~= spec_alt_symbols(alt@)) by {
            assert forall|q: int| 0 <= q < m implies symbols.deep_view()[q] == spec_alt_symbols(
                alt@,
            )[q] by {
                assert(views(toks@)[q] == toks@[q]@);
            }
        }
    }
    symbols
}

/// Read the alternatives of the pieces from `from` on.
fn alts_from(pieces: &Vec<String>, from: usize) -> (r: Vec<Vec<Symbol>>)
    requires
        from <= pieces@.len(),
    ensures
        r.deep_view() =~= alts_of_pieces(views(pieces@).skip(from as int)),
    decreases pieces@.len() - from,
{
    if from == pieces.len() {
        let r: Vec<Vec<Symbol>> = Vec::new();
        proof {
            assert(views(pieces@).skip(from as int) =~= Seq::<Seq<char>>::empty());
            assert(r.deep_view() =~= Seq::<Seq<SymbolV>>::empty());
        }
        return r;
    }
    proof {
        assert(views(pieces@).skip(from as int)[0] == pieces@[from as int]@);
        assert(views(pieces@).skip(from as int).drop_first() =~= views(pieces@).skip(
            from as int + 1,
        ));
    }
    let piece = crate::strs::trim(pieces[from].as_str());
    let mut rest = alts_from(pieces, from + 1);
    if piece.unicode_len() > 0 {
        let symbols = symbols_of_alt(piece.as_str());
        let ghost sv = symbols.deep_view();
        let ghost old_rest = rest.deep_view();
        rest.insert(0, symbols);
        proof {
            assert(rest.deep_view() =~= seq![sv] + old_rest);
        }
    }
    rest
}

/// Read a right-hand side such as `'λ' TypedParam '.' Term[e] | Var` into
/// its alternatives, each an ordered symbol sequence.  Never fails.
pub fn parse_rhs(rhs: &str) -> (r: Result<Vec<Vec<Symbol>>, String>)
    ensures
        r is Ok,
        r matches Ok(alts) ==> alts.deep_view() == spec_parse_rhs(rhs@),
{
    let pieces = split_char(rhs, '|');
    let alts = alts_from(&pieces, 0);
    proof {
        assert(views(pieces@).skip(0) =~= views(pieces@));
    }
    Ok(alts)
}

/// Is a token quoted by matching single or double quotes?
pub open spec fn is_quoted_tok(t: Seq<char>) -> bool {
    t.len() > 0 && ((t[0] == '\'' && t[t.len() - 1] == '\'') || (t[0] == '"' && t[t.len() - 1]
        == '"'))
}

/// A quoted token with both kinds of quote stripped from both ends.
pub open spec fn spec_strip_quotes(t: Seq<char>) -> Seq<char> {
    spec_strip(spec_strip(t, '\''), '"')
}

/// The special tokens after reading the given tokens into `acc`: each quoted
/// token is stripped and recorded once, in order of first sight.
pub open spec fn add_specials(toks: Seq<Seq<char>>, acc: Seq<Seq<char>>) -> Seq<Seq<char>>
    decreases toks.len(),
{
    if toks.len() == 0 {
        acc
    } else {
        let t = toks[0];
        if is_quoted_tok(t) {
            let v = spec_strip_quotes(t);
            add_specials(
                toks.drop_first(),
                if acc.contains(v) {
                    acc
                } else {
                    acc.push(v)
                },
            )
        } else {
            add_specials(toks.drop_first(), acc)
        }
    }
}

/// The special tokens after reading every token of every alternative.
pub open spec fn specials_of_alts(alts: Seq<Seq<char>>, acc: Seq<Seq<char>>) -> Seq<Seq<char>>
    decreases alts.len(),
{
    if alts.len() == 0 {
        acc
    } else {
        specials_of_alts(alts.drop_first(), add_specials(spec_words(alts[0]), acc))
    }
}

/// The quoted literal tokens a right-hand side declares, stripped of their
/// quotes, in order of first sight, without repetition.
pub open spec fn spec_special_tokens(rhs: Seq<char>) -> Seq<Seq<char>> {
    specials_of_alts(keep_nonblank(spec_split(rhs, '|')), Seq::empty())
}

/// Does the vector hold this text?
fn vec_contains_str(v: &Vec<String>, s: &str) -> (r: bool)
    ensures
        r == views(v@).contains(s@),
{
    let n = v.len();
    for i in 0..n
        invariant
            n == v@.len(),
            forall|k: int| 0 <= k < i ==> v@[k]@ != s@,
    {
        if crate::strs::str_eq(v[i].as_str(), s) {
            proof {
                assert(views(v@)[i as int] == s@);
            }
            return true;
        }
    }
    proof {
        if views(v@).contains(s@) {
            let w = choose|w: int| 0 <= w < views(v@).len() && views(v@)[w] == s@;
            assert(v@[w]@ == s@);
        }
    }
    false
}

/// Read the tokens from `from` on into the accumulator.
fn add_specials_exec(toks: &Vec<String>, from: usize, acc: Vec<String>) -> (r: Vec<String>)
    requires
        from <= toks@.len(),
    ensures
        views(r@) == add_specials(views(toks@).skip(from as int), views(acc@)),
    decreases toks@.len() - from,
{
    if from == toks.len() {
        proof {
            assert(views(toks@).skip(from as int) =~= Seq::<Seq<char>>::empty());
        }
        return acc;
    }
    proof {
        assert(views(toks@).skip(from as int)[0] == toks@[from as int]@);
        assert(views(toks@).skip(from as int).drop_first() =~= views(toks@).skip(
            from as int + 1,
        ));
    }
    let t = &toks[from];
    let n = t.unicode_len();
    let quoted = n > 0 && ((t.as_str().get_char(0) == '\'' && t.as_str().get_char(n - 1) == '\'')
        || (t.as_str().get_char(0) == '"' && t.as_str().get_char(n - 1) == '"'));
    if quoted {
        let v1 = crate::strs::strip_all(t.as_str(), '\'');
        let v = crate::strs::strip_all(v1.as_str(), '"');
        if vec_contains_str(&acc, v.as_str()) {
            add_specials_exec(toks, from + 1, acc)
        } else {
            let mut acc2 = acc;
            let ghost old_acc = views(acc2@);
            acc2.push(v);
            proof {
                assert(views(acc2@) =~= old_acc.push(spec_strip_quotes(
                    toks@[from as int]@,
                )));
            }
            add_specials_exec(toks, from + 1, acc2)
        }
    } else {
        add_specials_exec(toks, from + 1, acc)
    }
}

/// Collect the quoted special tokens of a right-hand side, stripped, in
/// order of first sight, without repetition.
pub fn special_tokens(rhs: &str) -> (r: Vec<String>)
    ensures
        views(r@) == spec_special_tokens(rhs@),
{
    let pieces = split_char(rhs, '|');
    let mut result: Vec<String> = Vec::new();
    let n = pieces.len();
    proof {
        assert(views(result@) =~= Seq::<Seq<char>>::empty());
        assert(views(pieces@).skip(0) =~= views(pieces@));
    }
    for i in 0..n
        invariant
            n == pieces@.len(),
            specials_of_alts(keep_nonblank(views(pieces@)), Seq::empty()) == specials_of_alts(
                keep_nonblank(views(pieces@).skip(i as int)),
                views(result@),
            ),
    {
        proof {
            assert(views(pieces@)[i as int] == pieces@[i as int]@);
            lemma_keep_nonblank_skip_step(views(pieces@), i as int);
        }
        let ghost prev = views(result@);
        let piece = crate::strs::trim(pieces[i].as_str());
        if piece.unicode_len() > 0 {
            let toks = crate::strs::words(piece.as_str());
            proof {
                assert(views(toks@).skip(0) =~= views(toks@));
            }
            result = add_specials_exec(&toks, 0, result);
            proof {
                let k1 = keep_nonblank(views(pieces@).skip(i as int));
                assert(k1[0] == piece@);
                assert(k1.drop_first() =~= keep_nonblank(views(pieces@).skip(i as int + 1)));
                assert(specials_of_alts(k1, prev) == specials_of_alts(
                    k1.drop_first(),
                    add_specials(spec_words(piece@), prev),
                ));
            }
        } else {
            proof {
                assert(keep_nonblank(views(pieces@).skip(i as int)) =~= keep_nonblank(
                    views(pieces@).skip(i as int + 1),
                ));
            }
        }
    }
    proof {
        assert(views(pieces@).skip(n as int) =~= Seq::<Seq<char>>::empty());
        assert(keep_nonblank(Seq::<Seq<char>>::empty()) =~= Seq::<Seq<char>>::empty());
    }
    result
}

/// Keeping pieces after dropping the first relates head and tail.
proof fn lemma_keep_nonblank_skip_step(parts: Seq<Seq<char>>, i: int)
    requires
        0 <= i < parts.len(),
    ensures
        keep_nonblank(parts.skip(i)) =~= (if spec_trim(parts[i]).len() > 0 {
            seq![spec_trim(parts[i])]
        } else {
            Seq::<Seq<char>>::empty()
        }) + keep_nonblank(parts.skip(i + 1)),
{
    assert(parts.skip(i)[0] == parts[i]);
    assert(parts.skip(i).drop_first() =~= parts.skip(i + 1));
}

} // verus!

// Reading one inference-rule block: the lines before the first dashed
// separator are the premises, joined; the rule name trails the separator in
// parentheses, or otherwise the conclusion line; the line after the
// separator is the conclusion.
verus! {

/// The name in trailing parentheses and the trimmed text before it: the last
/// `(` opens a non-empty group without `)` that closes at the trimmed end.
pub open spec fn spec_trailing_name(line: Seq<char>) -> Option<(Seq<char>, Seq<char>)> {
    let t = spec_trim(line);
    if t.len() > 0 && t[t.len() - 1] == ')' {
        let i = rfind_ch(t.drop_last(), '(');
        if i >= 0 {
            let content = t.subrange(i + 1, t.len() - 1);
            if content.len() > 0 && !content.contains(')') {
                Some((spec_trim(content), spec_trim(t.take(i))))
            } else {
                None
            }
        } else {
            None
        }
    } else {
        None
    }
}

/// Extract a trailing `(name)` from a line: the name, and the trimmed rest.
pub fn trailing_name(line: &str) -> (r: Option<(String, String)>)
    ensures
        match r {
            Some(p) => spec_trailing_name(line@) == Some((p.0@, p.1@)),
            None => spec_trailing_name(line@) is None,
        },
{
    let t = crate::strs::trim(line);
    let n = t.unicode_len();
    if n == 0 || t.as_str().get_char(n - 1) != ')' {
        return None;
    }
    let head = t.as_str().substring_char(0, n - 1);
    proof {
        assert(head@ =~= t@.drop_last());
    }
    match crate::strs::rfind_char(head, '(') {
        Some(i) => {
            proof {
                crate::strs::lemma_rfind_ch(head@, '(');
            }
            let content = t.as_str().substring_char(i + 1, n - 1);
            proof {
                assert(content@ =~= t@.subrange(i as int + 1, t@.len() - 1));
            }
            let m = content.unicode_len();
            if m == 0 {
                return None;
            }
            let ci = crate::strs::find_char(content, ')');
            proof {
                crate::strs::lemma_find_ch(content@, ')');
                if ci < m {
                    assert(content@.contains(')')) by {
                        assert(content@[ci as int] == ')');
                    }
                } else {
                    assert(!content@.contains(')')) by {
                        if content@.contains(')') {
                            let w = choose|w: int| 0 <= w < content@.len() && content@[w] == ')';
                            assert(content@[w] == ')');
                        }
                    }
                }
            }
            if ci < m {
                return None;
            }
            let name = crate::strs::trim(content);
            let rest = crate::strs::trim(t.as_str().substring_char(0, i));
            proof {
                assert(t@.subrange(0, i as int) =~= t@.take(i as int));
            }
            Some((name, rest))
        },
        None => None,
    }
}

/// Index of the first dashed separator line, or `-1` if none: a separator
/// holds three dashes in a row.
pub open spec fn sep_idx(lines: Seq<Seq<char>>) -> int
    decreases lines.len(),
{
    if lines.len() == 0 {
        -1
    } else if crate::strs::spec_contains(lines[0], "---"@) {
        0
    } else {
        let r = sep_idx(lines.drop_first());
        if r < 0 {
            -1
        } else {
            1 + r
        }
    }
}

pub proof fn lemma_sep_idx(lines: Seq<Seq<char>>)
    ensures
        -1 <= sep_idx(lines) < lines.len(),
        sep_idx(lines) >= 0 ==> crate::strs::spec_contains(lines[sep_idx(lines)], "---"@),
        forall|j: int|
            0 <= j && (sep_idx(lines) == -1 || j < sep_idx(lines)) && j < lines.len()
                ==> !crate::strs::spec_contains(lines[j], "---"@),
    decreases lines.len(),
{
    if lines.len() > 0 && !crate::strs::spec_contains(lines[0], "---"@) {
        lemma_sep_idx(lines.drop_first());
        assert forall|j: int|
            0 <= j && (sep_idx(lines) == -1 || j < sep_idx(lines)) && j
                < lines.len() implies !crate::strs::spec_contains(lines[j], "---"@) by {
            if j > 0 {
                assert(lines.drop_first()[j - 1] == lines[j]);
            }
        }
    }
}

/// What one inference-rule block denotes: the premises line (the lines
/// before the separator, joined), the conclusion line (the line after the
/// separator, or blank when none follows), and the rule name taken from the
/// separator line or, failing that, from the conclusion line, which it then
/// leaves.  Nothing when no separator occurs or no name is found.
pub open spec fn spec_parse_inference_rule(lines: Seq<Seq<char>>) -> Option<
    (Seq<char>, Seq<char>, Seq<char>),
> {
    let si = sep_idx(lines);
    if si < 0 {
        None
    } else {
        let premises = crate::strs::spec_join(
            lines.take(si).map_values(|l: Seq<char>| spec_trim(l)),
            ", "@,
        );
        let concl_raw: Seq<char> = if si + 1 < lines.len() {
            spec_trim(lines[si + 1])
        } else {
            Seq::empty()
        };
        match spec_trailing_name(lines[si]) {
            Some((name, _)) => Some((premises, concl_raw, name)),
            None => match spec_trailing_name(concl_raw) {
                Some((name, rest)) => Some((premises, rest, name)),
                None => None,
            },
        }
    }
}

/// Read one inference-rule block into its premises text, conclusion text and
/// rule name.  Fails when the block has no dashed separator or no name in
/// trailing parentheses.
pub fn parse_inference_rule(lines: &Vec<String>) -> (r: Result<(String, String, String), String>)
    ensures
        match r {
            Ok(p) => spec_parse_inference_rule(views(lines@)) == Some((p.0@, p.1@, p.2@)),
            Err(_) => spec_parse_inference_rule(views(lines@)) is None,
        },
{
    proof {
        lemma_sep_idx(views(lines@));
    }
    let n = lines.len();
    let mut si: usize = 0;
    let mut found = false;
    for i in 0..n
        invariant
            n == lines@.len(),
            !found ==> si == 0 && forall|k: int|
                0 <= k < i ==> !crate::strs::spec_contains(lines@[k]@, "---"@),
            found ==> si < i && si as int == sep_idx(views(lines@)),
    {
        if !found && crate::strs::contains_str(lines[i].as_str(), "---") {
            si = i;
            found = true;
            proof {
                lemma_sep_idx(views(lines@));
                assert forall|k: int| 0 <= k < i implies !crate::strs::spec_contains(
                    views(lines@)[k],
                    "---"@,
                ) by {
                    assert(views(lines@)[k] == lines@[k]@);
                }
                assert(crate::strs::spec_contains(views(lines@)[i as int], "---"@));
            }
        }
    }
    if !found {
        proof {
            lemma_sep_idx(views(lines@));
            assert forall|k: int| 0 <= k < n implies !crate::strs::spec_contains(
                views(lines@)[k],
                "---"@,
            ) by {
                assert(views(lines@)[k] == lines@[k]@);
            }
        }
        return Err(String::from_str("Typing rule has no name"));
    }
    let mut prem_lines: Vec<String> = Vec::new();
    for i in 0..si
        invariant
            si < n,
            n == lines@.len(),
            prem_lines@.len() == i,
            forall|k: int| 0 <= k < i ==> prem_lines@[k]@ == spec_trim(lines@[k]@),
    {
        prem_lines.push(crate::strs::trim(lines[i].as_str()));
    }
    let premises = crate::strs::join(&prem_lines, ", ");
    proof {
        assert(views(prem_lines@) =~= views(lines@).take(si as int).map_values(
            |l: Seq<char>| spec_trim(l),
        ));
    }
    let concl_raw = if si + 1 < n {
        crate::strs::trim(lines[si + 1].as_str())
    } else {
        String::new()
    };
    proof {
        if si as int + 1 < n {
            assert(views(lines@)[si as int + 1] == lines@[si as int + 1]@);
        }
    }
    match trailing_name(lines[si].as_str()) {
        Some((name, _rest)) => Ok((premises, concl_raw, name)),
        None => match trailing_name(concl_raw.as_str()) {
            Some((name, rest)) => Ok((premises, rest, name)),
            None => Err(String::from_str("Typing rule has no name")),
        },
    }
}

} // verus!
