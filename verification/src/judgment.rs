//! Parsers for the judgment notation inside inference rules: typing
//! judgments with context extensions, membership premises, and relations
//! between type expressions.  Each has an exact mathematical mirror that its
//! contract states.

use vstd::prelude::*;

use crate::strs::find_ch;
use crate::strs::lemma_find_ch;
use crate::strs::push_char;
use crate::strs::spec_split;
use crate::strs::spec_trim;
use crate::strs::split_char;
use crate::strs::str_eq;
use crate::strs::trim;
use crate::strs::views;

verus! {

/// The relation symbols the notation recognises between type expressions.
pub open spec fn is_relation_char(c: char) -> bool {
    c == '=' || c == '<' || c == '\u{2208}' || c == '\u{2286}' || c == '\u{2282}' || c
        == '\u{2283}' || c == '\u{2287}' || c == ':'
}

/// Exec test for a relation symbol.
pub fn relation_char(c: char) -> (r: bool)
    ensures
        r == is_relation_char(c),
{
    c == '=' || c == '<' || c == '\u{2208}' || c == '\u{2286}' || c == '\u{2282}' || c
        == '\u{2283}' || c == '\u{2287}' || c == ':'
}

/// What one membership premise `x ∈ Γ` denotes: the variable and the
/// context, or nothing when the separator does not split it in two.
pub open spec fn spec_parse_membership(s: Seq<char>) -> Option<(Seq<char>, Seq<char>)> {
    let parts = spec_split(s, '\u{2208}');
    if parts.len() != 2 {
        None
    } else {
        Some((spec_trim(parts[0]), spec_trim(parts[1])))
    }
}

/// Split a membership premise `x ∈ Γ` into the variable and the context.
/// Fails unless the membership symbol splits the text in exactly two parts.
pub fn parse_membership(membership_str: &str) -> (r: Result<(String, String), String>)
    ensures
        match r {
            Ok(p) => spec_parse_membership(membership_str@) == Some((p.0@, p.1@)),
            Err(_) => spec_parse_membership(membership_str@) is None,
        },
{
    let parts = split_char(membership_str, '\u{2208}');
    if parts.len() != 2 {
        proof {
            assert(views(parts@).len() == parts@.len());
        }
        return Err(String::from_str("Invalid membership format: ").concat(membership_str));
    }
    proof {
        assert(views(parts@)[0] == parts@[0]@);
        assert(views(parts@)[1] == parts@[1]@);
    }
    Ok((trim(parts[0].as_str()), trim(parts[1].as_str())))
}

/// The three accumulators of the relation scan after reading `s`: what fell
/// left of the relation symbols, the relation symbols seen anywhere, and
/// what fell right of the first relation symbol.
pub open spec fn rel_scan(s: Seq<char>) -> (Seq<char>, Seq<char>, Seq<char>)
    decreases s.len(),
{
    if s.len() == 0 {
        (Seq::<char>::empty(), Seq::<char>::empty(), Seq::<char>::empty())
    } else {
        let prev = rel_scan(s.drop_last());
        let c = s[s.len() - 1];
        if is_relation_char(c) {
            (prev.0, prev.1.push(c), prev.2)
        } else if prev.1.len() == 0 {
            (prev.0.push(c), prev.1, prev.2)
        } else {
            (prev.0, prev.1, prev.2.push(c))
        }
    }
}

/// What a relation premise `τ₁ = τ₂` denotes: left side, right side and the
/// relation text, or nothing when no relation symbol occurs or either side
/// is empty before trimming.
pub open spec fn spec_parse_type_relation(s: Seq<char>) -> Option<
    (Seq<char>, Seq<char>, Seq<char>),
> {
    let (l, rel, r) = rel_scan(s);
    if rel.len() == 0 || l.len() == 0 || r.len() == 0 {
        None
    } else {
        Some((spec_trim(l), spec_trim(r), rel))
    }
}

/// Split a relation premise into its left side, right side and relation
/// text.  Fails when no relation symbol occurs, or when either side is
/// empty.
pub fn parse_type_relation(relation_str: &str) -> (res: Result<(String, String, String), String>)
    ensures
        match res {
            Ok(p) => spec_parse_type_relation(relation_str@) == Some((p.0@, p.1@, p.2@)),
            Err(_) => spec_parse_type_relation(relation_str@) is None,
        },
{
    let mut left = String::new();
    let mut right = String::new();
    let mut relation = String::new();
    let n = relation_str.unicode_len();
    for i in 0..n
        invariant
            n == relation_str@.len(),
            (left@, relation@, right@) == rel_scan(relation_str@.take(i as int)),
    {
        let c = relation_str.get_char(i);
        proof {
            assert(relation_str@.take(i as int + 1).drop_last() =~= relation_str@.take(
                i as int,
            ));
            assert(relation_str@.take(i as int + 1).last() == relation_str@[i as int]);
        }
        if relation_char(c) {
            push_char(&mut relation, c);
        } else {
            if relation.unicode_len() == 0 {
                push_char(&mut left, c);
            } else {
                push_char(&mut right, c);
            }
        }
    }
    proof {
        assert(relation_str@.take(n as int) =~= relation_str@);
    }
    if relation.unicode_len() == 0 {
        return Err(String::from_str("No relation symbol found in: ").concat(relation_str));
    }
    if left.unicode_len() == 0 || right.unicode_len() == 0 {
        return Err(String::from_str("Invalid type relation format: ").concat(relation_str));
    }
    Ok((trim(left.as_str()), trim(right.as_str()), relation))
}

/// The extension pairs denoted by comma-separated pieces: each non-blank
/// piece must be `var:type`; blank pieces are passed over.  Nothing when a
/// piece is malformed.
pub open spec fn exts_of(parts: Seq<Seq<char>>) -> Option<Seq<(Seq<char>, Seq<char>)>>
    decreases parts.len(),
{
    if parts.len() == 0 {
        Some(Seq::empty())
    } else {
        let e = spec_trim(parts[0]);
        if e.len() == 0 {
            exts_of(parts.drop_first())
        } else {
            let ps = spec_split(e, ':');
            if ps.len() != 2 {
                None
            } else {
                match exts_of(parts.drop_first()) {
                    None => None,
                    Some(rest) => Some(
                        seq![(spec_trim(ps[0]), spec_trim(ps[1]))] + rest,
                    ),
                }
            }
        }
    }
}

/// Exec parsing of extension pairs from the comma-separated pieces after
/// position `from`.
pub fn parse_ext_pairs(parts: &Vec<String>, from: usize) -> (r: Result<
    Vec<(String, String)>,
    String,
>)
    requires
        from <= parts@.len(),
    ensures
        match r {
            Ok(v) => exts_of(views(parts@).skip(from as int)) == Some(v.deep_view()),
            Err(_) => exts_of(views(parts@).skip(from as int)) is None,
        },
    decreases parts@.len() - from,
{
    if from == parts.len() {
        let r: Vec<(String, String)> = Vec::new();
        proof {
            assert(views(parts@).skip(from as int) =~= Seq::<Seq<char>>::empty());
            assert(r.deep_view() =~= Seq::<(Seq<char>, Seq<char>)>::empty());
        }
        return Ok(r);
    }
    proof {
        assert(views(parts@).skip(from as int)[0] == parts@[from as int]@);
        assert(views(parts@).skip(from as int).drop_first() =~= views(parts@).skip(
            from as int + 1,
        ));
    }
    let e = trim(parts[from].as_str());
    if e.unicode_len() == 0 {
        return parse_ext_pairs(parts, from + 1);
    }
    let ps = split_char(e.as_str(), ':');
    if ps.len() != 2 {
        proof {
            assert(views(ps@).len() == ps@.len());
        }
        return Err(
            String::from_str("Invalid context extension format, expected 'var:type': ").concat(
                e.as_str(),
            ),
        );
    }
    proof {
        assert(views(ps@)[0] == ps@[0]@);
        assert(views(ps@)[1] == ps@[1]@);
    }
    let var = trim(ps[0].as_str());
    let ty = trim(ps[1].as_str());
    match parse_ext_pairs(parts, from + 1) {
        Ok(mut rest) => {
            rest.insert(0, (var, ty));
            proof {
                assert(rest.deep_view() =~= seq![(var@, ty@)] + rest.deep_view().drop_first());
            }
            Ok(rest)
        },
        Err(e2) => Err(e2),
    }
}

/// What a context string `Γ,x:τ₁,y:τ₂` denotes: the base context and the
/// ordered extension pairs.  Nothing when the base token is not the context
/// symbol or a pair is malformed.
pub open spec fn spec_parse_context_extensions(s: Seq<char>) -> Option<
    (Seq<char>, Seq<(Seq<char>, Seq<char>)>),
> {
    let parts = spec_split(spec_trim(s), ',');
    let base = spec_trim(parts[0]);
    if base != "\u{0393}"@ {
        None
    } else {
        match exts_of(parts.drop_first()) {
            None => None,
            Some(exts) => Some((base, exts)),
        }
    }
}

/// Parse a context such as `Γ,x:τ₁,y:τ₂` into the base context and the
/// ordered `(variable, type)` pairs.  Fails unless the first piece is the
/// context symbol and every further non-blank piece is `var:type`.
pub fn parse_context_extensions(context_str: &str) -> (r: Result<
    (String, Vec<(String, String)>),
    String,
>)
    ensures
        match r {
            Ok(p) => spec_parse_context_extensions(context_str@) == Some((p.0@, p.1.deep_view())),
            Err(_) => spec_parse_context_extensions(context_str@) is None,
        },
{
    let t = trim(context_str);
    let parts = split_char(t.as_str(), ',');
    proof {
        crate::strs::lemma_split_len(t@, ',');
        assert(views(parts@)[0] == parts@[0]@);
    }
    let base = trim(parts[0].as_str());
    if !str_eq(base.as_str(), "\u{0393}") {
        return Err(
            String::from_str("Context must start with the context symbol, got '").concat(
                base.as_str(),
            ).concat("'"),
        );
    }
    match parse_ext_pairs(&parts, 1) {
        Ok(exts) => {
            proof {
                assert(views(parts@).skip(1) =~= views(parts@).drop_first());
            }
            Ok((base, exts))
        },
        Err(e) => Err(e),
    }
}

/// What a judgment `Γ,… ⊢ e : τ` denotes: the optional extension pairs, the
/// expression and the type.  The left side of the turnstile yields
/// extensions through the comma notation or the bracket notation; the right
/// side must be `expression : type`.
pub open spec fn spec_parse_judgement(s: Seq<char>) -> Option<
    (Option<Seq<(Seq<char>, Seq<char>)>>, Seq<char>, Seq<char>),
> {
    let parts = spec_split(s, '\u{22a2}').map_values(|p: Seq<char>| spec_trim(p));
    let left = parts[0];
    let bracket = spec_starts_with_ctx(left);
    let exts: Option<Option<Seq<(Seq<char>, Seq<char>)>>> = if bracket {
        match exts_of(spec_split(left.subrange(2, left.len() - 1), ',')) {
            None => None,
            Some(e) => Some(Some(e)),
        }
    } else if left.contains(',') {
        match spec_parse_context_extensions(left) {
            None => None,
            Some(p) => Some(Some(p.1)),
        }
    } else {
        Some(None)
    };
    match exts {
        None => None,
        Some(extensions) => {
            if parts.len() != 2 {
                None
            } else {
                let expr_parts = spec_split(parts[1], ':').map_values(
                    |p: Seq<char>| spec_trim(p),
                );
                if expr_parts.len() != 2 {
                    None
                } else {
                    Some((extensions, expr_parts[0], expr_parts[1]))
                }
            }
        },
    }
}

/// Does a trimmed judgment left side use the bracket notation `Γ[…]`?
pub open spec fn spec_starts_with_ctx(left: Seq<char>) -> bool {
    left.len() >= 3 && left[0] == '\u{0393}' && left[1] == '[' && left[left.len() - 1] == ']'
}

/// Parse a typing judgment `Γ,x:τ₁ ⊢ e : τ` (or `Γ[x:τ₁] ⊢ e : τ`) into its
/// optional extension pairs, its expression and its type.  Fails unless the
/// turnstile splits the text in two, the right side is `expression : type`,
/// and the extensions, where present, are well formed.
pub fn parse_judgement(judgment_str: &str) -> (r: Result<
    (Option<Vec<(String, String)>>, String, String),
    String,
>)
    ensures
        match r {
            Ok(p) => spec_parse_judgement(judgment_str@) == Some(
                (
                    match p.0 {
                        Some(v) => Some(v.deep_view()),
                        None => None,
                    },
                    p.1@,
                    p.2@,
                ),
            ),
            Err(_) => spec_parse_judgement(judgment_str@) is None,
        },
{
    let raw = split_char(judgment_str, '\u{22a2}');
    proof {
        crate::strs::lemma_split_len(judgment_str@, '\u{22a2}');
    }
    let mut parts: Vec<String> = Vec::new();
    let nparts = raw.len();
    for i in 0..nparts
        invariant
            nparts == raw@.len(),
            parts@.len() == i,
            forall|k: int| 0 <= k < i ==> parts@[k]@ == spec_trim(raw@[k]@),
    {
        parts.push(trim(raw[i].as_str()));
    }
    let ghost sparts = spec_split(judgment_str@, '\u{22a2}').map_values(
        |p: Seq<char>| spec_trim(p),
    );
    proof {
        assert(views(parts@) =~= sparts);
        assert(parts@[0]@ == sparts[0]);
    }
    let left = &parts[0];
    let ln = left.unicode_len();
    let bracket = ln >= 3 && left.get_char(0) == '\u{0393}' && left.get_char(1) == '['
        && left.get_char(ln - 1) == ']';
    let extensions: Option<Vec<(String, String)>>;
    if bracket {
        let inner = left.as_str().substring_char(2, ln - 1);
        let pieces = split_char(inner, ',');
        proof {
            assert(inner@ =~= sparts[0].subrange(2, sparts[0].len() - 1));
            assert(views(pieces@).skip(0) =~= views(pieces@));
        }
        match parse_ext_pairs(&pieces, 0) {
            Ok(v) => {
                extensions = Some(v);
            },
            Err(e) => {
                return Err(e);
            },
        }
    } else {
        let ci = crate::strs::find_char(left.as_str(), ',');
        if ci < ln {
            proof {
                lemma_find_ch(left@, ',');
                assert(left@.contains(',')) by {
                    assert(left@[find_ch(left@, ',')] == ',');
                }
            }
            match parse_context_extensions(left.as_str()) {
                Ok(p) => {
                    extensions = Some(p.1);
                },
                Err(e) => {
                    return Err(e);
                },
            }
        } else {
            proof {
                lemma_find_ch(left@, ',');
                assert(!left@.contains(',')) by {
                    if left@.contains(',') {
                        let w = choose|w: int| 0 <= w < left@.len() && left@[w] == ',';
                        assert(left@[w] == ',');
                    }
                }
            }
            extensions = None;
        }
    }
    if parts.len() != 2 {
        return Err(String::from_str("Invalid typing judgment format: ").concat(judgment_str));
    }
    proof {
        assert(parts@[1]@ == sparts[1]);
    }
    let raw2 = split_char(parts[1].as_str(), ':');
    let mut expr_parts: Vec<String> = Vec::new();
    let n2 = raw2.len();
    for i in 0..n2
        invariant
            n2 == raw2@.len(),
            expr_parts@.len() == i,
            forall|k: int| 0 <= k < i ==> expr_parts@[k]@ == spec_trim(raw2@[k]@),
    {
        expr_parts.push(trim(raw2[i].as_str()));
    }
    proof {
        assert(views(expr_parts@) =~= spec_split(sparts[1], ':').map_values(
            |p: Seq<char>| spec_trim(p),
        ));
    }
    if expr_parts.len() != 2 {
        return Err(String::from_str("Invalid typing judgment format: ").concat(judgment_str));
    }
    proof {
        assert(expr_parts@[0]@ == spec_split(sparts[1], ':').map_values(
            |p: Seq<char>| spec_trim(p),
        )[0]);
        assert(expr_parts@[1]@ == spec_split(sparts[1], ':').map_values(
            |p: Seq<char>| spec_trim(p),
        )[1]);
    }
    let ty = expr_parts.pop().unwrap();
    let ex = expr_parts.pop().unwrap();
    Ok((extensions, ex, ty))
}

} // verus!
