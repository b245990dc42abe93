//! The model of one typing rule: its premises and its conclusion, in the
//! four forms the inference notation distinguishes, together with the
//! mathematical views the contracts speak of.

use vstd::prelude::*;

verus! {

/// One binding added to the context of a judgment: `x:τ`.
#[derive(Debug, PartialEq)]
pub struct TypingExtension {
    pub type_expr: String,
    pub variable: String,
}

/// A typing judgment `Γ,x:τ₁,… ⊢ e : τ`: the context, possibly extended,
/// proves that `expression` has `type_expr`.
#[derive(Debug, PartialEq)]
pub struct TypingJudgment {
    pub extensions: Vec<TypingExtension>,
    pub expression: String,
    pub type_expr: String,
}

/// One premise of a typing rule.
#[derive(Debug, PartialEq)]
pub enum Premise {
    /// Typing judgment: `Γ ⊢ e : τ`.
    Judgment(TypingJudgment),
    /// Context membership: `x ∈ Γ`.
    Membership { variable: String, context: String },
    /// Relation between two type expressions: `τ₁ = τ₂`, `τ₁ ⊆ τ₂`, …
    TypeRelation { left_type: String, right_type: String, relation: String },
    /// Conjunction of several premises.
    Compound(Vec<Premise>),
}

/// The conclusion of a typing rule.
#[derive(Debug, PartialEq)]
pub enum Conclusion {
    /// A type expression such as `τ₁ → τ₂`.
    TypeValue(String),
    /// A full judgment.
    Judgment(TypingJudgment),
    /// The type of a variable looked up in the context: `Γ(x)`.
    ContextLookup(String),
}

/// A named inference rule: premises above the line, conclusion below.
#[derive(Debug, PartialEq)]
pub struct TypingRule {
    pub name: String,
    pub premises: Vec<Premise>,
    pub conclusion: Conclusion,
}

/// The view of an optional string.
pub open spec fn opt_view(o: Option<String>) -> Option<Seq<char>> {
    match o {
        Some(s) => Some(s@),
        None => None,
    }
}

/// Mathematical value of an extension.
#[verifier::ext_equal]
pub struct ExtV {
    pub type_expr: Seq<char>,
    pub variable: Seq<char>,
}

/// Mathematical value of a judgment.
#[verifier::ext_equal]
pub struct JudgV {
    pub extensions: Seq<ExtV>,
    pub expression: Seq<char>,
    pub type_expr: Seq<char>,
}

/// Mathematical value of a premise.
#[verifier::ext_equal]
pub enum PremiseV {
    Judgment(JudgV),
    Membership { variable: Seq<char>, context: Seq<char> },
    TypeRelation { left_type: Seq<char>, right_type: Seq<char>, relation: Seq<char> },
    Compound(Seq<PremiseV>),
}

/// Mathematical value of a conclusion.
#[verifier::ext_equal]
pub enum ConclusionV {
    TypeValue(Seq<char>),
    Judgment(JudgV),
    ContextLookup(Seq<char>),
}

/// Mathematical value of a typing rule.
#[verifier::ext_equal]
pub struct RuleV {
    pub name: Seq<char>,
    pub premises: Seq<PremiseV>,
    pub conclusion: ConclusionV,
}

impl View for TypingExtension {
    type V = ExtV;

    open spec fn view(&self) -> ExtV {
        ExtV { type_expr: self.type_expr@, variable: self.variable@ }
    }
}

impl DeepView for TypingExtension {
    type V = ExtV;

    open spec fn deep_view(&self) -> ExtV {
        self.view()
    }
}

impl View for TypingJudgment {
    type V = JudgV;

    open spec fn view(&self) -> JudgV {
        JudgV {
            extensions: self.extensions.deep_view(),
            expression: self.expression@,
            type_expr: self.type_expr@,
        }
    }
}

impl DeepView for TypingJudgment {
    type V = JudgV;

    open spec fn deep_view(&self) -> JudgV {
        self.view()
    }
}

/// Mathematical value of a premise, recursively.
pub open spec fn premise_view(p: Premise) -> PremiseV
    decreases p,
{
    match p {
        Premise::Judgment(j) => PremiseV::Judgment(j@),
        Premise::Membership { variable, context } => PremiseV::Membership {
            variable: variable@,
            context: context@,
        },
        Premise::TypeRelation { left_type, right_type, relation } => PremiseV::TypeRelation {
            left_type: left_type@,
            right_type: right_type@,
            relation: relation@,
        },
        Premise::Compound(inner) => PremiseV::Compound(premises_view(inner@)),
    }
}

/// Mathematical value of a sequence of premises.
pub open spec fn premises_view(s: Seq<Premise>) -> Seq<PremiseV>
    decreases s,
{
    if s.len() == 0 {
        Seq::empty()
    } else {
        seq![premise_view(s[0])] + premises_view(s.drop_first())
    }
}

pub proof fn lemma_premises_view(s: Seq<Premise>)
    ensures
        premises_view(s).len() == s.len(),
        forall|i: int| 0 <= i < s.len() ==> premises_view(s)[i] == premise_view(s[i]),
    decreases s,
{
    if s.len() > 0 {
        lemma_premises_view(s.drop_first());
    }
}

impl View for Premise {
    type V = PremiseV;

    open spec fn view(&self) -> PremiseV {
        premise_view(*self)
    }
}

impl DeepView for Premise {
    type V = PremiseV;

    open spec fn deep_view(&self) -> PremiseV {
        self.view()
    }
}

impl View for Conclusion {
    type V = ConclusionV;

    open spec fn view(&self) -> ConclusionV {
        match *self {
            Conclusion::TypeValue(s) => ConclusionV::TypeValue(s@),
            Conclusion::Judgment(j) => ConclusionV::Judgment(j@),
            Conclusion::ContextLookup(v) => ConclusionV::ContextLookup(v@),
        }
    }
}

impl DeepView for Conclusion {
    type V = ConclusionV;

    open spec fn deep_view(&self) -> ConclusionV {
        self.view()
    }
}

impl View for TypingRule {
    type V = RuleV;

    open spec fn view(&self) -> RuleV {
        RuleV {
            name: self.name@,
            premises: premises_view(self.premises@),
            conclusion: self.conclusion@,
        }
    }
}

impl DeepView for TypingRule {
    type V = RuleV;

    open spec fn deep_view(&self) -> RuleV {
        self.view()
    }
}

/// Duplicate an optional string, keeping its value.
pub fn clone_opt_string(o: &Option<String>) -> (r: Option<String>)
    ensures
        opt_view(r) == opt_view(*o),
{
    match o {
        Some(s) => Some(s.clone()),
        None => None,
    }
}

/// Duplicate an extension, keeping its value.
pub fn clone_extension(e: &TypingExtension) -> (r: TypingExtension)
    ensures
        r@ == e@,
{
    TypingExtension { type_expr: e.type_expr.clone(), variable: e.variable.clone() }
}

/// Duplicate a judgment, keeping its value.
pub fn clone_judgment(j: &TypingJudgment) -> (r: TypingJudgment)
    ensures
        r@ == j@,
{
    let mut extensions: Vec<TypingExtension> = Vec::new();
    let n = j.extensions.len();
    for i in 0..n
        invariant
            n == j.extensions@.len(),
            extensions@.len() == i,
            forall|k: int| 0 <= k < i ==> extensions@[k]@ == j.extensions@[k]@,
    {
        extensions.push(clone_extension(&j.extensions[i]));
    }
    let r = TypingJudgment {
        extensions,
        expression: j.expression.clone(),
        type_expr: j.type_expr.clone(),
    };
    proof {
        assert(r.extensions.deep_view() =~~= j.extensions.deep_view());
        assert(r@ =~~= j@);
    }
    r
}

/// Duplicate a premise, keeping its value.
pub fn clone_premise(p: &Premise) -> (r: Premise)
    ensures
        r@ == p@,
    decreases *p,
{
    match p {
        Premise::Judgment(j) => Premise::Judgment(clone_judgment(j)),
        Premise::Membership { variable, context } => Premise::Membership {
            variable: variable.clone(),
            context: context.clone(),
        },
        Premise::TypeRelation { left_type, right_type, relation } => Premise::TypeRelation {
            left_type: left_type.clone(),
            right_type: right_type.clone(),
            relation: relation.clone(),
        },
        Premise::Compound(inner) => {
            let mut out: Vec<Premise> = Vec::new();
            let n = inner.len();
            for i in 0..n
                invariant
                    n == inner@.len(),
                    p is Compound,
                    p->Compound_0 == *inner,
                    out@.len() == i,
                    forall|k: int| 0 <= k < i ==> premise_view(out@[k]) == premise_view(
                        inner@[k],
                    ),
            {
                out.push(clone_premise(&inner[i]));
            }
            let r = Premise::Compound(out);
            proof {
                lemma_premises_view(out@);
                lemma_premises_view(inner@);
                assert(premises_view(out@) =~~= premises_view(inner@));
                assert(r@ =~~= p@);
            }
            r
        },
    }
}

/// Duplicate a conclusion, keeping its value.
pub fn clone_conclusion(c: &Conclusion) -> (r: Conclusion)
    ensures
        r@ == c@,
{
    match c {
        Conclusion::TypeValue(s) => Conclusion::TypeValue(s.clone()),
        Conclusion::Judgment(j) => Conclusion::Judgment(clone_judgment(j)),
        Conclusion::ContextLookup(v) => Conclusion::ContextLookup(v.clone()),
    }
}

/// Duplicate a typing rule, keeping its value.
pub fn clone_rule(r: &TypingRule) -> (out: TypingRule)
    ensures
        out@ == r@,
{
    let mut premises: Vec<Premise> = Vec::new();
    let n = r.premises.len();
    for i in 0..n
        invariant
            n == r.premises@.len(),
            premises@.len() == i,
            forall|k: int| 0 <= k < i ==> premise_view(premises@[k]) == premise_view(
                r.premises@[k],
            ),
    {
        premises.push(clone_premise(&r.premises[i]));
    }
    let out = TypingRule {
        name: r.name.clone(),
        premises,
        conclusion: clone_conclusion(&r.conclusion),
    };
    proof {
        lemma_premises_view(premises@);
        lemma_premises_view(r.premises@);
        assert(premises_view(out.premises@) =~~= premises_view(r.premises@));
        assert(out@ =~~= r@);
    }
    out
}

/// A character a typing-rule type expression may hold: ASCII alphanumerics,
/// the underscore, the lambda, the type variable, the arrow in either
/// spelling, the subscript digits and the space.
pub open spec fn is_type_char(c: char) -> bool {
    ('a' <= c && c <= 'z') || ('A' <= c && c <= 'Z') || ('0' <= c && c <= '9') || c == '_' || c
        == '\u{03bb}' || c == '\u{03c4}' || c == '\u{2192}' || ('\u{2080}' <= c && c
        <= '\u{2089}') || c == ' ' || c == '-' || c == '>'
}

/// A non-empty text of type characters.
pub open spec fn spec_type_expr_ok(s: Seq<char>) -> bool {
    s.len() > 0 && forall|i: int| 0 <= i < s.len() ==> is_type_char(s[i])
}

/// Is `expr` a well-formed type expression for a rule conclusion: non-empty
/// and made of the type characters alone?
pub fn validate_type_expr(expr: &str) -> (r: bool)
    ensures
        r == spec_type_expr_ok(expr@),
{
    let n = expr.unicode_len();
    if n == 0 {
        return false;
    }
    for i in 0..n
        invariant
            n == expr@.len(),
            n > 0,
            forall|j: int| 0 <= j < i ==> is_type_char(expr@[j]),
    {
        let c = expr.get_char(i);
        let ok = ('a' <= c && c <= 'z') || ('A' <= c && c <= 'Z') || ('0' <= c && c <= '9') || c
            == '_' || c == '\u{03bb}' || c == '\u{03c4}' || c == '\u{2192}' || ('\u{2080}' <= c
            && c <= '\u{2089}') || c == ' ' || c == '-' || c == '>';
        if !ok {
            proof {
                assert(!is_type_char(expr@[i as int]));
            }
            return false;
        }
    }
    true
}

/// The extension views of parsed `(variable, type)` pairs.
pub open spec fn exts_to_view(pairs: Seq<(Seq<char>, Seq<char>)>) -> Seq<ExtV> {
    pairs.map_values(|p: (Seq<char>, Seq<char>)| ExtV { type_expr: p.1, variable: p.0 })
}

/// The judgment a premise or conclusion text denotes, through the judgment
/// notation.
pub open spec fn spec_judgment_of(s: Seq<char>) -> Option<JudgV> {
    match crate::judgment::spec_parse_judgement(s) {
        None => None,
        Some((exts, expression, type_expr)) => Some(
            JudgV {
                extensions: match exts {
                    Some(pairs) => exts_to_view(pairs),
                    None => Seq::empty(),
                },
                expression,
                type_expr,
            },
        ),
    }
}

/// What one premise text denotes, classified in priority order: a judgment
/// when the turnstile occurs, else a membership when the membership symbol
/// occurs, else a relation when any relation symbol occurs; nothing
/// otherwise, and nothing when the matching form is malformed.
pub open spec fn spec_parse_premise(s: Seq<char>) -> Option<PremiseV> {
    if s.contains('\u{22a2}') {
        match spec_judgment_of(s) {
            None => None,
            Some(j) => Some(PremiseV::Judgment(j)),
        }
    } else if s.contains('\u{2208}') {
        match crate::judgment::spec_parse_membership(s) {
            None => None,
            Some((v, c)) => Some(PremiseV::Membership { variable: v, context: c }),
        }
    } else if exists|i: int| 0 <= i < s.len() && crate::judgment::is_relation_char(s[i]) {
        match crate::judgment::spec_parse_type_relation(s) {
            None => None,
            Some((l, r, rel)) => Some(
                PremiseV::TypeRelation { left_type: l, right_type: r, relation: rel },
            ),
        }
    } else {
        None
    }
}

/// Build extension records from parsed pairs.
fn exts_from_pairs(pairs: Vec<(String, String)>) -> (r: Vec<TypingExtension>)
    ensures
        r.deep_view() =~= exts_to_view(pairs.deep_view()),
{
    let mut out: Vec<TypingExtension> = Vec::new();
    let n = pairs.len();
    for i in 0..n
        invariant
            n == pairs@.len(),
            out@.len() == i,
            forall|k: int|
                0 <= k < i ==> out@[k]@ == (ExtV {
                    type_expr: pairs@[k].1@,
                    variable: pairs@[k].0@,
                }),
    {
        let v = pairs[i].0.clone();
        let t = pairs[i].1.clone();
        out.push(TypingExtension { type_expr: t, variable: v });
    }
    proof {
        assert(out.deep_view() =~~= exts_to_view(pairs.deep_view()));
    }
    out
}

/// Parse one premise text into its classified form.
pub fn parse_premise(premise_str: &str) -> (r: Result<Premise, String>)
    ensures
        match r {
            Ok(p) => spec_parse_premise(premise_str@) == Some(p@),
            Err(_) => spec_parse_premise(premise_str@) is None,
        },
{
    let n = premise_str.unicode_len();
    let ti = crate::strs::find_char(premise_str, '\u{22a2}');
    proof {
        crate::strs::lemma_find_ch(premise_str@, '\u{22a2}');
        if ti < n {
            assert(premise_str@.contains('\u{22a2}')) by {
                assert(premise_str@[ti as int] == '\u{22a2}');
            }
        } else {
            assert(!premise_str@.contains('\u{22a2}')) by {
                if premise_str@.contains('\u{22a2}') {
                    let w = choose|w: int|
                        0 <= w < premise_str@.len() && premise_str@[w] == '\u{22a2}';
                    assert(premise_str@[w] == '\u{22a2}');
                }
            }
        }
    }
    if ti < n {
        match crate::judgment::parse_judgement(premise_str) {
            Ok((exts, expression, type_expr)) => {
                let extensions = match exts {
                    Some(pairs) => exts_from_pairs(pairs),
                    None => Vec::new(),
                };
                let j = TypingJudgment { extensions, expression, type_expr };
                proof {
                    assert(j@ =~~= spec_judgment_of(premise_str@)->Some_0);
                }
                return Ok(Premise::Judgment(j));
            },
            Err(e) => {
                return Err(e);
            },
        }
    }
    let mi = crate::strs::find_char(premise_str, '\u{2208}');
    proof {
        crate::strs::lemma_find_ch(premise_str@, '\u{2208}');
        if mi < n {
            assert(premise_str@.contains('\u{2208}')) by {
                assert(premise_str@[mi as int] == '\u{2208}');
            }
        } else {
            assert(!premise_str@.contains('\u{2208}')) by {
                if premise_str@.contains('\u{2208}') {
                    let w = choose|w: int|
                        0 <= w < premise_str@.len() && premise_str@[w] == '\u{2208}';
                    assert(premise_str@[w] == '\u{2208}');
                }
            }
        }
    }
    if mi < n {
        match crate::judgment::parse_membership(premise_str) {
            Ok((v, c)) => {
                return Ok(Premise::Membership { variable: v, context: c });
            },
            Err(e) => {
                return Err(e);
            },
        }
    }
    let mut has_rel = false;
    for i in 0..n
        invariant
            n == premise_str@.len(),
            has_rel == exists|k: int|
                0 <= k < i && crate::judgment::is_relation_char(premise_str@[k]),
    {
        if crate::judgment::relation_char(premise_str.get_char(i)) {
            proof {
                assert(crate::judgment::is_relation_char(premise_str@[i as int]));
            }
            has_rel = true;
        }
    }
    if has_rel {
        match crate::judgment::parse_type_relation(premise_str) {
            Ok((l, r, rel)) => {
                return Ok(
                    Premise::TypeRelation { left_type: l, right_type: r, relation: rel },
                );
            },
            Err(e) => {
                return Err(e);
            },
        }
    }
    Err(String::from_str("Unknown premise format: ").concat(premise_str))
}

/// Repeated occurrences of a leading pattern removed.
pub open spec fn spec_strip_prefix_all(s: Seq<char>, pat: Seq<char>) -> Seq<char>
    recommends
        pat.len() > 0,
    decreases s.len(),
{
    if pat.len() > 0 && crate::strs::spec_starts_with(s, pat) {
        spec_strip_prefix_all(s.skip(pat.len() as int), pat)
    } else {
        s
    }
}

/// Exec strip of every leading occurrence of `pat`.
fn strip_prefix_all(s: &str, pat: &str) -> (r: String)
    requires
        pat@.len() > 0,
    ensures
        r@ == spec_strip_prefix_all(s@, pat@),
    decreases s@.len(),
{
    let n = s.unicode_len();
    let m = pat.unicode_len();
    if crate::strs::starts_with(s, pat) {
        let rest = s.substring_char(m, n);
        proof {
            assert(rest@ =~= s@.skip(pat@.len() as int));
        }
        strip_prefix_all(rest, pat)
    } else {
        String::from_str(s)
    }
}

/// What a conclusion text denotes: a context lookup `Γ(x)`, else a judgment
/// when the turnstile occurs, else a type expression that must be well
/// formed; nothing when the matching form is malformed.
pub open spec fn spec_parse_conclusion(s: Seq<char>) -> Option<ConclusionV> {
    let t = crate::strs::spec_trim(s);
    if crate::strs::spec_starts_with(t, "\u{0393}("@) {
        Some(
            ConclusionV::ContextLookup(
                crate::strs::spec_strip_end(spec_strip_prefix_all(t, "\u{0393}("@), ')'),
            ),
        )
    } else if t.contains('\u{22a2}') {
        match spec_judgment_of(t) {
            None => None,
            Some(j) => Some(ConclusionV::Judgment(j)),
        }
    } else if spec_type_expr_ok(t) {
        Some(ConclusionV::TypeValue(t))
    } else {
        None
    }
}

/// Parse a conclusion text into its classified form.
pub fn parse_conclusion(conclusion_str: &str) -> (r: Result<Conclusion, String>)
    ensures
        match r {
            Ok(c) => spec_parse_conclusion(conclusion_str@) == Some(c@),
            Err(_) => spec_parse_conclusion(conclusion_str@) is None,
        },
{
    let t = crate::strs::trim(conclusion_str);
    let n = t.unicode_len();
    if crate::strs::starts_with(t.as_str(), "\u{0393}(") {
        proof {
            reveal_strlit("\u{0393}(");
        }
        let stripped = strip_prefix_all(t.as_str(), "\u{0393}(");
        let var = crate::strs::strip_end_chars(stripped.as_str(), ')');
        return Ok(Conclusion::ContextLookup(var));
    }
    proof {
        reveal_strlit("\u{0393}(");
    }
    let ti = crate::strs::find_char(t.as_str(), '\u{22a2}');
    proof {
        crate::strs::lemma_find_ch(t@, '\u{22a2}');
        if ti < n {
            assert(t@.contains('\u{22a2}')) by {
                assert(t@[ti as int] == '\u{22a2}');
            }
        } else {
            assert(!t@.contains('\u{22a2}')) by {
                if t@.contains('\u{22a2}') {
                    let w = choose|w: int| 0 <= w < t@.len() && t@[w] == '\u{22a2}';
                    assert(t@[w] == '\u{22a2}');
                }
            }
        }
    }
    if ti < n {
        match crate::judgment::parse_judgement(t.as_str()) {
            Ok((exts, expression, type_expr)) => {
                let extensions = match exts {
                    Some(pairs) => exts_from_pairs(pairs),
                    None => Vec::new(),
                };
                let j = TypingJudgment { extensions, expression, type_expr };
                proof {
                    assert(j@ =~~= spec_judgment_of(t@)->Some_0);
                }
                return Ok(Conclusion::Judgment(j));
            },
            Err(e) => {
                return Err(e);
            },
        }
    }
    if validate_type_expr(t.as_str()) {
        Ok(Conclusion::TypeValue(t))
    } else {
        Err(String::from_str("Invalid conclusion format: ").concat(conclusion_str))
    }
}

/// Comma-separated fragments regrouped into whole premises: a fragment joins
/// the one before it while that one has no turnstile yet and begins, after
/// trimming, with the context symbol — the commas inside a context-extension
/// list are not premise separators.
pub open spec fn regroup(parts: Seq<Seq<char>>) -> Seq<Seq<char>>
    decreases parts.len(),
{
    if parts.len() <= 1 {
        parts
    } else if merges_left(parts[0]) {
        regroup(seq![parts[0] + seq![','] + parts[1]] + parts.skip(2))
    } else {
        seq![parts[0]] + regroup(parts.drop_first())
    }
}

/// Does a fragment still wait for its turnstile, so that the next comma
/// fragment belongs to it?
pub open spec fn merges_left(cur: Seq<char>) -> bool {
    !cur.contains('\u{22a2}') && crate::strs::spec_trim(cur).len() > 0 && crate::strs::spec_trim(
        cur,
    )[0] == '\u{0393}'
}

/// Exec test of the regrouping condition.
fn merges_left_exec(cur: &str) -> (r: bool)
    ensures
        r == merges_left(cur@),
{
    let n = cur.unicode_len();
    let ti = crate::strs::find_char(cur, '\u{22a2}');
    proof {
        crate::strs::lemma_find_ch(cur@, '\u{22a2}');
        if ti < n {
            assert(cur@.contains('\u{22a2}')) by {
                assert(cur@[ti as int] == '\u{22a2}');
            }
        } else {
            assert(!cur@.contains('\u{22a2}')) by {
                if cur@.contains('\u{22a2}') {
                    let w = choose|w: int| 0 <= w < cur@.len() && cur@[w] == '\u{22a2}';
                    assert(cur@[w] == '\u{22a2}');
                }
            }
        }
    }
    if ti < n {
        return false;
    }
    let t = crate::strs::trim(cur);
    t.unicode_len() > 0 && t.as_str().get_char(0) == '\u{0393}'
}

/// The premises denoted by a premises line: the non-blank regrouped pieces,
/// each parsed; nothing when any piece is malformed.
pub open spec fn spec_parse_premises(s: Seq<char>) -> Option<Seq<PremiseV>> {
    premise_list_of(crate::strs::spec_split(s, ','))
}

/// The premises denoted by regrouped, trimmed, non-blank comma fragments.
pub open spec fn premise_list_of(parts: Seq<Seq<char>>) -> Option<Seq<PremiseV>> {
    parse_all_premises(crate::notation::keep_nonblank(regroup(parts)))
}

/// Each piece parsed as one premise; nothing when any piece fails.
pub open spec fn parse_all_premises(pieces: Seq<Seq<char>>) -> Option<Seq<PremiseV>>
    decreases pieces.len(),
{
    if pieces.len() == 0 {
        Some(Seq::empty())
    } else {
        match spec_parse_premise(pieces[0]) {
            None => None,
            Some(p) => match parse_all_premises(pieces.drop_first()) {
                None => None,
                Some(rest) => Some(seq![p] + rest),
            },
        }
    }
}

impl TypingRule {
    /// Parse a typing rule from its premises line, its conclusion line and
    /// its name.  Fails when any premise or the conclusion is malformed.
    pub fn new(str_premises: String, conclusion: String, name: String) -> (r: Result<
        TypingRule,
        String,
    >)
        ensures
            match r {
                Ok(rule) => spec_parse_premises(str_premises@) is Some && spec_parse_conclusion(
                    conclusion@,
                ) is Some && rule@ == (RuleV {
                    name: name@,
                    premises: spec_parse_premises(str_premises@)->Some_0,
                    conclusion: spec_parse_conclusion(conclusion@)->Some_0,
                }),
                Err(_) => spec_parse_premises(str_premises@) is None || spec_parse_conclusion(
                    conclusion@,
                ) is None,
            },
    {
        let frags = crate::strs::split_char(str_premises.as_str(), ',');
        proof {
            crate::strs::lemma_split_len(str_premises@, ',');
        }
        let n = frags.len();
        let mut cur: String = frags[0].clone();
        let mut pieces: Vec<String> = Vec::new();
        proof {
            assert(crate::strs::views(frags@) =~= seq![cur@] + crate::strs::views(
                frags@,
            ).skip(1));
            assert(crate::strs::views(pieces@) + regroup(
                seq![cur@] + crate::strs::views(frags@).skip(1),
            ) =~= regroup(crate::strs::views(frags@)));
        }
        for idx in 1..n
            invariant
                n == frags@.len(),
                n >= 1,
                regroup(crate::strs::views(frags@)) =~= crate::strs::views(pieces@) + regroup(
                    seq![cur@] + crate::strs::views(frags@).skip(idx as int),
                ),
        {
            let ghost rest = crate::strs::views(frags@).skip(idx as int);
            let ghost curv = cur@;
            proof {
                assert(rest[0] == frags@[idx as int]@);
                assert((seq![curv] + rest).len() >= 2);
                assert((seq![curv] + rest)[0] == curv);
                assert((seq![curv] + rest)[1] == frags@[idx as int]@);
            }
            if merges_left_exec(cur.as_str()) {
                cur = cur.concat(",").concat(frags[idx].as_str());
                proof {
                    reveal_strlit(",");
                    assert(cur@ =~= curv + seq![','] + frags@[idx as int]@);
                    assert(regroup(seq![curv] + rest) == regroup(
                        seq![curv + seq![','] + frags@[idx as int]@] + (seq![curv] + rest).skip(
                            2,
                        ),
                    ));
                    assert((seq![curv] + rest).skip(2) =~= crate::strs::views(frags@).skip(
                        idx as int + 1,
                    ));
                    assert(seq![curv + seq![','] + frags@[idx as int]@] + crate::strs::views(
                        frags@,
                    ).skip(idx as int + 1) =~= seq![cur@] + crate::strs::views(frags@).skip(
                        idx as int + 1,
                    ));
                }
            } else {
                proof {
                    assert(regroup(seq![curv] + rest) == seq![curv] + regroup(
                        (seq![curv] + rest).drop_first(),
                    ));
                    assert((seq![curv] + rest).drop_first() =~= rest);
                    assert(rest =~= seq![frags@[idx as int]@] + crate::strs::views(frags@).skip(
                        idx as int + 1,
                    ));
                    assert(crate::strs::views(pieces@).push(curv) + regroup(
                        seq![frags@[idx as int]@] + crate::strs::views(frags@).skip(
                            idx as int + 1,
                        ),
                    ) =~= crate::strs::views(pieces@) + (seq![curv] + regroup(
                        seq![frags@[idx as int]@] + crate::strs::views(frags@).skip(
                            idx as int + 1,
                        ),
                    )));
                }
                pieces.push(cur);
                cur = frags[idx].clone();
                proof {
                    assert(crate::strs::views(pieces@) =~= crate::strs::views(
                        pieces@,
                    ).take(pieces@.len() - 1).push(curv));
                }
            }
        }
        proof {
            assert(crate::strs::views(frags@).skip(n as int) =~= Seq::<Seq<char>>::empty());
            assert(seq![cur@] + Seq::<Seq<char>>::empty() =~= seq![cur@]);
            assert(regroup(seq![cur@]) =~= seq![cur@]);
        }
        pieces.push(cur);
        proof {
            assert(crate::strs::views(pieces@) =~= regroup(
                crate::strs::spec_split(str_premises@, ','),
            ));
        }
        let mut premises: Vec<Premise> = Vec::new();
        let ghost grouped = regroup(crate::strs::spec_split(str_premises@, ','));
        let np = pieces.len();
        proof {
            assert(crate::strs::views(pieces@).take(0) =~= Seq::<Seq<char>>::empty());
            assert(crate::notation::keep_nonblank(Seq::<Seq<char>>::empty()) =~= Seq::<
                Seq<char>,
            >::empty());
            assert(premises_view(premises@) =~= Seq::<PremiseV>::empty());
        }
        for i in 0..np
            invariant
                np == pieces@.len(),
                grouped == regroup(crate::strs::spec_split(str_premises@, ',')),
                grouped =~= crate::strs::views(pieces@),
                parse_all_premises(
                    crate::notation::keep_nonblank(crate::strs::views(pieces@).take(i as int)),
                ) is Some,
                premises_view(premises@) =~= parse_all_premises(
                    crate::notation::keep_nonblank(crate::strs::views(pieces@).take(i as int)),
                )->Some_0,
        {
            let ghost pv = crate::strs::views(pieces@);
            proof {
                crate::notation::lemma_keep_nonblank_take_step(pv, i as int);
                assert(pv[i as int] == pieces@[i as int]@);
            }
            let piece = crate::strs::trim(pieces[i].as_str());
            if piece.unicode_len() > 0 {
                match parse_premise(piece.as_str()) {
                    Ok(p) => {
                        proof {
                            lemma_premises_view(premises@);
                        }
                        premises.push(p);
                        proof {
                            lemma_premises_view(premises@);
                            lemma_parse_all_premises_push(
                                crate::notation::keep_nonblank(pv.take(i as int)),
                                piece@,
                            );
                            assert(crate::notation::keep_nonblank(pv.take(i as int)) + seq![
                                piece@,
                            ] =~= crate::notation::keep_nonblank(pv.take(i as int)).push(
                                piece@,
                            ));
                            assert(crate::notation::keep_nonblank(pv.take(i as int + 1))
                                =~= crate::notation::keep_nonblank(pv.take(i as int)).push(
                                piece@,
                            ));
                            assert(premises_view(premises@) =~= parse_all_premises(
                                crate::notation::keep_nonblank(pv.take(i as int + 1)),
                            )->Some_0);
                        }
                    },
                    Err(e) => {
                        proof {
                            crate::notation::lemma_keep_nonblank_take(pv, i as int);
                            crate::notation::lemma_keep_nonblank_take(pv, i as int + 1);
                            let pre = crate::notation::keep_nonblank(pv.take(i as int));
                            let whole = crate::notation::keep_nonblank(pv);
                            assert(pre + seq![piece@] =~= pre.push(piece@));
                            assert(crate::notation::keep_nonblank(pv.take(i as int + 1))
                                =~= pre.push(piece@));
                            assert(whole.take(pre.len() as int + 1) =~= pre.push(piece@));
                            assert(whole[pre.len() as int] == whole.take(
                                pre.len() as int + 1,
                            )[pre.len() as int]);
                            lemma_parse_all_premises_sub(pre, piece@, whole);
                            assert(crate::notation::keep_nonblank(grouped) == whole);
                            assert(spec_parse_premises(str_premises@) is None);
                        }
                        return Err(e);
                    },
                }
            } else {
                proof {
                    assert(crate::notation::keep_nonblank(pv.take(i as int + 1))
                        =~= crate::notation::keep_nonblank(pv.take(i as int)));
                }
            }
        }
        proof {
            assert(crate::strs::views(pieces@).take(np as int) =~= crate::strs::views(pieces@));
        }
        match parse_conclusion(conclusion.as_str()) {
            Ok(c) => {
                let rule = TypingRule { name, premises, conclusion: c };
                proof {
                    assert(rule@ =~~= (RuleV {
                        name: rule.name@,
                        premises: spec_parse_premises(str_premises@)->Some_0,
                        conclusion: spec_parse_conclusion(conclusion@)->Some_0,
                    }));
                }
                Ok(rule)
            },
            Err(e) => Err(e),
        }
    }
}

/// A prefix of pieces parses whenever the whole does.
proof fn lemma_parse_all_premises_prefix(pre: Seq<Seq<char>>, whole: Seq<Seq<char>>)
    requires
        pre.len() <= whole.len(),
        pre =~= whole.take(pre.len() as int),
        parse_all_premises(whole) is Some,
    ensures
        parse_all_premises(pre) is Some,
    decreases whole.len(),
{
    if pre.len() > 0 {
        lemma_parse_all_premises_prefix(pre.drop_first(), whole.drop_first());
    } else {
        if whole.len() > 0 {
        }
    }
}

/// Parsing pieces extended by one parsing piece appends its premise.
proof fn lemma_parse_all_premises_push(pieces: Seq<Seq<char>>, x: Seq<char>)
    requires
        parse_all_premises(pieces) is Some,
        spec_parse_premise(x) is Some,
    ensures
        parse_all_premises(pieces.push(x)) is Some,
        parse_all_premises(pieces.push(x))->Some_0 =~= parse_all_premises(pieces)->Some_0.push(
            spec_parse_premise(x)->Some_0,
        ),
    decreases pieces.len(),
{
    reveal_with_fuel(parse_all_premises, 3);
    if pieces.len() == 0 {
        assert(pieces.push(x)[0] == x);
        assert(pieces.push(x).drop_first() =~= Seq::<Seq<char>>::empty());
        assert(parse_all_premises(pieces.push(x).drop_first()) == parse_all_premises(
            Seq::<Seq<char>>::empty(),
        ));
        assert(parse_all_premises(Seq::<Seq<char>>::empty()) == Some(Seq::<PremiseV>::empty()));
        assert(seq![spec_parse_premise(x)->Some_0] + Seq::<PremiseV>::empty() =~= seq![
            spec_parse_premise(x)->Some_0,
        ]);
        assert(parse_all_premises(pieces)->Some_0.push(spec_parse_premise(x)->Some_0) =~= seq![
            spec_parse_premise(x)->Some_0,
        ]);
    } else {
        lemma_parse_all_premises_push(pieces.drop_first(), x);
        assert(pieces.push(x)[0] == pieces[0]);
        assert(pieces.push(x).drop_first() =~= pieces.drop_first().push(x));
        let p0 = spec_parse_premise(pieces[0])->Some_0;
        let rest = parse_all_premises(pieces.drop_first())->Some_0;
        let px = spec_parse_premise(x)->Some_0;
        assert(parse_all_premises(pieces.push(x))->Some_0 == seq![p0] + parse_all_premises(
            pieces.drop_first().push(x),
        )->Some_0);
        assert((seq![p0] + rest).push(px) =~= seq![p0] + rest.push(px));
        assert(parse_all_premises(pieces.push(x))->Some_0 =~= parse_all_premises(
            pieces,
        )->Some_0.push(spec_parse_premise(x)->Some_0));
    }
}

/// A failing piece inside the pieces makes the whole fail.
proof fn lemma_parse_all_premises_sub(pre: Seq<Seq<char>>, x: Seq<char>, whole: Seq<Seq<char>>)
    requires
        spec_parse_premise(x) is None,
        pre.len() < whole.len(),
        pre =~= whole.take(pre.len() as int),
        whole[pre.len() as int] == x,
    ensures
        parse_all_premises(whole) is None,
    decreases whole.len(),
{
    if pre.len() > 0 {
        lemma_parse_all_premises_sub(pre.drop_first(), x, whole.drop_first());
    } else {
        assert(whole[0] == x);
    }
}

} // verus!
