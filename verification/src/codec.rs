//! The canonical tree codec: a parenthesized prefix text for syntax trees,
//! written and read back exactly, used for structural comparison independent
//! of the parser.  A nonterminal renders as `(N name(rule r)(b b)children)`,
//! a terminal as `(T (b b)"value")`, the rule and binding groups only where
//! present.

use vstd::prelude::*;

use crate::ast::ASTNode;
use crate::ast::NodeKind;
use crate::ast::NodeV;
use crate::ast::nodes_view;
use crate::grammar::Grammar;
use crate::grammar::GrammarV;
use crate::grammar::rule_of;
use crate::strs::occurs_at;
use crate::typing::RuleV;
use crate::typing::TypingRule;

verus! {

/// The canonical text of one node.
pub open spec fn spec_ser(n: NodeV) -> Seq<char>
    decreases n, 1int,
{
    if n.kind is Terminal {
        "(T "@ + (match n.binding {
            Some(b) => "(b "@ + b + seq![')'],
            None => Seq::<char>::empty(),
        }) + seq!['"'] + n.value + "\")"@
    } else {
        let head = "(N "@ + n.value + (match n.typing_rule {
            Some(r) => "(rule "@ + r.name + seq![')'],
            None => Seq::<char>::empty(),
        }) + (match n.binding {
            Some(b) => "(b "@ + b + seq![')'],
            None => Seq::<char>::empty(),
        });
        match n.children {
            Some(k) => {
                proof {
                    assert(decreases_to!(n => k));
                }
                head + spec_ser_kids(k) + seq![')']
            },
            None => head + seq![')'],
        }
    }
}

/// The canonical texts of the children, in order.
pub open spec fn spec_ser_kids(kids: Seq<NodeV>) -> Seq<char>
    decreases kids, 0int,
{
    if kids.len() == 0 {
        Seq::empty()
    } else {
        spec_ser(kids[0]) + spec_ser_kids(kids.drop_first())
    }
}

/// First position at or after `from` holding a parenthesis, or the length.
pub open spec fn scan_np_from(s: Seq<char>, from: int) -> int
    decreases s.len() - from,
{
    if from < 0 || from >= s.len() {
        s.len() as int
    } else if s[from] == '(' || s[from] == ')' {
        from
    } else {
        scan_np_from(s, from + 1)
    }
}

pub proof fn lemma_scan_np_from(s: Seq<char>, from: int)
    requires
        0 <= from <= s.len(),
    ensures
        from <= scan_np_from(s, from) <= s.len(),
        scan_np_from(s, from) < s.len() ==> (s[scan_np_from(s, from)] == '(' || s[scan_np_from(
            s,
            from,
        )] == ')'),
        forall|j: int| from <= j < scan_np_from(s, from) ==> s[j] != '(' && s[j] != ')',
    decreases s.len() - from,
{
    if from < s.len() && s[from] != '(' && s[from] != ')' {
        lemma_scan_np_from(s, from + 1);
    }
}

/// First position at or after `from` holding `c`, or the length.
pub open spec fn scan_ch_from(s: Seq<char>, from: int, c: char) -> int
    decreases s.len() - from,
{
    if from < 0 || from >= s.len() {
        s.len() as int
    } else if s[from] == c {
        from
    } else {
        scan_ch_from(s, from + 1, c)
    }
}

pub proof fn lemma_scan_ch_from(s: Seq<char>, from: int, c: char)
    requires
        0 <= from <= s.len(),
    ensures
        from <= scan_ch_from(s, from, c) <= s.len(),
        scan_ch_from(s, from, c) < s.len() ==> s[scan_ch_from(s, from, c)] == c,
        forall|j: int| from <= j < scan_ch_from(s, from, c) ==> s[j] != c,
    decreases s.len() - from,
{
    if from < s.len() && s[from] != c {
        lemma_scan_ch_from(s, from + 1, c);
    }
}

/// What the canonical text denotes from a position on, for one node.
pub open spec fn spec_parse_node(s: Seq<char>, pos: int, g: GrammarV) -> Option<(NodeV, int)>
    decreases s.len() - pos, 1int,
{
    if pos < 0 || pos + 3 > s.len() || s[pos] != '(' {
        None
    } else if s[pos + 1] == 'N' && s[pos + 2] == ' ' {
        proof {
            lemma_scan_np_from(s, pos + 3);
        }
        let ve = scan_np_from(s, pos + 3);
        if ve >= s.len() || ve == pos + 3 {
            None
        } else {
            match spec_parse_items(s, ve, g) {
                None => None,
                Some((kids, binding, rule, end)) => Some(
                    (
                        NodeV {
                            kind: NodeKind::Nonterminal,
                            value: s.subrange(pos + 3, ve),
                            span: None,
                            children: Some(kids),
                            binding,
                            typing_rule: rule,
                        },
                        end,
                    ),
                ),
            }
        }
    } else if s[pos + 1] == 'T' && s[pos + 2] == ' ' {
        let q0 = pos + 3;
        if occurs_at(s, "(b "@, q0) {
            proof {
                reveal_strlit("(b ");
                lemma_scan_ch_from(s, q0 + 3, ')');
            }
            let be = scan_ch_from(s, q0 + 3, ')');
            if be >= s.len() {
                None
            } else {
                spec_parse_term_value(s, be + 1, Some(s.subrange(q0 + 3, be)))
            }
        } else {
            spec_parse_term_value(s, q0, None)
        }
    } else {
        None
    }
}

/// The quoted value and closing parenthesis of a terminal, from a position.
pub open spec fn spec_parse_term_value(s: Seq<char>, q: int, binding: Option<Seq<char>>) -> Option<
    (NodeV, int),
> {
    if q < 0 || q >= s.len() || s[q] != '"' {
        None
    } else {
        let ve = scan_ch_from(s, q + 1, '"');
        if ve + 1 >= s.len() || s[ve + 1] != ')' {
            None
        } else {
            Some(
                (
                    NodeV {
                        kind: NodeKind::Terminal,
                        value: s.subrange(q + 1, ve),
                        span: None,
                        children: None,
                        binding,
                        typing_rule: None,
                    },
                    ve + 2,
                ),
            )
        }
    }
}

/// What the groups of a nonterminal denote from a position on, up to its
/// closing parenthesis: rule and binding groups apply to the node, the later
/// of two to the same field winning; every other group is a child.
pub open spec fn spec_parse_items(s: Seq<char>, pos: int, g: GrammarV) -> Option<
    (Seq<NodeV>, Option<Seq<char>>, Option<RuleV>, int),
>
    decreases s.len() - pos, 2int,
{
    if pos < 0 || pos >= s.len() {
        None
    } else if s[pos] == ')' {
        Some((Seq::empty(), None, None, pos + 1))
    } else if s[pos] == '(' && occurs_at(s, "(rule "@, pos) {
        proof {
            reveal_strlit("(rule ");
            lemma_scan_ch_from(s, pos + 6, ')');
        }
        let ne = scan_ch_from(s, pos + 6, ')');
        if ne >= s.len() {
            None
        } else {
            match spec_parse_items(s, ne + 1, g) {
                None => None,
                Some((kids, b, r, end)) => Some(
                    (
                        kids,
                        b,
                        if r is Some {
                            r
                        } else {
                            rule_of(g, s.subrange(pos + 6, ne))
                        },
                        end,
                    ),
                ),
            }
        }
    } else if s[pos] == '(' && occurs_at(s, "(b "@, pos) {
        proof {
            reveal_strlit("(b ");
            lemma_scan_ch_from(s, pos + 3, ')');
        }
        let be = scan_ch_from(s, pos + 3, ')');
        if be >= s.len() {
            None
        } else {
            match spec_parse_items(s, be + 1, g) {
                None => None,
                Some((kids, b, r, end)) => Some(
                    (
                        kids,
                        if b is Some {
                            b
                        } else {
                            Some(s.subrange(pos + 3, be))
                        },
                        r,
                        end,
                    ),
                ),
            }
        }
    } else if s[pos] == '(' {
        match spec_parse_node(s, pos, g) {
            None => None,
            Some((child, pe)) => {
                let pe2 = if pos < pe <= s.len() {
                    pe
                } else {
                    pos + 1
                };
                match spec_parse_items(s, pe2, g) {
                    None => None,
                    Some((kids, b, r, end)) => Some((seq![child] + kids, b, r, end)),
                }
            },
        }
    } else {
        None
    }
}

/// What a whole canonical text denotes: one node covering every character.
pub open spec fn spec_parse_canonical(s: Seq<char>, g: GrammarV) -> Option<NodeV> {
    match spec_parse_node(s, 0, g) {
        None => None,
        Some((n, end)) => if end == s.len() {
            Some(n)
        } else {
            None
        },
    }
}

/// Exec scan for the first parenthesis.
fn scan_np_exec(s: &str, from: usize) -> (r: usize)
    requires
        from <= s@.len(),
    ensures
        r as int == scan_np_from(s@, from as int),
{
    let n = s.unicode_len();
    let mut i = from;
    while i < n && s.get_char(i) != '(' && s.get_char(i) != ')'
        invariant
            from <= i <= n,
            n == s@.len(),
            scan_np_from(s@, from as int) == scan_np_from(s@, i as int),
        decreases n - i,
    {
        i += 1;
    }
    i
}

/// Exec scan for the first occurrence of a character.
fn scan_ch_exec(s: &str, from: usize, c: char) -> (r: usize)
    requires
        from <= s@.len(),
    ensures
        r as int == scan_ch_from(s@, from as int, c),
{
    let n = s.unicode_len();
    let mut i = from;
    while i < n && s.get_char(i) != c
        invariant
            from <= i <= n,
            n == s@.len(),
            scan_ch_from(s@, from as int, c) == scan_ch_from(s@, i as int, c),
        decreases n - i,
    {
        i += 1;
    }
    i
}

impl ASTNode {
    /// The canonical text of this tree, as `spec_ser` states.
    pub fn serialize(&self) -> (r: String)
        ensures
            r@ == spec_ser(self@),
        decreases *self, 1int,
    {
        let mut out = String::new();
        match self.kind {
            NodeKind::Terminal => {
                proof {
                    reveal_strlit("(T ");
                    reveal_strlit("(b ");
                    reveal_strlit("\")");
                }
                out.append("(T ");
                match &self.binding {
                    Some(b) => {
                        out.append("(b ");
                        out.append(b.as_str());
                        crate::strs::push_char(&mut out, ')');
                    },
                    None => {},
                }
                crate::strs::push_char(&mut out, '"');
                out.append(self.value.as_str());
                out.append("\")");
                proof {
                    assert(out@ =~= spec_ser(self@));
                }
            },
            NodeKind::Nonterminal => {
                proof {
                    reveal_strlit("(N ");
                    reveal_strlit("(rule ");
                    reveal_strlit("(b ");
                }
                out.append("(N ");
                out.append(self.value.as_str());
                match &self.typing_rule {
                    Some(r) => {
                        out.append("(rule ");
                        out.append(r.name.as_str());
                        crate::strs::push_char(&mut out, ')');
                    },
                    None => {},
                }
                match &self.binding {
                    Some(b) => {
                        out.append("(b ");
                        out.append(b.as_str());
                        crate::strs::push_char(&mut out, ')');
                    },
                    None => {},
                }
                match &self.children {
                    Some(kids) => {
                        let nk = kids.len();
                        let ghost kv = nodes_view(kids@);
                        let ghost head = out@;
                        proof {
                            crate::ast::lemma_nodes_view(kids@);
                            assert(kv.take(0) =~= Seq::<NodeV>::empty());
                        }
                        for i in 0..nk
                            invariant
                                nk == kids@.len(),
                                self.children == Some(*kids),
                                kv == nodes_view(kids@),
                                out@ == head + spec_ser_kids_upto(kv, i as int),
                        {
                            proof {
                                assert(kids@[i as int] == self.children->0@[i as int]);
                                crate::ast::lemma_nodes_view(kids@);
                            }
                            let part = kids[i].serialize();
                            out.append(part.as_str());
                            proof {
                                lemma_ser_kids_upto(kv, i as int);
                            }
                        }
                        proof {
                            lemma_ser_kids_upto_all(kv);
                        }
                    },
                    None => {},
                }
                crate::strs::push_char(&mut out, ')');
                proof {
                    assert(out@ =~= spec_ser(self@));
                }
            },
        }
        out
    }
}

/// The serialized first `k` children.
pub open spec fn spec_ser_kids_upto(kids: Seq<NodeV>, k: int) -> Seq<char> {
    spec_ser_kids(kids.take(k))
}

/// Serializing one more child appends its text.
pub proof fn lemma_ser_kids_upto(kids: Seq<NodeV>, k: int)
    requires
        0 <= k < kids.len(),
    ensures
        spec_ser_kids_upto(kids, k + 1) == spec_ser_kids_upto(kids, k) + spec_ser(kids[k]),
    decreases kids.len(),
{
    if k == 0 {
        reveal_with_fuel(spec_ser_kids, 3);
        assert(kids.take(1)[0] == kids[0]);
        assert(kids.take(1).drop_first() =~= Seq::<NodeV>::empty());
        assert(kids.take(0) =~= Seq::<NodeV>::empty());
        assert(spec_ser(kids[0]) + Seq::<char>::empty() =~= spec_ser(kids[0]));
        assert(spec_ser_kids_upto(kids, 1) =~= spec_ser(kids[0]));
        assert(spec_ser_kids_upto(kids, 0) + spec_ser(kids[0]) =~= spec_ser(kids[0]));
    } else {
        lemma_ser_kids_upto(kids.drop_first(), k - 1);
        assert(kids.take(k + 1)[0] == kids[0]);
        assert(kids.take(k)[0] == kids[0]);
        assert(kids.take(k + 1).drop_first() =~= kids.drop_first().take(k));
        assert(kids.take(k).drop_first() =~= kids.drop_first().take(k - 1));
        assert(spec_ser_kids_upto(kids, k + 1) =~= spec_ser_kids_upto(kids, k) + spec_ser(
            kids[k],
        ));
    }
}

/// All children serialized equals the serialized prefix of full length.
pub proof fn lemma_ser_kids_upto_all(kids: Seq<NodeV>)
    ensures
        spec_ser_kids_upto(kids, kids.len() as int) == spec_ser_kids(kids),
{
    assert(kids.take(kids.len() as int) =~= kids);
}

/// Exec reading of one node from a position, as `spec_parse_node` states.
fn parse_node_at(s: &str, pos: usize, g: &Grammar) -> (r: Result<(ASTNode, usize), String>)
    requires
        pos <= s@.len(),
    ensures
        match r {
            Ok(p) => spec_parse_node(s@, pos as int, g@) == Some((p.0@, p.1 as int)) && pos < p.1
                <= s@.len(),
            Err(_) => spec_parse_node(s@, pos as int, g@) is None,
        },
    decreases s@.len() - pos, 1int,
{
    let n = s.unicode_len();
    if pos >= n || n - pos < 3 || s.get_char(pos) != '(' {
        return Err(String::from_str("Expected a group"));
    }
    let tag = s.get_char(pos + 1);
    let sp = s.get_char(pos + 2);
    if tag == 'N' && sp == ' ' {
        let ve = scan_np_exec(s, pos + 3);
        proof {
            lemma_scan_np_from(s@, pos as int + 3);
        }
        if ve >= n || ve == pos + 3 {
            return Err(String::from_str("Expected a node name"));
        }
        let value = String::from_str(s.substring_char(pos + 3, ve));
        proof {
            assert(value@ =~= s@.subrange(pos as int + 3, ve as int));
        }
        match parse_items_at(s, ve, g) {
            Ok((kids, binding, rule, end)) => {
                let node = ASTNode {
                    kind: NodeKind::Nonterminal,
                    value,
                    span: None,
                    children: Some(kids),
                    binding,
                    typing_rule: rule,
                };
                proof {
                    assert(node@ =~~= spec_parse_node(s@, pos as int, g@)->Some_0.0);
                }
                Ok((node, end))
            },
            Err(e) => Err(e),
        }
    } else if tag == 'T' && sp == ' ' {
        let q0 = pos + 3;
        proof {
            reveal_strlit("(b ");
        }
        let has_b = n - q0 >= 3 && crate::strs::str_eq(s.substring_char(q0, q0 + 3), "(b ");
        proof {
            if q0 + 3 <= n {
                assert(s@.subrange(q0 as int, q0 as int + 3) =~= s@.subrange(
                    q0 as int,
                    q0 as int + "(b "@.len(),
                ));
            }
            assert(has_b == occurs_at(s@, "(b "@, q0 as int));
        }
        if has_b {
            let be = scan_ch_exec(s, q0 + 3, ')');
            proof {
                lemma_scan_ch_from(s@, q0 as int + 3, ')');
            }
            if be >= n {
                return Err(String::from_str("Unclosed binding group"));
            }
            let b = String::from_str(s.substring_char(q0 + 3, be));
            proof {
                assert(b@ =~= s@.subrange(q0 as int + 3, be as int));
            }
            parse_term_value(s, be + 1, Some(b))
        } else {
            parse_term_value(s, q0, None)
        }
    } else {
        Err(String::from_str("Unknown node tag"))
    }
}

/// Exec reading of a terminal's quoted value and closing parenthesis.
fn parse_term_value(s: &str, q: usize, binding: Option<String>) -> (r: Result<
    (ASTNode, usize),
    String,
>)
    requires
        q <= s@.len(),
    ensures
        match r {
            Ok(p) => spec_parse_term_value(s@, q as int, crate::typing::opt_view(binding)) == Some(
                (p.0@, p.1 as int),
            ) && q < p.1 <= s@.len(),
            Err(_) => spec_parse_term_value(s@, q as int, crate::typing::opt_view(binding))
                is None,
        },
{
    let n = s.unicode_len();
    if q >= n || s.get_char(q) != '"' {
        return Err(String::from_str("Expected a quoted value"));
    }
    let ve = scan_ch_exec(s, q + 1, '"');
    proof {
        lemma_scan_ch_from(s@, q as int + 1, '"');
    }
    if ve >= n {
        return Err(String::from_str("Unclosed terminal"));
    }
    if ve + 1 >= n || s.get_char(ve + 1) != ')' {
        return Err(String::from_str("Unclosed terminal"));
    }
    let value = String::from_str(s.substring_char(q + 1, ve));
    proof {
        assert(value@ =~= s@.subrange(q as int + 1, ve as int));
    }
    let node = ASTNode {
        kind: NodeKind::Terminal,
        value,
        span: None,
        children: None,
        binding,
        typing_rule: None,
    };
    proof {
        assert(node@ =~~= spec_parse_term_value(
            s@,
            q as int,
            crate::typing::opt_view(node.binding),
        )->Some_0.0);
    }
    Ok((node, ve + 2))
}

/// Exec reading of a nonterminal's groups, as `spec_parse_items` states.
fn parse_items_at(s: &str, pos: usize, g: &Grammar) -> (r: Result<
    (Vec<ASTNode>, Option<String>, Option<TypingRule>, usize),
    String,
>)
    requires
        pos <= s@.len(),
    ensures
        match r {
            Ok(p) => spec_parse_items(s@, pos as int, g@) == Some(
                (
                    nodes_view(p.0@),
                    crate::typing::opt_view(p.1),
                    match p.2 {
                        Some(tr) => Some(tr@),
                        None => None,
                    },
                    p.3 as int,
                ),
            ) && pos < p.3 <= s@.len(),
            Err(_) => spec_parse_items(s@, pos as int, g@) is None,
        },
    decreases s@.len() - pos, 2int,
{
    let n = s.unicode_len();
    if pos >= n {
        return Err(String::from_str("Unclosed node"));
    }
    let c = s.get_char(pos);
    if c == ')' {
        let kids: Vec<ASTNode> = Vec::new();
        proof {
            assert(nodes_view(kids@) =~= Seq::<NodeV>::empty());
        }
        return Ok((kids, None, None, pos + 1));
    }
    if c != '(' {
        return Err(String::from_str("Unexpected text in a node"));
    }
    proof {
        reveal_strlit("(rule ");
        reveal_strlit("(b ");
    }
    let is_rule = n - pos >= 6 && crate::strs::str_eq(s.substring_char(pos, pos + 6), "(rule ");
    proof {
        if pos + 6 <= n {
            assert(s@.subrange(pos as int, pos as int + 6) =~= s@.subrange(
                pos as int,
                pos as int + "(rule "@.len(),
            ));
        }
        assert(is_rule == occurs_at(s@, "(rule "@, pos as int));
    }
    if is_rule {
        let ne = scan_ch_exec(s, pos + 6, ')');
        proof {
            lemma_scan_ch_from(s@, pos as int + 6, ')');
        }
        if ne >= n {
            return Err(String::from_str("Unclosed rule group"));
        }
        let name = s.substring_char(pos + 6, ne);
        proof {
            assert(name@ =~= s@.subrange(pos as int + 6, ne as int));
        }
        let found = match g.find_typing_rule(name) {
            Some(i) => {
                proof {
                    crate::grammar::lemma_assoc_idx(g@.typing_rules, name@);
                }
                Some(crate::typing::clone_rule(&g.typing_rules[i].1))
            },
            None => None,
        };
        match parse_items_at(s, ne + 1, g) {
            Ok((kids, b, r, end)) => {
                let rr = match r {
                    Some(r0) => Some(r0),
                    None => found,
                };
                proof {
                    assert(match rr {
                        Some(tr) => Some(tr@),
                        None => None,
                    } == spec_parse_items(s@, pos as int, g@)->Some_0.2);
                }
                Ok((kids, b, rr, end))
            },
            Err(e) => Err(e),
        }
    } else {
        let is_b = n - pos >= 3 && crate::strs::str_eq(s.substring_char(pos, pos + 3), "(b ");
        proof {
            if pos + 3 <= n {
                assert(s@.subrange(pos as int, pos as int + 3) =~= s@.subrange(
                    pos as int,
                    pos as int + "(b "@.len(),
                ));
            }
            assert(is_b == occurs_at(s@, "(b "@, pos as int));
        }
        if is_b {
            let be = scan_ch_exec(s, pos + 3, ')');
            proof {
                lemma_scan_ch_from(s@, pos as int + 3, ')');
            }
            if be >= n {
                return Err(String::from_str("Unclosed binding group"));
            }
            let bind = String::from_str(s.substring_char(pos + 3, be));
            proof {
                assert(bind@ =~= s@.subrange(pos as int + 3, be as int));
            }
            match parse_items_at(s, be + 1, g) {
                Ok((kids, b, r, end)) => {
                    let bb = match b {
                        Some(b0) => Some(b0),
                        None => Some(bind),
                    };
                    Ok((kids, bb, r, end))
                },
                Err(e) => Err(e),
            }
        } else {
            match parse_node_at(s, pos, g) {
                Ok((child, pe)) => {
                    match parse_items_at(s, pe, g) {
                        Ok((kids, b, r, end)) => {
                            let ghost old_kids = nodes_view(kids@);
                            let ghost old_seq = kids@;
                            let mut kids = kids;
                            let ghost cv = child@;
                            kids.insert(0, child);
                            proof {
                                crate::ast::lemma_nodes_view(kids@);
                                crate::ast::lemma_nodes_view(old_seq);
                                assert forall|q: int|
                                    0 <= q < kids@.len() implies nodes_view(kids@)[q] == (
                                seq![cv] + old_kids)[q] by {
                                    if q > 0 {
                                        assert(kids@[q] == old_seq[q - 1]);
                                    }
                                }
                                assert(nodes_view(kids@) =~= seq![cv] + old_kids);
                            }
                            Ok((kids, b, r, end))
                        },
                        Err(e) => Err(e),
                    }
                },
                Err(e) => Err(e),
            }
        }
    }
}

impl ASTNode {
    /// Read a canonical text back into a tree, looking rule names up in the
    /// grammar; the text must be exactly one node.
    pub fn parse(s: &str, grammar: &Grammar) -> (r: Result<ASTNode, String>)
        ensures
            match r {
                Ok(node) => spec_parse_canonical(s@, grammar@) == Some(node@),
                Err(_) => spec_parse_canonical(s@, grammar@) is None,
            },
    {
        match parse_node_at(s, 0, grammar) {
            Ok((node, end)) => {
                if end == s.unicode_len() {
                    Ok(node)
                } else {
                    Err(String::from_str("Text after the node"))
                }
            },
            Err(e) => Err(e),
        }
    }
}

} // verus!

// The round trip of the codec: reading the canonical text of a well-formed
// tree back yields a structurally equal tree.
verus! {

/// The scan for `c` stops exactly at a known first occurrence.
pub proof fn lemma_scan_ch_at(s: Seq<char>, from: int, j: int, c: char)
    requires
        0 <= from <= j <= s.len(),
        forall|q: int| from <= q < j ==> s[q] != c,
        j < s.len() ==> s[j] == c,
    ensures
        scan_ch_from(s, from, c) == j,
    decreases j - from,
{
    if from < j {
        lemma_scan_ch_at(s, from + 1, j, c);
    }
}

/// A tree the codec can carry: nonterminal names are non-empty and hold no
/// parentheses, terminal values hold no quote, bindings and rule names hold
/// no closing parenthesis, and only nonterminals have children.
pub open spec fn wf_canon(n: NodeV) -> bool
    decreases n, 1int,
{
    &&& (match n.binding {
        Some(b) => !b.contains(')'),
        None => true,
    })
    &&& if n.kind is Terminal {
        &&& n.children is None
        &&& !n.value.contains('"')
    } else {
        &&& n.children is Some
        &&& n.value.len() > 0
        &&& (forall|i: int| 0 <= i < n.value.len() ==> n.value[i] != '(' && n.value[i] != ')')
        &&& (match n.typing_rule {
            Some(r) => !r.name.contains(')'),
            None => true,
        })
        &&& wf_canon_kids(n.children->0)
    }
}

/// Every child is a tree the codec can carry.
pub open spec fn wf_canon_kids(kids: Seq<NodeV>) -> bool
    decreases kids, 0int,
{
    if kids.len() == 0 {
        true
    } else {
        wf_canon(kids[0]) && wf_canon_kids(kids.drop_first())
    }
}

/// The scan for a parenthesis stops exactly at a known first occurrence.
pub proof fn lemma_scan_np_at(s: Seq<char>, from: int, j: int)
    requires
        0 <= from <= j <= s.len(),
        forall|q: int| from <= q < j ==> s[q] != '(' && s[q] != ')',
        j < s.len() ==> (s[j] == '(' || s[j] == ')'),
    ensures
        scan_np_from(s, from) == j,
    decreases j - from,
{
    if from < j {
        lemma_scan_np_at(s, from + 1, j);
    }
}

/// Reading the serialized children and the closing parenthesis yields the
/// same children.
#[verifier::rlimit(100)]
#[verifier::spinoff_prover]
proof fn lemma_items_ser(s: Seq<char>, pos: int, kids: Seq<NodeV>, g: GrammarV)
    requires
        wf_canon_kids(kids),
        0 <= pos,
        pos + spec_ser_kids(kids).len() + 1 <= s.len(),
        s.subrange(pos, pos + spec_ser_kids(kids).len() + 1) =~= spec_ser_kids(kids) + seq![')'],
    ensures
        spec_parse_items(s, pos, g) matches Some((kids2, b, r, end)) && b is None && r is None
            && end == pos + spec_ser_kids(kids).len() + 1 && crate::ast::syns_of(kids2)
            =~= crate::ast::syns_of(kids),
    decreases kids, 4int,
{
    reveal_strlit("(rule ");
    reveal_strlit("(b ");
    reveal_strlit("(N ");
    reveal_strlit("(T ");
    let body = spec_ser_kids(kids) + seq![')'];
    if kids.len() == 0 {
        assert(s[pos] == body[0]);
        assert(s[pos] == ')');
        assert(crate::ast::syns_of(Seq::<NodeV>::empty()) =~= crate::ast::syns_of(kids));
    } else {
        let k0 = kids[0];
        let s0 = spec_ser(k0);
        lemma_ser_shape(k0);
        assert forall|q: int| 0 <= q < s0.len() implies s[pos + q] == s0[q] by {
            assert(body[q] == s0[q]);
            assert(s.subrange(pos, pos + spec_ser_kids(kids).len() + 1)[q] == s[pos + q]);
        }
        assert(s[pos] == '(');
        assert(s[pos + 1] == 'N' || s[pos + 1] == 'T');
        assert(!occurs_at(s, "(rule "@, pos)) by {
            if occurs_at(s, "(rule "@, pos) {
                assert(s.subrange(pos, pos + 6)[1] == "(rule "@[1]);
                assert(s[pos + 1] == 'r');
            }
        }
        assert(!occurs_at(s, "(b "@, pos)) by {
            if occurs_at(s, "(b "@, pos) {
                assert(s.subrange(pos, pos + 3)[1] == "(b "@[1]);
                assert(s[pos + 1] == 'b');
            }
        }
        assert(s.subrange(pos, pos + s0.len()) =~= s0);
        lemma_node_ser(s, pos, k0, g);
        let pe = pos + s0.len();
        let rest = kids.drop_first();
        assert(spec_ser_kids(kids) =~= s0 + spec_ser_kids(rest));
        assert(s.subrange(pe, pe + spec_ser_kids(rest).len() + 1) =~= spec_ser_kids(rest)
            + seq![')']) by {
            assert forall|q: int| 0 <= q < spec_ser_kids(rest).len() + 1 implies s.subrange(
                pe,
                pe + spec_ser_kids(rest).len() + 1,
            )[q] == (spec_ser_kids(rest) + seq![')'])[q] by {
                assert(s[pe + q] == body[s0.len() + q]);
            }
        }
        lemma_items_ser(s, pe, rest, g);
        let child = spec_parse_node(s, pos, g)->Some_0.0;
        assert(crate::ast::syns_of(seq![child] + spec_parse_items(s, pe, g)->Some_0.0) =~= seq![
            crate::ast::syn_of(child),
        ] + crate::ast::syns_of(spec_parse_items(s, pe, g)->Some_0.0)) by {
            crate::ast::lemma_syns_of(seq![child] + spec_parse_items(s, pe, g)->Some_0.0);
            crate::ast::lemma_syns_of(spec_parse_items(s, pe, g)->Some_0.0);
            assert forall|q: int|
                0 <= q < 1 + spec_parse_items(s, pe, g)->Some_0.0.len() implies crate::ast::syns_of(
                seq![child] + spec_parse_items(s, pe, g)->Some_0.0,
            )[q] == (seq![crate::ast::syn_of(child)] + crate::ast::syns_of(
                spec_parse_items(s, pe, g)->Some_0.0,
            ))[q] by {}
        }
        assert(crate::ast::syns_of(kids) =~= seq![crate::ast::syn_of(k0)] + crate::ast::syns_of(
            rest,
        )) by {
            crate::ast::lemma_syns_of(kids);
            crate::ast::lemma_syns_of(rest);
            assert forall|q: int| 0 <= q < kids.len() implies crate::ast::syns_of(kids)[q] == (
            seq![crate::ast::syn_of(k0)] + crate::ast::syns_of(rest))[q] by {
                if q > 0 {
                    assert(kids[q] == rest[q - 1]);
                }
            }
        }
    }
}

/// Every canonical text begins with an opening parenthesis, a tag and a
/// space, and is at least four characters long.
proof fn lemma_ser_shape(n: NodeV)
    ensures
        spec_ser(n).len() >= 4,
        spec_ser(n)[0] == '(',
        spec_ser(n)[1] == 'N' || spec_ser(n)[1] == 'T',
        spec_ser(n)[2] == ' ',
{
    reveal_strlit("(N ");
    reveal_strlit("(T ");
    reveal_strlit("\")");
    reveal_strlit("(b ");
    reveal_strlit("(rule ");
}

/// Reading the canonical text of a well-formed tree at its position yields a
/// structurally equal tree that ends where the text ends.
#[verifier::rlimit(100)]
#[verifier::spinoff_prover]
proof fn lemma_node_ser(s: Seq<char>, pos: int, n: NodeV, g: GrammarV)
    requires
        wf_canon(n),
        0 <= pos,
        pos + spec_ser(n).len() <= s.len(),
        s.subrange(pos, pos + spec_ser(n).len()) =~= spec_ser(n),
    ensures
        spec_parse_node(s, pos, g) matches Some((n2, end)) && end == pos + spec_ser(n).len()
            && crate::ast::syn_of(n2) =~~= crate::ast::syn_of(n),
    decreases n, 3int,
{
    reveal_strlit("(N ");
    reveal_strlit("(T ");
    reveal_strlit("\")");
    reveal_strlit("(b ");
    reveal_strlit("(rule ");
    let s0 = spec_ser(n);
    assert forall|q: int| 0 <= q < s0.len() implies s[pos + q] == s0[q] by {
        assert(s.subrange(pos, pos + s0.len())[q] == s[pos + q]);
    }
    lemma_ser_shape(n);
    if n.kind is Terminal {
        match n.binding {
            None => {
                let vl = n.value.len() as int;
                assert("(T "@.len() == 3);
                assert("\")"@.len() == 2);
                let rhs = "(T "@ + seq!['"'] + n.value + "\")"@;
                assert(s0 =~= rhs);
                assert(s0.len() == vl + 6);
                assert(rhs[3] == '"');
                assert(s[pos] == '(' && s[pos + 1] == 'T' && s[pos + 2] == ' ');
                assert(s[pos + 3] == s0[3]);
                assert(s[pos + 3] == '"');
                assert(!occurs_at(s, "(b "@, pos + 3)) by {
                    if occurs_at(s, "(b "@, pos + 3) {
                        assert(s.subrange(pos + 3, pos + 6)[0] == "(b "@[0]);
                    }
                }
                assert forall|q: int| pos + 4 <= q < pos + 4 + vl implies s[q] != '"' by {
                    assert(s[q] == s0[q - pos]);
                    assert(s0[q - pos] == n.value[q - pos - 4]);
                    if s[q] == '"' {
                        assert(n.value.contains('"')) by {
                            assert(n.value[q - pos - 4] == '"');
                        }
                    }
                }
                assert(rhs[4 + vl] == '"');
                assert(s[pos + 4 + vl] == s0[4 + vl]);
                assert(s[pos + 4 + vl] == '"');
                lemma_scan_ch_at(s, pos + 4, pos + 4 + vl, '"');
                assert(rhs[5 + vl] == ')');
                assert(s[pos + 5 + vl] == s0[5 + vl]);
                assert(s[pos + 5 + vl] == ')');
                let n2 = spec_parse_node(s, pos, g)->Some_0.0;
                assert(n2.value =~= n.value) by {
                    assert forall|q: int| 0 <= q < vl implies s.subrange(
                        pos + 4,
                        pos + 4 + vl,
                    )[q] == n.value[q] by {
                        assert(s[pos + 4 + q] == s0[4 + q]);
                    }
                }
                assert(crate::ast::syn_of(n2) =~~= crate::ast::syn_of(n));
            },
            Some(b) => {
                let bl = b.len() as int;
                let vl = n.value.len() as int;
                assert("(T "@.len() == 3);
                assert("(b "@.len() == 3);
                assert("\")"@.len() == 2);
                let rhs = "(T "@ + ("(b "@ + b + seq![')']) + seq!['"'] + n.value + "\")"@;
                assert(s0 =~= rhs);
                assert(s0.len() == bl + vl + 10);
                assert(s[pos] == '(' && s[pos + 1] == 'T' && s[pos + 2] == ' ');
                assert(occurs_at(s, "(b "@, pos + 3)) by {
                    assert(s.subrange(pos + 3, pos + 6) =~= "(b "@) by {
                        assert forall|q: int| 0 <= q < 3 implies s.subrange(
                            pos + 3,
                            pos + 6,
                        )[q] == "(b "@[q] by {
                            assert(s[pos + 3 + q] == s0[3 + q]);
                            assert(rhs[3 + q] == "(b "@[q]);
                        }
                    }
                }
                assert forall|q: int| pos + 6 <= q < pos + 6 + bl implies s[q] != ')' by {
                    assert(s[q] == s0[q - pos]);
                    assert(s0[q - pos] == b[q - pos - 6]);
                    if s[q] == ')' {
                        assert(b.contains(')')) by {
                            assert(b[q - pos - 6] == ')');
                        }
                    }
                }
                assert(rhs[6 + bl] == ')');
                assert(s[pos + 6 + bl] == s0[6 + bl]);
                assert(s[pos + 6 + bl] == ')');
                lemma_scan_ch_at(s, pos + 6, pos + 6 + bl, ')');
                let q0 = pos + 7 + bl;
                assert(rhs[7 + bl] == '"');
                assert(s[q0] == s0[7 + bl]);
                assert(s[q0] == '"');
                assert forall|q: int| q0 + 1 <= q < q0 + 1 + vl implies s[q] != '"' by {
                    assert(s[q] == s0[q - pos]);
                    assert(s0[q - pos] == n.value[q - q0 - 1]);
                    if s[q] == '"' {
                        assert(n.value.contains('"')) by {
                            assert(n.value[q - q0 - 1] == '"');
                        }
                    }
                }
                assert(rhs[8 + bl + vl] == '"');
                assert(s[q0 + 1 + vl] == s0[8 + bl + vl]);
                assert(s[q0 + 1 + vl] == '"');
                lemma_scan_ch_at(s, q0 + 1, q0 + 1 + vl, '"');
                assert(rhs[9 + bl + vl] == ')');
                assert(s[q0 + 2 + vl] == s0[9 + bl + vl]);
                assert(s[q0 + 2 + vl] == ')');
                let n2 = spec_parse_node(s, pos, g)->Some_0.0;
                assert(n2.value =~= n.value) by {
                    assert forall|q: int| 0 <= q < vl implies s.subrange(
                        q0 + 1,
                        q0 + 1 + vl,
                    )[q] == n.value[q] by {
                        assert(s[q0 + 1 + q] == s0[q0 + 1 + q - pos]);
                    }
                }
                assert(n2.binding =~~= n.binding) by {
                    assert(n2.binding->0 =~= b) by {
                        assert forall|q: int| 0 <= q < bl implies s.subrange(
                            pos + 6,
                            pos + 6 + bl,
                        )[q] == b[q] by {
                            assert(s[pos + 6 + q] == s0[6 + q]);
                        }
                    }
                }
                assert(crate::ast::syn_of(n2) =~~= crate::ast::syn_of(n));
            },
        }
    } else {
        let vl = n.value.len() as int;
        let rpart = match n.typing_rule {
            Some(r) => "(rule "@ + r.name + seq![')'],
            None => Seq::<char>::empty(),
        };
        let bpart = match n.binding {
            Some(b) => "(b "@ + b + seq![')'],
            None => Seq::<char>::empty(),
        };
        let kids = n.children->0;
        assert(s0 =~= "(N "@ + n.value + rpart + bpart + spec_ser_kids(kids) + seq![')']);
        assert(s[pos] == '(' && s[pos + 1] == 'N' && s[pos + 2] == ' ');
        assert forall|q: int| pos + 3 <= q < pos + 3 + vl implies s[q] != '(' && s[q] != ')' by {
            assert(s[q] == s0[q - pos]);
            assert(s0[q - pos] == n.value[q - pos - 3]);
        }
        let ve = pos + 3 + vl;
        assert(s[ve] == '(' || s[ve] == ')') by {
            assert(s[ve] == s0[3 + vl]);
            if rpart.len() > 0 {
                assert(s0[3 + vl] == rpart[0]);
            } else if bpart.len() > 0 {
                assert(s0[3 + vl] == bpart[0]);
            } else if kids.len() > 0 {
                lemma_ser_shape(kids[0]);
                assert(spec_ser_kids(kids)[0] == spec_ser(kids[0])[0]);
                assert(s0[3 + vl] == '(');
            } else {
                assert(s0[3 + vl] == ')');
            }
        }
        lemma_scan_np_at(s, pos + 3, ve);
        assert(ve < s.len());
        assert(scan_np_from(s, pos + 3) == ve);
        // The rule group, where one is named.
        let after_r = ve + rpart.len();
        let after_b = after_r + bpart.len();
        let kend = after_b + spec_ser_kids(kids).len() + 1;
        assert(kend == pos + s0.len());
        assert forall|q: int| ve <= q < after_r implies s[q] == rpart[q - ve] by {
            assert(s[q] == s0[q - pos]);
            assert(s0[q - pos] == rpart[q - pos - 3 - vl]);
        }
        assert forall|q: int| after_r <= q < after_b implies s[q] == bpart[q - after_r] by {
            assert(s[q] == s0[q - pos]);
            assert(s0[q - pos] == bpart[q - pos - 3 - vl - rpart.len()]);
        }
        // Positions after the value mirror the serialized text.
        assert(s.subrange(after_b, kend) =~= spec_ser_kids(kids) + seq![')']) by {
            assert forall|q: int| 0 <= q < spec_ser_kids(kids).len() + 1 implies s.subrange(
                after_b,
                kend,
            )[q] == (spec_ser_kids(kids) + seq![')'])[q] by {
                assert(s[after_b + q] == s0[after_b + q - pos]);
            }
        }
        lemma_items_b(s, ve, n, g, rpart, bpart, after_r, after_b, kend);
        let n2 = spec_parse_node(s, pos, g)->Some_0.0;
        assert(n2.value =~= n.value) by {
            assert forall|q: int| 0 <= q < vl implies s.subrange(pos + 3, ve)[q] == n.value[q]
                by {
                assert(s[pos + 3 + q] == s0[3 + q]);
            }
        }
        assert(crate::ast::syn_of(n2) =~~= crate::ast::syn_of(n));
    }
}

/// Reading the optional rule group, the optional binding group, the
/// children and the closer yields the node's groups.
proof fn lemma_items_b(
    s: Seq<char>,
    ve: int,
    n: NodeV,
    g: GrammarV,
    rpart: Seq<char>,
    bpart: Seq<char>,
    after_r: int,
    after_b: int,
    kend: int,
)
    requires
        wf_canon(n),
        n.kind is Nonterminal,
        rpart == (match n.typing_rule {
            Some(r) => "(rule "@ + r.name + seq![')'],
            None => Seq::<char>::empty(),
        }),
        bpart == (match n.binding {
            Some(b) => "(b "@ + b + seq![')'],
            None => Seq::<char>::empty(),
        }),
        0 <= ve,
        after_r == ve + rpart.len(),
        after_b == after_r + bpart.len(),
        kend == after_b + spec_ser_kids(n.children->0).len() + 1,
        kend <= s.len(),
        forall|q: int| ve <= q < after_r ==> s[q] == rpart[q - ve],
        forall|q: int| after_r <= q < after_b ==> s[q] == bpart[q - after_r],
        s.subrange(after_b, kend) =~= spec_ser_kids(n.children->0) + seq![')'],
    ensures
        spec_parse_items(s, ve, g) matches Some((kids2, b2, r2, end)) && end == kend
            && crate::ast::syns_of(kids2) =~= crate::ast::syns_of(n.children->0) && b2
            =~~= n.binding && (n.typing_rule is None ==> r2 is None),
    decreases n, 2int,
{
    reveal_strlit("(rule ");
    reveal_strlit("(b ");
    reveal_strlit("(N ");
    reveal_strlit("(T ");
    let kids = n.children->0;
    assert(decreases_to!(n => kids));
    lemma_items_bind(s, after_r, n, g, bpart, after_b, kend);
    match n.typing_rule {
        None => {
            assert(spec_parse_items(s, ve, g) == spec_parse_items(s, after_r, g));
        },
        Some(r) => {
            let rl = r.name.len() as int;
            assert(occurs_at(s, "(rule "@, ve)) by {
                assert(s.subrange(ve, ve + 6) =~= "(rule "@) by {
                    assert forall|q: int| 0 <= q < 6 implies s.subrange(ve, ve + 6)[q]
                        == "(rule "@[q] by {
                        assert(s[ve + q] == rpart[q]);
                    }
                }
            }
            assert(s[ve] == '(');
            assert(ve < s.len());
            assert forall|q: int| ve + 6 <= q < ve + 6 + rl implies s[q] != ')' by {
                assert(s[q] == rpart[q - ve]);
                assert(rpart[q - ve] == r.name[q - ve - 6]);
                if s[q] == ')' {
                    assert(r.name.contains(')')) by {
                        assert(r.name[q - ve - 6] == ')');
                    }
                }
            }
            assert(s[ve + 6 + rl] == ')');
            lemma_scan_ch_at(s, ve + 6, ve + 6 + rl, ')');
            assert(ve + 6 + rl < s.len());
            assert(spec_parse_items(s, after_r, g) is Some);
        },
    }
}

/// Reading the optional binding group, the children and the closer yields
/// the node's binding and children.
proof fn lemma_items_bind(
    s: Seq<char>,
    after_r: int,
    n: NodeV,
    g: GrammarV,
    bpart: Seq<char>,
    after_b: int,
    kend: int,
)
    requires
        wf_canon(n),
        n.kind is Nonterminal,
        bpart == (match n.binding {
            Some(b) => "(b "@ + b + seq![')'],
            None => Seq::<char>::empty(),
        }),
        0 <= after_r,
        after_b == after_r + bpart.len(),
        kend == after_b + spec_ser_kids(n.children->0).len() + 1,
        kend <= s.len(),
        forall|q: int| after_r <= q < after_b ==> s[q] == bpart[q - after_r],
        s.subrange(after_b, kend) =~= spec_ser_kids(n.children->0) + seq![')'],
    ensures
        spec_parse_items(s, after_r, g) matches Some((kids2, b2, r2, end)) && end == kend
            && crate::ast::syns_of(kids2) =~= crate::ast::syns_of(n.children->0) && b2
            =~~= n.binding && r2 is None,
    decreases n, 1int,
{
    reveal_strlit("(rule ");
    reveal_strlit("(b ");
    reveal_strlit("(N ");
    reveal_strlit("(T ");
    let kids = n.children->0;
    assert(decreases_to!(n => kids));
    lemma_items_ser(s, after_b, kids, g);
    match n.binding {
        None => {
            assert(spec_parse_items(s, after_r, g) == spec_parse_items(s, after_b, g));
        },
        Some(b) => {
            let bl = b.len() as int;
            assert(occurs_at(s, "(b "@, after_r)) by {
                assert(s.subrange(after_r, after_r + 3) =~= "(b "@) by {
                    assert forall|q: int| 0 <= q < 3 implies s.subrange(
                        after_r,
                        after_r + 3,
                    )[q] == "(b "@[q] by {
                        assert(s[after_r + q] == bpart[q]);
                    }
                }
            }
            assert(s[after_r] == '(');
            assert(after_r < s.len());
            assert(!occurs_at(s, "(rule "@, after_r)) by {
                if occurs_at(s, "(rule "@, after_r) {
                    assert(s.subrange(after_r, after_r + 6)[1] == "(rule "@[1]);
                    assert(s[after_r + 1] == 'r');
                    assert(s[after_r + 1] == bpart[1]);
                }
            }
            assert forall|q: int| after_r + 3 <= q < after_r + 3 + bl implies s[q] != ')' by {
                assert(s[q] == bpart[q - after_r]);
                assert(bpart[q - after_r] == b[q - after_r - 3]);
                if s[q] == ')' {
                    assert(b.contains(')')) by {
                        assert(b[q - after_r - 3] == ')');
                    }
                }
            }
            assert(s[after_r + 3 + bl] == ')');
            lemma_scan_ch_at(s, after_r + 3, after_r + 3 + bl, ')');
            assert(after_r + 3 + bl < s.len());
            let b2 = spec_parse_items(s, after_r, g)->Some_0.1;
            assert(b2->0 =~= b) by {
                assert forall|q: int| 0 <= q < bl implies s.subrange(
                    after_r + 3,
                    after_r + 3 + bl,
                )[q] == b[q] by {
                    assert(s[after_r + 3 + q] == bpart[3 + q]);
                }
            }
        },
    }
}

/// The tree round trip: reading the canonical text of a well-formed tree
/// back yields a structurally equal tree — spans and attached typing rules
/// are outside structural equality and may differ.
pub proof fn lemma_canonical_roundtrip(n: NodeV, g: GrammarV)
    requires
        wf_canon(n),
    ensures
        spec_parse_canonical(spec_ser(n), g) is Some,
        crate::ast::syn_of(spec_parse_canonical(spec_ser(n), g)->Some_0) == crate::ast::syn_of(n),
{
    let s = spec_ser(n);
    assert(s.subrange(0, s.len() as int) =~= s);
    lemma_node_ser(s, 0, n, g);
    assert(crate::ast::syn_of(spec_parse_canonical(s, g)->Some_0) =~~= crate::ast::syn_of(n));
}

} // verus!
