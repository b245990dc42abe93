//! The syntax tree the parser builds: terminal and nonterminal nodes with
//! token spans, bindings copied from the grammar symbols, and attached
//! typing rules.

use vstd::prelude::*;

use crate::typing::opt_view;
use crate::typing::RuleV;
use crate::typing::TypingRule;

verus! {

/// Whether a node stands for one token or for a nonterminal expansion.
#[derive(Debug, Clone, Copy, PartialEq, Eq, Structural)]
pub enum NodeKind {
    Terminal,
    Nonterminal,
}

/// A half-open range of token indices.
#[derive(Debug, Clone, Copy, PartialEq, Eq, Structural)]
pub struct SourceSpan {
    pub start: usize,
    pub end: usize,
}

/// One node of the syntax tree.  Only nonterminal nodes carry children; the
/// binding comes from the grammar symbol that produced the node; the typing
/// rule comes from the production that produced it, where its name resolves.
#[derive(Debug)]
pub struct ASTNode {
    pub kind: NodeKind,
    pub value: String,
    pub span: Option<SourceSpan>,
    pub children: Option<Vec<ASTNode>>,
    pub binding: Option<String>,
    pub typing_rule: Option<TypingRule>,
}

/// Mathematical value of a node.
#[verifier::ext_equal]
pub struct NodeV {
    pub kind: NodeKind,
    pub value: Seq<char>,
    pub span: Option<(int, int)>,
    pub children: Option<Seq<NodeV>>,
    pub binding: Option<Seq<char>>,
    pub typing_rule: Option<RuleV>,
}

/// Mathematical value of a node, recursively.
pub open spec fn node_view(n: ASTNode) -> NodeV
    decreases n,
{
    NodeV {
        kind: n.kind,
        value: n.value@,
        span: match n.span {
            Some(sp) => Some((sp.start as int, sp.end as int)),
            None => None,
        },
        children: match n.children {
            Some(v) => Some(nodes_view(v@)),
            None => None,
        },
        binding: opt_view(n.binding),
        typing_rule: match n.typing_rule {
            Some(r) => Some(r@),
            None => None,
        },
    }
}

/// Mathematical value of a sequence of nodes.
pub open spec fn nodes_view(s: Seq<ASTNode>) -> Seq<NodeV>
    decreases s,
{
    if s.len() == 0 {
        Seq::empty()
    } else {
        seq![node_view(s[0])] + nodes_view(s.drop_first())
    }
}

pub proof fn lemma_nodes_view(s: Seq<ASTNode>)
    ensures
        nodes_view(s).len() == s.len(),
        forall|i: int| 0 <= i < s.len() ==> nodes_view(s)[i] == node_view(s[i]),
    decreases s,
{
    if s.len() > 0 {
        lemma_nodes_view(s.drop_first());
    }
}

pub proof fn lemma_nodes_view_push(s: Seq<ASTNode>, x: ASTNode)
    ensures
        nodes_view(s.push(x)) =~= nodes_view(s).push(node_view(x)),
{
    lemma_nodes_view(s.push(x));
    lemma_nodes_view(s);
    assert forall|q: int| 0 <= q < s.len() + 1 implies nodes_view(s.push(x))[q] == nodes_view(
        s,
    ).push(node_view(x))[q] by {
        if q < s.len() {
            assert(s.push(x)[q] == s[q]);
        } else {
            assert(s.push(x)[q] == x);
        }
    }
}

impl View for ASTNode {
    type V = NodeV;

    open spec fn view(&self) -> NodeV {
        node_view(*self)
    }
}

/// The part of a node that structural equality compares: kind, value,
/// binding and children, without spans or typing rules.
#[verifier::ext_equal]
pub struct SynV {
    pub kind: NodeKind,
    pub value: Seq<char>,
    pub binding: Option<Seq<char>>,
    pub children: Option<Seq<SynV>>,
}

/// The structural part of a node value.
pub open spec fn syn_of(n: NodeV) -> SynV
    decreases n,
{
    SynV {
        kind: n.kind,
        value: n.value,
        binding: n.binding,
        children: match n.children {
            Some(kids) => Some(syns_of(kids)),
            None => None,
        },
    }
}

/// The structural parts of a sequence of node values.
pub open spec fn syns_of(s: Seq<NodeV>) -> Seq<SynV>
    decreases s,
{
    if s.len() == 0 {
        Seq::empty()
    } else {
        seq![syn_of(s[0])] + syns_of(s.drop_first())
    }
}

pub proof fn lemma_syns_of(s: Seq<NodeV>)
    ensures
        syns_of(s).len() == s.len(),
        forall|i: int| 0 <= i < s.len() ==> syns_of(s)[i] == syn_of(s[i]),
    decreases s,
{
    if s.len() > 0 {
        lemma_syns_of(s.drop_first());
    }
}

/// Structural equality of two node values: same kind, same value, same
/// binding, same ordered children, recursively; spans and typing rules are
/// not compared.
pub open spec fn spec_syneq(a: NodeV, b: NodeV) -> bool {
    syn_of(a) == syn_of(b)
}

/// Deep structural equality of two trees, as `spec_syneq` states it.
pub fn ast_eq(a: &ASTNode, b: &ASTNode) -> (r: bool)
    ensures
        r == spec_syneq(a@, b@),
    decreases *a,
{
    let kind_eq = match (&a.kind, &b.kind) {
        (NodeKind::Terminal, NodeKind::Terminal) => true,
        (NodeKind::Nonterminal, NodeKind::Nonterminal) => true,
        _ => false,
    };
    if !kind_eq {
        return false;
    }
    if !crate::strs::str_eq(a.value.as_str(), b.value.as_str()) {
        return false;
    }
    let binding_eq = match (&a.binding, &b.binding) {
        (Some(x), Some(y)) => crate::strs::str_eq(x.as_str(), y.as_str()),
        (None, None) => true,
        _ => false,
    };
    if !binding_eq {
        return false;
    }
    match (&a.children, &b.children) {
        (Some(ac), Some(bc)) => {
            if ac.len() != bc.len() {
                proof {
                    lemma_nodes_view(ac@);
                    lemma_nodes_view(bc@);
                    lemma_syns_of(nodes_view(ac@));
                    lemma_syns_of(nodes_view(bc@));
                }
                return false;
            }
            let n = ac.len();
            for i in 0..n
                invariant
                    n == ac@.len(),
                    n == bc@.len(),
                    a.children == Some(*ac),
                    b.children == Some(*bc),
                    forall|k: int|
                        0 <= k < i ==> syn_of(node_view(ac@[k])) == syn_of(node_view(bc@[k])),
            {
                proof {
                    assert(ac@[i as int] == a.children->0@[i as int]);
                }
                if !ast_eq(&ac[i], &bc[i]) {
                    proof {
                        lemma_nodes_view(ac@);
                        lemma_nodes_view(bc@);
                        lemma_syns_of(nodes_view(ac@));
                        lemma_syns_of(nodes_view(bc@));
                        assert(syns_of(nodes_view(ac@))[i as int] != syns_of(
                            nodes_view(bc@),
                        )[i as int]);
                    }
                    return false;
                }
            }
            proof {
                lemma_nodes_view(ac@);
                lemma_nodes_view(bc@);
                lemma_syns_of(nodes_view(ac@));
                lemma_syns_of(nodes_view(bc@));
                assert(syns_of(nodes_view(ac@)) =~= syns_of(nodes_view(bc@)));
                assert(syn_of(a@) =~~= syn_of(b@));
            }
            true
        },
        (None, None) => {
            proof {
                assert(syn_of(a@) =~~= syn_of(b@));
            }
            true
        },
        _ => false,
    }
}

/// The deepest the pretty printer will indent; nesting beyond it stays at
/// this depth.
pub open spec fn max_indent() -> int {
    0xffff
}

/// The indentation text of a level: two spaces for each step, capped.
pub open spec fn spec_indent(indent: int) -> Seq<char> {
    let lvl = if indent > max_indent() {
        max_indent()
    } else {
        indent
    };
    crate::strs::spec_repeat(' ', (2 * lvl) as nat)
}

/// The pretty-printed text of a node at an indentation level.
pub open spec fn spec_pretty(n: NodeV, indent: int) -> Seq<char>
    decreases n, 1int,
{
    let head = spec_indent(indent) + (if n.kind is Terminal {
        seq!['\''] + n.value + seq!['\'']
    } else {
        n.value
    }) + (match n.binding {
        Some(b) => seq!['['] + b + seq![']'],
        None => Seq::<char>::empty(),
    }) + (match n.typing_rule {
        Some(r) => seq!['@'] + r.name,
        None => Seq::<char>::empty(),
    });
    if n.kind is Nonterminal && n.children is Some && n.children->0.len() > 0 {
        head + " (\n"@ + spec_pretty_kids(n.children->0, indent + 1) + spec_indent(indent)
            + seq![')']
    } else {
        head
    }
}

/// The pretty-printed children, each on its own line.
pub open spec fn spec_pretty_kids(kids: Seq<NodeV>, indent: int) -> Seq<char>
    decreases kids, 0int,
{
    if kids.len() == 0 {
        Seq::empty()
    } else {
        spec_pretty(kids[0], indent) + seq!['\n'] + spec_pretty_kids(kids.drop_first(), indent)
    }
}

impl ASTNode {
    /// The token span of this node, if one was recorded.
    pub fn span(&self) -> (r: Option<&SourceSpan>)
        ensures
            match r {
                Some(sp) => self.span == Some(*sp),
                None => self.span is None,
            },
    {
        self.span.as_ref()
    }

    /// Record the token span of this node.
    pub fn set_span(&mut self, new_span: SourceSpan)
        ensures
            final(self).span == Some(new_span),
            final(self).kind == old(self).kind,
            final(self).value == old(self).value,
            final(self).children == old(self).children,
            final(self).binding == old(self).binding,
            final(self).typing_rule == old(self).typing_rule,
    {
        self.span = Some(new_span);
    }

    /// The binding this node carries, if any.
    pub fn binding(&self) -> (r: Option<&String>)
        ensures
            match r {
                Some(b) => self.binding == Some(*b),
                None => self.binding is None,
            },
    {
        self.binding.as_ref()
    }

    /// Structural equality with another tree: same kind, value, binding and
    /// ordered children, recursively.
    pub fn syneq(&self, other: &ASTNode) -> (r: bool)
        ensures
            r == spec_syneq(self@, other@),
    {
        ast_eq(self, other)
    }

    /// Render the tree as indented text: terminals quoted, bindings in
    /// brackets, rule names after `@`, children inside parentheses.
    #[verifier::rlimit(60)]
    pub fn pretty_print(&self, indent: usize) -> (r: String)
        ensures
            r@ == spec_pretty(self@, indent as int),
        decreases *self,
    {
        let lvl: usize = if indent > 0xffff {
            0xffff
        } else {
            indent
        };
        let mut out = crate::strs::repeat_char(' ', 2 * lvl);
        match self.kind {
            NodeKind::Terminal => {
                crate::strs::push_char(&mut out, '\'');
                out.append(self.value.as_str());
                crate::strs::push_char(&mut out, '\'');
            },
            NodeKind::Nonterminal => {
                out.append(self.value.as_str());
            },
        }
        match &self.binding {
            Some(b) => {
                crate::strs::push_char(&mut out, '[');
                out.append(b.as_str());
                crate::strs::push_char(&mut out, ']');
            },
            None => {},
        }
        match &self.typing_rule {
            Some(r) => {
                crate::strs::push_char(&mut out, '@');
                out.append(r.name.as_str());
            },
            None => {},
        }
        let has_kids = match &self.children {
            Some(kids) => kids.len() > 0,
            None => false,
        };
        let is_nt = match self.kind {
            NodeKind::Nonterminal => true,
            NodeKind::Terminal => false,
        };
        if is_nt && has_kids {
            match &self.children {
                Some(kids) => {
                    out.append(" (\n");
                    let n = kids.len();
                    let ghost kv = nodes_view(kids@);
                    proof {
                        lemma_nodes_view(kids@);
                        reveal_strlit(" (\n");
                    }
                    let mut body = String::new();
                    for i in 0..n
                        invariant
                            n == kids@.len(),
                            self.children == Some(*kids),
                            kv == nodes_view(kids@),
                            lvl as int == (if indent as int > max_indent() {
                                max_indent()
                            } else {
                                indent as int
                            }),
                            body@ == spec_pretty_kids_upto(kv, indent as int + 1, i as int),
                    {
                        proof {
                            assert(kids@[i as int] == self.children->0@[i as int]);
                            lemma_nodes_view(kids@);
                        }
                        let line = kids[i].pretty_print(lvl + 1);
                        body.append(line.as_str());
                        crate::strs::push_char(&mut body, '\n');
                        proof {
                            lemma_pretty_kids_upto(kv, indent as int + 1, i as int);
                            lemma_pretty_indent_cap(kids@[i as int]@, indent as int);
                            assert(line@ == spec_pretty(kv[i as int], indent as int + 1));
                            assert(body@ =~= spec_pretty_kids_upto(
                                kv,
                                indent as int + 1,
                                i as int + 1,
                            ));
                        }
                    }
                    proof {
                        lemma_pretty_kids_upto_all(kv, indent as int + 1);
                    }
                    out.append(body.as_str());
                    let tail = crate::strs::repeat_char(' ', 2 * lvl);
                    out.append(tail.as_str());
                    crate::strs::push_char(&mut out, ')');
                },
                None => {},
            }
        }
        proof {
            assert(out@ =~= spec_pretty(self@, indent as int));
        }
        out
    }
}

/// The pretty-printed first `k` children.
pub open spec fn spec_pretty_kids_upto(kids: Seq<NodeV>, indent: int, k: int) -> Seq<char> {
    spec_pretty_kids(kids.take(k), indent)
}

/// Extending the printed children by one appends its line.
pub proof fn lemma_pretty_kids_upto(kids: Seq<NodeV>, indent: int, k: int)
    requires
        0 <= k < kids.len(),
    ensures
        spec_pretty_kids_upto(kids, indent, k + 1) == spec_pretty_kids_upto(kids, indent, k)
            + spec_pretty(kids[k], indent) + seq!['\n'],
    decreases kids.len(),
{
    if k == 0 {
        assert(kids.take(1)[0] == kids[0]);
        assert(kids.take(1).drop_first() =~= Seq::<NodeV>::empty());
        assert(kids.take(0) =~= Seq::<NodeV>::empty());
        assert(spec_pretty_kids_upto(kids, indent, 1) =~= spec_pretty(kids[0], indent)
            + seq!['\n']);
        assert(spec_pretty_kids_upto(kids, indent, 0) + spec_pretty(kids[0], indent)
            + seq!['\n'] =~= spec_pretty(kids[0], indent) + seq!['\n']);
    } else {
        lemma_pretty_kids_upto(kids.drop_first(), indent, k - 1);
        assert(kids.take(k + 1)[0] == kids[0]);
        assert(kids.take(k)[0] == kids[0]);
        assert(kids.take(k + 1).drop_first() =~= kids.drop_first().take(k));
        assert(kids.take(k).drop_first() =~= kids.drop_first().take(k - 1));
        assert(spec_pretty_kids_upto(kids, indent, k + 1) =~= spec_pretty_kids_upto(
            kids,
            indent,
            k,
        ) + spec_pretty(kids[k], indent) + seq!['\n']);
    }
}

/// All children printed equals the printed prefix of full length.
pub proof fn lemma_pretty_kids_upto_all(kids: Seq<NodeV>, indent: int)
    ensures
        spec_pretty_kids_upto(kids, indent, kids.len() as int) == spec_pretty_kids(kids, indent),
{
    assert(kids.take(kids.len() as int) =~= kids);
}

/// Printing at a level past the cap prints as at the cap.
pub proof fn lemma_pretty_indent_cap(n: NodeV, indent: int)
    requires
        indent >= 0,
    ensures
        spec_pretty(n, indent + 1) == spec_pretty(
            n,
            (if indent > max_indent() {
                max_indent()
            } else {
                indent
            }) + 1,
        ),
    decreases n,
{
    if indent > max_indent() {
        lemma_pretty_same_level(n, indent + 1, max_indent() + 1);
    }
}

/// Two levels at or past the cap print alike.
proof fn lemma_pretty_same_level(n: NodeV, a: int, b: int)
    requires
        a > max_indent(),
        b > max_indent(),
    ensures
        spec_pretty(n, a) == spec_pretty(n, b),
    decreases n, 1int,
{
    assert(spec_indent(a) == spec_indent(b));
    if n.kind is Nonterminal && n.children is Some && n.children->0.len() > 0 {
        lemma_pretty_same_kids(n.children->0, a + 1, b + 1);
    }
}

/// Children at two levels past the cap print alike.
proof fn lemma_pretty_same_kids(kids: Seq<NodeV>, a: int, b: int)
    requires
        a > max_indent(),
        b > max_indent(),
    ensures
        spec_pretty_kids(kids, a) == spec_pretty_kids(kids, b),
    decreases kids, 0int,
{
    if kids.len() > 0 {
        lemma_pretty_same_level(kids[0], a, b);
        lemma_pretty_same_kids(kids.drop_first(), a, b);
    }
}

} // verus!
