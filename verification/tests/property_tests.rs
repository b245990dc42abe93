use workbench::ast::ASTNode;
use workbench::ast::NodeKind;
use workbench::ast::SourceSpan;
use workbench::context::TypingContext;
use workbench::grammar::Grammar;
use workbench::grammar::Symbol;
use workbench::judgment::parse_context_extensions;
use workbench::judgment::parse_judgement;
use workbench::judgment::parse_membership;
use workbench::judgment::parse_type_relation;
use workbench::notation::is_regex;
use workbench::notation::parse_inference_rule;
use workbench::notation::parse_nonterminal;
use workbench::notation::parse_production;
use workbench::notation::special_tokens;
use workbench::notation::trailing_name;
use workbench::parser::Parser;
use workbench::validation::validate_conclusion;
use workbench::validation::validate_type_expr;

#[test]
fn binding_propagates_to_terminal_node() {
    let grammar = Grammar::load("Variable ::= y[x]").expect("grammar should load");
    let mut parser = Parser::new(grammar);
    let tree = parser.parse("y").expect("should parse");
    assert_eq!(tree.value, "Variable");
    let kids = tree.children.as_ref().unwrap();
    assert_eq!(kids.len(), 1);
    assert!(matches!(kids[0].kind, NodeKind::Terminal));
    assert_eq!(kids[0].value, "y");
    assert_eq!(kids[0].binding, Some("x".to_string()));
}

#[test]
fn ordered_alternatives_take_the_first_match() {
    // A left-recursive second alternative must not keep the parser from
    // terminating, and the first alternative must win.
    let grammar = Grammar::load("A ::= 'x' | A 'x'").expect("grammar should load");
    let mut parser = Parser::new(grammar);
    let tree = parser.parse("x").expect("should parse");
    assert_eq!(tree.value, "A");
    let kids = tree.children.as_ref().unwrap();
    assert_eq!(kids.len(), 1);
    assert!(matches!(kids[0].kind, NodeKind::Terminal));
    assert_eq!(kids[0].value, "x");
}

#[test]
fn judgment_with_extensions_parses() {
    let (exts, expression, type_expr) =
        parse_judgement("Γ,x:τ₁,y:τ₂ ⊢ e : σ").expect("judgment should parse");
    let exts = exts.expect("extensions expected");
    assert_eq!(exts, vec![
        ("x".to_string(), "τ₁".to_string()),
        ("y".to_string(), "τ₂".to_string()),
    ]);
    assert_eq!(expression, "e");
    assert_eq!(type_expr, "σ");
}

#[test]
fn judgment_bracket_extensions_parse() {
    let (exts, expression, type_expr) =
        parse_judgement("Γ[x:τ₁] ⊢ e : τ₂").expect("judgment should parse");
    assert_eq!(exts, Some(vec![("x".to_string(), "τ₁".to_string())]));
    assert_eq!(expression, "e");
    assert_eq!(type_expr, "τ₂");
}

#[test]
fn context_extensions_reject_bad_shapes() {
    // Missing the leading context symbol.
    assert!(parse_context_extensions("x:τ").is_err());
    // Malformed pair without a colon.
    assert!(parse_context_extensions("Γ,xτ").is_err());
    // The well-formed shape for contrast.
    let (base, exts) = parse_context_extensions("Γ,x:τ").expect("should parse");
    assert_eq!(base, "Γ");
    assert_eq!(exts, vec![("x".to_string(), "τ".to_string())]);
}

#[test]
fn end_to_end_stlc_application() {
    let spec = "Identifier ::= /[a-zA-Z][a-zA-Z0-9_]*/\n\n\
        Variable(var) ::= Identifier[x]\n\n\
        Lambda(lambda) ::= 'λ' Variable[x] ':' Identifier[τ] '.' Term[e]\n\n\
        BaseTerm ::= Variable | Lambda | '(' Term ')'\n\n\
        Application(app) ::= BaseTerm[f] BaseTerm[e]\n\n\
        Term ::= Application[e] | BaseTerm[e]\n\n\
        x ∈ Γ\n\
        ------------ (var)\n\
        Γ(x)\n\n\
        Γ[x:τ₁] ⊢ e : τ₂\n\
        ------------------ (lambda)\n\
        τ₁ → τ₂\n\n\
        Γ ⊢ f : τ₁ → τ₂, Γ ⊢ e : τ₁\n\
        ------------------------------ (app)\n\
        τ₂\n";
    let grammar = Grammar::load(spec).expect("grammar should load");
    let mut parser = Parser::new(grammar);
    let tree = parser.parse("x y").expect("should parse");
    assert_eq!(tree.value, "Term");
    let kids = tree.children.as_ref().unwrap();
    assert_eq!(kids.len(), 1);
    let app = &kids[0];
    assert_eq!(app.value, "Application");
    assert_eq!(app.typing_rule.as_ref().expect("app rule attached").name, "app");
    let app_kids = app.children.as_ref().unwrap();
    assert_eq!(app_kids.len(), 2);
    assert_eq!(app_kids[0].value, "BaseTerm");
    assert_eq!(app_kids[1].value, "BaseTerm");
}

#[test]
fn incomplete_input_is_rejected() {
    let grammar = Grammar::load("Expr ::= Term '+' Expr | Term\n\nTerm ::= /[0-9]+/")
        .expect("grammar should load");
    let mut parser = Parser::new(grammar);
    assert!(parser.parse("1 +").is_err());
    // The complete form for contrast.
    let grammar = Grammar::load("Expr ::= Term '+' Expr | Term\n\nTerm ::= /[0-9]+/")
        .expect("grammar should load");
    let mut parser = Parser::new(grammar);
    assert!(parser.parse("1 + 2").is_ok());
}

#[test]
fn empty_input_is_rejected() {
    let grammar = Grammar::load("A ::= 'x'").expect("grammar should load");
    let mut parser = Parser::new(grammar);
    assert!(parser.parse("").is_err());
    let grammar = Grammar::load("A ::= 'x'").expect("grammar should load");
    let mut parser = Parser::new(grammar);
    assert!(parser.parse("   ").is_err());
}

#[test]
fn regex_terminals_decide_matches() {
    let grammar = Grammar::load("Number ::= /[0-9]+/").expect("grammar should load");
    let mut parser = Parser::new(grammar);
    assert!(parser.parse("42").is_ok());
    let grammar = Grammar::load("Number ::= /[0-9]+/").expect("grammar should load");
    let mut parser = Parser::new(grammar);
    assert!(parser.parse("ab").is_err());
}

#[test]
fn membership_needs_exactly_two_sides() {
    assert_eq!(
        parse_membership("x ∈ Γ").expect("should parse"),
        ("x".to_string(), "Γ".to_string())
    );
    assert!(parse_membership("x ∈ Γ ∈ y").is_err());
    assert!(parse_membership("x y").is_err());
}

#[test]
fn type_relation_scan() {
    assert_eq!(
        parse_type_relation("τ₁ = τ₂").expect("should parse"),
        ("τ₁".to_string(), "τ₂".to_string(), "=".to_string())
    );
    assert_eq!(
        parse_type_relation("a ⊆ b").expect("should parse"),
        ("a".to_string(), "b".to_string(), "⊆".to_string())
    );
    // No relation symbol at all.
    assert!(parse_type_relation("ab").is_err());
    // An empty right side.
    assert!(parse_type_relation("a =").is_err());
    // An empty left side.
    assert!(parse_type_relation("= b").is_err());
}

#[test]
fn conclusion_validation() {
    assert!(validate_conclusion("τ₁→τ₂").is_ok());
    // Unicode letters count as alphanumerics.
    assert!(validate_conclusion("αβ").is_ok());
    assert!(validate_conclusion("foo !").is_err());
    assert!(validate_conclusion("Γ ⊢ e : τ").is_ok());
    assert!(validate_conclusion("a ⊢ b ⊢ c").is_err());
    assert!(validate_type_expr("x_1:τ"));
    assert!(!validate_type_expr(""));
    assert!(!validate_type_expr("a b"));
}

#[test]
fn notation_helpers() {
    assert!(is_regex("/[0-9]+/"));
    assert!(!is_regex("//"));
    assert!(!is_regex("abc"));

    let (lhs, rhs) = parse_production("  Lambda(lambda) ::= 'λ' Term  ").expect("should split");
    assert_eq!(lhs, "Lambda(lambda)");
    assert_eq!(rhs, "'λ' Term");
    assert!(parse_production("no production here").is_err());

    let (name, rule) = parse_nonterminal("Lambda(lambda)").expect("should parse");
    assert_eq!(name, "Lambda");
    assert_eq!(rule, Some("lambda".to_string()));
    let (name, rule) = parse_nonterminal("Term").expect("should parse");
    assert_eq!(name, "Term");
    assert_eq!(rule, None);
    let (name, rule) = parse_nonterminal("Term()").expect("should parse");
    assert_eq!(name, "Term");
    assert_eq!(rule, None);

    let found = special_tokens("'a' 'b' x | \"c\" 'a' /[0-9]+/");
    assert_eq!(found, vec!["a".to_string(), "b".to_string(), "c".to_string()]);
}

#[test]
fn inference_rule_block_shapes() {
    let lines = vec![
        "x ∈ Γ".to_string(),
        "------------ (var)".to_string(),
        "Γ(x)".to_string(),
    ];
    let (premises, conclusion, name) = parse_inference_rule(&lines).expect("should parse");
    assert_eq!(premises, "x ∈ Γ");
    assert_eq!(conclusion, "Γ(x)");
    assert_eq!(name, "var");

    // The name may trail the conclusion line instead.
    let lines = vec![
        "x ∈ Γ".to_string(),
        "------------".to_string(),
        "Γ(x) (var)".to_string(),
    ];
    let (premises, conclusion, name) = parse_inference_rule(&lines).expect("should parse");
    assert_eq!(premises, "x ∈ Γ");
    assert_eq!(conclusion, "Γ(x)");
    assert_eq!(name, "var");

    // No separator fails.
    assert!(parse_inference_rule(&vec!["x ∈ Γ".to_string()]).is_err());
    // Without a name on the separator, a parenthesized tail of the
    // conclusion is read as the name.
    let lines = vec!["x ∈ Γ".to_string(), "------------".to_string(), "Γ(x)".to_string()];
    let (_, conclusion, name) = parse_inference_rule(&lines).expect("should parse");
    assert_eq!(name, "x");
    assert_eq!(conclusion, "Γ");
    // With no name anywhere, the block fails.
    let lines = vec!["x ∈ Γ".to_string(), "------------".to_string(), "τ".to_string()];
    assert!(parse_inference_rule(&lines).is_err());

    assert_eq!(
        trailing_name("---- (app)"),
        Some(("app".to_string(), "----".to_string()))
    );
    assert_eq!(trailing_name("no name here"), None);
}

#[test]
fn unresolved_rule_names_attach_nothing() {
    let grammar = Grammar::load("Variable(missing) ::= 'x'").expect("grammar should load");
    let mut parser = Parser::new(grammar);
    let tree = parser.parse("x").expect("should parse");
    assert!(tree.typing_rule.is_none());
}

#[test]
fn malformed_rule_blocks_fail_to_load() {
    // A premise in no recognised form.
    assert!(Grammar::load("strange premise\n--- (r)\nτ").is_err());
    // A conclusion outside the type alphabet.
    assert!(Grammar::load("x ∈ Γ\n--- (r)\n!!!").is_err());
    // A rule block without a name.
    assert!(Grammar::load("x ∈ Γ\n---\nΓ(x)").is_err());
}

#[test]
fn writer_output_is_deterministic() {
    let grammar = Grammar::load("B ::= 'y'\n\nA ::= 'x' | B").expect("grammar should load");
    let text = grammar.to_spec_string();
    assert_eq!(
        text,
        "// --- Production Rules ---\nA ::= 'x' | B\nB ::= 'y'\n\n"
    );
}

#[test]
fn canonical_codec_concrete_roundtrip() {
    let grammar = Grammar::new();
    let leaf = ASTNode {
        kind: NodeKind::Terminal,
        value: "x".to_string(),
        span: Some(SourceSpan { start: 0, end: 1 }),
        children: None,
        binding: Some("v".to_string()),
        typing_rule: None,
    };
    let root = ASTNode {
        kind: NodeKind::Nonterminal,
        value: "Variable".to_string(),
        span: Some(SourceSpan { start: 0, end: 1 }),
        children: Some(vec![leaf]),
        binding: None,
        typing_rule: None,
    };
    let text = root.serialize();
    assert_eq!(text, "(N Variable(T (b v)\"x\"))");
    let back = ASTNode::parse(&text, &grammar).expect("should parse");
    assert!(back.syneq(&root));
    assert!(ASTNode::parse("(N Variable", &grammar).is_err());
    assert!(ASTNode::parse("(N Variable(T \"x\")) extra", &grammar).is_err());
}

#[test]
fn structural_equality_ignores_spans_only() {
    let a = ASTNode {
        kind: NodeKind::Terminal,
        value: "x".to_string(),
        span: Some(SourceSpan { start: 0, end: 1 }),
        children: None,
        binding: None,
        typing_rule: None,
    };
    let b = ASTNode {
        kind: NodeKind::Terminal,
        value: "x".to_string(),
        span: Some(SourceSpan { start: 5, end: 6 }),
        children: None,
        binding: None,
        typing_rule: None,
    };
    assert!(a.syneq(&b));
    let c = ASTNode {
        kind: NodeKind::Terminal,
        value: "x".to_string(),
        span: None,
        children: None,
        binding: Some("v".to_string()),
        typing_rule: None,
    };
    assert!(!a.syneq(&c));
}

#[test]
fn symbols_and_contexts() {
    let s = Symbol::new("Term".to_string());
    assert_eq!(s.value, "Term");
    assert_eq!(s.binding, None);
    let s = Symbol::with_binding("Term".to_string(), "e".to_string());
    assert_eq!(s.binding, Some("e".to_string()));

    let mut ctx = TypingContext::new();
    assert_eq!(ctx.bindings.len(), 0);
    ctx.bind("x".to_string(), "P".to_string());
    ctx.bind("y".to_string(), "Q".to_string());
    ctx.bind("x".to_string(), "R".to_string());
    assert_eq!(ctx.bindings.len(), 2);
    assert_eq!(ctx.lookup("x"), Some(&"R".to_string()));
    assert_eq!(ctx.lookup("z"), None);
}

#[test]
fn pretty_print_shapes() {
    let leaf = ASTNode {
        kind: NodeKind::Terminal,
        value: "x".to_string(),
        span: None,
        children: None,
        binding: Some("v".to_string()),
        typing_rule: None,
    };
    assert_eq!(leaf.pretty_print(1), "  'x'[v]");
    let root = ASTNode {
        kind: NodeKind::Nonterminal,
        value: "Variable".to_string(),
        span: None,
        children: Some(vec![leaf]),
        binding: None,
        typing_rule: None,
    };
    assert_eq!(root.pretty_print(0), "Variable (\n  'x'[v]\n)");
}
