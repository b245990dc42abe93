use workbench::grammar::Grammar;
use workbench::grammar::Production;
use workbench::typing::Conclusion;
use workbench::typing::Premise;
use workbench::typing::TypingJudgment;
use workbench::typing::TypingRule;

pub const STLC_SPEC: &str = r#"

    // Identifier
    Identifier ::= /[a-zA-Z][a-zA-Z0-9_]*/

    // Variables
    Variable(var) ::= Identifier[x]

    // Type names
    TypeName ::= Identifier

    // Base types
    BaseType ::= TypeName | '(' Type ')'

    // Function types (right-associative)
    Type ::= BaseType[τ₁] '->' Type[τ₂] | BaseType[τ]

    // Typed parameter
    TypedParam ::= Variable[x] ':' Type[τ]

    // Lambda abstraction
    Lambda(lambda) ::= 'λ' TypedParam '.' Term[e]

    // Base terms (cannot be applications)
    BaseTerm ::= Variable | Lambda | '(' Term ')'

    // Applications (left-associative via iteration)
    Application(app) ::= BaseTerm[f] BaseTerm[e]

    // Terms
    Term ::= Application[e] | BaseTerm[e]

    // Typing Rules
    x ∈ Γ
    ------------ (var)
    Γ(x)

    Γ[x:τ₁] ⊢ e : τ₂
    --------------------------- (lambda)
    τ₁ → τ₂

    Γ ⊢ f : τ₁ → τ₂, Γ ⊢ e : τ₁
    -------------------------------- (app)
    τ₂
    "#;

fn prods<'a>(g: &'a Grammar, name: &str) -> &'a Vec<Production> {
    &g.productions.iter().find(|p| p.0 == name).expect("nonterminal not declared").1
}

fn rule<'a>(g: &'a Grammar, name: &str) -> &'a TypingRule {
    &g.typing_rules.iter().find(|p| p.0 == name).expect("typing rule not present").1
}

#[test]
fn parses_unified_stlc_grammar() {
    let grammar = Grammar::load(STLC_SPEC).expect("Parser failed");

    // Check productions
    assert!(grammar.has_production("Variable"));
    assert!(grammar.has_production("Lambda"));
    let lambda_prods = prods(&grammar, "Lambda");
    assert_eq!(lambda_prods.len(), 1);
    assert_eq!(lambda_prods[0].rule, Some("lambda".to_string()));

    let typed_param_prod = prods(&grammar, "TypedParam");
    let var_symbol = typed_param_prod[0].rhs.iter().find(|s| s.value == "Variable").unwrap();
    assert_eq!(var_symbol.binding, Some("x".to_string()));

    // Check typing rules
    assert_eq!(grammar.typing_rules.len(), 3);
    assert!(grammar.has_typing_rule("var"));
    assert!(grammar.has_typing_rule("lambda"));
    assert!(grammar.has_typing_rule("app"));

    let lambda_rule = rule(&grammar, "lambda");
    match &lambda_rule.conclusion {
        Conclusion::TypeValue(s) => assert_eq!(s, "τ₁ → τ₂"),
        _ => panic!("Expected TypeValue for lambda conclusion"),
    }
    assert_eq!(lambda_rule.premises.len(), 1);
    match &lambda_rule.premises[0] {
        Premise::Judgment(TypingJudgment { extensions, expression, type_expr }) => {
            assert_eq!(extensions.len(), 1);
            assert_eq!(extensions[0].variable, "x");
            assert_eq!(extensions[0].type_expr, "τ₁");
            assert_eq!(expression, "e");
            assert_eq!(type_expr, "τ₂");
        }
        _ => panic!("Expected typing judgment for lambda premise"),
    }

    let app_rule = rule(&grammar, "app");
    match &app_rule.conclusion {
        Conclusion::TypeValue(s) => assert_eq!(s, "τ₂"),
        _ => panic!("Expected TypeValue for app conclusion"),
    }
    assert_eq!(app_rule.premises.len(), 2);
    match &app_rule.premises[0] {
        Premise::Judgment(TypingJudgment { extensions, expression, type_expr }) => {
            assert!(extensions.is_empty());
            assert_eq!(expression, "f");
            assert_eq!(type_expr, "τ₁ → τ₂");
        }
        _ => panic!("Expected typing judgment for app premise 0"),
    }
    match &app_rule.premises[1] {
        Premise::Judgment(TypingJudgment { extensions, expression, type_expr }) => {
            assert!(extensions.is_empty());
            assert_eq!(expression, "e");
            assert_eq!(type_expr, "τ₁");
        }
        _ => panic!("Expected typing judgment for app premise 1"),
    }
}

#[test]
fn roundtrip_write_and_parse() {
    let grammar1 = Grammar::load(STLC_SPEC).expect("parse");
    let spec = grammar1.to_spec_string();
    println!("Generated spec:\n{}", spec);
    let grammar2 = Grammar::load(&spec).expect("re-parse");

    // Compare essential parts instead of direct equality (entry order can differ)
    assert_eq!(grammar1.productions.len(), grammar2.productions.len());
    assert_eq!(grammar1.typing_rules.len(), grammar2.typing_rules.len());

    // Check that all production keys exist in both
    for (key, _) in &grammar1.productions {
        assert!(grammar2.has_production(key), "Missing production key: {}", key);
        assert_eq!(prods(&grammar1, key), prods(&grammar2, key), "Production mismatch for key: {}", key);
    }

    // Check that all typing rule keys exist in both
    for (key, _) in &grammar1.typing_rules {
        assert!(grammar2.has_typing_rule(key), "Missing typing rule key: {}", key);
        assert_eq!(rule(&grammar1, key), rule(&grammar2, key), "Typing rule mismatch for key: {}", key);
    }

    // Special tokens should be the same (order doesn't matter)
    let mut tokens1 = grammar1.special_tokens.clone();
    let mut tokens2 = grammar2.special_tokens.clone();
    tokens1.sort();
    tokens2.sort();
    assert_eq!(tokens1, tokens2);
}
