use boolean_lang::ast::Ast;
use boolean_lang::ast::extract_variables;
use boolean_lang::ast::render;
use boolean_lang::eval::Assignment;
use boolean_lang::eval::StepTrace;
use boolean_lang::eval::evaluate_steps;
use boolean_lang::parser::parse_expr;
use boolean_lang::table::TableError;
use boolean_lang::table::generate_truth_table;
use boolean_lang::token::tokenize;

fn parsed(input: &str) -> Ast {
    parse_expr(tokenize(input)).expect("the expression should parse")
}

fn eval(ast: &Ast, values: &Assignment) -> bool {
    let mut steps = StepTrace::new();
    evaluate_steps(ast, values, &mut steps)
}

#[test]
fn extract_variables_in_first_occurrence_order() {
    let ast = parsed("b and ( a or not b ) or c");
    let mut vars = Vec::new();
    extract_variables(&ast, &mut vars);
    assert_eq!(vars, vec!["b".to_string(), "a".to_string(), "c".to_string()]);
}

#[test]
fn render_is_canonical() {
    let ast = parsed("a and ( b or not c )");
    assert_eq!(render(&ast), "( \"a\" and ( \"b\" or not \"c\" ) )");
}

#[test]
fn and_of_two_variables_has_four_rows() {
    let ast = parsed("a and b");
    let table = generate_truth_table(&ast).expect("two variables fit");
    assert_eq!(table.vars, vec!["a".to_string(), "b".to_string()]);
    assert_eq!(table.rows.len(), 4);
    // row 0: a = false, b = false
    assert_eq!(table.rows[0].values.get("a"), Some(false));
    assert_eq!(table.rows[0].values.get("b"), Some(false));
    assert!(!table.rows[0].result);
    // row 3: a = true, b = true
    assert_eq!(table.rows[3].values.get("a"), Some(true));
    assert_eq!(table.rows[3].values.get("b"), Some(true));
    assert!(table.rows[3].result);
}

#[test]
fn not_of_one_variable_has_two_rows() {
    let ast = parsed("not a");
    let table = generate_truth_table(&ast).expect("one variable fits");
    assert_eq!(table.rows.len(), 2);
    assert_eq!(table.rows[0].values.get("a"), Some(false));
    assert!(table.rows[0].result);
    assert_eq!(table.rows[1].values.get("a"), Some(true));
    assert!(!table.rows[1].result);
}

#[test]
fn three_variables_have_eight_rows_with_steps() {
    let ast = parsed("a and ( b or not c )");
    let table = generate_truth_table(&ast).expect("three variables fit");
    assert_eq!(
        table.vars,
        vec!["a".to_string(), "b".to_string(), "c".to_string()]
    );
    assert_eq!(table.rows.len(), 8);
    // row 1: a = true, b = false, c = false
    let row = &table.rows[1];
    assert_eq!(row.values.get("a"), Some(true));
    assert_eq!(row.values.get("b"), Some(false));
    assert_eq!(row.values.get("c"), Some(false));
    assert!(row.result);
    assert_eq!(row.steps.get("not \"c\""), Some(true));
    assert_eq!(row.steps.get("( \"b\" or not \"c\" )"), Some(true));
    assert_eq!(row.steps.get("( \"a\" and ( \"b\" or not \"c\" ) )"), Some(true));
}

#[test]
fn single_variable_rows_mirror_the_assignment() {
    let ast = parsed("x");
    let table = generate_truth_table(&ast).expect("one variable fits");
    assert_eq!(table.rows.len(), 2);
    for row in &table.rows {
        assert_eq!(row.values.get("x"), Some(row.result));
    }
}

#[test]
fn unparsable_input_yields_no_table() {
    assert_eq!(parse_expr(tokenize("( ( a")), None);
}

#[test]
fn too_many_variables_are_rejected() {
    let names: Vec<String> = (0..21).map(|i| format!("v{}", i)).collect();
    let expression = names.join(" or ");
    let ast = parsed(&expression);
    assert!(matches!(
        generate_truth_table(&ast),
        Err(TableError::TooManyVariables)
    ));
}

#[test]
fn ten_variables_have_1024_rows() {
    let names: Vec<String> = (0..10).map(|i| format!("v{}", i)).collect();
    let expression = names.join(" and ");
    let ast = parsed(&expression);
    let table = generate_truth_table(&ast).expect("ten variables fit");
    assert_eq!(table.rows.len(), 1 << 10);
    assert!(table.rows[1023].result);
    assert!(!table.rows[1022].result);
}

#[test]
fn evaluation_is_deterministic() {
    let ast = parsed("a and ( b or not c )");
    let mut values = Assignment::new();
    values.set("a".to_string(), true);
    values.set("b".to_string(), false);
    values.set("c".to_string(), true);
    let first = eval(&ast, &values);
    let second = eval(&ast, &values);
    assert_eq!(first, second);
    assert!(!first);
}

#[test]
fn missing_variable_defaults_to_false() {
    let ast = parsed("a or z");
    let mut lacking = Assignment::new();
    lacking.set("a".to_string(), false);
    let mut explicit = Assignment::new();
    explicit.set("a".to_string(), false);
    explicit.set("z".to_string(), false);
    assert_eq!(eval(&ast, &lacking), eval(&ast, &explicit));
    assert!(!eval(&ast, &lacking));
}

#[test]
fn connective_semantics_hold_row_by_row() {
    let left = parsed("a");
    let right = parsed("b");
    let and = parsed("a and b");
    let or = parsed("a or b");
    let not = parsed("not a");
    for i in 0..4 {
        let mut values = Assignment::new();
        values.set("a".to_string(), i & 1 != 0);
        values.set("b".to_string(), i & 2 != 0);
        let l = eval(&left, &values);
        let r = eval(&right, &values);
        assert_eq!(eval(&and, &values), l && r);
        assert_eq!(eval(&or, &values), l || r);
        assert_eq!(eval(&not, &values), !l);
    }
}

#[test]
fn later_binding_shadows_earlier() {
    let mut values = Assignment::new();
    values.set("a".to_string(), false);
    values.set("a".to_string(), true);
    assert_eq!(values.get("a"), Some(true));
    assert_eq!(values.get("b"), None);
}

#[test]
fn distinct_structures_get_distinct_trace_keys() {
    // `not not a` and `not` of a variable literally named "not a" would
    // collide under an unquoted rendering; the quoted keys keep them apart.
    let nested = Ast::Not(Box::new(Ast::Not(Box::new(Ast::Var("a".to_string())))));
    let exotic = Ast::Not(Box::new(Ast::Var("not a".to_string())));
    let ast = Ast::And(Box::new(nested), Box::new(exotic));
    let values = Assignment::new();
    let mut steps = StepTrace::new();
    let result = evaluate_steps(&ast, &values, &mut steps);
    assert!(!result);
    assert_eq!(steps.get("not not \"a\""), Some(false));
    assert_eq!(steps.get("not \"not a\""), Some(true));
    assert_eq!(steps.get("not \"a\""), Some(true));
}

#[test]
fn render_escapes_quotes_and_backslashes() {
    let quote = Ast::Var("\"".to_string());
    assert_eq!(render(&quote), "\"\\\"\"");
    let backslash = Ast::Var("a\\b".to_string());
    assert_eq!(render(&backslash), "\"a\\\\b\"");
}

#[test]
fn identical_subexpressions_share_one_trace_key() {
    let ast = parsed("( a or a ) and ( a or a )");
    let mut values = Assignment::new();
    values.set("a".to_string(), true);
    let mut steps = StepTrace::new();
    let result = evaluate_steps(&ast, &values, &mut steps);
    assert!(result);
    assert_eq!(steps.get("( \"a\" or \"a\" )"), Some(true));
    assert_eq!(
        steps.get("( ( \"a\" or \"a\" ) and ( \"a\" or \"a\" ) )"),
        Some(true)
    );
}
