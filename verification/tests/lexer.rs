use graphing_calculator::algebra_parser::lexical_analyzer::{
    analyze, classify_text, clean, get_terms, match_operation, match_token_to_priority,
    scan_classified, strip_spaces, token_is_greater_than, token_is_less_than, tokenize,
    Classified, LexicalError, Tokens,
};
use graphing_calculator::algebra_parser::{generate_all_ast, Definition};

fn definition(name: &str, expression: &str) -> Definition {
    Definition { name: name.to_string(), expression: expression.to_string() }
}

#[test]
fn lexical_analysis() {
    let analysis = analyze(&Vec::new());
    assert!(matches!(analysis, Ok(ref list) if list.is_empty()));
}

#[test]
fn spaces_are_taken_out() {
    assert_eq!(strip_spaces(" 2 * x  + 1 "), "2*x+1");
    assert_eq!(strip_spaces(""), "");
    assert_eq!(strip_spaces("   "), "");
    assert_eq!(strip_spaces("a\tb"), "a\tb");
    let cleaned = clean(&vec![definition("f", "x + 1"), definition("g g", " ( y ) ")]);
    assert_eq!(cleaned.len(), 2);
    assert_eq!(cleaned[0].name, "f");
    assert_eq!(cleaned[0].expression, "x+1");
    assert_eq!(cleaned[1].name, "g g");
    assert_eq!(cleaned[1].expression, "(y)");
}

#[test]
fn operations() {
    assert_eq!(match_operation('('), Some(Tokens::ParenthesisLeft));
    assert_eq!(match_operation(')'), Some(Tokens::ParenthesisRight));
    assert_eq!(match_operation('^'), Some(Tokens::Exponent));
    assert_eq!(match_operation('*'), Some(Tokens::Mul));
    assert_eq!(match_operation('/'), Some(Tokens::Div));
    assert_eq!(match_operation('+'), Some(Tokens::Add));
    assert_eq!(match_operation('-'), Some(Tokens::Sub));
    assert_eq!(match_operation('x'), None);
    assert_eq!(match_operation('='), None);
}

#[test]
fn priorities() {
    assert_eq!(match_token_to_priority(Tokens::ParenthesisLeft), 61);
    assert_eq!(match_token_to_priority(Tokens::ParenthesisRight), 60);
    assert_eq!(match_token_to_priority(Tokens::Function), 50);
    assert_eq!(match_token_to_priority(Tokens::Exponent), 40);
    assert_eq!(match_token_to_priority(Tokens::Mul), 31);
    assert_eq!(match_token_to_priority(Tokens::Div), 30);
    assert_eq!(match_token_to_priority(Tokens::Add), 20);
    assert_eq!(match_token_to_priority(Tokens::Sub), 10);
    assert_eq!(match_token_to_priority(Tokens::Procedure(4)), 3);
    assert_eq!(match_token_to_priority(Tokens::Variable(4)), 2);
    assert_eq!(match_token_to_priority(Tokens::Number(4)), 1);
}

#[test]
fn tokens_are_compared_by_rank() {
    assert!(!token_is_less_than(Tokens::Mul, Tokens::Div));
    assert!(!token_is_greater_than(Tokens::Mul, Tokens::Div));
    assert!(token_is_less_than(Tokens::Sub, Tokens::Add));
    assert!(token_is_greater_than(Tokens::Add, Tokens::Sub));
    assert!(token_is_less_than(Tokens::Add, Tokens::Mul));
    assert!(token_is_greater_than(Tokens::Exponent, Tokens::Mul));
    assert!(!token_is_less_than(Tokens::Number(1), Tokens::Variable(1)));
    assert!(token_is_less_than(Tokens::Procedure(1), Tokens::Sub));
    assert!(!token_is_greater_than(Tokens::ParenthesisLeft, Tokens::ParenthesisRight));
}

#[test]
fn single_characters() {
    assert_eq!(tokenize(""), Ok(vec![]));
    assert_eq!(tokenize("+"), Ok(vec![Tokens::Add]));
    assert_eq!(tokenize("?"), Ok(vec![]));
    assert_eq!(tokenize("7"), Ok(vec![Tokens::Number(1)]));
    assert_eq!(tokenize("x"), Ok(vec![]));
    assert_eq!(tokenize("("), Err(LexicalError::ParenthesisAssign));
    assert_eq!(tokenize(")"), Err(LexicalError::ParenthesisAssign));
}

#[test]
fn operations_in_a_row() {
    assert_eq!(
        tokenize("(+)"),
        Ok(vec![Tokens::ParenthesisLeft, Tokens::Add, Tokens::ParenthesisRight])
    );
    assert_eq!(
        tokenize("*/^-"),
        Ok(vec![Tokens::Mul, Tokens::Div, Tokens::Exponent, Tokens::Sub])
    );
    assert_eq!(tokenize(")("), Ok(vec![Tokens::ParenthesisRight, Tokens::ParenthesisLeft]));
    assert_eq!(tokenize("(("), Err(LexicalError::ParenthesisAssign));
}

#[test]
fn a_number_takes_what_follows_it() {
    assert_eq!(tokenize("12+3"), Ok(vec![Tokens::Number(3)]));
    assert_eq!(tokenize("3.14*2"), Ok(vec![Tokens::Number(5)]));
    assert_eq!(tokenize("123"), Ok(vec![Tokens::Number(3)]));
    assert_eq!(tokenize("1("), Ok(vec![Tokens::Number(2)]));
    assert_eq!(tokenize("1+2+3"), Ok(vec![Tokens::Number(2), Tokens::Add, Tokens::Number(1)]));
}

#[test]
fn a_name_is_counted_up_to_its_operation() {
    assert_eq!(tokenize("x+y"), Ok(vec![Tokens::Variable(1)]));
    assert_eq!(tokenize("abc*"), Ok(vec![Tokens::Variable(3)]));
    assert_eq!(tokenize("+x+"), Ok(vec![Tokens::Add, Tokens::Variable(0)]));
    assert_eq!(tokenize("xy"), Ok(vec![]));
    assert_eq!(tokenize("(x)"), Err(LexicalError::ParenthesisAssign));
}

#[test]
fn a_name_before_anything_else_fails() {
    assert_eq!(tokenize("x2"), Err(LexicalError::ProcedureSyntax));
    assert_eq!(tokenize("x y"), Err(LexicalError::ProcedureSyntax));
    assert_eq!(tokenize("f=1"), Err(LexicalError::ProcedureSyntax));
    assert_eq!(tokenize("?x"), Err(LexicalError::ProcedureSyntax));
}

#[test]
fn analysis_in_the_order_of_the_definitions() {
    let analysis = analyze(&vec![definition("f", "1+2+3"), definition("g", "(+)")]).unwrap();
    assert_eq!(analysis.len(), 2);
    assert_eq!(analysis[0].name, "f");
    assert_eq!(analysis[0].tokens, vec![Tokens::Number(2), Tokens::Add, Tokens::Number(1)]);
    assert_eq!(analysis[1].name, "g");
    assert_eq!(
        analysis[1].tokens,
        vec![Tokens::ParenthesisLeft, Tokens::Add, Tokens::ParenthesisRight]
    );
    assert!(get_terms(analysis).is_empty());
}

#[test]
fn analysis_stops_at_the_first_error() {
    let failed = analyze(&vec![definition("f", "+"), definition("g", "("), definition("h", "x2")]);
    assert!(matches!(failed, Err(LexicalError::ParenthesisAssign)));
    let failed = analyze(&vec![definition("h", "x2"), definition("g", "(")]);
    assert!(matches!(failed, Err(LexicalError::ProcedureSyntax)));
}

#[test]
fn trees_start_from_cleaned_definitions() {
    let analysis = generate_all_ast(&vec![definition("f", " ( + ) "), definition("g", "x y")]);
    let analysis = analysis.unwrap();
    assert_eq!(analysis[0].name, "f");
    assert_eq!(
        analysis[0].tokens,
        vec![Tokens::ParenthesisLeft, Tokens::Add, Tokens::ParenthesisRight]
    );
    assert_eq!(analysis[1].name, "g");
    assert_eq!(analysis[1].tokens, vec![]);
    let failed = generate_all_ast(&vec![definition("f", "x 2")]);
    assert!(matches!(failed, Err(LexicalError::ProcedureSyntax)));
}

#[test]
fn error_messages() {
    assert_eq!(
        LexicalError::ProcedureSyntax.message(),
        "Attempted to locate procedure: Unsucessful"
    );
    assert_eq!(
        LexicalError::ParenthesisAssign.message(),
        "Could not find correspondence for every parenthesis"
    );
}

fn letter(character: char) -> Classified {
    Classified { character, alphabetic: true, numeric: false }
}

fn digit(character: char) -> Classified {
    Classified { character, alphabetic: false, numeric: true }
}

fn other(character: char) -> Classified {
    Classified { character, alphabetic: false, numeric: false }
}

#[test]
fn scan_goes_by_the_classes_it_is_given() {
    assert_eq!(scan_classified(&vec![]), Ok(vec![]));
    assert_eq!(
        scan_classified(&vec![digit('1'), digit('2'), other('+'), digit('3')]),
        Ok(vec![Tokens::Number(3)])
    );
    assert_eq!(
        scan_classified(&vec![letter('x'), other('+'), letter('y')]),
        Ok(vec![Tokens::Variable(1)])
    );
    assert_eq!(
        scan_classified(&vec![other('('), other('+'), other(')')]),
        Ok(vec![Tokens::ParenthesisLeft, Tokens::Add, Tokens::ParenthesisRight])
    );
    assert_eq!(
        scan_classified(&vec![letter('x'), digit('2')]),
        Err(LexicalError::ProcedureSyntax)
    );
    assert_eq!(scan_classified(&vec![other('(')]), Err(LexicalError::ParenthesisAssign));
    // The classes decide, not the character: a plus sign that is called a
    // digit starts a number, and one that is called a letter starts a name.
    assert_eq!(scan_classified(&vec![digit('+')]), Ok(vec![Tokens::Number(1)]));
    assert_eq!(scan_classified(&vec![letter('+')]), Ok(vec![]));
    assert_eq!(scan_classified(&vec![other('7')]), Ok(vec![]));
    // A character of both classes counts as numeric.
    let both = Classified { character: 'a', alphabetic: true, numeric: true };
    assert_eq!(scan_classified(&vec![both, both]), Ok(vec![Tokens::Number(2)]));
    // A point belongs to a number whatever its classes are.
    assert_eq!(
        scan_classified(&vec![digit('1'), letter('.'), digit('5')]),
        Ok(vec![Tokens::Number(3)])
    );
}

#[test]
fn characters_are_classified() {
    assert_eq!(classify_text(""), vec![]);
    assert_eq!(
        classify_text("a1+é٣"),
        vec![letter('a'), digit('1'), other('+'), letter('é'), digit('٣')]
    );
}
