use lib::sexpr::{parse, SExpr};

#[test]
fn parses_comments_atoms_and_lists() {
    assert_eq!(
        parse("; hello\n(+ -12 #t)"),
        Ok(vec![SExpr::List(vec![
            SExpr::Symbol("+".into()),
            SExpr::Number(-12),
            SExpr::Bool(true),
        ])])
    );
}
