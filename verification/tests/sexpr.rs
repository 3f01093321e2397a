use aries_planning::parsing::sexpr::parse;

fn formats_as(input: &str, output: &str) {
    let res = parse(input).unwrap();
    let formatted = res.to_string();
    assert_eq!(&formatted, output);
}

#[test]
fn parsing_quotting() {
    formats_as("'x", "(quote x)");
    formats_as("`x", "(quasiquote x)");
    formats_as(",x", "(unquote x)");
    formats_as("'(x)", "(quote (x))");
    formats_as("`(x)", "(quasiquote (x))");
    formats_as(",(x)", "(unquote (x))");
    formats_as("('x)", "((quote x))");
    formats_as("('(x))", "((quote (x)))");
    formats_as("('x 'y)", "((quote x) (quote y))")
}

#[test]
fn sexpr_parsing() {
    formats_as("aa", "aa");
    formats_as("aa", "aa");
    formats_as(" aa", "aa");
    formats_as("aa ", "aa");
    formats_as(" aa ", "aa");
    formats_as("(a b)", "(a b)");
    formats_as("(a b)", "(a b)");
    formats_as("(a (b c) d)", "(a (b c) d)");
    formats_as(" ( a  ( b  c )   d  )   ", "(a (b c) d)");
    formats_as(
        " ( a  (  
        b  c )   d  )   ",
        "(a (b c) d)",
    );
    formats_as(
        " ( a  ( b ; (y x)
         c )   d
           )  
          ",
        "(a (b c) d)",
    );
}

#[test]
fn parsing_lowercases_atoms() {
    formats_as("(Define (DOMAIN X))", "(define (domain x))");
}

#[test]
fn parsing_errors() {
    assert_eq!(parse(")").unwrap_err().msg, "Unexpected closing parenthesis");
    assert_eq!(parse("(a b").unwrap_err().msg, "Unexpected end of output");
    assert_eq!(parse("").unwrap_err().msg, "Unexpected end of output");
    assert_eq!(parse("; only a comment").unwrap_err().msg, "Unexpected end of output");
}

#[test]
fn parsing_ignores_trailing() {
    formats_as("a b", "a");
    formats_as("(a) )", "(a)");
}

#[test]
fn atom_spans() {
    let e = parse("( a (b c))").unwrap();
    let l = e.as_list().unwrap();
    assert_eq!(l.span.start.column, 0);
    assert_eq!(l.span.end.column, 9);
    let a = l.get(0).as_atom().unwrap();
    let span = a.loc.unwrap().span;
    assert_eq!((span.start.column, span.end.column), (2, 2));
    let inner = l.get(1).as_list().unwrap();
    assert_eq!((inner.span.start.column, inner.span.end.column), (4, 8));
    let multi = parse(" \n\n(a (b c \n    d (e f g))\n\n)").unwrap();
    let ml = multi.as_list().unwrap();
    assert_eq!((ml.span.start.line, ml.span.start.column), (2, 0));
    assert_eq!((ml.span.end.line, ml.span.end.column), (5, 0));
    let d = ml.get(1).as_list().unwrap().get(2).as_atom().unwrap();
    assert_eq!(d.loc.unwrap().span.start, aries_planning::input::Pos { line: 3, column: 4 });
}

#[test]
fn printed_forms_read_back() {
    for input in [
        "aa",
        " ( A  ( b ; (y x)\n c )   D  ) ",
        "('x `(y ,z) ())",
        "(define (domain d) (:requirements :strips) (:predicates (at ?x - loc)))",
    ] {
        let printed = parse(input).unwrap().to_string();
        let again = parse(&printed).unwrap().to_string();
        assert_eq!(again, printed);
    }
}
