use minilisp::expr::Expr;
use minilisp::read::read_buffer;
use minilisp::read::read_string;
use minilisp::read::ReadError;
use minilisp::read::Reader;

fn samples() -> Vec<Expr> {
    vec![
        Expr::new_integer(0),
        Expr::new_integer(5),
        Expr::new_integer(-5),
        Expr::new_integer(isize::MAX),
        Expr::new_integer(isize::MIN),
        Expr::new_symbol("a"),
        Expr::new_symbol("+"),
        Expr::new_symbol("-"),
        Expr::new_symbol("define"),
        Expr::new_symbol("parent-unique"),
        Expr::new_symbol("λ"),
        Expr::new_symbol("1+"),
        Expr::new_list(vec![]),
        Expr::new_list(vec![Expr::new_list(vec![])]),
        Expr::new_list(vec![Expr::new_symbol("a")]),
        Expr::new_list(vec![
            Expr::new_symbol("values"),
            Expr::new_symbol("b"),
            Expr::new_list(vec![
                Expr::new_symbol("+"),
                Expr::new_integer(1),
                Expr::new_symbol("b"),
            ]),
            Expr::new_symbol("c"),
        ]),
        Expr::new_list(vec![
            Expr::new_list(vec![Expr::new_list(vec![Expr::new_integer(-1)])]),
            Expr::new_list(vec![]),
            Expr::new_integer(2),
        ]),
    ]
}

#[test]
fn reading_the_text_of_an_expression_gives_it_back() {
    for e in samples() {
        assert_eq!(read_string(&e.to_string()), Ok(e));
    }
}

#[test]
fn reading_the_text_of_an_expression_takes_all_of_it() {
    for e in samples() {
        let text = e.to_string();
        let mut reader = Reader::new(text.as_bytes());
        assert_eq!(read_buffer(&mut reader), Ok(e));
        assert_eq!(reader.fill_buf(), "".as_bytes());
    }
}

#[test]
fn reading_the_text_of_an_expression_leaves_what_follows() {
    for e in samples() {
        let text = e.to_string() + " next";
        let mut reader = Reader::new(text.as_bytes());
        assert_eq!(read_buffer(&mut reader), Ok(e));
        assert_eq!(reader.fill_buf(), " next".as_bytes());
    }
}

#[test]
fn some_symbols_are_not_read_back() {
    let digits = Expr::new_symbol("5");
    assert_eq!(read_string(&digits.to_string()), Ok(Expr::new_integer(5)));

    let spaced = Expr::new_symbol("a b");
    assert_eq!(read_string(&spaced.to_string()), Ok(Expr::new_symbol("a")));

    let empty = Expr::new_symbol("");
    assert_eq!(read_string(&empty.to_string()), Err(ReadError::Empty));

    let paren = Expr::new_symbol(")");
    assert_eq!(read_string(&paren.to_string()), Err(ReadError::UnbalancedParen));
}
