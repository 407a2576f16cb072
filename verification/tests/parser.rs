use bqrs::parser::{build_bquery, tokenise_query};

fn do_both(s: String) {
    build_bquery(tokenise_query(s).unwrap()).unwrap();
}

#[test]
fn parser_test() {
    do_both("\"iphone\"".to_string());
}

#[test]
#[should_panic]
fn test2() {
    do_both("iphone".to_string());
}

#[test]
fn whitespace() {
    do_both("\"iphone\" | \"i phone\"".to_string());
}
