use bqrs::Matcher;

fn print_on_failure(m: &Matcher, s: &str) {
    assert!(m.query(s), "was trying to match the string '{}'", s);
}

#[test]
fn matcher_test() {
    let iphonex = Matcher::from("\"iphone\" | \"i phone\"").unwrap();
    print_on_failure(&iphonex, "I love my new iphone!");
}

#[test]
fn groups() {
    let greeting = Matcher::from("(\"hello\" | \"hi\") & \"there\")").unwrap();
    print_on_failure(&greeting, "hi there, my name is Kyuss Caesar");
    print_on_failure(&greeting, "hello there, this should also be a greeting");
}

#[test]
fn casesens() {
    let greeting = Matcher::from("('hello'|'hi'|'ho') & 'there'").unwrap();
    print_on_failure(&greeting, "HELLO THERE");
    print_on_failure(&greeting, "hI THERE");
    print_on_failure(&greeting, "Hi there!");
}
