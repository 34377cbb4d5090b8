use suslang::tokens::{tokenize, Token};

fn strings(t: Vec<Token>) -> Vec<String> {
    t.into_iter().map(|t| t.0).collect()
}

#[test]
fn tokenize_splits_and_keeps_strings() {
    let s = "\u{da0}complete report \"hello world\"\u{d9e}\n".to_string();
    assert_eq!(
        strings(tokenize(&s)),
        vec!["\u{da0}", "complete", "report", "\"", "hello world", "\"", "\u{d9e}", "\n"]
    );
}

#[test]
fn tokenize_escaped_quote_stays_in_string() {
    let s = "\"a\\\"b\" ".to_string();
    assert_eq!(strings(tokenize(&s)), vec!["\"", "a\\\"b", "\""]);
}

#[test]
fn tokenize_drops_trailing_text() {
    let s = "task main(".to_string();
    assert_eq!(strings(tokenize(&s)), vec!["task", "main", "("]);
    assert_eq!(strings(tokenize(&"tail".to_string())), Vec::<String>::new());
}
