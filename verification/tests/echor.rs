use clitools::echor::{run, Options};

#[test]
fn echo_joins_with_spaces() {
    let options = Options { text: vec!["Hello".to_string(), "there".to_string()], omit_newline: false };
    assert_eq!(run(&options), "Hello there\n");
}

#[test]
fn echo_omits_newline() {
    let options = Options { text: vec!["Hello".to_string(), " there ".to_string()], omit_newline: true };
    assert_eq!(run(&options), "Hello  there ");
}

#[test]
fn echo_of_nothing() {
    let options = Options { text: vec![], omit_newline: false };
    assert_eq!(run(&options), "\n");
}
