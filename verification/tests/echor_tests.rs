use txtutil::echor::echo;
use txtutil::echor::get_args;

fn tokens(ts: &[&str]) -> Vec<String> {
    ts.iter().map(|s| s.to_string()).collect()
}

#[test]
fn echo_joins_with_spaces_and_newline() {
    let r = echo(&tokens(&["Hello", "there", "world"]), false);
    assert_eq!(r, "Hello there world\n");
}

#[test]
fn echo_omits_newline_on_request() {
    let r = echo(&tokens(&["Hello", "there", "world"]), true);
    assert_eq!(r, "Hello there world");
}

#[test]
fn echo_single_token() {
    assert_eq!(echo(&tokens(&["hi"]), false), "hi\n");
    assert_eq!(echo(&tokens(&["hi"]), true), "hi");
}

#[test]
fn echo_get_args() {
    let c = get_args(&tokens(&["a", "b"])).unwrap();
    assert_eq!(c.text, tokens(&["a", "b"]));
    assert!(!c.omit_newline);

    let c = get_args(&tokens(&["-n", "a"])).unwrap();
    assert!(c.omit_newline);
    assert_eq!(c.text, tokens(&["a"]));

    assert_eq!(get_args(&vec![]).unwrap_err(), "text is required");
    assert_eq!(get_args(&tokens(&["-n"])).unwrap_err(), "text is required");
    assert!(get_args(&tokens(&["-x", "a"])).is_err());
    let c = get_args(&tokens(&["-", "a"])).unwrap();
    assert_eq!(c.text, tokens(&["-", "a"]));
}
