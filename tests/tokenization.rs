use mlutil_rust::{
    clean_camelcase, clean_numbers, handle_punctuation, is_punctuation, tokenize_cleaned,
    tokenize_python_code, tokenize_snakecase, tokenize_word,
};

fn tokens(s: &str) -> Vec<String> {
    tokenize_python_code(String::from(s))
}

#[test]
fn tokenization_test_clean_punctuation() {
    let s = "def abc(x)".into();
    let s_clean: String = "def abc ( x )".into();
    assert_eq!(handle_punctuation(s).trim(), s_clean.trim())
}

#[test]
fn tokenization_test_clean_multiple_whitespaces() {
    let s = "a,b".into();
    let s_other: String = "a , b".into();
    assert_eq!(handle_punctuation(s), s_other)
}

#[test]
fn test_tokenize_python_code() {
    let s = String::from("def abc(x)");
    let expected_tokens: Vec<&str> = vec!["def", "abc", "(", "x", ")"];
    let tokens = tokenize_python_code(s);
    assert_eq!(tokens, expected_tokens);
}

#[test]
fn tokenization_test_tokenize_snakecase() {
    let s = String::from("fun_name");
    let expected_tokens: Vec<&str> = vec!["fun", "name"];
    let tokens = tokenize_python_code(s);
    assert_eq!(tokens, expected_tokens);
}

#[test]
fn tokenization_test_tokenize_signature() {
    let s = String::from("def fun_name(x: int):\npass");
    let expected_tokens: Vec<&str> =
        vec!["def", "fun", "name", "(", "x", ":", "int", ")", ":", "pass"];
    let tokens = tokenize_python_code(s);
    assert_eq!(tokens, expected_tokens);
}

#[test]
fn test_tokenize_string_constants() {
    let s = String::from("'x'");
    let expected_tokens: Vec<&str> = vec!["'x'"];
    let tokens = tokenize_python_code(s);
    assert_eq!(tokens, expected_tokens);
}

#[test]
fn test_tokenize_camelcase() {
    let s = String::from("AbstractFactoryProps");
    let expected_tokens: Vec<&str> = vec!["abstract", "factory", "props"];
    let tokens = tokenize_python_code(s);
    assert_eq!(tokens, expected_tokens);
}

#[test]
fn test_tokenize_special_methods() {
    let s = String::from("__init__(self)");
    let expected_tokens: Vec<&str> = vec!["init", "(", "self", ")"];
    let tokens = tokenize_python_code(s);
    assert_eq!(tokens, expected_tokens);
}

#[test]
fn test_tokenize_methods_with_strings() {
    let s = String::from("f(x = \"12\")");
    let expected_tokens: Vec<&str> = vec!["f", "(", "x", "=", "\"", "NUMBER", "\"", ")"];
    let tokens = tokenize_python_code(s);
    assert_eq!(tokens, expected_tokens);
}

#[test]
fn empty_text_has_no_tokens() {
    assert_eq!(tokens(""), Vec::<String>::new());
}

#[test]
fn punctuation_and_whitespace_only() {
    assert_eq!(tokens(" \t\n "), Vec::<String>::new());
    assert_eq!(tokens("___"), Vec::<String>::new());
    assert_eq!(tokens("(,)"), vec!["(", ",", ")"]);
}

#[test]
fn same_text_same_tokens() {
    let s = "class HttpServer(base_1):\n    x = [1, 22]";
    assert_eq!(tokens(s), tokens(s));
}

#[test]
fn digit_runs_become_one_token_each() {
    assert_eq!(tokens("x123y456"), vec!["x", "NUMBER", "y", "NUMBER"]);
    assert_eq!(tokens("7"), vec!["NUMBER"]);
    assert_eq!(tokens("12345678901234567890"), vec!["NUMBER"]);
}

#[test]
fn no_token_is_empty_or_holds_digits() {
    let ts = tokens("a__b 9_9 __init__ x1y2z3 \u{0663}\u{0664}");
    assert!(!ts.is_empty());
    for t in ts.iter() {
        assert!(!t.is_empty());
        assert!(!t.chars().any(|c| c.is_ascii_digit()));
    }
}

#[test]
fn non_ascii_digits_are_numbers() {
    assert_eq!(tokens("x\u{0663}\u{0664}y"), vec!["x", "NUMBER", "y"]);
}

#[test]
fn lower_case_is_not_split() {
    assert_eq!(tokens("abc DEF"), vec!["abc", "def"]);
    assert_eq!(tokens("HTTPServer"), vec!["httpserver"]);
    assert_eq!(tokens("getHTTP"), vec!["get", "http"]);
}

#[test]
fn every_punctuation_character_is_set_apart() {
    assert_eq!(
        tokens("a(b)c,d.e;f:g=h[i]j{k}l-m+n"),
        vec![
            "a", "(", "b", ")", "c", ",", "d", ".", "e", ";", "f", ":", "g", "=", "h", "[", "i",
            "]", "j", "{", "k", "}", "l", "-", "m", "+", "n"
        ]
    );
}

#[test]
fn punctuation_set() {
    for c in "(),.;:=[]{}-+_".chars() {
        assert!(is_punctuation(c));
    }
    for c in "a'\"!#/ 0".chars() {
        assert!(!is_punctuation(c));
    }
}

#[test]
fn punctuation_spacing_keeps_other_characters() {
    assert_eq!(handle_punctuation(String::from("a_b")), "a _ b");
    assert_eq!(handle_punctuation(String::from("'Q'")), "'Q'");
    assert_eq!(handle_punctuation(String::new()), "");
}

#[test]
fn camelcase_boundaries_get_a_space() {
    assert_eq!(clean_camelcase(String::from("fooBarBaz")), "foo Bar Baz");
    assert_eq!(clean_camelcase(String::from("aBC")), "a BC");
    assert_eq!(clean_camelcase(String::from("Abc")), "Abc");
}

#[test]
fn numbers_are_replaced() {
    assert_eq!(clean_numbers(String::from("a12b3")), "a NUMBER b NUMBER ");
    assert_eq!(clean_numbers(String::from("abc")), "abc");
}

#[test]
fn snakecase_parts_are_trimmed_and_kept_non_empty() {
    assert_eq!(tokenize_snakecase(String::from("__a__b_")), vec!["a", "b"]);
    assert_eq!(tokenize_snakecase(String::from(" a _ b ")), vec!["a", "b"]);
    assert_eq!(tokenize_snakecase(String::from("_")), Vec::<String>::new());
    assert_eq!(tokenize_word(String::from("fun_name")), vec!["fun", "name"]);
}

#[test]
fn cleaned_text_splits_on_whitespace_and_underscores() {
    assert_eq!(
        tokenize_cleaned("  def\tf _ x\u{3000}y\u{2028}z__w  "),
        vec!["def", "f", "x", "y", "z", "w"]
    );
    assert_eq!(tokenize_cleaned(""), Vec::<String>::new());
}

#[test]
fn run_length_does_not_change_the_result() {
    assert_eq!(clean_numbers(String::from("a1b")), clean_numbers(String::from("a98765b")));
    assert_eq!(clean_numbers(String::from("a1b")), "a NUMBER b");
}
