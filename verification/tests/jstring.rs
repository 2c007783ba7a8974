use jabba_lib::jstring::{capitalize, center, chars_of, chomp, is_palindrome, joined, str_rev};

#[test]
fn str_rev_test1() {
    assert_eq!(str_rev(""), "");
    assert_eq!(str_rev("a"), "a");
    assert_eq!(str_rev("ab"), "ba");
    assert_eq!(str_rev("anna"), "anna");
    assert_eq!(str_rev("abc"), "cba");
    assert_eq!(str_rev("AbCdE"), "EdCbA");
}

#[test]
fn str_rev_of_text_beyond_ascii() {
    assert_eq!(str_rev("görög"), "görög");
    assert_eq!(str_rev("Éva"), "avÉ");
    assert_eq!(str_rev(&str_rev("árvíztűrő")), "árvíztűrő");
}

#[test]
fn is_palindrome_test1() {
    assert!(is_palindrome(""));
    assert!(is_palindrome("a"));
    assert!(is_palindrome("aa"));
    assert!(is_palindrome("anna"));
    assert!(is_palindrome("görög"));
}

#[test]
fn is_palindrome_test2() {
    assert_eq!(is_palindrome("ab"), false);
    assert_eq!(is_palindrome("Anna"), false);
}

#[test]
fn chomp_test1() {
    let mut text = "".to_string();
    chomp(&mut text);
    assert_eq!(text, "");
    //
    let mut text = "abc".to_string();
    chomp(&mut text);
    assert_eq!(text, "abc");
    //
    let mut text = "\n".to_string();
    chomp(&mut text);
    assert_eq!(text, "");
    //
    let mut text = "\r\n".to_string();
    chomp(&mut text);
    assert_eq!(text, "");
    //
    let mut text = "\nend".to_string();
    chomp(&mut text);
    assert_eq!(text, "\nend");
    //
    let mut text = "\r\nend".to_string();
    chomp(&mut text);
    assert_eq!(text, "\r\nend");
    //
    let mut text = "longer\nstring\n".to_string();
    chomp(&mut text);
    assert_eq!(text, "longer\nstring");
}

#[test]
fn chomp_takes_one_line_ending_only() {
    let mut text = "abc\n\n".to_string();
    chomp(&mut text);
    assert_eq!(text, "abc\n");
    //
    let mut text = "abc\r".to_string();
    chomp(&mut text);
    assert_eq!(text, "abc\r");
    //
    let mut text = "abc\r\r\n".to_string();
    chomp(&mut text);
    assert_eq!(text, "abc\r");
    //
    let mut text = "abc\n\r".to_string();
    chomp(&mut text);
    assert_eq!(text, "abc\n\r");
}

#[test]
fn center_test1() {
    assert_eq!(center("-", 0), "-");
    assert_eq!(center("-", 1), "-");
    assert_eq!(center("-", 2), "- ");
    assert_eq!(center("-", 3), " - ");
}

#[test]
fn center_counts_characters() {
    assert_eq!(center("", 3), "   ");
    assert_eq!(center("ab", 7), "  ab   ");
    assert_eq!(center("é", 4), " é  ");
    assert_eq!(center("görög", 5), "görög");
    assert_eq!(center("abc", 8), format!("{:^8}", "abc"));
    assert_eq!(center("abc", 9), format!("{:^9}", "abc"));
}

#[test]
fn capitalize_test1() {
    assert_eq!(capitalize(""), "");
    assert_eq!(capitalize("a"), "A");
    assert_eq!(capitalize("aa"), "Aa");
    assert_eq!(capitalize("aNnA"), "Anna");
}

#[test]
fn capitalize_beyond_ascii() {
    assert_eq!(capitalize("éVA"), "Éva");
    // one character may become two
    assert_eq!(capitalize("ßA"), "SSa");
    assert_eq!(capitalize("1ABC"), "1abc");
}

#[test]
fn joined_puts_one_text_behind_the_other() {
    assert_eq!(joined("", ""), "");
    assert_eq!(joined("A", "nna"), "Anna");
    assert_eq!(joined("SS", ""), "SS");
}

#[test]
fn chars_of_gives_each_character() {
    assert_eq!(chars_of(""), Vec::<char>::new());
    assert_eq!(chars_of("héj"), vec!['h', 'é', 'j']);
}
