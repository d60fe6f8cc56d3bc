use ini_preserve::Ini;

#[test]
fn new_and_default_are_empty() {
    let ini = Ini::new();
    assert_eq!(ini.to_string(), "");
    assert!(ini.sections().is_empty());
    assert_eq!(ini.get("A", "x"), None);
    let d = Ini::default();
    assert_eq!(d.to_string(), "");
}

#[test]
fn parse_empty_input() {
    let ini = Ini::parse("").unwrap();
    assert_eq!(ini.to_string(), "");
}

#[test]
fn unclosed_header_is_an_error() {
    let r = Ini::parse("[Good]\nA = 1\n  [Broken  \n[AlsoBroken\n");
    assert_eq!(r.err(), Some("Invalid section header:   [Broken  ".to_string()));
}

#[test]
fn header_closed_later_on_the_line_is_fine() {
    let ini = Ini::parse("[ Spaced Name ] trailing\nk=v\n").unwrap();
    assert_eq!(ini.sections(), vec!["Spaced Name"]);
    assert_eq!(ini.get("Spaced Name", "k"), Some("v"));
}

#[test]
fn unknown_lines_are_kept_as_comments() {
    let input = "[A]\njust some text\nk = v\n";
    let ini = Ini::parse(input).unwrap();
    assert_eq!(ini.keys("A"), vec![("k", "v")]);
    assert_eq!(ini.to_string(), input);
}

#[test]
fn crlf_line_ends_are_kept() {
    let input = "[A]\r\nk = v\r\nlast\r";
    let ini = Ini::parse(input).unwrap();
    assert_eq!(ini.get("A", "k"), Some("v"));
    assert_eq!(ini.to_string(), input);
}

#[test]
fn missing_final_newline_is_kept() {
    let ini = Ini::parse("[A]\nk = v").unwrap();
    assert_eq!(ini.to_string(), "[A]\nk = v");
}

#[test]
fn lines_added_after_a_last_line_without_break() {
    let mut ini = Ini::parse("[A]\nx = 1").unwrap();
    ini.set("A", "y", "2");
    assert_eq!(ini.to_string(), "[A]\nx = 1\ny = 2\n");
    let mut ini = Ini::parse("[A]\nx = 1").unwrap();
    ini.set("B", "y", "2");
    assert_eq!(ini.to_string(), "[A]\nx = 1\n\n[B]\ny = 2\n");
}

#[test]
fn added_lines_follow_crlf_line_ends() {
    let mut ini = Ini::parse("[A]\r\nx = 1\r\n").unwrap();
    ini.set("A", "y", "2");
    ini.set("B", "z", "3");
    assert_eq!(ini.to_string(), "[A]\r\nx = 1\r\ny = 2\r\n\r\n[B]\r\nz = 3\r\n");
}

#[test]
fn unicode_whitespace_is_trimmed() {
    let ini = Ini::parse("\u{3000}[A]\u{a0}\nkey\u{2003}=\tvalue\u{85}\n").unwrap();
    assert_eq!(ini.get("A", "key"), Some("value"));
    assert_eq!(ini.to_string(), "\u{3000}[A]\u{a0}\nkey\u{2003}=\tvalue\u{85}\n");
}

#[test]
fn properties_before_any_section_are_not_found() {
    let ini = Ini::parse("top = 1\n[A]\nx = 2\n").unwrap();
    assert_eq!(ini.get("", "top"), None);
    assert_eq!(ini.keys(""), vec![]);
    assert_eq!(ini.get("A", "x"), Some("2"));
}

#[test]
fn get_after_set_gives_the_value() {
    let mut ini = Ini::parse("[A]\nx = 1\n[B]\ny = 2\n").unwrap();
    ini.set("A", "x", "10");
    assert_eq!(ini.get("A", "x"), Some("10"));
    ini.set("B", "z", "3");
    assert_eq!(ini.get("B", "z"), Some("3"));
    ini.set("C", "w", "4");
    assert_eq!(ini.get("C", "w"), Some("4"));
    ini.set("A", "x", "");
    assert_eq!(ini.get("A", "x"), None);
}

#[test]
fn set_keeps_other_keys() {
    let mut ini = Ini::parse("[A]\nx = 1\n[B]\nx = 2\ny = 3\n").unwrap();
    ini.set("A", "y", "9");
    ini.set("B", "x", "8");
    assert_eq!(ini.get("A", "x"), Some("1"));
    assert_eq!(ini.get("B", "y"), Some("3"));
    assert_eq!(ini.get("B", "x"), Some("8"));
    assert_eq!(ini.get("A", "y"), Some("9"));
}

#[test]
fn set_twice_is_set_once() {
    let mut once = Ini::parse("[A]\nx = 1\n").unwrap();
    once.set("A", "y", "2");
    let mut twice = Ini::parse("[A]\nx = 1\n").unwrap();
    twice.set("A", "y", "2");
    twice.set("A", "y", "2");
    assert_eq!(once.to_string(), twice.to_string());
    assert_eq!(once.to_string(), "[A]\nx = 1\ny = 2\n");
}

#[test]
fn new_key_goes_after_the_last_line_of_its_section() {
    let mut ini = Ini::parse("[A]\nx = 1\n; about A\n\n[B]\ny = 2\n").unwrap();
    ini.set("A", "z", "3");
    assert_eq!(ini.to_string(), "[A]\nx = 1\n; about A\n\nz = 3\n[B]\ny = 2\n");
}

#[test]
fn new_key_in_a_repeated_section_goes_to_its_last_run() {
    let mut ini = Ini::parse("[A]\nx = 1\n[B]\n[A]\ny = 2\n").unwrap();
    ini.set("A", "z", "3");
    assert_eq!(ini.to_string(), "[A]\nx = 1\n[B]\n[A]\ny = 2\nz = 3\n");
    assert_eq!(ini.keys("A"), vec![("x", "1"), ("y", "2"), ("z", "3")]);
}

#[test]
fn new_section_is_separated_by_one_blank_line() {
    let mut ini = Ini::parse("[A]\nx = 1\n").unwrap();
    ini.set("B", "y", "2");
    assert_eq!(ini.to_string(), "[A]\nx = 1\n\n[B]\ny = 2\n");

    let mut ini = Ini::parse("[A]\nx = 1\n\n").unwrap();
    ini.set("B", "y", "2");
    assert_eq!(ini.to_string(), "[A]\nx = 1\n\n[B]\ny = 2\n");

    let mut ini = Ini::new();
    ini.set("B", "y", "2");
    assert_eq!(ini.to_string(), "\n[B]\ny = 2\n");
}

#[test]
fn modified_values_follow_the_spacing_of_their_line() {
    let mut ini = Ini::parse("[S]\na=\nb =\nc= x\nd =  y\n").unwrap();
    ini.set("S", "a", "1");
    ini.set("S", "b", "2");
    ini.set("S", "c", "3");
    ini.set("S", "d", "4");
    assert_eq!(ini.to_string(), "[S]\na=1\nb = 2\nc= 3\nd =  4\n");
}

#[test]
fn set_keeps_all_spacing_of_its_line() {
    let mut ini = Ini::parse("[A]\nKey  =  Old\n  k\t=\tv  ; not a comment\n").unwrap();
    ini.set("A", "Key", "New");
    ini.set("A", "k", "w");
    assert_eq!(ini.to_string(), "[A]\nKey  =  New\n  k\t=\tw\n");
    let mut ini = Ini::parse("[A]\n  k = v   \n").unwrap();
    ini.set("A", "k", "long value");
    assert_eq!(ini.to_string(), "[A]\n  k = long value   \n");
}

#[test]
fn set_does_not_rewrite_other_lines() {
    let input = "  ; indented comment\n[S]  \n  k  =  v  \nother=1\n";
    let mut ini = Ini::parse(input).unwrap();
    ini.set("S", "other", "2");
    assert_eq!(ini.to_string(), "  ; indented comment\n[S]  \n  k  =  v  \nother=2\n");
}

#[test]
fn get_uses_the_first_match() {
    let ini = Ini::parse("[A]\nk = \nk = 2\n").unwrap();
    assert_eq!(ini.get("A", "k"), None);
    let ini = Ini::parse("[A]\nk = 1\n[A]\nk = 2\n").unwrap();
    assert_eq!(ini.get("A", "k"), Some("1"));
}

#[test]
fn remove_reports_and_keeps_others() {
    let mut ini = Ini::parse("[A]\nk = 1\nk = 2\nj = 3\n[B]\nk = 4\n").unwrap();
    assert!(ini.remove("A", "k"));
    assert_eq!(ini.get("A", "k"), Some("2"));
    assert_eq!(ini.get("A", "j"), Some("3"));
    assert_eq!(ini.get("B", "k"), Some("4"));
    assert!(!ini.remove("C", "k"));
    assert_eq!(ini.to_string(), "[A]\nk = 2\nj = 3\n[B]\nk = 4\n");
}

#[test]
fn sections_are_listed_once_in_order() {
    let ini = Ini::parse("[B]\n[A]\n[B]\n[C]\n").unwrap();
    assert_eq!(ini.sections(), vec!["B", "A", "C"]);
}

#[test]
fn keys_of_a_missing_section_are_empty() {
    let ini = Ini::parse("[A]\nx = 1\n").unwrap();
    assert_eq!(ini.keys("B"), vec![]);
}

#[test]
fn add_section_appends_a_header_once() {
    let mut ini = Ini::parse("[A]\nx = 1\n").unwrap();
    ini.add_section("Standalone");
    assert_eq!(ini.to_string(), "[A]\nx = 1\n\n[Standalone]\n");
    ini.add_section("Standalone");
    ini.add_section("A");
    assert_eq!(ini.to_string(), "[A]\nx = 1\n\n[Standalone]\n");
    assert_eq!(ini.sections(), vec!["A", "Standalone"]);
    assert_eq!(ini.keys("Standalone"), vec![]);
    assert_eq!(ini.get("A", "x"), Some("1"));
}

#[test]
fn remove_section_takes_its_whole_run() {
    let input = "; banner\n\n; about A\n[A]\nx = 1\n; note\n\n[B]\ny = 2\n[A]\nz = 3\n";
    let mut ini = Ini::parse(input).unwrap();
    assert!(ini.remove_section("A"));
    assert_eq!(ini.to_string(), "; banner\n\n; about A\n[B]\ny = 2\n");
    assert_eq!(ini.get("A", "x"), None);
    assert_eq!(ini.keys("A"), vec![]);
    assert_eq!(ini.sections(), vec!["B"]);
    assert_eq!(ini.get("B", "y"), Some("2"));
    assert!(!ini.remove_section("A"));
}

#[test]
fn roundtrip_of_varied_text() {
    let input = "\n\t\n# hash comment\n[ X ]\n=novalue\nkey==double\n;;\n[Y]\na = b = c\n";
    let ini = Ini::parse(input).unwrap();
    assert_eq!(ini.to_string(), input);
    assert_eq!(ini.get("X", ""), Some("novalue"));
    assert_eq!(ini.get("X", "key"), Some("=double"));
    assert_eq!(ini.get("Y", "a"), Some("b = c"));
}

#[test]
fn roundtrip_of_any_text() {
    for input in [
        "",
        "\n",
        "[A]\r\nx = 1\r\n\r\n",
        "[A]\nx = 1",
        "no newline at all",
        "a\r",
        "\r\n\r\n",
        "[A]\n  k  =  v  \r\n; c\n",
    ] {
        let ini = Ini::parse(input).unwrap();
        assert_eq!(ini.to_string(), input);
    }
}

#[test]
fn set_existing_key_changes_only_its_pair_and_line() {
    let input = "[A]\nx = 1\ny = 2\nx = 3\n[B]\nx = 4\n";
    let mut ini = Ini::parse(input).unwrap();
    ini.set("A", "x", "9");
    assert_eq!(ini.keys("A"), vec![("x", "9"), ("y", "2"), ("x", "3")]);
    assert_eq!(ini.keys("B"), vec![("x", "4")]);
    assert_eq!(ini.sections(), vec!["A", "B"]);
    assert_eq!(ini.to_string(), "[A]\nx = 9\ny = 2\nx = 3\n[B]\nx = 4\n");
}

#[test]
fn set_new_key_appends_its_pair() {
    let mut ini = Ini::parse("[A]\nx = 1\n[B]\ny = 2\n").unwrap();
    ini.set("A", "z", "3");
    assert_eq!(ini.keys("A"), vec![("x", "1"), ("z", "3")]);
    assert_eq!(ini.keys("B"), vec![("y", "2")]);
    assert_eq!(ini.sections(), vec!["A", "B"]);
}

#[test]
fn set_new_section_appends_it_to_the_list() {
    let mut ini = Ini::parse("[A]\nx = 1\n").unwrap();
    ini.set("N", "k", "v");
    assert_eq!(ini.sections(), vec!["A", "N"]);
    assert_eq!(ini.keys("N"), vec![("k", "v")]);
    assert_eq!(ini.keys("A"), vec![("x", "1")]);
    assert_eq!(ini.to_string(), "[A]\nx = 1\n\n[N]\nk = v\n");
}

#[test]
fn remove_agrees_with_keys() {
    let mut ini = Ini::parse("[A]\nx =\ny = 2\nx = 3\n[B]\nx = 4\n").unwrap();
    assert!(ini.remove("A", "x"));
    assert_eq!(ini.keys("A"), vec![("y", "2"), ("x", "3")]);
    assert_eq!(ini.keys("B"), vec![("x", "4")]);
    assert_eq!(ini.sections(), vec!["A", "B"]);
    assert_eq!(ini.to_string(), "[A]\ny = 2\nx = 3\n[B]\nx = 4\n");
    assert!(!ini.remove("A", "q"));
}

#[test]
fn written_text_reads_back_the_same() {
    let mut ini = Ini::parse("; c\n[A]\nKey  =  Old  \nk=\n[B]\nz = 1").unwrap();
    ini.set("A", "Key", "New");
    ini.set("A", "k", "v");
    ini.set("B", "w", "2");
    ini.set("C", "q", "3");
    let out = ini.to_string();
    let again = Ini::parse(&out).unwrap();
    assert_eq!(again.to_string(), out);
    assert_eq!(again.sections(), ini.sections());
    assert_eq!(again.get("A", "Key"), Some("New"));
    assert_eq!(again.get("C", "q"), Some("3"));
    assert_eq!(again.keys("A"), ini.keys("A"));
    assert_eq!(again.keys("B"), ini.keys("B"));
}
