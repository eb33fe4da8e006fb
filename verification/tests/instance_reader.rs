use simulated_annealing::instance_reader::{parse_i32, parse_instance, split_tokens, InstanceReader, ParseError};

fn raw_reader(raw: &str) -> InstanceReader {
    InstanceReader::new(Some(raw.to_string()), None)
}

fn path_reader(path: &str) -> InstanceReader {
    InstanceReader::new(None, Some(path.to_string()))
}

#[test]
fn parses_a_raw_comma_separated_instance_into_city_indices() {
    let cities = vec![10, 20, 30];
    let reader = raw_reader("30,10,20");

    assert_eq!(reader.get_parsed_instance(&cities, None), vec![2, 0, 1]);
}

#[test]
fn trims_whitespace_and_ignores_empty_tokens() {
    let cities = vec![1, 2];
    let reader = raw_reader(" 1 , , 2 ");

    assert_eq!(reader.get_parsed_instance(&cities, None), vec![0, 1]);
}

#[test]
fn returns_empty_vec_for_unknown_city_id() {
    let cities = vec![1, 2];
    let reader = raw_reader("1,99");

    assert!(reader.get_parsed_instance(&cities, None).is_empty());
}

#[test]
fn returns_empty_vec_for_non_numeric_token() {
    let cities = vec![1];
    let reader = raw_reader("1,abc");

    assert!(reader.get_parsed_instance(&cities, None).is_empty());
}

#[test]
fn reads_instance_from_file_path() {
    let cities = vec![5, 6];
    let reader = path_reader("tsp-instance-reader-test.txt");

    assert_eq!(reader.instance_file(), Some("tsp-instance-reader-test.txt".to_string()));
    let result = reader.get_parsed_instance(&cities, Some("6,5"));
    assert_eq!(result, vec![1, 0]);
}

#[test]
fn returns_empty_vec_when_instance_file_is_missing() {
    let cities = vec![1];
    let reader = path_reader("/no/such/path/for/tsp-tests.txt");

    assert!(reader.get_parsed_instance(&cities, None).is_empty());
}

#[test]
fn raw_instance_takes_precedence_over_the_file() {
    let reader = InstanceReader::new(Some("2".to_string()), Some("ignored.txt".to_string()));

    assert_eq!(reader.instance_file(), None);
    assert_eq!(reader.get_parsed_instance(&[1, 2], Some("1")), vec![1]);
}

#[test]
fn later_city_with_a_repeated_id_wins() {
    assert_eq!(parse_instance("7", &[7, 8, 7]).ok(), Some(vec![2]));
}

#[test]
fn parse_errors_name_the_first_bad_token() {
    match parse_instance("1, x y ,99", &[1]) {
        Err(ParseError::InvalidCityId(token)) => assert_eq!(token, "x y"),
        _ => panic!("expected an invalid id"),
    }
    match parse_instance("99,abc", &[1]) {
        Err(ParseError::UnknownCityId(id)) => assert_eq!(id, 99),
        _ => panic!("expected an unknown id"),
    }
}

#[test]
fn tokens_follow_commas_and_unicode_whitespace() {
    let tokens = split_tokens("\u{3000}1\t,\n,2\u{a0}, ,3");
    let texts: Vec<String> = tokens.iter().map(|t| t.iter().collect()).collect();
    assert_eq!(texts, vec!["1", "2", "3"]);
    assert!(split_tokens("").is_empty());
    assert!(split_tokens(" , ,").is_empty());
}

#[test]
fn parse_i32_follows_the_standard_grammar() {
    let p = |s: &str| parse_i32(&s.chars().collect());
    assert_eq!(p("42"), Some(42));
    assert_eq!(p("+42"), Some(42));
    assert_eq!(p("-42"), Some(-42));
    assert_eq!(p("007"), Some(7));
    assert_eq!(p("2147483647"), Some(i32::MAX));
    assert_eq!(p("-2147483648"), Some(i32::MIN));
    assert_eq!(p("2147483648"), None);
    assert_eq!(p("-2147483649"), None);
    assert_eq!(p("99999999999999999999"), None);
    assert_eq!(p("+"), None);
    assert_eq!(p("-"), None);
    assert_eq!(p(""), None);
    assert_eq!(p("1a"), None);
    assert_eq!(p("--1"), None);
    for s in ["0", "-0", "+17", "123456", "-99", "12x", " 1"] {
        assert_eq!(p(s), s.parse::<i32>().ok(), "{s:?}");
    }
}

#[test]
fn trimming_agrees_with_char_is_whitespace() {
    for code in 0..=0x10FFFFu32 {
        let Some(c) = char::from_u32(code) else { continue };
        if c == ',' {
            continue;
        }
        let tokens = split_tokens(&c.to_string());
        assert_eq!(tokens.is_empty(), c.is_whitespace(), "U+{code:04X}");
    }
}
