use cccut::flags::{FlagError, FlagSet};
use cccut::value::Value;
use cccut::ArgList;

fn tokens(args: &[&str]) -> Vec<String> {
    args.iter().map(|a| a.to_string()).collect()
}

#[test]
fn test_parse_string() {
    let args = vec!["-b", "string"];
    let expected_flag = ("b", String::from("string"));
    let expects_err = false;

    let mut flag_set = FlagSet::default();
    flag_set.bind_mut_ref(expected_flag.0, false, Value::Str(String::new()), "");

    let result = flag_set.parse(args.iter().map(|a| a.to_string()).collect());
    assert_eq!(expects_err, result.is_err());

    assert_eq!(Some(&Value::Str(expected_flag.1)), flag_set.value_of(expected_flag.0));
}

#[test]
fn test_parse_i32() {
    let args = vec!["-i", "1"];
    let expected_flag = ("i", 1);
    let expects_err = false;

    let mut flag_set = FlagSet::default();
    flag_set.bind_mut_ref(expected_flag.0, false, Value::Int(0), "");
    let result = flag_set.parse(args.iter().map(|a| a.to_string()).collect());
    assert_eq!(expects_err, result.is_err());

    assert_eq!(Some(&Value::Int(expected_flag.1)), flag_set.value_of(expected_flag.0));
}

#[test]
fn test_parse_bool() {
    let args = vec!["-b"];
    let expected_flag = ("b", true);
    let expects_err = false;

    let mut flag_set = FlagSet::default();
    flag_set.bind_mut_ref(expected_flag.0, false, Value::Bool(false), "");

    let result = flag_set.parse(args.iter().map(|a| a.to_string()).collect());
    assert_eq!(expects_err, result.is_err());

    assert_eq!(Some(&Value::Bool(expected_flag.1)), flag_set.value_of(expected_flag.0));
}

#[test]
fn test_parse_multiple_bools() {
    let args = vec!["-ba"];
    let expected_flag1 = ("a", true);
    let expected_flag2 = ("b", true);

    let mut flag_set = FlagSet::default();
    flag_set.bind_mut_ref(expected_flag1.0, false, Value::Bool(false), "");
    flag_set.bind_mut_ref(expected_flag2.0, false, Value::Bool(false), "");

    let result = flag_set.parse(args.iter().map(|a| a.to_string()).collect());

    assert!(result.is_ok());

    assert_eq!(Some(&Value::Bool(expected_flag1.1)), flag_set.value_of(expected_flag1.0));
    assert_eq!(Some(&Value::Bool(expected_flag2.1)), flag_set.value_of(expected_flag2.0));
}

#[test]
fn test_parse_ref_cell() {
    let args = vec!["-i", "1"];
    let expected_flag = ("i", 1);
    let expects_err = false;

    let mut flag_set = FlagSet::default();
    flag_set.bind_ref_cell(expected_flag.0, false, Value::Int(0), "");
    let result = flag_set.parse(args.iter().map(|a| a.to_string()).collect());
    assert_eq!(expects_err, result.is_err());

    assert_eq!(Some(&Value::Int(expected_flag.1)), flag_set.value_of(expected_flag.0));
}

#[test]
fn test_parse_remaining() {
    let args = vec!["--test", "text", "first", "second", "third"];
    let expected_flags = vec![("test", String::from("text"))];
    let remaining = vec!["first", "second", "third"];

    let mut flag_set = FlagSet::default();
    for (name, _) in &expected_flags {
        flag_set.bind_ref_cell(name, false, Value::Str(String::new()), "");
    }

    let result = flag_set.parse(args.iter().map(|a| a.to_string()).collect());

    for (name, value) in &expected_flags {
        assert_eq!(Some(&Value::Str(value.clone())), flag_set.value_of(name));
    }

    assert!(result.is_ok());
    let result = result.unwrap();

    assert_eq!(remaining.len(), result.len());
    for i in 0..result.len() {
        assert_eq!(remaining[i], result[i]);
    }
}

#[test]
fn test_parse_remaining_with_bool_flag() {
    let args = vec!["--test", "first", "second", "third"];
    let expected_flags = vec![("test", true)];
    let remaining = vec!["first", "second", "third"];

    let mut flag_set = FlagSet::default();
    for (name, _) in &expected_flags {
        flag_set.bind_ref_cell(name, false, Value::Bool(false), "");
    }

    let result = flag_set.parse(args.iter().map(|a| a.to_string()).collect());

    for (name, value) in &expected_flags {
        assert_eq!(Some(&Value::Bool(*value)), flag_set.value_of(name));
    }

    assert!(result.is_ok());
    let result = result.unwrap();

    assert_eq!(remaining.len(), result.len());
    for i in 0..result.len() {
        assert_eq!(remaining[i], result[i]);
    }
}

#[test]
fn test_parse_list() {
    let tests: Vec<(&str, Vec<usize>)> = vec![("1,2,3", vec![1, 2, 3]), ("\"1 2 3\"", vec![1, 2, 3])];
    for (args, expected) in tests {
        let mut actual = ArgList::default();

        let result = actual.parse_from_string(args);
        assert!(result.is_ok());

        assert_eq!(expected, actual.inner);
    }
}

#[test]
fn short_flag_takes_each_scalar_value() {
    let mut flag_set = FlagSet::new();
    flag_set.bind_mut_ref("s", false, Value::Str(String::from("old")), "");
    flag_set.bind_mut_ref("n", false, Value::Int(7), "");
    flag_set.bind_mut_ref("c", false, Value::Char('x'), "");
    assert_eq!(Ok(vec![]), flag_set.parse(tokens(&["-s", "new"])));
    assert_eq!(Ok(vec![]), flag_set.parse(tokens(&["-n", "-42"])));
    assert_eq!(Ok(vec![]), flag_set.parse(tokens(&["-c", "é"])));
    assert_eq!(Some(&Value::Str(String::from("new"))), flag_set.value_of("s"));
    assert_eq!(Some(&Value::Int(-42)), flag_set.value_of("n"));
    assert_eq!(Some(&Value::Char('é')), flag_set.value_of("c"));
}

#[test]
fn bool_flag_leaves_next_token_positional() {
    let mut flag_set = FlagSet::new();
    flag_set.bind_mut_ref("b", false, Value::Bool(false), "");
    assert_eq!(Ok(vec![String::from("rest")]), flag_set.parse(tokens(&["-b", "rest"])));
    assert_eq!(Some(&Value::Bool(true)), flag_set.value_of("b"));
}

#[test]
fn unknown_short_flag_is_reported() {
    let mut flag_set = FlagSet::new();
    flag_set.bind_mut_ref("a", false, Value::Bool(false), "");
    assert_eq!(
        Err(FlagError::UnknownFlag(String::from("z"))),
        flag_set.parse(tokens(&["-z"]))
    );
}

#[test]
fn unknown_long_flag_is_reported() {
    let mut flag_set = FlagSet::new();
    assert_eq!(
        Err(FlagError::UnknownFlag(String::from("nope"))),
        flag_set.parse(tokens(&["--nope", "x"]))
    );
}

#[test]
fn cluster_with_unknown_letter_names_whole_cluster() {
    let mut flag_set = FlagSet::new();
    flag_set.bind_mut_ref("a", false, Value::Bool(false), "");
    flag_set.bind_mut_ref("b", false, Value::Bool(false), "");
    assert_eq!(
        Err(FlagError::UnknownFlag(String::from("abz"))),
        flag_set.parse(tokens(&["-abz"]))
    );
    assert_eq!(Some(&Value::Bool(false)), flag_set.value_of("a"));
}

#[test]
fn cluster_passes_over_a_flag_that_needs_a_value() {
    let mut flag_set = FlagSet::new();
    flag_set.bind_mut_ref("a", false, Value::Bool(false), "");
    flag_set.bind_mut_ref("n", false, Value::Int(3), "");
    assert_eq!(Ok(vec![String::from("5")]), flag_set.parse(tokens(&["-an", "5"])));
    assert_eq!(Some(&Value::Bool(true)), flag_set.value_of("a"));
    assert_eq!(Some(&Value::Int(3)), flag_set.value_of("n"));
}

#[test]
fn passthrough_after_first_plain_token() {
    let mut flag_set = FlagSet::new();
    flag_set.bind_mut_ref("test", false, Value::Str(String::new()), "");
    flag_set.bind_mut_ref("v", false, Value::Bool(false), "");
    assert_eq!(
        Ok(tokens(&["first", "second", "-v"])),
        flag_set.parse(tokens(&["--test", "text", "first", "second", "-v"]))
    );
    assert_eq!(Some(&Value::Str(String::from("text"))), flag_set.value_of("test"));
    assert_eq!(Some(&Value::Bool(false)), flag_set.value_of("v"));
}

#[test]
fn double_dash_ends_flags() {
    let mut flag_set = FlagSet::new();
    assert_eq!(
        Ok(tokens(&["--looks-like-flag"])),
        flag_set.parse(tokens(&["--", "--looks-like-flag"]))
    );
    let mut flag_set = FlagSet::new();
    flag_set.bind_mut_ref("n", false, Value::Int(0), "");
    assert_eq!(Ok(tokens(&["-n", "--", "4"])), flag_set.parse(tokens(&["--", "-n", "--", "4"])));
    assert_eq!(Some(&Value::Int(0)), flag_set.value_of("n"));
}

#[test]
fn double_dash_drops_a_waiting_flag() {
    let mut flag_set = FlagSet::new();
    flag_set.bind_mut_ref("n", false, Value::Int(0), "");
    assert_eq!(Ok(tokens(&["4"])), flag_set.parse(tokens(&["-n", "--", "4"])));
    assert_eq!(Some(&Value::Int(0)), flag_set.value_of("n"));
}

#[test]
fn lone_dash_is_positional() {
    let mut flag_set = FlagSet::new();
    assert_eq!(Ok(tokens(&["-"])), flag_set.parse(tokens(&["-"])));
}

#[test]
fn flag_waiting_at_end_is_dropped() {
    let mut flag_set = FlagSet::new();
    flag_set.bind_mut_ref("n", false, Value::Int(9), "");
    assert_eq!(Ok(vec![]), flag_set.parse(tokens(&["-n"])));
    assert_eq!(Some(&Value::Int(9)), flag_set.value_of("n"));
}

#[test]
fn split_parse_matches_whole_parse() {
    let whole = {
        let mut f = FlagSet::new();
        f.bind_mut_ref("a", false, Value::Bool(false), "");
        f.bind_mut_ref("n", false, Value::Int(0), "");
        let r = f.parse(tokens(&["-a", "-n", "12", "file"]));
        (r, f.value_of("a").cloned(), f.value_of("n").cloned())
    };
    let mut f = FlagSet::new();
    f.bind_mut_ref("a", false, Value::Bool(false), "");
    f.bind_mut_ref("n", false, Value::Int(0), "");
    let first = f.parse(tokens(&["-a"]));
    assert_eq!(Ok(vec![]), first);
    let second = f.parse(tokens(&["-n", "12", "file"]));
    assert_eq!(whole.0, second);
    assert_eq!(whole.1, f.value_of("a").cloned());
    assert_eq!(whole.2, f.value_of("n").cloned());
    assert_eq!(Some(Value::Int(12)), whole.2);
}

#[test]
fn rendered_values_read_back() {
    for v in [0i64, 7, -7, 1234567890, i64::MAX, i64::MIN] {
        let mut flag_set = FlagSet::new();
        flag_set.bind_mut_ref("x", false, Value::Int(1), "");
        assert_eq!(Ok(vec![]), flag_set.parse(tokens(&["-x", &v.to_string()])));
        assert_eq!(Some(&Value::Int(v)), flag_set.value_of("x"));
    }
    for c in ['q', '7', 'ß', '-'] {
        let mut flag_set = FlagSet::new();
        flag_set.bind_mut_ref("x", false, Value::Char('a'), "");
        assert_eq!(Ok(vec![]), flag_set.parse(tokens(&["-x", &c.to_string()])));
        assert_eq!(Some(&Value::Char(c)), flag_set.value_of("x"));
    }
    for s in ["", "hello world", "-x"] {
        let mut flag_set = FlagSet::new();
        flag_set.bind_mut_ref("x", false, Value::Str(String::from("z")), "");
        assert_eq!(Ok(vec![]), flag_set.parse(tokens(&["-x", s])));
        assert_eq!(Some(&Value::Str(String::from(s))), flag_set.value_of("x"));
    }
}

#[test]
fn bad_values_are_parse_errors() {
    let cases: Vec<(Value, &str, &str)> = vec![
        (Value::Int(0), "abc", "invalid digit found in string"),
        (Value::Int(0), "", "cannot parse integer from empty string"),
        (Value::Int(0), "-", "invalid digit found in string"),
        (Value::Int(0), "9223372036854775808", "number too large to fit in target type"),
        (Value::Int(0), "-9223372036854775809", "number too small to fit in target type"),
        (Value::Char('a'), "", "cannot parse char from empty string"),
        (Value::Char('a'), "ab", "too many characters in string"),
    ];
    for (slot, text, why) in cases {
        let mut flag_set = FlagSet::new();
        flag_set.bind_mut_ref("v", false, slot.clone(), "");
        assert_eq!(
            Err(FlagError::ParseError((String::from("v"), String::from(why)))),
            flag_set.parse(tokens(&["-v", text]))
        );
        assert_eq!(Some(&slot), flag_set.value_of("v"));
    }
}

#[test]
fn bool_slot_reads_only_true_or_false() {
    let mut v = Value::Bool(true);
    assert_eq!(Ok(()), v.parse_from_string("false"));
    assert_eq!(Value::Bool(false), v);
    assert_eq!(
        Err(String::from("provided string was not `true` or `false`")),
        v.parse_from_string("yes")
    );
    assert_eq!(Value::Bool(false), v);
}

#[test]
fn activation_follows_the_text_form() {
    let mut v = Value::Str(String::from("false"));
    assert_eq!(Ok(()), v.try_activate());
    assert_eq!(Value::Str(String::from("true")), v);
    let mut v = Value::Str(String::from("off"));
    assert_eq!(Err(String::from("bound value should be of type bool")), v.try_activate());
    let mut v = Value::Int(1);
    assert_eq!(Err(String::from("bound value should be of type bool")), v.try_activate());
    let mut l = ArgList::new(vec![4]);
    assert_eq!(Err(String::from("bound value should be of type bool")), l.try_activate());
}

#[test]
fn list_is_replaced_and_kept_on_error() {
    let mut l = ArgList::new(vec![9]);
    assert_eq!(Ok(()), l.parse_from_string("1"));
    assert_eq!(vec![1], l.inner);
    assert_eq!(Ok(()), l.parse_from_string("+1,2"));
    assert_eq!(vec![1, 2], l.inner);
    assert_eq!(Err(String::from("invalid digit found in string")), l.parse_from_string("1, 2"));
    assert_eq!(Err(String::from("invalid digit found in string")), l.parse_from_string("4,x,5"));
    assert_eq!(vec![1, 2], l.inner);
    assert_eq!(Ok(()), l.parse_from_string("4 5"));
    assert_eq!(vec![4, 5], l.inner);
    assert_eq!(Err(String::from("invalid digit found in string")), l.parse_from_string("-1"));
    assert_eq!(Err(String::from("cannot parse integer from empty string")), l.parse_from_string("1,,2"));
    assert_eq!(vec![4, 5], l.inner);
}

#[test]
fn alias_and_name_both_look_up() {
    let mut flag_set = FlagSet::new();
    flag_set.bind_mut_ref("fields", true, Value::List(ArgList::default()), "which fields");
    assert!(flag_set.has_flag("fields"));
    assert!(flag_set.has_flag("f"));
    assert!(!flag_set.has_flag("x"));
    assert_eq!(Ok(vec![]), flag_set.parse(tokens(&["-f", "1,2", "--fields", "3"])));
    assert_eq!(Some(&Value::List(ArgList::new(vec![3]))), flag_set.value_of("f"));
    assert_eq!(
        vec![(String::from("fields"), String::from("which fields"))],
        flag_set.usage()
    );
}

#[test]
fn errors_describe_themselves() {
    assert_eq!("unknown flag: z", FlagError::UnknownFlag(String::from("z")).describe());
    assert_eq!(
        "could not parse flag n err: invalid digit found in string",
        FlagError::ParseError((String::from("n"), String::from("invalid digit found in string")))
            .describe()
    );
}
