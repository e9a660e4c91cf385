use cccut::cli::create_cutter;
use cccut::{Cutter, Mode};

fn lines(v: &[&str]) -> Vec<String> {
    v.iter().map(|s| s.to_string()).collect()
}

#[test]
fn fields_are_cut_by_number() {
    let cutter = Cutter::new(Mode::Fields(vec![2], '\t'));
    let input = lines(&["f0\tf1\tf2", "0\t1\t2", "5\t6"]);
    assert_eq!(lines(&[" f1", " 1", " 6"]), cutter.cut(&input));
}

#[test]
fn missing_fields_and_field_zero_are_passed_over() {
    let cutter = Cutter::new(Mode::Fields(vec![0, 3, 1, 9], ','));
    assert_eq!(" c a", cutter.filter("a,b,c"));
    assert_eq!(" ", Cutter::new(Mode::Fields(vec![1], ',')).filter(""));
}

#[test]
fn character_ranges() {
    let cutter = Cutter::new(Mode::Characters(vec![0..2, 3..4, 2..9]));
    assert_eq!(" hé o", cutter.filter("hélo"));
}

#[test]
fn byte_ranges_decode_lossily() {
    let cutter = Cutter::new(Mode::Bytes(vec![0..2, 0..1, 5..6]));
    assert_eq!(" h\u{fffd} h", cutter.filter("hé"));
}

#[test]
fn command_line_builds_a_field_cutter() {
    let args = lines(&["-f", "1,3", "-d", ",", "a.csv", "b.csv"]);
    let (cutter, files) = create_cutter(args).unwrap();
    assert_eq!(lines(&["a.csv", "b.csv"]), files);
    assert_eq!(" x z", cutter.filter("x,y,z"));
}

#[test]
fn command_line_errors_are_reported() {
    let err = create_cutter(lines(&["-q"])).err();
    assert_eq!(Some(String::from("Invalid arguments error: unknown flag: q")), err);
    let err = create_cutter(lines(&["--fields", "a"])).err();
    assert_eq!(
        Some(String::from(
            "Invalid arguments error: could not parse flag fields err: invalid digit found in string"
        )),
        err
    );
}
