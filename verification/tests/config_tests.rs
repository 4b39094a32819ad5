use binarr::Config;
use binarr::ConfigError;

fn args(list: &[&str]) -> Vec<String> {
    list.iter().map(|s| s.to_string()).collect()
}

#[test]
fn no_arguments_is_missing_input() {
    let r = Config::new(args(&[]));
    assert!(matches!(r, Err(ConfigError::MissingInputPath)));
    assert_eq!(ConfigError::MissingInputPath.message(), "didn't get a bin to dump.");
}

#[test]
fn one_argument_is_missing_output() {
    let r = Config::new(args(&["in.bin"]));
    assert!(matches!(r, Err(ConfigError::MissingOutputPath)));
    assert_eq!(
        ConfigError::MissingOutputPath.message(),
        "didn't get a name for the output file."
    );
}

#[test]
fn two_arguments_take_the_default_width() {
    let c = Config::new(args(&["in.bin", "out.txt"])).unwrap();
    assert_eq!(c.in_filename, "in.bin");
    assert_eq!(c.out_filename, "out.txt");
    assert_eq!(c.line_width, 80);
}

#[test]
fn default_width_equals_explicit_80() {
    let implicit = Config::new(args(&["in.bin", "out.txt"])).unwrap();
    let explicit = Config::new(args(&["in.bin", "out.txt", "80"])).unwrap();
    assert_eq!(implicit.in_filename, explicit.in_filename);
    assert_eq!(implicit.out_filename, explicit.out_filename);
    assert_eq!(implicit.line_width, explicit.line_width);
}

#[test]
fn width_49_is_out_of_range() {
    let r = Config::new(args(&["in.bin", "out.txt", "49"]));
    assert!(matches!(r, Err(ConfigError::LineWidthOutOfRange)));
    assert_eq!(
        ConfigError::LineWidthOutOfRange.message(),
        "line width too small, try bigger."
    );
}

#[test]
fn width_0_is_out_of_range() {
    let r = Config::new(args(&["in.bin", "out.txt", "0"]));
    assert!(matches!(r, Err(ConfigError::LineWidthOutOfRange)));
}

#[test]
fn width_50_is_accepted() {
    let c = Config::new(args(&["in.bin", "out.txt", "50"])).unwrap();
    assert_eq!(c.line_width, 50);
}

#[test]
fn large_width_is_accepted() {
    let c = Config::new(args(&["in.bin", "out.txt", "1000"])).unwrap();
    assert_eq!(c.line_width, 1000);
}

#[test]
fn non_numeric_width_is_invalid() {
    for bad in ["abc", "", "12x", "-3", " 80", "8.0"] {
        let r = Config::new(args(&["in.bin", "out.txt", bad]));
        assert!(matches!(r, Err(ConfigError::InvalidLineWidth)), "width {:?}", bad);
    }
    assert_eq!(
        ConfigError::InvalidLineWidth.message(),
        "line width is not a valid number."
    );
}

#[test]
fn oversized_width_is_invalid() {
    let r = Config::new(args(&["in.bin", "out.txt", "99999999999999999999999999"]));
    assert!(matches!(r, Err(ConfigError::InvalidLineWidth)));
}

#[test]
fn extra_arguments_are_ignored() {
    let c = Config::new(args(&["in.bin", "out.txt", "60", "junk", "more"])).unwrap();
    assert_eq!(c.in_filename, "in.bin");
    assert_eq!(c.out_filename, "out.txt");
    assert_eq!(c.line_width, 60);
}
