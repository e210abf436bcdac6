use ivo::cli::parse_command;

fn args(items: &[&str]) -> Vec<String> {
    items.iter().map(|s| s.to_string()).collect()
}

#[test]
fn input_only() {
    let c = parse_command(args(&["ivo", "main.ivo"])).unwrap();
    assert_eq!(c.input, "main.ivo");
    assert_eq!(c.output, None);
    assert!(!c.no_color);
}

#[test]
fn output_path() {
    let c = parse_command(args(&["ivo", "main.ivo", "-o", "out"])).unwrap();
    assert_eq!(c.output, Some("out".to_string()));
    let c = parse_command(args(&["ivo", "--output", "out", "main.ivo"])).unwrap();
    assert_eq!(c.input, "main.ivo");
    assert_eq!(c.output, Some("out".to_string()));
}

#[test]
fn output_flag_without_path() {
    let e = parse_command(args(&["ivo", "main.ivo", "--output"])).err().unwrap();
    assert_eq!(e, "Expected output path after `--output` argument");
}

#[test]
fn output_given_twice() {
    let e = parse_command(args(&["ivo", "main.ivo", "-o", "a", "-o", "b"])).err().unwrap();
    assert_eq!(e, "Output path already defined");
}

#[test]
fn colors_off() {
    assert!(parse_command(args(&["ivo", "--no-color", "x"])).unwrap().no_color);
    assert!(parse_command(args(&["ivo", "-c", "x"])).unwrap().no_color);
    assert!(parse_command(args(&["ivo", "x", "-xcz"])).unwrap().no_color);
}

#[test]
fn help_and_version() {
    assert_eq!(parse_command(args(&["ivo", "-h"])).err().unwrap(), "print help");
    assert_eq!(parse_command(args(&["ivo", "--help"])).err().unwrap(), "print help");
    assert_eq!(parse_command(args(&["ivo", "x", "-V"])).err().unwrap(), "print version");
}

#[test]
fn long_version_flag_is_read_as_short_flags() {
    let c = parse_command(args(&["ivo", "--version", "x"])).unwrap();
    assert_eq!(c.input, "x");
    assert!(!c.no_color);
}

#[test]
fn missing_or_repeated_input() {
    assert_eq!(parse_command(args(&["ivo"])).err().unwrap(), "Expected input path");
    assert_eq!(parse_command(args(&["ivo", "a", "b"])).err().unwrap(), "Input path already defined");
}
