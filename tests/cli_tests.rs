use csv_row_analyzer::cli::{
    extract_basename, generate_timestamp, parse_arguments, stem_before_dot, timestamp_text, InputSource,
    PathError,
};

fn args(a: &[&str]) -> Vec<String> {
    a.iter().map(|s| s.to_string()).collect()
}

#[test]
fn missing_input_argument() {
    assert_eq!(
        parse_arguments(&args(&["prog"])),
        Err("Missing input argument. Use a file path or --directory <path>".to_string())
    );
}

#[test]
fn single_file_with_default_output() {
    assert_eq!(
        parse_arguments(&args(&["prog", "data.csv"])),
        Ok((InputSource::SingleFile("data.csv".to_string()), "reports".to_string()))
    );
}

#[test]
fn single_file_with_output() {
    assert_eq!(
        parse_arguments(&args(&["prog", "data.csv", "out"])),
        Ok((InputSource::SingleFile("data.csv".to_string()), "out".to_string()))
    );
}

#[test]
fn directory_with_output() {
    assert_eq!(
        parse_arguments(&args(&["prog", "--directory", "dir", "out"])),
        Ok((InputSource::Directory("dir".to_string()), "out".to_string()))
    );
}

#[test]
fn directory_flag_without_path() {
    assert_eq!(
        parse_arguments(&args(&["prog", "--directory"])),
        Err("--directory requires a path argument".to_string())
    );
}

#[test]
fn unknown_flag() {
    assert_eq!(
        parse_arguments(&args(&["prog", "data.csv", "--verbose"])),
        Err("Unknown argument: --verbose".to_string())
    );
    assert_eq!(parse_arguments(&args(&["prog", "--x"])), Err("Unknown argument: --x".to_string()));
}

#[test]
fn later_directory_flag_replaces_file() {
    assert_eq!(
        parse_arguments(&args(&["prog", "a.csv", "--directory", "d"])),
        Ok((InputSource::Directory("d".to_string()), "reports".to_string()))
    );
}

#[test]
fn empty_paths_are_refused() {
    assert_eq!(parse_arguments(&args(&["prog", ""])), Err("Missing input file path".to_string()));
    assert_eq!(
        parse_arguments(&args(&["prog", "--directory", ""])),
        Err("Missing directory path".to_string())
    );
}

#[test]
fn stems() {
    assert_eq!(stem_before_dot("data.v1.csv"), "data");
    assert_eq!(stem_before_dot("report"), "report");
    assert_eq!(stem_before_dot(".hidden"), "");
    assert_eq!(stem_before_dot("näme.csv"), "näme");
}

#[test]
fn basenames() {
    assert_eq!(extract_basename("dir/sub/data.v1.csv"), Ok("data".to_string()));
    assert_eq!(extract_basename("plain"), Ok("plain".to_string()));
    assert_eq!(extract_basename("dir/.."), Err(PathError::NoFileName));
    assert_eq!(extract_basename(""), Err(PathError::NoFileName));
}

#[test]
fn timestamps() {
    assert_eq!(timestamp_text(0), "0");
    assert_eq!(timestamp_text(7), "7");
    assert_eq!(timestamp_text(1_700_000_000), "1700000000");
    assert_eq!(timestamp_text(u64::MAX), u64::MAX.to_string());
    let now = generate_timestamp().unwrap();
    assert!(now.chars().all(|c| c.is_ascii_digit()));
    assert!(now.parse::<u64>().unwrap() > 1_600_000_000);
}
