use clap::{Arg, Command};
use std::ops::RangeInclusive;
use tile_split::range_arg::parse_range;

fn zoom_range(arg: &str) -> Result<RangeInclusive<u8>, String> {
    match parse_range(arg, u8::MAX as u32) {
        Some(range) => Ok((*range.start() as u8)..=(*range.end() as u8)),
        None => Err(format!("'{arg}' is not a range of zoom levels")),
    }
}

fn index_range(arg: &str) -> Result<RangeInclusive<u32>, String> {
    parse_range(arg, u32::MAX).ok_or_else(|| format!("'{arg}' is not a range of tile indices"))
}

fn zoom_level(arg: &str) -> Result<u8, String> {
    arg.parse::<u8>().map_err(|e| e.to_string())
}

fn command() -> Command {
    Command::new("bin")
        .arg(Arg::new("filename").required(true))
        .arg(
            Arg::new("zoomlevel")
                .short('l')
                .long("zoomlevel")
                .required(true)
                .value_parser(zoom_level),
        )
        .arg(
            Arg::new("zoomrange")
                .short('r')
                .long("zoomrange")
                .value_parser(zoom_range),
        )
        .arg(
            Arg::new("targetrange")
                .short('t')
                .long("targetrange")
                .value_parser(index_range),
        )
}

#[test]
fn args_prompt_help_on_empty() {
    let err = command()
        .try_get_matches_from(["bin"])
        .expect_err("arg parse passed!?");
    let out = err.to_string();
    assert!(out.contains("--help"), "need --help in output {:?}", out);
}

#[test]
#[should_panic] // known failure, --zoomlevel is required
fn args_file_only() {
    let args = command()
        .try_get_matches_from(["bin", "a-file.png"])
        .expect("arg parse failed");
    assert_eq!(args.get_one::<String>("filename").unwrap(), "a-file.png");
}

#[test]
fn all_args() {
    let args = command()
        .try_get_matches_from(["bin", "-l", "7", "a-file.png", "-r", "0-5", "-t", "0-333"])
        .expect("arg parse failed");
    assert_eq!(args.get_one::<String>("filename").unwrap(), "a-file.png");
    assert_eq!(*args.get_one::<u8>("zoomlevel").unwrap(), 7);
    assert_eq!(
        args.get_one::<RangeInclusive<u8>>("zoomrange").cloned().unwrap(),
        0..=5
    );
    assert_eq!(
        args.get_one::<RangeInclusive<u32>>("targetrange").cloned(),
        Some(0..=333)
    );
}

#[test]
fn range_forms() {
    assert_eq!(parse_range("0-5", 255), Some(0..=5));
    assert_eq!(parse_range("3 9", 255), Some(3..=9));
    assert_eq!(parse_range("7", 255), Some(7..=7));
    assert_eq!(parse_range("+2-+4", 255), Some(2..=4));
    assert_eq!(parse_range("007-010", 255), Some(7..=10));
    assert_eq!(parse_range("0-4294967295", u32::MAX), Some(0..=u32::MAX));
}

#[test]
fn rejected_ranges() {
    assert_eq!(parse_range("", 255), None);
    assert_eq!(parse_range("-5", 255), None);
    assert_eq!(parse_range("5-", 255), None);
    assert_eq!(parse_range("1-2-3", 255), None);
    assert_eq!(parse_range("256", 255), None);
    assert_eq!(parse_range("0-256", 255), None);
    assert_eq!(parse_range("4294967296", u32::MAX), None);
    assert_eq!(parse_range("99999999999999999999", u32::MAX), None);
    assert_eq!(parse_range("a-b", 255), None);
    assert_eq!(parse_range("+", 255), None);
    assert_eq!(parse_range("1.5", 255), None);
}
