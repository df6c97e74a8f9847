use minipacked::args::{
    CompressionMode, PackRequest, finish_pack_args, forwarded_args, parse_pack_args,
    validate_input_path,
};
use minipacked::error::PackError;

fn v(args: &[&str]) -> Vec<String> {
    args.iter().map(|s| s.to_string()).collect()
}

#[test]
fn zstd_levels() {
    assert_eq!(CompressionMode::Fast.zstd_level(), 1);
    assert_eq!(CompressionMode::Default.zstd_level(), 3);
    assert_eq!(CompressionMode::Compact.zstd_level(), 19);
}

#[test]
fn parse_plain_file() {
    let r = parse_pack_args(&v(&["minipack", "file.txt"])).unwrap();
    assert_eq!(r.input, "file.txt");
    assert!(!r.recursive);
    assert_eq!(r.compression, CompressionMode::Default);
}

#[test]
fn parse_flags_any_order() {
    let r = parse_pack_args(&v(&["minipack", "-r", "dir", "--compact"])).unwrap();
    assert_eq!(r.input, "dir");
    assert!(r.recursive);
    assert_eq!(r.compression, CompressionMode::Compact);
    let r = parse_pack_args(&v(&["minipack", "--fast", "x"])).unwrap();
    assert_eq!(r.compression, CompressionMode::Fast);
}

#[test]
fn parse_errors() {
    assert_eq!(parse_pack_args(&v(&[])).err(), Some(PackError::PackUsage));
    assert_eq!(parse_pack_args(&v(&["minipack"])).err(), Some(PackError::PackUsage));
    assert_eq!(parse_pack_args(&v(&["minipack", "a", "b"])).err(), Some(PackError::PackUsage));
    assert_eq!(
        parse_pack_args(&v(&["minipack", "--fast", "--compact", "a"])).err(),
        Some(PackError::MultipleCompressionModes)
    );
    assert_eq!(
        parse_pack_args(&v(&["minipack", "--fast", "--fast", "a"])).err(),
        Some(PackError::MultipleCompressionModes)
    );
    assert_eq!(
        parse_pack_args(&v(&["minipack", "-r", "-r", "a"])).err(),
        Some(PackError::RepeatedRecursiveFlag)
    );
    assert_eq!(
        parse_pack_args(&v(&["minipack", "a", "--slow"])).err(),
        Some(PackError::UnknownOption(2))
    );
    // the first problem wins, even before an input is seen
    assert_eq!(
        parse_pack_args(&v(&["minipack", "-x", "a", "b"])).err(),
        Some(PackError::UnknownOption(1))
    );
}

#[test]
fn input_checks() {
    assert_eq!(validate_input_path("a".to_string(), true).unwrap(), "a");
    assert_eq!(validate_input_path("a".to_string(), false).err(), Some(PackError::InputNotFound));
    let req = |recursive| PackRequest {
        input: "p".to_string(),
        recursive,
        compression: CompressionMode::Fast,
    };
    assert_eq!(finish_pack_args(req(false), false, false).err(), Some(PackError::InputNotFound));
    assert_eq!(
        finish_pack_args(req(true), true, false).err(),
        Some(PackError::RecursiveNeedsDirectory)
    );
    assert_eq!(
        finish_pack_args(req(false), true, true).err(),
        Some(PackError::DirectoryNeedsRecursive)
    );
    let ok = finish_pack_args(req(true), true, true).unwrap();
    assert_eq!(ok.input, "p");
    assert_eq!(ok.compression, CompressionMode::Fast);
    assert!(finish_pack_args(req(false), true, false).is_ok());
}

#[test]
fn forwarding() {
    assert_eq!(
        forwarded_args(&v(&["minipacked", "pack", "-r", "dir"]), "minipack"),
        v(&["minipack", "-r", "dir"])
    );
    assert_eq!(forwarded_args(&v(&["minipacked", "pack"]), "minipack"), v(&["minipack"]));
    assert_eq!(forwarded_args(&v(&["minipacked"]), "minipack"), v(&["minipack"]));
    assert_eq!(forwarded_args(&v(&[]), "miniunpack"), v(&["miniunpack"]));
}

#[test]
fn argument_order_does_not_matter() {
    let orders: [&[&str]; 4] = [
        &["minipack", "-r", "--fast", "dir"],
        &["minipack", "dir", "--fast", "-r"],
        &["minipack", "--fast", "dir", "-r"],
        &["minipack", "-r", "dir", "--fast"],
    ];
    for order in orders {
        let r = parse_pack_args(&v(order)).unwrap();
        assert_eq!(r.input, "dir");
        assert!(r.recursive);
        assert_eq!(r.compression, CompressionMode::Fast);
    }
    assert!(parse_pack_args(&v(&["minipack", "--fast", "a", "--compact"])).is_err());
    assert!(parse_pack_args(&v(&["minipack", "--compact", "--fast", "a"])).is_err());
}
