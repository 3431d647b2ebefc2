use txtutil::headr::Config;
use txtutil::headr::get_args;
use txtutil::headr::head_bytes;
use txtutil::headr::head_lines;
use txtutil::headr::parse_positive_int;
use txtutil::headr::run;
use txtutil::headr::validate_bytes;
use txtutil::headr::validate_lines;
use txtutil::source::Chunk;
use txtutil::source::Source;

#[test]
fn test_parse_positive_int() {
    // 3 is an OK integer
    let res = parse_positive_int("3");
    assert!(res.is_ok());
    assert_eq!(res.unwrap(), 3);

    // Any string is an error
    let res = parse_positive_int("foo");
    assert!(res.is_err());
    assert_eq!(res.unwrap_err().to_string(), "foo".to_string());

    // A zero is an error
    let res = parse_positive_int("0");
    assert!(res.is_err());
    assert_eq!(res.unwrap_err().to_string(), "0".to_string());
}

#[test]
fn parse_positive_int_more() {
    assert_eq!(parse_positive_int("+7").unwrap(), 7);
    assert!(parse_positive_int("").is_err());
    assert!(parse_positive_int("+").is_err());
    assert!(parse_positive_int("-3").is_err());
    assert!(parse_positive_int("3x").is_err());
    assert!(parse_positive_int("99999999999999999999999999").is_err());
}

#[test]
fn validators_name_the_flag() {
    assert_eq!(validate_lines("5").unwrap(), 5);
    assert_eq!(
        validate_lines("foo").unwrap_err(),
        "illegal line count -- foo".to_string()
    );
    assert_eq!(
        validate_lines("0").unwrap_err(),
        "illegal line count -- 0".to_string()
    );
    assert_eq!(validate_bytes("12").unwrap(), 12);
    assert_eq!(
        validate_bytes("blah").unwrap_err(),
        "illegal byte count -- blah".to_string()
    );
}

fn ten_lines() -> Vec<u8> {
    let mut data = Vec::new();
    for i in 1..=10 {
        data.extend_from_slice(format!("line {}\n", i).as_bytes());
    }
    data
}

#[test]
fn head_lines_first_three_of_ten() {
    let data = ten_lines();
    let r = head_lines(&data, 3);
    assert_eq!(r, b"line 1\nline 2\nline 3\n".to_vec());
}

#[test]
fn head_lines_short_file_stops_early() {
    let data = b"one\ntwo\n".to_vec();
    let r = head_lines(&data, 3);
    assert_eq!(r, b"one\ntwo\n".to_vec());
    let no_trailing = b"one\ntwo".to_vec();
    let r = head_lines(&no_trailing, 3);
    assert_eq!(r, b"one\ntwo".to_vec());
}

#[test]
fn head_bytes_ignores_line_boundaries() {
    let data = b"ab\ncd\nef\n".to_vec();
    assert_eq!(head_bytes(&data, 5), b"ab\ncd".to_vec());
    assert_eq!(head_bytes(&data, 100), data);
}

#[test]
fn run_single_source_no_banner() {
    let cfg = Config { files: vec!["f".to_string()], lines: 2, bytes: None };
    let sources = vec![Source {
        name: "f".to_string(),
        data: Ok(b"a\nb\nc\n".to_vec()),
    }];
    let (out, warns) = run(&cfg, &sources);
    assert!(warns.is_empty());
    assert_eq!(out.len(), 1);
    match &out[0] {
        Chunk::Bytes(b) => assert_eq!(b, &b"a\nb\n".to_vec()),
        Chunk::Text(_) => panic!("expected raw content"),
    }
}

#[test]
fn run_multiple_sources_get_banners() {
    let cfg = Config {
        files: vec!["f1".to_string(), "f2".to_string()],
        lines: 10,
        bytes: None,
    };
    let sources = vec![
        Source { name: "f1".to_string(), data: Ok(b"x\n".to_vec()) },
        Source { name: "f2".to_string(), data: Ok(b"y\n".to_vec()) },
    ];
    let (out, warns) = run(&cfg, &sources);
    assert!(warns.is_empty());
    assert_eq!(out.len(), 4);
    match &out[0] {
        Chunk::Text(t) => assert_eq!(t, "==> f1 <==\n"),
        Chunk::Bytes(_) => panic!("expected banner"),
    }
    match &out[2] {
        Chunk::Text(t) => assert_eq!(t, "\n==> f2 <==\n"),
        Chunk::Bytes(_) => panic!("expected banner"),
    }
}

#[test]
fn run_byte_mode() {
    let cfg = Config { files: vec!["f".to_string()], lines: 10, bytes: Some(5) };
    let sources = vec![Source {
        name: "f".to_string(),
        data: Ok(ten_lines()),
    }];
    let (out, _) = run(&cfg, &sources);
    match &out[0] {
        Chunk::Bytes(b) => assert_eq!(b, &b"line ".to_vec()),
        Chunk::Text(_) => panic!("expected raw content"),
    }
}

#[test]
fn run_missing_file_warns_and_continues() {
    let cfg = Config {
        files: vec!["nope".to_string(), "ok".to_string()],
        lines: 10,
        bytes: None,
    };
    let sources = vec![
        Source {
            name: "nope".to_string(),
            data: Err("No such file or directory (os error 2)".to_string()),
        },
        Source { name: "ok".to_string(), data: Ok(b"z\n".to_vec()) },
    ];
    let (out, warns) = run(&cfg, &sources);
    assert_eq!(warns.len(), 1);
    assert_eq!(warns[0], "nope: No such file or directory (os error 2)");
    assert!(warns[0].contains("nope"));
    assert_eq!(out.len(), 2);
    match &out[1] {
        Chunk::Bytes(b) => assert_eq!(b, &b"z\n".to_vec()),
        Chunk::Text(_) => panic!("expected raw content"),
    }
}

#[test]
fn first_printed_banner_gets_no_blank_line() {
    // The first of three requested files fails to open: the first banner
    // actually printed carries no leading blank line, and only the banner
    // after it does.
    let cfg = Config {
        files: vec!["nope".to_string(), "f2".to_string(), "f3".to_string()],
        lines: 10,
        bytes: None,
    };
    let sources = vec![
        Source {
            name: "nope".to_string(),
            data: Err("No such file or directory (os error 2)".to_string()),
        },
        Source { name: "f2".to_string(), data: Ok(b"a\n".to_vec()) },
        Source { name: "f3".to_string(), data: Ok(b"b\n".to_vec()) },
    ];
    let (out, warns) = run(&cfg, &sources);
    assert_eq!(warns.len(), 1);
    assert_eq!(out.len(), 4);
    match &out[0] {
        Chunk::Text(t) => assert_eq!(t, "==> f2 <==\n"),
        Chunk::Bytes(_) => panic!("expected banner"),
    }
    match &out[2] {
        Chunk::Text(t) => assert_eq!(t, "\n==> f3 <==\n"),
        Chunk::Bytes(_) => panic!("expected banner"),
    }
}

#[test]
fn get_args_defaults() {
    let c = get_args(&vec![]).unwrap();
    assert_eq!(c.files, vec!["-".to_string()]);
    assert_eq!(c.lines, 10);
    assert_eq!(c.bytes, None);
}

#[test]
fn get_args_limits() {
    let args = vec!["-n".to_string(), "3".to_string(), "f".to_string()];
    let c = get_args(&args).unwrap();
    assert_eq!(c.files, vec!["f".to_string()]);
    assert_eq!(c.lines, 3);

    let args = vec!["--bytes".to_string(), "4".to_string(), "f".to_string()];
    let c = get_args(&args).unwrap();
    assert_eq!(c.bytes, Some(4));
    assert_eq!(c.lines, 10);
}

#[test]
fn get_args_rejects_bad_values() {
    let args = vec!["-n".to_string(), "foo".to_string()];
    assert_eq!(
        get_args(&args).unwrap_err(),
        "illegal line count -- foo".to_string()
    );
    let args = vec!["-c".to_string(), "0".to_string()];
    assert_eq!(
        get_args(&args).unwrap_err(),
        "illegal byte count -- 0".to_string()
    );
    let args = vec![
        "-n".to_string(),
        "1".to_string(),
        "-c".to_string(),
        "1".to_string(),
    ];
    assert!(get_args(&args).is_err());
    let args = vec!["-n".to_string()];
    assert!(get_args(&args).is_err());
    let args = vec!["--wat".to_string()];
    assert!(get_args(&args).is_err());
}
