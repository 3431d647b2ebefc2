use txtutil::catr::Config;
use txtutil::catr::echo;
use txtutil::catr::echo_non_blank_number;
use txtutil::catr::echo_number;
use txtutil::catr::get_args;
use txtutil::catr::run;
use txtutil::source::Source;

fn lines(ls: &[&str]) -> Vec<String> {
    ls.iter().map(|s| s.to_string()).collect()
}

fn opened(name: &str, ls: &[&str]) -> Source<Vec<String>> {
    Source { name: name.to_string(), data: Ok(lines(ls)) }
}

#[test]
fn plain_streams_lines_verbatim() {
    let sources = vec![opened("f", &["alpha", "", "beta"])];
    let (out, warns) = echo(&sources);
    assert_eq!(out, lines(&["alpha", "", "beta"]));
    assert!(warns.is_empty());
}

#[test]
fn number_all_lines_width_six() {
    let sources = vec![opened("f", &["alpha", "beta", "gamma"])];
    let (out, warns) = echo_number(&sources);
    assert_eq!(
        out,
        lines(&["     1\talpha", "     2\tbeta", "     3\tgamma"])
    );
    assert!(warns.is_empty());
}

#[test]
fn number_all_counts_blank_lines_too() {
    let sources = vec![opened("f", &["a", "", "b"])];
    let (out, _) = echo_number(&sources);
    assert_eq!(out, lines(&["     1\ta", "     2\t", "     3\tb"]));
}

#[test]
fn number_nonblank_skips_blanks() {
    let sources = vec![opened("f", &["a", "", "b", "", "", "c"])];
    let (out, _) = echo_non_blank_number(&sources);
    assert_eq!(
        out,
        lines(&["     1\ta", "", "     2\tb", "", "", "     3\tc"])
    );
}

#[test]
fn counters_carry_across_files() {
    let sources = vec![
        opened("f1", &["one", "two", "three"]),
        opened("f2", &["four", "five"]),
    ];
    let (out, _) = echo_number(&sources);
    assert_eq!(
        out,
        lines(&[
            "     1\tone",
            "     2\ttwo",
            "     3\tthree",
            "     4\tfour",
            "     5\tfive",
        ])
    );

    let sources = vec![
        opened("f1", &["a", "", "b"]),
        opened("f2", &["c", ""]),
    ];
    let (out, _) = echo_non_blank_number(&sources);
    assert_eq!(out, lines(&["     1\ta", "", "     2\tb", "     3\tc", ""]));
}

#[test]
fn missing_file_warns_and_continues() {
    let sources = vec![
        Source {
            name: "nope".to_string(),
            data: Err("No such file or directory (os error 2)".to_string()),
        },
        opened("ok", &["x"]),
    ];
    let (out, warns) = echo_number(&sources);
    assert_eq!(out, lines(&["     1\tx"]));
    assert_eq!(warns.len(), 1);
    assert_eq!(warns[0], "nope: No such file or directory (os error 2)");
    assert!(warns[0].contains("nope"));
}

#[test]
fn run_dispatches_on_mode() {
    let sources = vec![opened("f", &["a", "b"])];
    let cfg = Config {
        files: vec!["f".to_string()],
        number_lines: false,
        number_nonblank_lines: false,
    };
    let (out, _) = run(&cfg, &sources);
    assert_eq!(out, lines(&["a", "b"]));

    let cfg = Config {
        files: vec!["f".to_string()],
        number_lines: true,
        number_nonblank_lines: false,
    };
    let (out, _) = run(&cfg, &sources);
    assert_eq!(out, lines(&["     1\ta", "     2\tb"]));

    let cfg = Config {
        files: vec!["f".to_string()],
        number_lines: false,
        number_nonblank_lines: true,
    };
    let (out, _) = run(&cfg, &sources);
    assert_eq!(out, lines(&["     1\ta", "     2\tb"]));
}

#[test]
fn get_args_defaults_to_stdin() {
    let c = get_args(&vec![]).unwrap();
    assert_eq!(c.files, vec!["-".to_string()]);
    assert!(!c.number_lines);
    assert!(!c.number_nonblank_lines);
}

#[test]
fn get_args_flags() {
    let args = vec!["-n".to_string(), "f1".to_string(), "f2".to_string()];
    let c = get_args(&args).unwrap();
    assert!(c.number_lines);
    assert_eq!(c.files, lines(&["f1", "f2"]));

    let args = vec!["--number-nonblank".to_string(), "f".to_string()];
    let c = get_args(&args).unwrap();
    assert!(c.number_nonblank_lines);

    let args = vec!["-n".to_string(), "-b".to_string()];
    assert!(get_args(&args).is_err());

    let args = vec!["--bogus".to_string()];
    assert!(get_args(&args).is_err());
}
