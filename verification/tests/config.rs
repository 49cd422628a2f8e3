use commentreducr::config::{
    check_flags, parse_config, parse_config_value, parse_usize, resolve_config, ConfigValue,
    FileConfig, FlagError, Overrides, DEFAULT_DOC_MODEL, DEFAULT_ENDPOINT, DEFAULT_MODEL,
};
use commentreducr::types::{Mode, Target};

fn chars(s: &str) -> Vec<char> {
    s.chars().collect()
}

#[test]
fn parse_config_readme_example_and_errors() {
    // The README's example config, verbatim.
    let readme = r#"
endpoint = "http://localhost:8000/v1"        # default
model = "gemma-4-e2b-it-4bit"                # default for comments (and docstrings if docstrings_model is unset)
docstrings_model = "gemma-4-26b-a4b-it-4bit" # default for docstrings
api_key = "sk-..."                            # optional
workers = 8                                   # worker threads / max in-flight LLM requests, default 8
min_lines = 4                                 # minimum lines in a block before it's reduced, default 4
min_density = 5.0                             # comments only: minimum average words per line, default 5
max_words = 20                                # comments only: target max words in a summary, default 20
"#;
    let c = parse_config(readme).unwrap();
    assert_eq!(c.endpoint.as_deref(), Some("http://localhost:8000/v1"));
    assert_eq!(c.model.as_deref(), Some("gemma-4-e2b-it-4bit"));
    assert_eq!(c.docstrings_model.as_deref(), Some("gemma-4-26b-a4b-it-4bit"));
    assert_eq!(c.api_key.as_deref(), Some("sk-..."));
    assert_eq!(c.workers, Some(8));
    assert_eq!(c.min_lines, Some(4));
    let density: Option<f64> = c.min_density.as_deref().map(|t| t.parse().unwrap());
    assert_eq!(density, Some(5.0));
    assert_eq!(c.max_words, Some(20));

    // escaped quote inside a string
    let c = parse_config(r#"model = "a \"quoted\" name""#).unwrap();
    assert_eq!(c.model.as_deref(), Some("a \"quoted\" name"));

    // unknown keys are ignored, so a config written for a newer version still loads
    assert!(parse_config("nonsense = \"x\"\n").unwrap().model.is_none());

    // errors: duplicate key, a [section] header, a string for a numeric key
    assert!(parse_config("model = \"a\"\nmodel = \"b\"\n").is_err());
    assert!(parse_config("[section]\n").is_err());
    assert!(parse_config("min_lines = \"two\"\n").is_err());
}

#[test]
fn config_errors_name_their_line() {
    let e = parse_config("model = \"a\"\n\n[section]\n").unwrap_err();
    assert_eq!(e.line, 3);
    assert_eq!(e.message(), "line 3: sections are not supported");
    let e = parse_config("model = \"a\"\nmodel = \"b\"\n").unwrap_err();
    assert_eq!(e.message(), "line 2: duplicate key model");
    let e = parse_config("min_lines = \"two\"\n").unwrap_err();
    assert_eq!(e.message(), "line 1: min_lines expects a number");
    let e = parse_config("workers = 2.5\n").unwrap_err();
    assert_eq!(e.message(), "line 1: workers expects a whole number");
    let e = parse_config("model = \"m\" trailing\n").unwrap_err();
    assert_eq!(e.message(), "line 1: unexpected trailing content");
    let e = parse_config("model = \"abc\n").unwrap_err();
    assert_eq!(e.message(), "line 1: unterminated string");
    let e = parse_config("model = \"a\\qb\"\n").unwrap_err();
    assert_eq!(e.message(), "line 1: invalid escape \\q");
    let e = parse_config("model = \n").unwrap_err();
    assert_eq!(e.message(), "line 1: expected key = value");
    let e = parse_config("no equals sign\n").unwrap_err();
    assert_eq!(e.message(), "line 1: expected key = value");
    let e = parse_config("bad key! = 1\n").unwrap_err();
    assert_eq!(e.message(), "line 1: expected key = value");
    let e = parse_config("endpoint = 3\n").unwrap_err();
    assert_eq!(e.message(), "line 1: endpoint expects a string");
}

#[test]
fn config_small_cases() {
    // A byte-order mark, comments, blank lines and CRLF are all fine.
    let c = parse_config("\u{feff}# settings\r\n\r\nmodel = \"m\"\r\napi_key = \"k\"\r\nmin_lines = 2\r\n")
        .unwrap();
    assert_eq!(
        (c.model.as_deref(), c.api_key.as_deref(), c.endpoint, c.docstrings_model, c.min_lines),
        (Some("m"), Some("k"), None, None, Some(2))
    );
    let c = parse_config("").unwrap();
    assert!(c.model.is_none() && c.workers.is_none() && c.min_density.is_none());
    // Escapes in strings.
    let c = parse_config("model = \"a\\\\b\\n\\t\\r\"\n").unwrap();
    assert_eq!(c.model.as_deref(), Some("a\\b\n\t\r"));
    // The density token keeps its line for the caller's own message.
    let c = parse_config("\nmin_density = 2.5 # words\n").unwrap();
    assert_eq!(c.min_density.as_deref(), Some("2.5"));
    assert_eq!(c.min_density_line, 2);
}

#[test]
fn config_values_and_numbers() {
    match parse_config_value(&chars("\"x y\" # c")).unwrap() {
        (ConfigValue::Str(s), rest) => {
            assert_eq!(s, "x y");
            assert_eq!(rest, chars(" # c"));
        }
        _ => panic!("expected a string"),
    }
    match parse_config_value(&chars("42#c")).unwrap() {
        (ConfigValue::Num(s), rest) => {
            assert_eq!(s, "42");
            assert_eq!(rest, chars("#c"));
        }
        _ => panic!("expected a bare token"),
    }
    assert_eq!(parse_usize(&chars("8")), Some(8));
    assert_eq!(parse_usize(&chars("+8")), Some(8));
    assert_eq!(parse_usize(&chars("007")), Some(7));
    assert_eq!(parse_usize(&chars("")), None);
    assert_eq!(parse_usize(&chars("-1")), None);
    assert_eq!(parse_usize(&chars("1e3")), None);
    assert_eq!(parse_usize(&chars("99999999999999999999999")), None);
}

fn no_flags() -> Overrides {
    Overrides {
        delete: false,
        dry_run: false,
        verbose: false,
        endpoint: None,
        model: None,
        api_key: None,
        workers: None,
        min_lines: None,
        min_density_milli: None,
        max_words: None,
    }
}

fn empty_file() -> FileConfig {
    parse_config("").unwrap()
}

#[test]
fn dry_run_requires_delete_flag() {
    let mut f = no_flags();
    f.dry_run = true;
    assert_eq!(check_flags(&f), Err(FlagError::DryRunWithoutDelete));
    assert!(FlagError::DryRunWithoutDelete.message().contains("--delete"));
    f.delete = true;
    assert_eq!(check_flags(&f), Ok(()));
    assert_eq!(check_flags(&no_flags()), Ok(()));
}

#[test]
fn settings_default_then_file_then_flags() {
    let c = resolve_config(Target::Comments, &no_flags(), &empty_file(), None);
    assert_eq!(c.mode, Mode::Reduce);
    assert_eq!(c.endpoint, DEFAULT_ENDPOINT);
    assert_eq!(c.model, DEFAULT_MODEL);
    assert_eq!(c.min_lines, 4);
    assert_eq!(c.min_density_milli, 5000);
    assert_eq!(c.max_summary_words, 20);
    assert_eq!(c.llm_concurrency, 8);
    assert!(c.api_key.is_none());
    let d = resolve_config(Target::Docstrings, &no_flags(), &empty_file(), None);
    assert_eq!(d.model, DEFAULT_DOC_MODEL);

    let file = parse_config("model = \"m\"\nworkers = 3\nmin_lines = 6\nendpoint = \"http://x/v1\"\n")
        .unwrap();
    let c = resolve_config(Target::Comments, &no_flags(), &file, Some(2500));
    assert_eq!((c.model.as_str(), c.llm_concurrency, c.min_lines), ("m", 3, 6));
    assert_eq!(c.endpoint, "http://x/v1");
    assert_eq!(c.min_density_milli, 2500);
    // For docstrings the file's `model` stands in when `docstrings_model` is unset...
    assert_eq!(resolve_config(Target::Docstrings, &no_flags(), &file, None).model, "m");
    // ...and `docstrings_model` wins over it.
    let file2 = parse_config("model = \"m\"\ndocstrings_model = \"big\"\n").unwrap();
    assert_eq!(resolve_config(Target::Docstrings, &no_flags(), &file2, None).model, "big");
    assert_eq!(resolve_config(Target::Comments, &no_flags(), &file2, None).model, "m");

    let mut flags = no_flags();
    flags.delete = true;
    flags.model = Some("flag-model".to_string());
    flags.workers = Some(1);
    flags.min_density_milli = Some(7000);
    flags.api_key = Some("k".to_string());
    let c = resolve_config(Target::Docstrings, &flags, &file2, Some(2500));
    assert_eq!(c.mode, Mode::Delete);
    assert_eq!(c.model, "flag-model");
    assert_eq!(c.llm_concurrency, 1);
    assert_eq!(c.min_density_milli, 7000);
    assert_eq!(c.api_key.as_deref(), Some("k"));
    assert_eq!(c.target, Target::Docstrings);
}
