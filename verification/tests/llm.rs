use commentreducr::llm::{demos, strip_preamble, LlmClient, Role, TokenTotals};
use commentreducr::types::{Config, Mode, Target};
use commentreducr::llm::{
    clean_reply, doc_demos, doc_user_message, parse_doc_reply, parse_summary_reply, user_message,
    DocRequest, DocVerdict, ReplyError, Verdict,
};

#[test]
fn cleans_quoted_reply() {
    assert_eq!(
        clean_reply("\"Parses the config file.\"\n"),
        "Parses the config file."
    );
}

#[test]
fn strips_comment_leader_and_collapses_whitespace() {
    assert_eq!(clean_reply("//  hello   world  "), "hello world");
}

#[test]
fn empty_reply_is_empty() {
    assert_eq!(clean_reply("\n\n  \n"), "");
}

#[test]
fn markdown_fence_is_skipped_not_mangled() {
    assert_eq!(
        clean_reply("```\nThis function computes epsilon for the solver.\n```"),
        "This function computes epsilon for the solver."
    );
}

#[test]
fn conversational_preamble_is_stripped() {
    assert_eq!(
        clean_reply("Here is the one line summary: parses the config file"),
        "parses the config file"
    );
}

#[test]
fn lone_punctuation_reply_is_rejected() {
    assert_eq!(clean_reply("```"), "");
    assert_eq!(clean_reply("`"), "");
}

fn doc_req<'a>(kind: &'a str, is_test: bool, preview: &'a [String]) -> DocRequest<'a> {
    DocRequest {
        kind,
        name: "",
        signature: "",
        is_test,
        in_test_file: is_test,
        text: "",
        body_preview: preview,
        body_lines: 4,
    }
}

#[test]
fn parse_doc_reply_bare_delete_is_delete() {
    let r = doc_req("function", false, &[]);
    assert_eq!(parse_doc_reply("DELETE", &r).unwrap(), DocVerdict::Delete);
}

#[test]
fn parse_doc_reply_delete_tolerates_case_and_trailing_punctuation() {
    let r = doc_req("function", false, &[]);
    assert_eq!(parse_doc_reply("delete.", &r).unwrap(), DocVerdict::Delete);
    assert_eq!(parse_doc_reply("Delete:", &r).unwrap(), DocVerdict::Delete);
}

#[test]
fn parse_doc_reply_delete_wins_regardless_of_trailing_lines() {
    let r = doc_req("function", false, &[]);
    assert_eq!(
        parse_doc_reply("DELETE\nThis text should be ignored.", &r).unwrap(),
        DocVerdict::Delete
    );
}

#[test]
fn parse_doc_reply_keep_returns_the_rest_as_text() {
    let r = doc_req("function", false, &[]);
    assert_eq!(
        parse_doc_reply("KEEP\nStates the real contract.", &r).unwrap(),
        DocVerdict::Text("States the real contract.".to_string())
    );
}

#[test]
fn parse_doc_reply_keep_with_empty_rest_is_delete() {
    let r = doc_req("function", false, &[]);
    assert_eq!(parse_doc_reply("KEEP", &r).unwrap(), DocVerdict::Delete);
    assert_eq!(parse_doc_reply("KEEP\n\n", &r).unwrap(), DocVerdict::Delete);
}

#[test]
fn parse_doc_reply_with_neither_keyword_keeps_the_whole_reply() {
    let r = doc_req("function", false, &[]);
    assert_eq!(
        parse_doc_reply("Falls back to 'en' when unset.", &r).unwrap(),
        DocVerdict::Text("Falls back to 'en' when unset.".to_string())
    );
}

#[test]
fn parse_doc_reply_skips_code_fences() {
    let r = doc_req("function", false, &[]);
    assert_eq!(
        parse_doc_reply("```\nKEEP\nThe real contract.\n```", &r).unwrap(),
        DocVerdict::Text("The real contract.".to_string())
    );
}

#[test]
fn parse_doc_reply_strips_a_leading_preamble_line() {
    let r = doc_req("function", false, &[]);
    assert_eq!(
        parse_doc_reply(
            "Here is the rewritten docstring:\nKEEP\nThe real contract.",
            &r
        )
        .unwrap(),
        DocVerdict::Text("The real contract.".to_string())
    );
    assert_eq!(
        parse_doc_reply("Docstring:\nDELETE", &r).unwrap(),
        DocVerdict::Delete
    );
}

#[test]
fn parse_doc_reply_strips_wrapping_triple_quotes_around_the_text() {
    let r = doc_req("function", false, &[]);
    assert_eq!(
        parse_doc_reply("KEEP\n\"\"\"\nThe real contract.\n\"\"\"", &r).unwrap(),
        DocVerdict::Text("The real contract.".to_string())
    );
}

#[test]
fn parse_doc_reply_empty_is_err() {
    let r = doc_req("function", false, &[]);
    assert!(parse_doc_reply("", &r).is_err());
    assert!(parse_doc_reply("   \n  \n", &r).is_err());
}

#[test]
fn parse_doc_reply_caps_test_function_at_two_lines() {
    let r = doc_req("function", true, &[]);
    let reply = "KEEP\nline one\nline two\nline three\nline four";
    assert_eq!(
        parse_doc_reply(reply, &r).unwrap(),
        DocVerdict::Text("line one\nline two".to_string())
    );
}

#[test]
fn parse_doc_reply_caps_test_module_at_five_lines() {
    let r = doc_req("module", true, &[]);
    let reply = "KEEP\n1\n2\n3\n4\n5\n6\n7";
    assert_eq!(
        parse_doc_reply(reply, &r).unwrap(),
        DocVerdict::Text("1\n2\n3\n4\n5".to_string())
    );
}

#[test]
fn parse_doc_reply_caps_non_test_at_fifteen_lines() {
    let r = doc_req("class", false, &[]);
    let body: Vec<String> = (1..=20).map(|n| n.to_string()).collect();
    let reply = format!("KEEP\n{}", body.join("\n"));
    let expected = (1..=15)
        .map(|n| n.to_string())
        .collect::<Vec<_>>()
        .join("\n");
    assert_eq!(
        parse_doc_reply(&reply, &r).unwrap(),
        DocVerdict::Text(expected)
    );
}

#[test]
fn parse_doc_reply_collapses_blank_runs_and_trims_edges() {
    let r = doc_req("class", false, &[]);
    let reply = "KEEP\n\n\nFirst.\n\n\n\nSecond.\n\n\n";
    assert_eq!(
        parse_doc_reply(reply, &r).unwrap(),
        DocVerdict::Text("First.\n\nSecond.".to_string())
    );
}

#[test]
fn doc_demos_round_trip_through_parse_doc_reply() {
    for demo in doc_demos() {
        let preview: Vec<String> = demo.body_preview.iter().map(|s| s.to_string()).collect();
        let req = DocRequest {
            kind: demo.kind,
            name: demo.name,
            signature: demo.signature,
            is_test: demo.is_test,
            in_test_file: demo.in_test_file,
            text: demo.text,
            body_preview: &preview,
            body_lines: demo.body_lines,
        };
        let verdict = parse_doc_reply(demo.reply, &req)
            .unwrap_or_else(|e| panic!("demo {:?} failed to parse: {e:?}", demo.name));
        let expected = match demo.reply.strip_prefix("KEEP\n") {
            Some(rest) => DocVerdict::Text(rest.to_string()),
            None => DocVerdict::Delete,
        };
        assert_eq!(verdict, expected, "demo {:?} did not round-trip", demo.name);
    }
}

#[test]
fn doc_user_message_mentions_kind_and_test_flag() {
    let req = DocRequest {
        kind: "function",
        name: "test_foo",
        signature: "def test_foo():",
        is_test: true,
        in_test_file: true,
        text: "Tests foo.",
        body_preview: &[],
        body_lines: 2,
    };
    let msg = doc_user_message(&req);
    assert!(msg.contains("Kind: function"), "message was: {msg}");
    assert!(msg.contains("Test: yes"), "message was: {msg}");
}

#[test]
fn doc_user_message_exact_layout() {
    let preview = vec!["x = 1".to_string(), "return x".to_string()];
    let req = DocRequest {
        kind: "function",
        name: "f",
        signature: "def f():",
        is_test: false,
        in_test_file: true,
        text: "  Does   a thing.\n\n  Really. ",
        body_preview: &preview,
        body_lines: 12,
    };
    assert_eq!(
        doc_user_message(&req),
        "Kind: function\nName: f\nSignature: def f():\nTest: no (in a test file)\nBody: 12 lines\nx = 1\nreturn x\n\nDocstring:\nDoes a thing. Really."
    );
}

#[test]
fn user_message_caps_prose_and_context() {
    let prose: Vec<String> = (0..200).map(|n| format!("w{n}")).collect();
    let msg = user_message(&prose.join("  "), &"c".repeat(100));
    let expected_prose: Vec<String> = (0..150).map(|n| format!("w{n}")).collect();
    assert_eq!(
        msg,
        format!(
            "Comment:\n{}\n\nNext code line: {}",
            expected_prose.join(" "),
            "c".repeat(80)
        )
    );
    assert_eq!(user_message("a b", ""), "Comment:\na b");
}

#[test]
fn summary_reply_classes() {
    assert_eq!(parse_summary_reply("D3", 20), Ok(Verdict::Delete));
    assert_eq!(parse_summary_reply("delete", 20), Ok(Verdict::Delete));
    assert_eq!(parse_summary_reply("K3", 20), Ok(Verdict::Delete));
    assert_eq!(
        parse_summary_reply("K1 libfoo drops the last write; sleep first", 20),
        Ok(Verdict::Line("libfoo drops the last write; sleep first".to_string()))
    );
    assert_eq!(
        parse_summary_reply("Keeps the cache warm", 20),
        Ok(Verdict::Line("Keeps the cache warm".to_string()))
    );
    assert_eq!(parse_summary_reply("  \n", 20), Err(ReplyError::EmptyAfterCleanup));
    assert_eq!(
        parse_summary_reply("K2 one two three four five", 2),
        Err(ReplyError::TooLong(5))
    );
    assert_eq!(
        parse_summary_reply("K2 one two three four", 2),
        Ok(Verdict::Line("one two three four".to_string()))
    );
}

#[test]
fn client_requests() {
    let cfg = Config {
        target: Target::Comments,
        mode: Mode::Reduce,
        min_lines: 4,
        min_density_milli: 5000,
        max_summary_words: 20,
        endpoint: "http://localhost:8000/v1//".to_string(),
        model: "gemma".to_string(),
        api_key: Some("k".to_string()),
        llm_concurrency: 8,
        dry_run: false,
        verbose: false,
    };
    let c = LlmClient::new(&cfg);
    assert_eq!(c.endpoint(), "http://localhost:8000/v1");
    assert_eq!(c.chat_url(), "http://localhost:8000/v1/chat/completions");
    assert_eq!(c.model(), "gemma");
    assert_eq!(c.api_key(), Some("k"));
    let check = c.check_request();
    assert_eq!(check.max_tokens, 1);
    assert_eq!(check.messages.len(), 1);
    assert_eq!(check.messages[0].content, "hi");
    let d = demos();
    let r = c.summary_request("Some prose.", "x = 1", 20, &d);
    assert_eq!(r.messages.len(), 2 * d.len() + 2);
    assert_eq!(r.messages[0].role, Role::System);
    assert!(r.messages[0].content.contains("at most 20 words"));
    assert!(!r.messages[0].content.contains("{max_words}"));
    assert_eq!(r.messages[1].role, Role::User);
    assert_eq!(r.messages[2].content, d[0].2);
    assert_eq!(r.messages.last().unwrap().content, user_message("Some prose.", "x = 1"));
    assert_eq!(r.max_tokens, 48);
    assert_eq!(r.temperature, Some(0));

    let mut t = TokenTotals::new();
    t.record(100, 5, 64);
    t.record(50, 1, 0);
    let s = t.snapshot();
    assert_eq!((s.requests, s.prompt, s.completion, s.cached), (2, 150, 6, 64));
}

#[test]
fn doc_request_shape() {
    let cfg = Config {
        target: Target::Docstrings,
        mode: Mode::Reduce,
        min_lines: 4,
        min_density_milli: 5000,
        max_summary_words: 20,
        endpoint: "http://h/v1".to_string(),
        model: "big".to_string(),
        api_key: None,
        llm_concurrency: 8,
        dry_run: false,
        verbose: false,
    };
    let c = LlmClient::new(&cfg);
    assert_eq!(c.api_key(), None);
    let preview = vec!["return x".to_string()];
    let req = DocRequest {
        kind: "function",
        name: "f",
        signature: "def f(x):",
        is_test: false,
        in_test_file: false,
        text: "Does things.",
        body_preview: &preview,
        body_lines: 1,
    };
    let demos = doc_demos();
    let r = c.doc_request(&req, &demos);
    assert_eq!(r.messages.len(), 2 * demos.len() + 2);
    assert_eq!(r.messages[0].role, Role::System);
    assert_eq!(r.messages.last().unwrap().content, doc_user_message(&req));
    assert_eq!(r.max_tokens, 220);
}

#[test]
fn preamble_is_stripped_only_when_matched_and_something_follows() {
    let line: Vec<char> = "Here is the summary: parses the config".chars().collect();
    let want: Vec<char> = "parses the config".chars().collect();
    assert_eq!(strip_preamble(line.clone(), true), want);
    assert_eq!(strip_preamble(line.clone(), false), line);
    let bare: Vec<char> = "Sure:".chars().collect();
    assert_eq!(strip_preamble(bare.clone(), true), bare);
}

fn strip(s: &str) -> String {
    let cs: Vec<char> = s.chars().collect();
    commentreducr::llm::strip_wrapping_quotes(&cs).into_iter().collect()
}

#[test]
fn stripping_wrapping_quotes_settles() {
    assert_eq!(strip("\"\"\"\nThe real contract.\n\"\"\""), "The real contract.");
    for s in ["  '\"`x`\"'  ", "'''a'''", "\"a\" and \"b\"", "``", "'", "  plain  ", "\"\"\"\"\"\""] {
        let t = strip(s);
        assert_eq!(t, t.trim());
        assert_eq!(strip(&t), t);
        let cs: Vec<char> = t.chars().collect();
        assert!(!(cs.len() >= 2 && cs[0] == cs[cs.len() - 1] && "\"'`".contains(cs[0])));
    }
}
