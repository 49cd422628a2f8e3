use commentreducr::docstring::{
    docstrings_of_tree, delete_edit, extract_docstrings, is_structural, is_test_file, replace_edit, DocKind, Docstring,
};
use commentreducr::rewrite::{self, Edit};
use commentreducr::syntax::SyntaxNode;

    fn by_name<'a>(docs: &'a [Docstring], name: &str) -> &'a Docstring {
        docs.iter()
            .find(|d| d.name == name)
            .unwrap_or_else(|| panic!("no docstring named {name:?} in {docs:#?}"))
    }

    #[test]
    fn extraction_covers_every_shape() {
        let src = r#""""Module doc.

More text.
"""

import os


class Foo:
    r'''Class doc.'''

    def method(self):
        """Only stmt."""

    def g(self): """inline"""


def not_a_docstring_fstring():
    f"""fstring {1}"""
    return 1


def not_a_docstring_bytes():
    b"""bytes"""
    return 1


def not_a_docstring_second_stmt():
    x = 1
    """second statement, not a docstring"""


@decorator_one
@decorator_two(arg=1)
def decorated():
    """Decorated doc."""


async def test_async_thing():
    """Async test doc."""


def outer():
    def inner():
        """Nested doc."""
"#;
        let docs = extract_docstrings(src, false).unwrap();
        let names: Vec<&str> = docs.iter().map(|d| d.name.as_str()).collect();
        assert_eq!(
            names,
            vec![
                "",
                "Foo",
                "method",
                "g",
                "decorated",
                "test_async_thing",
                "inner"
            ],
            "f-string/bytes/second-statement bodies must not produce a docstring"
        );

        let module = &docs[0];
        assert_eq!(module.kind, DocKind::Module);
        assert_eq!(module.prefix, "");
        assert_eq!(module.quote, "\"\"\"");
        assert_eq!(module.text, "Module doc.\n\nMore text.");
        assert!(module.own_line);
        assert!(!module.only_statement, "import os follows it");
        assert!(!module.is_test);
        assert_eq!(module.signature, "");
        assert!(module.decorators.is_empty());

        let foo = by_name(&docs, "Foo");
        assert_eq!(foo.kind, DocKind::Class);
        assert_eq!(foo.prefix, "r");
        assert_eq!(foo.quote, "'''");
        assert_eq!(foo.text, "Class doc.");
        assert_eq!(foo.signature, "class Foo:");
        assert!(!foo.only_statement, "method and g follow it");
        assert!(!foo.is_test);

        let method = by_name(&docs, "method");
        assert_eq!(method.kind, DocKind::Function);
        assert_eq!(method.signature, "def method(self):");
        assert!(method.only_statement);
        assert!(method.own_line);
        assert_eq!(method.text, "Only stmt.");

        let g = by_name(&docs, "g");
        assert_eq!(g.signature, "def g(self):");
        assert!(g.only_statement);
        assert!(
            !g.own_line,
            "code (`def g(self): `) precedes it on its line"
        );
        assert_eq!(g.text, "inline");

        let decorated = by_name(&docs, "decorated");
        assert_eq!(
            decorated.decorators,
            vec!["@decorator_one", "@decorator_two(arg=1)"]
        );
        assert_eq!(decorated.signature, "def decorated():");
        assert!(!decorated.is_test);

        let test_async = by_name(&docs, "test_async_thing");
        assert_eq!(test_async.kind, DocKind::Function);
        assert_eq!(test_async.signature, "async def test_async_thing():");
        assert!(test_async.is_test);
        assert_eq!(test_async.text, "Async test doc.");

        let inner = by_name(&docs, "inner");
        assert_eq!(inner.kind, DocKind::Function);
        assert_eq!(inner.signature, "def inner():");
        assert!(inner.only_statement);
        assert_eq!(inner.text, "Nested doc.");
    }

    #[test]
    fn cleandoc_dedents_and_trims_blank_lines() {
        let src = "def f():\n    \"\"\"First line.\n\n        Indented para.\n        More indented.\n\n    \"\"\"\n";
        let docs = extract_docstrings(src, false).unwrap();
        assert_eq!(docs.len(), 1);
        assert_eq!(
            docs[0].text,
            "First line.\n\nIndented para.\nMore indented."
        );
    }

    #[test]
    fn delete_edit_on_a_realistic_file() {
        let src = "\"\"\"Module doc.\"\"\"\n\nimport os\n\n\ndef f():\n    \"\"\"Function doc.\"\"\"\n    return 1\n\n\nclass C:\n    \"\"\"Only stmt.\"\"\"\n";
        let docs = extract_docstrings(src, false).unwrap();
        assert_eq!(docs.len(), 3);
        let edits: Vec<Edit> = docs.iter().map(|d| delete_edit(src, d).unwrap()).collect();
        let out = rewrite::apply(src, edits);
        assert_eq!(
            out,
            "import os\n\n\ndef f():\n    return 1\n\n\nclass C:\n    pass\n"
        );
        // Must still parse cleanly.
        assert!(extract_docstrings(&out, false).is_ok());
    }

    #[test]
    fn delete_edit_preserves_crlf() {
        let src = "\"\"\"Doc.\"\"\"\r\n\r\nimport os\r\n";
        let docs = extract_docstrings(src, false).unwrap();
        assert_eq!(docs.len(), 1);
        let edit = delete_edit(src, &docs[0]).unwrap();
        let out = rewrite::apply(src, vec![edit]);
        assert_eq!(out, "import os\r\n");
    }

    #[test]
    fn delete_edit_at_eof_without_terminator() {
        // Not a real docstring (it's the block's second statement) -- built by hand to exercise
        // delete_edit's own-line-at-EOF branch, which mirrors rewrite::delete_edit's hit_eof
        // handling: strip the terminator before the span too, so no dangling blank line is left.
        let src = "class C:\n    x = 1\n    \"\"\"doc\"\"\"";
        let start = src.rfind("\"\"\"doc\"\"\"").unwrap();
        let doc = Docstring {
            start,
            end: src.len(),
            start_line: 2,
            end_line: 2,
            indent: "    ".to_string(),
            kind: DocKind::Class,
            name: String::new(),
            signature: String::new(),
            decorators: Vec::new(),
            is_test: false,
            in_test_file: false,
            only_statement: false,
            own_line: true,
            code_after: false,
            prefix: String::new(),
            quote: "\"\"\"".to_string(),
            text: "doc".to_string(),
            body_preview: Vec::new(),
            body_lines: 0,
        };
        let edit = delete_edit(src, &doc).unwrap();
        let out = rewrite::apply(src, vec![edit]);
        assert_eq!(out, "class C:\n    x = 1");
    }

    #[test]
    fn delete_edit_leaves_code_after_untouched() {
        let src = "def g(): \"\"\"x\"\"\"; y = 1\n";
        let docs = extract_docstrings(src, false).unwrap();
        assert_eq!(docs.len(), 1);
        assert!(!docs[0].only_statement);
        assert!(delete_edit(src, &docs[0]).is_none());
    }

    #[test]
    fn replace_edit_one_line_at_four_space_indent() {
        let src = "def f():\n    \"\"\"old\"\"\"\n";
        let docs = extract_docstrings(src, false).unwrap();
        let edit = replace_edit(src, &docs[0], "New one line").unwrap();
        let out = rewrite::apply(src, vec![edit]);
        assert_eq!(out, "def f():\n    \"\"\"New one line\"\"\"\n");
    }

    #[test]
    fn replace_edit_multi_line_at_eight_space_indent_preserves_quote() {
        let src = "class C:\n    def m(self):\n        '''old'''\n";
        let docs = extract_docstrings(src, false).unwrap();
        assert_eq!(docs[0].indent, "        ");
        assert_eq!(docs[0].quote, "'''");
        let edit = replace_edit(src, &docs[0], "Line one\n\nLine two").unwrap();
        let out = rewrite::apply(src, vec![edit]);
        assert_eq!(
            out,
            "class C:\n    def m(self):\n        '''Line one\n\n        Line two\n        '''\n"
        );
    }

    #[test]
    fn replace_edit_refuses_unsafe_new_text() {
        let src = "def f():\n    \"\"\"old\"\"\"\n";
        let docs = extract_docstrings(src, false).unwrap();
        assert!(replace_edit(src, &docs[0], "").is_none());
        assert!(replace_edit(src, &docs[0], "has \"\"\" inside").is_none());
        assert!(replace_edit(src, &docs[0], "has \\ inside").is_none());
    }

    #[test]
    fn is_test_file_table() {
        let cases: &[(&str, bool)] = &[
            ("test_foo.py", true),
            ("foo_test.py", true),
            ("conftest.py", true),
            ("tests/foo.py", true),
            ("pkg/test/foo.py", true),
            ("foo.py", false),
            ("mytest_helpers.py", false),
            ("testing/foo.py", false),
        ];
        for (path, expected) in cases {
            assert_eq!(is_test_file(path), *expected, "path = {path:?}");
        }
    }

    #[test]
    fn is_structural_table() {
        let base = |kind, text: &str, decorators: Vec<&str>| Docstring {
            start: 0,
            end: 0,
            start_line: 0,
            end_line: 0,
            indent: String::new(),
            kind,
            name: String::new(),
            signature: String::new(),
            decorators: decorators.into_iter().map(str::to_string).collect(),
            is_test: false,
            in_test_file: false,
            only_statement: false,
            own_line: true,
            code_after: false,
            prefix: String::new(),
            quote: "\"\"\"".to_string(),
            text: text.to_string(),
            body_preview: Vec::new(),
            body_lines: 0,
        };

        assert!(is_structural(
            &base(DocKind::Function, "usage:\n    >>> f()\n    1", vec![]),
            ""
        ));
        assert!(is_structural(
            &base(DocKind::Module, "plain module doc", vec![]),
            "print(__doc__)"
        ));
        assert!(
            !is_structural(
                &base(DocKind::Class, "plain class doc", vec![]),
                "print(__doc__)"
            ),
            "only a Module docstring is structural for __doc__"
        );
        assert!(is_structural(
            &base(DocKind::Module, "License: MIT", vec![]),
            ""
        ));
        assert!(is_structural(
            &base(DocKind::Function, "run the thing", vec!["@app.command()"]),
            ""
        ));
        assert!(is_structural(
            &base(DocKind::Function, "run the thing", vec!["@cli.group()"]),
            ""
        ));
        assert!(!is_structural(
            &base(
                DocKind::Function,
                "just a normal docstring",
                vec!["@property"]
            ),
            ""
        ));
    }

    // A real test module (not committed elsewhere), embedded verbatim so this test has no
    // dependency on an external path. Exercises extraction against realistic, heavily-docstringed
    // test code rather than hand-rolled fixtures.
    const BAD_EXAMPLE: &str = r#"
"""A rejected bulk-close is a 400 with its reason, not a traceback in the logs.

``OrderService.bulk_close_orders`` raises ``ValidationError`` for the ordinary
business-rule refusals -- the account does not resolve, an order in the selection has
unpaid invoices or open line items, draft orders are still awaiting review. The route
catches that, answers 400 with the service's own message, and records one INFO line at
``logger.info``.

``exc_info`` is what these assertions exist to keep off that line: the handler's
formatter renders it regardless of level, so an INFO call carrying it prints a header
line plus a frame per stack level for a request that has already succeeded at telling
someone "no".

``test_form_submit_rejection_noise.py`` pins the same disposal for the web form's
submission rejections; these assertions are deliberately its shape, so the two
rejection surfaces stay consistent.

Not every `ValidationError` reaching this arm is a refusal, and the two fault sources
dispose of their diagnostics differently:

* `legacy_services.py` catches `Exception` around the write, rolls back, and re-raises
  `ValidationError("There was an error trying to bulk close orders.")`. Raised inside
  an except block, it carries the DB fault as `__context__`, so a formatter given
  `exc_info` renders that fault's frames too. This arm may record it without frames
  because the service reports the original at ERROR with `exc_info` one frame earlier;
  `test_the_converting_arm_reports_the_original_fault` is what holds that true.
* `AccountService.refresh_account_summary`, called for the post-commit account rollup
  once the orders are already persisted, reaches this arm with "Account does not
  exist." and "Account summary does not exist." (see `account/services.py`; its
  suspended-account refusal cannot arrive from this route, which pre-checks
  `account_is_suspended`). Neither carries an upstream ERROR log, and the second is a
  tenant-configuration fault rather than a refusal, so this line is its only record.

The frame stack is otherwise what is given up, and that is the intent: for a refusal
the frames describe the ordinary call path into the service and identify no fault. The
exception's message is preserved in the line, which for a validation rejection is the
whole diagnostic payload -- and is the same text the caller already receives in the
response body.
"""

import ast
import contextlib
import inspect
import textwrap
from types import SimpleNamespace
from unittest.mock import patch

import pytest
from flask import Flask

from myapp.api.order.routes import bulk_close_orders
from myapp.api.order.services.draft_guard import DRAFT_REVIEW_REQUIRED_MESSAGE
from myapp.api.order.legacy_services import OrderService
from myapp.api.utils.exceptions import ValidationError
from myapp.api.utils.tests.error_log_ast import looks_like_logger

# Refusal messages this arm receives. The two `validate_order_can_be_closed` ones are
# built inline in the service, so they are illustrative renderings rather than pinned
# literals -- the assertions hold for any string, since the exception is mock-injected.
_REJECTIONS = pytest.mark.parametrize(
    "reason",
    [
        "Account not found.",
        "Order #1001: Cannot close order. Resolve the following first: Unpaid invoice; Missing approval",
        "Order #1001: Cannot close order. 2 line items must be fulfilled first.",
        DRAFT_REVIEW_REQUIRED_MESSAGE,
    ],
)


def _make_app():
    app = Flask(__name__)
    app.config["SECRET_KEY"] = "test-secret"
    app.config["TESTING"] = True
    app.add_url_rule("/orders/bulk_close", view_func=bulk_close_orders, methods=["POST"])
    return app


@contextlib.contextmanager
def _service_rejecting(reason):
    """POST a bulk-close whose service refuses, yielding (response, logger).

    The route's own gates are stubbed so the ``ValidationError`` under test is the
    service's: an unstubbed ``get_account_by_id`` would answer 404 first and the arm
    would never run.
    """
    with (
        patch("flask_login.utils._get_user", return_value=SimpleNamespace(is_authenticated=True, id=7, tenant=42)),
        patch("myapp.api.authz.route_policy._decide_resource"),
        patch("myapp.api.order.routes.decode_id_or_none", return_value=1),
        patch("myapp.api.order.routes.AccountHelper.get_account_by_id", return_value=SimpleNamespace(id=1)),
        patch("myapp.api.order.routes.OrderService.bulk_close_orders", side_effect=ValidationError(reason)),
        patch("myapp.api.order.routes.logger") as logger_mock,
    ):
        with _make_app().test_client() as client:
            yield client.post("/orders/bulk_close", json={"accountId": "abc", "orderIds": ["o1", "o2"]}), logger_mock


@_REJECTIONS
def test_rejection_returns_the_services_own_message(reason):
    with _service_rejecting(reason) as (response, _):
        assert response.status_code == 400
        assert response.get_json()["message"] == reason


@_REJECTIONS
def test_rejection_is_not_logged_as_a_fault(reason):
    """ERROR would mint an error-tracker event for a correct 4xx, on top of printing the stack."""
    with _service_rejecting(reason) as (_, logger_mock):
        logger_mock.exception.assert_not_called()
        logger_mock.error.assert_not_called()
        logger_mock.critical.assert_not_called()


@_REJECTIONS
def test_rejection_is_recorded_at_info_without_a_traceback(reason):
    """One greppable line, carrying the reason as a `%s` argument rather than the frames."""
    with _service_rejecting(reason) as (_, logger_mock):
        logger_mock.info.assert_called_once()
        args, kwargs = logger_mock.info.call_args

    assert "exc_info" not in kwargs
    assert "exc_info" not in kwargs.get("extra", {})
    assert "%s" in args[0]
    assert reason in args[0] % args[1:]


def test_an_unexpected_failure_still_reports_a_traceback():
    """Only the rejection arm was quietened -- the blanket arm must still report."""
    with (
        patch("flask_login.utils._get_user", return_value=SimpleNamespace(is_authenticated=True, id=7, tenant=42)),
        patch("myapp.api.authz.route_policy._decide_resource"),
        patch("myapp.api.order.routes.decode_id_or_none", return_value=1),
        patch("myapp.api.order.routes.AccountHelper.get_account_by_id", return_value=SimpleNamespace(id=1)),
        patch(
            "myapp.api.order.routes.OrderService.bulk_close_orders",
            side_effect=RuntimeError("database connection closed"),
        ) as service_mock,
        patch("myapp.api.order.routes.logger") as logger_mock,
    ):
        with _make_app().test_client() as client:
            response = client.post("/orders/bulk_close", json={"accountId": "abc", "orderIds": ["o1"]})

    service_mock.assert_called_once()
    assert response.status_code == 400
    logger_mock.exception.assert_called_once()
    assert "database connection closed" not in response.get_json()["message"]


def _emits_a_traceback(call: ast.Call, caught_name: str | None) -> bool:
    """Whether this logging call actually renders frames.

    `exc_info`'s presence is not the question -- `logging` reads a falsy value as
    absent, so `exception(..., exc_info=None)` prints no traceback, while a bare
    `exception(...)` prints one because the method defaults the argument to True.
    """
    if not (isinstance(call.func, ast.Attribute) and looks_like_logger(call.func.value)):
        return False
    exc_info = next((keyword.value for keyword in call.keywords if keyword.arg == "exc_info"), None)
    if exc_info is None:
        return call.func.attr == "exception"
    if isinstance(exc_info, ast.Constant):
        return bool(exc_info.value)
    return isinstance(exc_info, ast.Name) and exc_info.id == caught_name


def _converting_arm(source: str) -> ast.ExceptHandler:
    """The arm turning a write failure into a rejection, found by that conversion.

    Located by what it raises rather than by position, so neither a later arm's own
    reporting nor a reordering can stand in for it.
    """
    arms = [
        handler
        for handler in ast.walk(ast.parse(textwrap.dedent(source)))
        if isinstance(handler, ast.ExceptHandler)
        and any(
            isinstance(node, ast.Raise) and isinstance(node.exc, ast.Call) and getattr(node.exc.func, "id", None) == "ValidationError"
            for node in ast.walk(handler)
        )
    ]
    assert len(arms) == 1, "expected exactly one arm converting a write failure into a rejection"
    return arms[0]


def _reports_the_fault(source: str) -> bool:
    arm = _converting_arm(source)
    return any(isinstance(node, ast.Call) and _emits_a_traceback(node, arm.name) for node in ast.walk(arm))


_ARM = """
def f():
    try:
        pass
    except Exception as e:
        %s
        raise ValidationError("converted")
"""
_REPORTS = {
    "exception with the caught name": 'logger.exception(msg="x", exc_info=e)',
    "bare exception defaults exc_info to True": 'logger.exception("x")',
    "error with the caught name": 'logger.error("x", exc_info=e)',
    "exc_info=True": 'logger.error("x", exc_info=True)',
}
_SILENT = {
    "exc_info=None": 'logger.exception(msg="x", exc_info=None)',
    "exc_info=False": 'logger.exception(msg="x", exc_info=False)',
    "info naming the exception but attaching nothing": 'logger.info("x: %s", e)',
    "nothing logged": "pass",
}


@pytest.mark.parametrize("shape", sorted(_REPORTS))
def test_the_scanner_sees_every_reporting_shape(shape):
    assert _reports_the_fault(_ARM % _REPORTS[shape]), f"{shape} does render frames and must count as reporting"


@pytest.mark.parametrize("shape", sorted(_SILENT))
def test_the_scanner_rejects_every_silent_shape(shape):
    assert not _reports_the_fault(_ARM % _SILENT[shape]), f"{shape} renders no frames and must not count as reporting"


def test_the_converting_arm_reports_the_original_fault():
    """The frames this route arm leaves to the service must actually be printed there.

    `bulk_close_orders` converts a write failure into `ValidationError`, so the route
    receives a rejection type for a genuine fault. Recording it without frames at the
    route is sound only while the converting arm reports the original -- drop that
    report and the route's one-line rejection becomes the sole record of a DB error.
    """
    assert _reports_the_fault(inspect.getsource(OrderService.bulk_close_orders.__func__)), (
        "The arm converting a write failure into ValidationError must report the "
        "original with a traceback. A falsy exc_info counts as no report: logging "
        "ignores it, so the frames are lost while the keyword is still present."
    )
"#;

    #[test]
    fn extracts_from_a_real_test_module() {
        let docs = extract_docstrings(BAD_EXAMPLE, true).unwrap();
        let report: Vec<(DocKind, String, bool, bool, usize)> = docs
            .iter()
            .map(|d| {
                (
                    d.kind,
                    d.name.clone(),
                    d.is_test,
                    d.only_statement,
                    d.text.split('\n').count(),
                )
            })
            .collect();
        // Sanity check the shape the fixture produces: module doc, then every docstringed
        // function in source order (helpers and pytest-style tests interleaved).
        let names: Vec<&str> = docs.iter().map(|d| d.name.as_str()).collect();
        assert_eq!(
            names,
            vec![
                "",
                "_service_rejecting",
                "test_rejection_is_not_logged_as_a_fault",
                "test_rejection_is_recorded_at_info_without_a_traceback",
                "test_an_unexpected_failure_still_reports_a_traceback",
                "_emits_a_traceback",
                "_converting_arm",
                "test_the_converting_arm_reports_the_original_fault",
            ],
            "full report: {report:#?}"
        );

        let module = &docs[0];
        assert_eq!(module.kind, DocKind::Module);
        assert!(module.is_test, "module doc in a test file must be is_test");

        let rejecting = docs
            .iter()
            .find(|d| d.name == "_service_rejecting")
            .unwrap();
        assert_eq!(rejecting.kind, DocKind::Function);
        assert!(!rejecting.is_test, "helper, not a test function");
        assert_eq!(rejecting.decorators, vec!["@contextlib.contextmanager"]);
    }

fn tree_node(kind: &str, start: usize, end: usize, rows: (usize, usize), children: Vec<SyntaxNode>) -> SyntaxNode {
    SyntaxNode {
        kind: kind.to_string(),
        field: None,
        named: true,
        has_error: false,
        start,
        end,
        start_row: rows.0,
        end_row: rows.1,
        children,
    }
}

#[test]
fn docstrings_from_a_given_tree() {
    // `"""Doc."""` then `x = 1`, as the parser lays them out.
    let src = "\"\"\"Doc.\"\"\"\nx = 1\n";
    let string = tree_node(
        "string",
        0,
        10,
        (0, 0),
        vec![
            tree_node("string_start", 0, 3, (0, 0), vec![]),
            tree_node("string_content", 3, 7, (0, 0), vec![]),
            tree_node("string_end", 7, 10, (0, 0), vec![]),
        ],
    );
    let tree = tree_node(
        "module",
        0,
        17,
        (0, 2),
        vec![
            tree_node("expression_statement", 0, 10, (0, 0), vec![string]),
            tree_node("expression_statement", 11, 16, (1, 1), vec![]),
        ],
    );
    let docs = docstrings_of_tree(&tree, src, false).unwrap();
    assert_eq!(docs.len(), 1);
    assert_eq!(docs[0].kind, DocKind::Module);
    assert_eq!(docs[0].text, "Doc.");
    assert_eq!((docs[0].start, docs[0].end), (0, 10));
    assert_eq!(docs[0].quote, "\"\"\"");
    assert!(docs[0].own_line && !docs[0].code_after && !docs[0].only_statement);
    // An f-string in that place is no docstring.
    let fstring = tree_node(
        "string",
        0,
        10,
        (0, 0),
        vec![tree_node("string_start", 0, 4, (0, 0), vec![])],
    );
    let src2 = "f\"\"\"Doc\"\"\"\n";
    let tree2 = tree_node(
        "module",
        0,
        11,
        (0, 1),
        vec![tree_node("expression_statement", 0, 10, (0, 0), vec![fstring])],
    );
    assert!(docstrings_of_tree(&tree2, src2, false).unwrap().is_empty());
    // A docstring string that covers no byte is refused.
    let empty = tree_node(
        "string",
        0,
        0,
        (0, 0),
        vec![tree_node("string_start", 0, 0, (0, 0), vec![])],
    );
    let tree3 = tree_node(
        "module",
        0,
        11,
        (0, 1),
        vec![tree_node("expression_statement", 0, 0, (0, 0), vec![empty])],
    );
    assert_eq!(
        docstrings_of_tree(&tree3, src2, false).unwrap_err(),
        commentreducr::docstring::ExtractError::BadOffsets
    );
}

#[test]
fn replace_edit_refuses_one_line_text_ending_with_the_quote_character() {
    let src = "def f():\n    \"\"\"old\"\"\"\n";
    let docs = extract_docstrings(src, false).unwrap();
    assert!(replace_edit(src, &docs[0], "Say \"hi\"").is_none());
    // Several lines put the closing quote on a line of its own, so a trailing quote is fine.
    let edit = replace_edit(src, &docs[0], "a\nb\"").unwrap();
    let out = rewrite::apply(src, vec![edit]);
    assert_eq!(out, "def f():\n    \"\"\"a\n    b\"\n    \"\"\"\n");
    assert_eq!(extract_docstrings(&out, false).unwrap()[0].text, "a\nb\"");
    let single = "def g():\n    '''old'''\n";
    let docs = extract_docstrings(single, false).unwrap();
    assert!(replace_edit(single, &docs[0], "It's 'quoted'").is_none());
    // A quote character inside the text, not at its end, is fine.
    let edit = replace_edit(single, &docs[0], "Say 'hi' twice").unwrap();
    let out = rewrite::apply(single, vec![edit]);
    assert_eq!(out, "def g():\n    '''Say 'hi' twice'''\n");
}

#[test]
fn replaced_docstring_reads_back_as_the_new_text() {
    let src = "class C:\n    def m(self):\n        \"\"\"old\"\"\"\n        return 1\n";
    let docs = extract_docstrings(src, false).unwrap();
    for text in ["One line.", "Line one\n\nLine two", "Starts \"quoted\" here."] {
        let edit = replace_edit(src, &docs[0], text).unwrap();
        let out = rewrite::apply(src, vec![edit]);
        let again = extract_docstrings(&out, false).unwrap();
        assert_eq!(again.len(), 1);
        assert_eq!(again[0].text, text);
        assert_eq!(again[0].quote, "\"\"\"");
    }
    // Tab indentation reads back the same once tabs are expanded.
    let tabbed = "class C:\n\tdef m(self):\n\t\t'''old'''\n\t\treturn 1\n";
    let docs = extract_docstrings(tabbed, false).unwrap();
    assert_eq!(docs[0].indent, "\t\t");
    let edit = replace_edit(tabbed, &docs[0], "Line one\n\nLine two").unwrap();
    let out = rewrite::apply(tabbed, vec![edit]);
    assert_eq!(out, "class C:\n\tdef m(self):\n\t\t'''Line one\n\n\t\tLine two\n\t\t'''\n\t\treturn 1\n");
    assert_eq!(extract_docstrings(&out, false).unwrap()[0].text, "Line one\n\nLine two");
}

#[test]
fn cleandoc_margin_counts_characters() {
    // U+3000 is one whitespace character (three bytes): the margin is one character.
    let src = "def f():\n    \"\"\"a\n\u{3000}x\n  y\"\"\"\n";
    let docs = extract_docstrings(src, false).unwrap();
    assert_eq!(docs.len(), 1);
    assert_eq!(docs[0].text, "a\nx\n y");
}

#[test]
fn extracted_docstrings_come_in_increasing_order() {
    let src = "\"\"\"Mod.\"\"\"\n\nclass C:\n    \"\"\"Class.\"\"\"\n\n    def m(self):\n        \"\"\"Method.\"\"\"\n\n\ndef f():\n    \"\"\"Func.\"\"\"\n";
    let docs = extract_docstrings(src, false).unwrap();
    assert_eq!(docs.len(), 4);
    for w in docs.windows(2) {
        assert!(w[0].start < w[0].end && w[0].end <= w[1].start);
    }
}
