//! End-to-end tests of the beautifier: spacing, indentation, sentinel and
//! line-break invariants, fallbacks, and idempotence.

use orange::beautify::{beautify, Config, SegStatus};

fn run(input: &str) -> (String, Vec<orange::beautify::Diagnostic>) {
    let text: Vec<u8> = input.as_bytes().to_vec();
    let cfg = Config::standard();
    let (out, diags) = beautify(&text, &cfg);
    (String::from_utf8(out).unwrap(), diags)
}

fn count_nl(s: &str) -> usize {
    s.bytes().filter(|b| *b == b'\n').count()
}

fn strip_blanks(s: &str) -> String {
    s.chars().filter(|c| *c != ' ' && *c != '\t').collect()
}

#[test]
fn binary_operator_spacing() {
    let (out, _) = run("x=1+2\n");
    assert_eq!(out, "x = 1 + 2\n");
}

#[test]
fn spacing_preserves_the_single_line_break() {
    let input = "x=1+2\n";
    let (out, _) = run(input);
    assert_eq!(count_nl(&out), count_nl(input));
}

#[test]
fn call_and_subscript_spacing() {
    let (out, _) = run("def f( x,y ):\n    return x+y\n");
    assert_eq!(out, "def f(x, y):\n    return x + y\n");
}

#[test]
fn keyword_argument_equals_is_tight() {
    let (out, _) = run("f(a=1, b = 2)\n");
    assert_eq!(out, "f(a=1, b=2)\n");
}

#[test]
fn slice_colon_is_tight_and_dict_colon_is_not() {
    let (out, _) = run("v = a[1 : 2]\nd = {'a' :1}\n");
    assert_eq!(out, "v = a[1:2]\nd = {'a': 1}\n");
}

#[test]
fn unary_minus_is_tight() {
    let (out, _) = run("x = - 1\ny = a - 1\n");
    assert_eq!(out, "x = -1\ny = a - 1\n");
}

#[test]
fn power_is_tight() {
    let (out, _) = run("y = x ** 2 + f(**kw)\n");
    assert_eq!(out, "y = x**2 + f(**kw)\n");
}

#[test]
fn dots_are_tight_but_relative_import_keeps_its_space() {
    let (out, _) = run("from . import x\nimport a . b\nv = obj . attr\n");
    assert_eq!(out, "from . import x\nimport a.b\nv = obj.attr\n");
}

#[test]
fn arrow_and_decorator_spacing() {
    let (out, _) = run("@ wraps\ndef f(x)->int:\n    return x\n");
    assert_eq!(out, "@wraps\ndef f(x) -> int:\n    return x\n");
}

#[test]
fn canonical_forms_are_fixed_points() {
    let canonical = [
        "while (n := x) > 0:\n    n -= 1\n",
        "f(*args, **kwargs)\n",
        "x = a if b else c\n",
        "print(1); print(2)\n",
        "t = 'a' 'b'\n",
        "y = (1 + 2) * 3\n",
        "z = x[0][1]\n",
        "w = not (a and b) or not c\n",
        "for i in range(10):\n    total += i\n",
        "def g(*, a=1, **kw): pass\n",
        "class C(Base):\n    x: int = 1\n",
    ];
    for input in canonical {
        let (out, _) = run(input);
        assert_eq!(out, input);
    }
}

#[test]
fn strings_spanning_lines_and_one_liners_are_fixed_points() {
    let canonical = [
        "def f():\n    s = '''a\nb'''\n    return s\n",
        "x = f'{a}{b}'\n",
        "if x: y = 1\n",
        "k = sorted(xs, key=lambda p: p[1])\n",
        "b = 0 <= i < n\n",
        "r = rb'raw bytes'\n",
    ];
    for input in canonical {
        let (out, _) = run(input);
        assert_eq!(out, input);
    }
}

#[test]
fn sprawling_spacing_is_tightened() {
    let (out, _) = run("d = { 'k' : [ 1 , 2 ] }\n");
    assert_eq!(out, "d = {'k': [1, 2]}\n");
}

#[test]
fn inline_comment_gets_two_spaces_and_stays_verbatim() {
    let (out, _) = run("x=1 #  note\n");
    assert_eq!(out, "x = 1  #  note\n");
}

#[test]
fn comment_only_lines_are_reindented_like_code() {
    let (out, _) = run("if x:\n  # c\n  y = 1\n");
    assert_eq!(out, "if x:\n    # c\n    y = 1\n");
}

#[test]
fn comment_only_lines_do_not_disturb_code_indentation() {
    let input = "def f():\n    if x:\n# note\n        y = 1\n";
    let (out, _) = run(input);
    assert_eq!(out, "def f():\n    if x:\n# note\n        y = 1\n");
}

#[test]
fn aligned_comments_are_fixed_points() {
    let canonical = [
        "if x:\n    # note\n    y = 1\n",
        "def f():\n    pass\n# top\nx = 1\n",
        "v = [\n    # c\n    1,\n]\n",
    ];
    for input in canonical {
        let (out, _) = run(input);
        assert_eq!(out, input);
    }
}

#[test]
fn indentation_is_renormalized_from_nesting_depth() {
    let (out, _) = run("if x:\n  y = 1\n");
    assert_eq!(out, "if x:\n    y = 1\n");
}

#[test]
fn string_quotes_are_never_normalized() {
    let input = "s = 'one'\nt = \"two\"\n";
    let (out, _) = run(input);
    assert_eq!(out, input);
}

#[test]
fn blank_lines_are_kept_exactly() {
    let input = "a = 1\n\n\n\nb = 2\n";
    let (out, _) = run(input);
    assert_eq!(out, input);
    assert_eq!(count_nl(&out), count_nl(input));
}

#[test]
fn newline_count_is_preserved_on_assorted_inputs() {
    let inputs = [
        "",
        "\n",
        "x=1\n",
        "x = [1,\n 2,\n 3]\n",
        "#@+node:a\nx=1\n#@-node\n",
        "def f():\n  return (1 +\n          2)\n",
        "s = '''text\nover lines'''\n",
        "broken ( \n",
        "x = \"unterminated\n",
    ];
    for input in inputs {
        let (out, _) = run(input);
        assert_eq!(count_nl(&out), count_nl(input), "input: {input:?}");
    }
}

#[test]
fn sentinel_lines_pass_through_byte_for_byte() {
    let input = "#@+leo-ver=5-thin\n#@+node:x.1: * stuff\ndef f(  ):\n    pass\n#@-leo\n";
    let (out, _) = run(input);
    let in_lines: Vec<&str> = input.split_inclusive('\n').collect();
    let out_lines: Vec<&str> = out.split_inclusive('\n').collect();
    assert_eq!(in_lines.len(), out_lines.len());
    for (i, l) in in_lines.iter().enumerate() {
        if l.trim_start().starts_with("#@") {
            assert_eq!(*l, out_lines[i]);
        }
    }
}

#[test]
fn indented_sentinels_stay_untouched() {
    let input = "def f():\n    #@+others\n    pass\n";
    let (out, _) = run(input);
    let out_lines: Vec<&str> = out.split_inclusive('\n').collect();
    assert_eq!(out_lines[1], "    #@+others\n");
}

#[test]
fn mixed_document_changes_only_code_whitespace() {
    let input = "#@+node:one\nx=1\n#@+node:two\ny  =  2\n#@-leo\n";
    let (out, _) = run(input);
    assert_eq!(count_nl(&out), count_nl(input));
    let in_lines: Vec<&str> = input.split_inclusive('\n').collect();
    let out_lines: Vec<&str> = out.split_inclusive('\n').collect();
    assert_eq!(in_lines.len(), out_lines.len());
    for (i, l) in in_lines.iter().enumerate() {
        assert_eq!(strip_blanks(l), strip_blanks(out_lines[i]), "line {i}");
        if l.trim_start().starts_with("#@") {
            assert_eq!(*l, out_lines[i]);
        }
    }
    assert_eq!(out_lines[1], "x = 1\n");
    assert_eq!(out_lines[3], "y = 2\n");
}

#[test]
fn lexer_failure_falls_back_to_verbatim() {
    let input = "x = \"unterminated\ny=2\n";
    let (out, diags) = run(input);
    assert_eq!(out, input);
    assert_eq!(diags.len(), 1);
    assert!(matches!(diags[0].status, SegStatus::LexFailure));
}

#[test]
fn unmatched_closing_bracket_falls_back_to_verbatim() {
    let input = "x = a)\n";
    let (out, diags) = run(input);
    assert_eq!(out, input);
    assert!(matches!(diags[0].status, SegStatus::LexFailure));
}

#[test]
fn fallback_segment_sits_between_intact_sentinels() {
    let input = "#@+node:x\ny = '\n#@-node\n";
    let (out, diags) = run(input);
    assert_eq!(out, input);
    assert_eq!(diags.len(), 3);
    assert!(matches!(diags[0].status, SegStatus::Verbatim));
    assert!(matches!(diags[1].status, SegStatus::LexFailure));
    assert!(matches!(diags[2].status, SegStatus::Verbatim));
}

#[test]
fn diagnostics_give_each_segment_range() {
    let input = "#@+node:x\na=1\nb=2\n#@-node\n";
    let (_, diags) = run(input);
    let ranges: Vec<(usize, usize)> = diags.iter().map(|d| (d.first_line, d.line_count)).collect();
    assert_eq!(ranges, vec![(0, 1), (1, 2), (3, 1)]);
    assert!(matches!(diags[0].status, SegStatus::Verbatim));
    assert!(matches!(diags[1].status, SegStatus::Reformatted));
}

#[test]
fn beautifying_twice_changes_nothing_more() {
    let inputs = [
        "x=1+2\n",
        "def f( x,y ):\n  return x+y\n",
        "#@+node:a\nif x:\n      y=f(a=1)[0:2]\n#@-leo\n",
        "a = 1\n\n\nb = 2\n",
        "s = 'kept'  # comment\n",
        "x = \"unterminated\n",
    ];
    for input in inputs {
        let (once, _) = run(input);
        let (twice, _) = run(&once);
        assert_eq!(once, twice, "input: {input:?}");
    }
}

#[test]
fn already_canonical_text_is_unchanged() {
    let input = "def f(x, y):\n    return x + y\n";
    let (out, _) = run(input);
    assert_eq!(out, input);
}

#[test]
fn continuation_lines_keep_their_breaks() {
    let input = "v = [1,\n     2,\n     3]\n";
    let (out, _) = run(input);
    assert_eq!(count_nl(&out), count_nl(input));
    let out_lines: Vec<&str> = out.split_inclusive('\n').collect();
    assert_eq!(out_lines.len(), 3);
}

#[test]
fn backslash_continuations_survive() {
    let input = "x = 1 + \\\n    2\n";
    let (out, _) = run(input);
    assert_eq!(count_nl(&out), count_nl(input));
    assert!(out.contains('\\'));
}

#[test]
fn implausible_indent_width_gives_up_and_falls_back() {
    let input = "x=1\n";
    let cfg = Config { indent_width: 1000, line_length: 88, normalize_quotes: false };
    let (out, diags) = beautify(&input.as_bytes().to_vec(), &cfg);
    assert_eq!(String::from_utf8(out).unwrap(), input);
    assert_eq!(diags.len(), 1);
    assert!(matches!(diags[0].status, SegStatus::EngineGiveUp));
}

#[test]
fn carriage_return_line_endings_survive() {
    let (out, _) = run("x=1\r\ny=2\r\n");
    assert_eq!(out, "x = 1\r\ny = 2\r\n");
}

#[test]
fn tab_indentation_becomes_spaces() {
    let (out, _) = run("if x:\n\ty = 1\n");
    assert_eq!(out, "if x:\n    y = 1\n");
}

#[test]
fn empty_document_stays_empty() {
    let (out, diags) = run("");
    assert_eq!(out, "");
    assert!(diags.is_empty());
}
