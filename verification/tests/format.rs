use sexpr_fmt::args::CmdArgs;
use sexpr_fmt::sexpr::{FormatArgs, Sexpr};

fn cfg(threshold: u32, short_quantifiers: bool) -> CmdArgs {
    CmdArgs {
        silent: true,
        multiline: false,
        debug: false,
        complexity_threshold: threshold,
        short_quantifiers,
    }
}

fn render_text(input: &str, threshold: u32, short_quantifiers: bool) -> String {
    let sexpr = Sexpr::parse(input.as_bytes()).expect("input should parse");
    String::from_utf8(sexpr.render(&cfg(threshold, short_quantifiers))).expect("output is utf-8")
}

#[test]
fn atom_text_survives_render() {
    for s in ["a", "abc", "hello-world42", "+", "<=>"] {
        assert_eq!(render_text(s, 1, false), *s);
        assert_eq!(render_text(s, 0, true), *s);
    }
}

#[test]
fn simple_list_renders_inline_at_default_threshold() {
    let sexpr = Sexpr::parse(b"(a b c)").expect("parse");
    assert_eq!(sexpr.complexity(), 1);
    assert_eq!(render_text("(a b c)", 1, false), "(a b c)");
}

#[test]
fn complexity_grows_with_nesting() {
    assert_eq!(Sexpr::parse(b"(e f)").expect("parse").complexity(), 1);
    assert_eq!(Sexpr::parse(b"(b c)").expect("parse").complexity(), 1);
    assert_eq!(Sexpr::parse(b"(d (e f))").expect("parse").complexity(), 2);
    assert_eq!(Sexpr::parse(b"(a (b c) (d (e f)))").expect("parse").complexity(), 3);
}

#[test]
fn nested_list_breaks_above_threshold() {
    // Complexity 3 at the root and 2 at `(d (e f))`: both are multiline at
    // threshold 1, while `(b c)` and `(e f)` stay inline.
    let expected = "(a\n    (b c)\n    (d\n        (e f)\n    )\n)";
    assert_eq!(render_text("(a (b c) (d (e f)))", 1, false), expected);
}

#[test]
fn nested_list_is_one_line_at_high_threshold() {
    assert_eq!(render_text("(a (b c) (d (e f)))", 3, false), "(a (b c) (d (e f)))");
}

#[test]
fn argument_indent_steps_by_four_from_the_parent() {
    assert_eq!(render_text("(a (b c))", 0, false), "(a\n    (b\n        c\n    )\n)");
}

#[test]
fn quantifier_first_argument_stays_on_head_line() {
    // Multiline because complexity 2 exceeds threshold 1, yet `x` stays
    // glued to `forall`; the second subformula breaks to its own line.
    assert_eq!(render_text("(forall x (P x))", 1, true), "(forall x\n    (P x)\n)");
    assert_eq!(render_text("(exists x (P x))", 1, true), "(exists x\n    (P x)\n)");
}

#[test]
fn quantifier_stays_inline_at_high_threshold() {
    assert_eq!(render_text("(forall x (P x))", 2, true), "(forall x (P x))");
}

#[test]
fn quantifier_compaction_off_breaks_every_argument() {
    assert_eq!(render_text("(forall x (P x))", 1, false), "(forall\n    x\n    (P x)\n)");
    assert_eq!(render_text("(exists x (P x))", 1, false), "(exists\n    x\n    (P x)\n)");
}

#[test]
fn quantifier_with_two_subformulas() {
    assert_eq!(
        render_text("(forall x (P x) (Q x))", 1, true),
        "(forall x\n    (P x)\n    (Q x)\n)"
    );
}

#[test]
fn rendering_is_idempotent() {
    let cases = [
        ("(a (b c) (d (e f)))", 1, false),
        ("(a (b c) (d (e f)))", 0, false),
        ("(forall x (P x) (Q x))", 1, true),
        ("(a b c)", 1, false),
        ("abc", 1, false),
        ("()", 1, false),
    ];
    for (input, threshold, sq) in cases {
        let first = render_text(input, threshold, sq);
        let second = render_text(&first, threshold, sq);
        assert_eq!(first, second);
    }
}

#[test]
fn surrounding_whitespace_is_insignificant() {
    assert_eq!(render_text("  ( a \n  b )  \n", 1, false), "(a b)");
    assert_eq!(render_text("\ta\n", 1, false), "a");
}

#[test]
fn empty_parens_parse_and_render() {
    let sexpr = Sexpr::parse(b"()").expect("parse");
    assert_eq!(sexpr.complexity(), 1);
    assert!(!sexpr.is_blank());
    assert_eq!(render_text("()", 1, false), "()");
}

#[test]
fn format_args_defaults_and_depth() {
    let defaults = FormatArgs::new();
    assert_eq!(defaults.depth, 0);
    assert_eq!(defaults.complexity_threshold, 1);
    assert!(!defaults.short_quantifiers);
    let from_cmd = FormatArgs::from(&cfg(5, true));
    assert_eq!(from_cmd.depth, 0);
    assert_eq!(from_cmd.complexity_threshold, 5);
    assert!(from_cmd.short_quantifiers);
    let deeper = defaults.with_depth(8);
    assert_eq!(deeper.depth, 8);
    assert_eq!(deeper.complexity_threshold, 1);
    assert_eq!(deeper.tab(), vec![b' '; 8]);
}

#[test]
fn compound_heads_are_allowed() {
    assert_eq!(render_text("((a b) c)", 2, false), "((a b) c)");
}
