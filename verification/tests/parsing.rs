use sexpr_fmt::args::CmdArgs;
use sexpr_fmt::sexpr::{ParseError, Sexpr};

fn default_cfg() -> CmdArgs {
    CmdArgs {
        silent: true,
        multiline: false,
        debug: false,
        complexity_threshold: 1,
        short_quantifiers: false,
    }
}

#[test]
fn unterminated_compound_is_rejected() {
    assert!(matches!(Sexpr::parse(b"(a"), Err(ParseError::UnterminatedCompound)));
    assert!(matches!(Sexpr::parse(b"(a b"), Err(ParseError::UnterminatedCompound)));
    assert!(matches!(Sexpr::parse(b"(a (b c)"), Err(ParseError::UnterminatedCompound)));
    assert!(matches!(Sexpr::parse(b"("), Err(ParseError::UnterminatedCompound)));
}

#[test]
fn trailing_content_is_rejected() {
    assert!(matches!(Sexpr::parse(b"a b)"), Err(ParseError::UnclosedInput)));
    assert!(matches!(Sexpr::parse(b"(a))"), Err(ParseError::UnclosedInput)));
    assert!(matches!(Sexpr::parse(b"a b"), Err(ParseError::UnclosedInput)));
    assert!(matches!(Sexpr::parse(b"(a) (b)"), Err(ParseError::UnclosedInput)));
}

#[test]
fn trailing_whitespace_is_accepted() {
    assert!(Sexpr::parse(b"a  \n").is_ok());
    assert!(Sexpr::parse(b"(a b)  ").is_ok());
}

#[test]
fn empty_input_parses_to_the_blank_expression() {
    let sexpr = Sexpr::parse(b"").expect("empty input parses");
    assert!(sexpr.is_blank());
    assert_eq!(sexpr.complexity(), 0);
    assert_eq!(sexpr.render(&default_cfg()), Vec::<u8>::new());
}

#[test]
fn whitespace_input_parses_to_the_blank_expression() {
    let sexpr = Sexpr::parse(b"  \t\r\n ").expect("whitespace input parses");
    assert!(sexpr.is_blank());
    assert_eq!(sexpr.render(&default_cfg()), Vec::<u8>::new());
}

#[test]
fn is_named_matches_atom_text_exactly() {
    let atom = Sexpr::parse(b"forall").expect("parse");
    assert!(atom.is_named(b"forall"));
    assert!(!atom.is_named(b"foral"));
    assert!(!atom.is_named(b"foralll"));
    assert!(!atom.is_named(b"exists"));
    let compound = Sexpr::parse(b"(forall x)").expect("parse");
    assert!(!compound.is_named(b"forall"));
}

#[test]
fn blank_is_the_empty_atom() {
    let blank = Sexpr::blank();
    assert!(blank.is_blank());
    assert!(blank.is_named(b""));
    assert_eq!(blank.complexity(), 0);
    let named = Sexpr::parse(b"x").expect("parse");
    assert!(!named.is_blank());
}

#[test]
fn atoms_may_hold_any_bytes_but_parens_and_whitespace() {
    let sexpr = Sexpr::parse("(\u{3bb} x)".as_bytes()).expect("utf-8 atoms parse");
    assert_eq!(
        String::from_utf8(sexpr.render(&default_cfg())).expect("utf-8"),
        "(\u{3bb} x)"
    );
}

#[test]
fn config_getters_report_their_fields() {
    let cmd = CmdArgs {
        silent: false,
        multiline: true,
        debug: true,
        complexity_threshold: 7,
        short_quantifiers: true,
    };
    assert!(cmd.noisy());
    assert!(cmd.multiline());
    assert!(cmd.debug());
    assert_eq!(cmd.complexity_threshold(), 7);
    assert!(cmd.short_quantifiers());
    let quiet = CmdArgs { silent: true, ..cmd };
    assert!(!quiet.noisy());
}
