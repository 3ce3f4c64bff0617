use vstd::prelude::*;
use crate::sexpr::{
    all_space, blank_tree, complexity, ident_run, ident_text, is_blank_tree, is_ident_byte,
    is_quant_head, is_space, lemma_blank_result, lemma_ident_run_concat, lemma_ident_run_props,
    lemma_trim_start_concat, lemma_trim_start_props, newline_indent, parse_args, parse_one,
    parse_spec, render_args, render_one, spaces, trim_start, wf_args, wf_tree, ParseError, Tree,
};

verus! {

/// A successful parse never lengthens its input: the unread tail is no
/// longer than what was handed in, and strictly shorter unless all that
/// came back is the blank signal.
pub proof fn lemma_parse_one_consumes(s: Seq<u8>)
    ensures
        (match parse_one(s) {
            Ok(p) => p.1.len() <= s.len() && (!is_blank_tree(p.0) ==> p.1.len() < s.len()),
            Err(_) => true,
        }),
    decreases s.len(), 1int,
{
    lemma_trim_start_props(s);
    let t = trim_start(s);
    if t.len() == 0 {
    } else if t[0] == 40 {
        lemma_parse_one_consumes(t.drop_first());
        match parse_one(t.drop_first()) {
            Ok(hp) => {
                lemma_parse_args_consumes(hp.1);
                match parse_args(hp.1) {
                    Ok(ap) => {
                        lemma_trim_start_props(ap.1);
                    }
                    Err(_) => {}
                }
            }
            Err(_) => {}
        }
    } else {
        lemma_ident_run_props(t);
        let n = ident_run(t) as int;
        if n == 0 {
            assert(t.take(0) =~= Seq::<u8>::empty());
        }
    }
}

pub proof fn lemma_parse_args_consumes(s: Seq<u8>)
    ensures
        (match parse_args(s) {
            Ok(p) => p.1.len() <= s.len(),
            Err(_) => true,
        }),
    decreases s.len(), 2int,
{
    if s.len() > 0 {
        lemma_parse_one_consumes(s);
        match parse_one(s) {
            Ok(p) => {
                if !is_blank_tree(p.0) && p.1.len() < s.len() {
                    lemma_parse_args_consumes(p.1);
                }
            }
            Err(_) => {}
        }
    }
}

/// Every tree a successful parse hands back is well formed: atom texts
/// hold only atom bytes, no argument is the blank sentinel, and a blank
/// head stands only in an argument-free compound.
pub proof fn lemma_parse_one_wf(s: Seq<u8>)
    ensures
        (match parse_one(s) {
            Ok(p) => wf_tree(p.0),
            Err(_) => true,
        }),
    decreases s.len(), 1int,
{
    lemma_trim_start_props(s);
    let t = trim_start(s);
    if t.len() == 0 {
        assert(ident_text(Seq::<u8>::empty()));
    } else if t[0] == 40 {
        lemma_parse_one_wf(t.drop_first());
        match parse_one(t.drop_first()) {
            Ok(hp) => {
                lemma_parse_one_consumes(t.drop_first());
                lemma_parse_args_wf(hp.1);
                if is_blank_tree(hp.0) {
                    lemma_blank_result(t.drop_first());
                    if hp.1.len() > 0 {
                        assert(hp.1[0] == 41);
                        assert(trim_start(hp.1) == hp.1);
                        lemma_ident_run_props(hp.1);
                        assert(ident_run(hp.1) == 0);
                        assert(hp.1.take(0) =~= Seq::<u8>::empty());
                        assert(hp.1.skip(0) =~= hp.1);
                        assert(parse_one(hp.1) == Ok::<(Tree, Seq<u8>), ParseError>(
                            (blank_tree(), hp.1),
                        ));
                    }
                }
            }
            Err(_) => {}
        }
    } else {
        lemma_ident_run_props(t);
        let n = ident_run(t) as int;
        assert forall|i: int| 0 <= i < t.take(n).len() implies is_ident_byte(
            #[trigger] t.take(n)[i],
        ) by {
            assert(t.take(n)[i] == t[i]);
        }
    }
}

pub proof fn lemma_parse_args_wf(s: Seq<u8>)
    ensures
        (match parse_args(s) {
            Ok(p) => wf_args(p.0),
            Err(_) => true,
        }),
    decreases s.len(), 2int,
{
    if s.len() > 0 {
        lemma_parse_one_wf(s);
        lemma_parse_one_consumes(s);
        match parse_one(s) {
            Ok(p) => {
                if !is_blank_tree(p.0) && p.1.len() < s.len() {
                    lemma_parse_args_wf(p.1);
                    match parse_args(p.1) {
                        Ok(ap) => {
                            assert((seq![p.0] + ap.0)[0] == p.0);
                            assert((seq![p.0] + ap.0).drop_first() =~= ap.0);
                        }
                        Err(_) => {}
                    }
                }
            }
            Err(_) => {}
        }
    }
}

/// Leading whitespace changes nothing about what is parsed.
pub proof fn lemma_parse_one_ws(ws: Seq<u8>, s: Seq<u8>)
    requires
        all_space(ws),
    ensures
        parse_one(ws + s) == parse_one(s),
{
    lemma_trim_start_concat(ws, s);
    lemma_trim_start_props(s);
    let t = trim_start(s);
    if t.len() > 0 && t[0] == 40 {
        match parse_one(t.drop_first()) {
            Ok(hp) => {
                lemma_parse_one_consumes(t.drop_first());
            }
            Err(_) => {}
        }
    }
}

/// What the renderer wrote for a well-formed tree, the parser reads back as
/// exactly that tree, leaving any following text untouched. The following
/// text must not begin with an atom byte (whitespace, a parenthesis, or
/// nothing at all is fine); behind a rendered blank it must carry nothing
/// before a closing parenthesis.
#[verifier::rlimit(100)]
pub proof fn lemma_render_then_parse(t: Tree, th: nat, sq: bool, depth: nat, rest: Seq<u8>)
    requires
        wf_tree(t),
        rest.len() > 0 ==> !is_ident_byte(rest[0]),
        is_blank_tree(t) ==> (trim_start(rest).len() == 0 || trim_start(rest)[0] == 41),
    ensures
        parse_one(render_one(t, th, sq, depth) + rest) == Ok::<(Tree, Seq<u8>), ParseError>(
            (t, if is_blank_tree(t) { trim_start(rest) } else { rest }),
        ),
    decreases t,
{
    lemma_trim_start_props(rest);
    match t {
        Tree::Atom { text } => {
            assert(render_one(t, th, sq, depth) == text);
            if text.len() == 0 {
                assert(text =~= Seq::<u8>::empty());
                assert(text + rest =~= rest);
                let tr = trim_start(rest);
                if tr.len() > 0 {
                    lemma_ident_run_props(tr);
                    assert(!is_ident_byte(41));
                    assert(ident_run(tr) == 0);
                    assert(tr.take(0) =~= Seq::<u8>::empty());
                    assert(tr.skip(0) =~= tr);
                }
            } else {
                let inp = text + rest;
                assert(inp[0] == text[0]);
                assert(is_ident_byte(text[0]));
                assert(!is_space(text[0]));
                assert(trim_start(inp) == inp);
                assert(inp[0] != 40);
                lemma_ident_run_concat(text, rest);
                assert(inp.take(text.len() as int) =~= text);
                assert(inp.skip(text.len() as int) =~= rest);
            }
        }
        Tree::Compound { head, args } => {
            let inline = complexity(t) <= th;
            let nd: nat = if inline { 0 } else { (depth + 4) as nat };
            let sep = if inline { seq![32u8] } else { newline_indent((depth + 4) as nat) };
            let compact = sq && is_quant_head(*head);
            let sep0 = if compact { seq![32u8] } else { sep };
            let d0: nat = if compact { depth } else { nd };
            let close = if inline { Seq::<u8>::empty() } else { newline_indent(depth) };
            let rh = render_one(*head, th, sq, depth);
            let ra = render_args(args, sep0, d0, sep, nd, th, sq);
            let rend = render_one(t, th, sq, depth);
            assert(rend == seq![40u8] + rh + ra + close + seq![41u8]);
            let inp = rend + rest;
            let after_head = ra + (close + (seq![41u8] + rest));
            assert(inp[0] == 40);
            assert(!is_space(40u8));
            assert(trim_start(inp) == inp);
            assert(inp.drop_first() =~= rh + after_head);
            assert(all_space(close)) by {
                if !inline {
                    assert(forall|i: int|
                        0 <= i < newline_indent(depth).len() ==> is_space(
                            #[trigger] newline_indent(depth)[i],
                        ));
                }
            }
            assert((seq![41u8] + rest)[0] == 41);
            assert(!is_space(41u8));
            lemma_trim_start_concat(close, seq![41u8] + rest);
            assert(trim_start(close + (seq![41u8] + rest)) == seq![41u8] + rest);
            if args.len() > 0 {
                assert(ra == sep0 + render_one(args[0], th, sq, d0) + render_args(
                    args.drop_first(),
                    sep,
                    nd,
                    sep,
                    nd,
                    th,
                    sq,
                ));
                assert(sep0.len() > 0);
                if compact {
                    assert(sep0[0] == 32);
                } else if inline {
                    assert(sep0[0] == 32);
                } else {
                    assert(sep0[0] == 10);
                }
                assert(after_head[0] == sep0[0]);
                assert(!is_ident_byte(after_head[0]));
            } else {
                assert(ra == Seq::<u8>::empty());
                assert(after_head =~= close + (seq![41u8] + rest));
                if inline {
                    assert(after_head[0] == 41);
                } else {
                    assert(after_head[0] == 10);
                }
                assert(!is_ident_byte(after_head[0]));
            }
            if is_blank_tree(*head) {
                assert(args.len() == 0);
                assert(after_head =~= close + (seq![41u8] + rest));
                assert(trim_start(after_head) == seq![41u8] + rest);
            }
            lemma_render_then_parse(*head, th, sq, depth, after_head);
            let rem1 = if is_blank_tree(*head) {
                trim_start(after_head)
            } else {
                after_head
            };
            assert(parse_one(inp.drop_first()) == Ok::<(Tree, Seq<u8>), ParseError>(
                (*head, rem1),
            ));
            lemma_trim_start_props(after_head);
            assert(rem1.len() <= after_head.len());
            assert(inp.len() > after_head.len());
            if is_blank_tree(*head) {
                let tl = seq![41u8] + rest;
                assert(rem1 == tl);
                lemma_ident_run_props(tl);
                assert(trim_start(tl) == tl);
                assert(ident_run(tl) == 0);
                assert(tl.take(0) =~= Seq::<u8>::empty());
                assert(tl.skip(0) =~= tl);
                assert(parse_one(tl) == Ok::<(Tree, Seq<u8>), ParseError>((blank_tree(), tl)));
                assert(parse_args(rem1) == Ok::<(Seq<Tree>, Seq<u8>), ParseError>(
                    (Seq::empty(), tl),
                ));
                assert(args =~= Seq::<Tree>::empty());
                assert(tl.drop_first() =~= rest);
            } else {
                let after2 = close + (seq![41u8] + rest);
                assert(after_head =~= ra + after2);
                lemma_render_args_then_parse(args, sep0, d0, sep, nd, th, sq, after2);
                assert(parse_args(rem1) == Ok::<(Seq<Tree>, Seq<u8>), ParseError>(
                    (args, after2),
                ));
                assert(trim_start(after2) == seq![41u8] + rest);
                assert((seq![41u8] + rest).drop_first() =~= rest);
            }
        }
    }
}

/// The arguments the renderer wrote, each behind its whitespace separator,
/// parse back one by one until the closing parenthesis that follows them.
pub proof fn lemma_render_args_then_parse(
    args: Seq<Tree>,
    sep0: Seq<u8>,
    d0: nat,
    sep: Seq<u8>,
    d: nat,
    th: nat,
    sq: bool,
    after: Seq<u8>,
)
    requires
        wf_args(args),
        sep0.len() > 0,
        all_space(sep0),
        sep.len() > 0,
        all_space(sep),
        trim_start(after).len() > 0,
        trim_start(after)[0] == 41,
    ensures
        parse_args(render_args(args, sep0, d0, sep, d, th, sq) + after) == Ok::<
            (Seq<Tree>, Seq<u8>),
            ParseError,
        >((args, after)),
    decreases args,
{
    lemma_trim_start_props(after);
    if args.len() == 0 {
        assert(render_args(args, sep0, d0, sep, d, th, sq) == Seq::<u8>::empty());
        assert(Seq::<u8>::empty() + after =~= after);
        let ta = trim_start(after);
        lemma_ident_run_props(ta);
        assert(!is_ident_byte(41));
        assert(ident_run(ta) == 0);
        assert(ta.take(0) =~= Seq::<u8>::empty());
        assert(ta.skip(0) =~= ta);
        assert(parse_one(after) == Ok::<(Tree, Seq<u8>), ParseError>((blank_tree(), ta)));
        assert(after.len() > 0);
        assert(args =~= Seq::<Tree>::empty());
    } else {
        let a0 = args[0];
        let r0 = render_one(a0, th, sq, d0);
        let rrest = render_args(args.drop_first(), sep, d, sep, d, th, sq);
        let whole = render_args(args, sep0, d0, sep, d, th, sq) + after;
        assert(render_args(args, sep0, d0, sep, d, th, sq) == sep0 + r0 + rrest);
        let rest1 = rrest + after;
        assert(whole =~= sep0 + (r0 + rest1));
        lemma_parse_one_ws(sep0, r0 + rest1);
        if args.drop_first().len() > 0 {
            assert(rrest == sep + render_one(args.drop_first()[0], th, sq, d) + render_args(
                args.drop_first().drop_first(),
                sep,
                d,
                sep,
                d,
                th,
                sq,
            ));
            assert(rest1[0] == sep[0]);
            assert(is_space(sep[0]));
            assert(!is_ident_byte(rest1[0]));
        } else {
            assert(rrest =~= Seq::<u8>::empty());
            assert(rest1 =~= after);
            assert(after.len() > 0);
            if !is_space(after[0]) {
                assert(trim_start(after) == after);
                assert(after[0] == 41);
            }
            assert(!is_ident_byte(rest1[0]));
        }
        assert(!is_blank_tree(a0));
        lemma_render_then_parse(a0, th, sq, d0, rest1);
        assert(parse_one(whole) == Ok::<(Tree, Seq<u8>), ParseError>((a0, rest1)));
        assert(whole.len() > rest1.len());
        assert(rest1 =~= rrest + after);
        lemma_render_args_then_parse(args.drop_first(), sep, d, sep, d, th, sq, after);
        assert(parse_args(rest1) == Ok::<(Seq<Tree>, Seq<u8>), ParseError>(
            (args.drop_first(), after),
        ));
        assert(seq![a0] + args.drop_first() =~= args);
        assert(whole.len() > 0);
    }
}

/// Rendering a well-formed tree and parsing the result gives the same tree
/// back, whatever the threshold, quantifier setting and starting depth.
pub proof fn lemma_render_round_trip(t: Tree, th: nat, sq: bool, depth: nat)
    requires
        wf_tree(t),
    ensures
        parse_spec(render_one(t, th, sq, depth)) == Ok::<Tree, ParseError>(t),
{
    let rend = render_one(t, th, sq, depth);
    assert(rend + Seq::<u8>::empty() =~= rend);
    assert(trim_start(Seq::<u8>::empty()) == Seq::<u8>::empty());
    lemma_render_then_parse(t, th, sq, depth, Seq::empty());
}

/// Rendering is idempotent: parsing a rendering and rendering again, with
/// the same configuration, gives byte-identical output.
pub proof fn lemma_render_idempotent(t: Tree, th: nat, sq: bool, depth: nat)
    requires
        wf_tree(t),
    ensures
        (parse_spec(render_one(t, th, sq, depth)) matches Ok(t2) && render_one(t2, th, sq, depth)
            == render_one(t, th, sq, depth)),
{
    lemma_render_round_trip(t, th, sq, depth);
}

/// The whole pipeline is stable: render a parsed expression, parse the
/// rendering, and the same tree comes back, so a second render with the
/// same configuration is byte-identical.
pub proof fn lemma_format_idempotent(s: Seq<u8>, th: nat, sq: bool)
    ensures
        (match parse_spec(s) {
            Ok(t) => parse_spec(render_one(t, th, sq, 0)) == Ok::<Tree, ParseError>(t),
            Err(_) => true,
        }),
{
    lemma_parse_one_wf(s);
    match parse_spec(s) {
        Ok(t) => {
            lemma_render_round_trip(t, th, sq, 0);
        }
        Err(_) => {}
    }
}

/// Any atom text made of atom bytes survives a parse and a render exactly.
pub proof fn lemma_atom_round_trip(s: Seq<u8>, th: nat, sq: bool, depth: nat)
    requires
        ident_text(s),
    ensures
        render_one(Tree::Atom { text: s }, th, sq, depth) == s,
        parse_spec(s) == Ok::<Tree, ParseError>(Tree::Atom { text: s }),
{
    lemma_render_round_trip(Tree::Atom { text: s }, th, sq, depth);
}

} // verus!
