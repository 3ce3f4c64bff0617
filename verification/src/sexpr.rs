use vstd::prelude::*;
use crate::args::CmdArgs;

verus! {

/// Bytes that separate expressions: space, tab, line feed, carriage return.
pub open spec fn is_space(b: u8) -> bool {
    b == 32 || b == 9 || b == 10 || b == 13
}

/// Bytes that may appear in an atom: anything but parentheses and whitespace.
pub open spec fn is_ident_byte(b: u8) -> bool {
    b != 40 && b != 41 && !is_space(b)
}

/// True when every byte of `s` may appear in an atom.
pub open spec fn ident_text(s: Seq<u8>) -> bool {
    forall|i: int| 0 <= i < s.len() ==> is_ident_byte(#[trigger] s[i])
}

/// The abstract shape of an S-expression: the mathematical model that all
/// contracts in this crate speak of. An atom carries its text as a byte
/// sequence; a compound carries its head and its ordered arguments.
pub enum Tree {
    Atom { text: Seq<u8> },
    Compound { head: Box<Tree>, args: Seq<Tree> },
}

/// The empty atom, used by the parser to signal "no more siblings".
pub open spec fn blank_tree() -> Tree {
    Tree::Atom { text: Seq::empty() }
}

pub open spec fn is_blank_tree(t: Tree) -> bool {
    t == blank_tree()
}

/// Nesting-depth measure of a tree: an atom counts 0, a compound counts one
/// more than the largest measure among its head and its arguments.
pub open spec fn complexity(t: Tree) -> nat
    decreases t,
{
    match t {
        Tree::Atom { text } => 0,
        Tree::Compound { head, args } => {
            let c = complexity(*head);
            1 + max_arg_complexity(c, args)
        }
    }
}

/// Largest value among `acc` and the complexities of the trees of `args`.
pub open spec fn max_arg_complexity(acc: nat, args: Seq<Tree>) -> nat
    decreases args,
{
    if args.len() == 0 {
        acc
    } else {
        let c0 = complexity(args[0]);
        let m = if c0 > acc { c0 } else { acc };
        max_arg_complexity(m, args.drop_first())
    }
}

/// Shape invariant of every tree the parser hands out: atom texts contain
/// only atom bytes, the blank sentinel never stands among arguments, and a
/// blank head occurs only in a compound without arguments.
pub open spec fn wf_tree(t: Tree) -> bool
    decreases t,
{
    match t {
        Tree::Atom { text } => ident_text(text),
        Tree::Compound { head, args } => {
            &&& wf_tree(*head)
            &&& (is_blank_tree(*head) ==> args.len() == 0)
            &&& wf_args(args)
        }
    }
}

/// Every tree of `args` is well formed and is not the blank sentinel.
pub open spec fn wf_args(args: Seq<Tree>) -> bool
    decreases args,
{
    args.len() == 0 || (wf_tree(args[0]) && !is_blank_tree(args[0]) && wf_args(args.drop_first()))
}

pub proof fn lemma_wf_args_push(args: Seq<Tree>, t: Tree)
    requires
        wf_args(args),
        wf_tree(t),
        !is_blank_tree(t),
    ensures
        wf_args(args.push(t)),
    decreases args.len(),
{
    let p = args.push(t);
    if args.len() == 0 {
        assert(p[0] == t);
        assert(p.drop_first() =~= Seq::<Tree>::empty());
        assert(wf_args(p.drop_first()));
        assert(wf_args(p));
    } else {
        lemma_wf_args_push(args.drop_first(), t);
        assert(p.drop_first() =~= args.drop_first().push(t));
        assert(p[0] == args[0]);
        assert(wf_args(p));
    }
}

pub proof fn lemma_max_arg_complexity(acc: nat, args: Seq<Tree>)
    ensures
        max_arg_complexity(acc, args) >= acc,
        forall|i: int| 0 <= i < args.len()
            ==> max_arg_complexity(acc, args) >= complexity(#[trigger] args[i]),
    decreases args.len(),
{
    if args.len() > 0 {
        let c0 = complexity(args[0]);
        let m = if c0 > acc { c0 } else { acc };
        lemma_max_arg_complexity(m, args.drop_first());
        assert forall|i: int| 0 <= i < args.len() implies max_arg_complexity(acc, args)
            >= complexity(#[trigger] args[i]) by {
            if i > 0 {
                assert(args[i] == args.drop_first()[i - 1]);
            }
        }
    }
}

pub proof fn lemma_max_arg_complexity_push(acc: nat, args: Seq<Tree>, t: Tree)
    ensures
        max_arg_complexity(acc, args.push(t)) == (if complexity(t) > max_arg_complexity(acc, args) {
            complexity(t)
        } else {
            max_arg_complexity(acc, args)
        }),
    decreases args.len(),
{
    let p = args.push(t);
    if args.len() == 0 {
        assert(p[0] == t);
        assert(p.drop_first() =~= Seq::<Tree>::empty());
        let c0 = complexity(p[0]);
        let m = if c0 > acc { c0 } else { acc };
        assert(max_arg_complexity(m, p.drop_first()) == m);
        assert(max_arg_complexity(acc, p) == m);
    } else {
        let c0 = complexity(args[0]);
        let m = if c0 > acc { c0 } else { acc };
        lemma_max_arg_complexity_push(m, args.drop_first(), t);
        assert(p[0] == args[0]);
        assert(p.drop_first() =~= args.drop_first().push(t));
    }
}

/// An S-expression as built by the parser. Each node caches the complexity
/// of its subtree, computed once during construction.
#[derive(Debug)]
pub struct Sexpr {
    pub(crate) kind: SexprKind,
    pub(crate) complexity: usize,
}

#[derive(Debug)]
pub(crate) enum SexprKind {
    Atom(Vec<u8>),
    Compound(Box<Sexpr>, Vec<Sexpr>),
}

impl Sexpr {
    /// The abstract tree of this node.
    pub closed spec fn tree(self) -> Tree
        decreases self,
    {
        match self.kind {
            SexprKind::Atom(text) => Tree::Atom { text: text@ },
            SexprKind::Compound(head, args) => Tree::Compound {
                head: Box::new(head.tree()),
                args: Self::trees(args@),
            },
        }
    }

    /// The abstract trees of a sequence of nodes, element by element.
    pub closed spec fn trees(s: Seq<Sexpr>) -> Seq<Tree>
        decreases s,
    {
        if s.len() == 0 {
            Seq::empty()
        } else {
            seq![s[0].tree()] + Self::trees(s.drop_first())
        }
    }

    /// The cached complexity of every node equals the complexity of its tree.
    pub closed spec fn cpx_ok(self) -> bool
        decreases self,
    {
        &&& self.complexity == complexity(self.tree())
        &&& match self.kind {
            SexprKind::Atom(_) => true,
            SexprKind::Compound(head, args) => head.cpx_ok() && Self::cpx_ok_seq(args@),
        }
    }

    pub closed spec fn cpx_ok_seq(s: Seq<Sexpr>) -> bool
        decreases s,
    {
        s.len() == 0 || (s[0].cpx_ok() && Self::cpx_ok_seq(s.drop_first()))
    }

    /// The empty atom: the parser's "nothing left to read" signal.
    pub fn blank() -> (r: Sexpr)
        ensures
            r@ == blank_tree(),
            r.cpx_ok(),
    {
        let text: Vec<u8> = Vec::new();
        let r = Sexpr { kind: SexprKind::Atom(text), complexity: 0 };
        proof {
            assert(r.tree() == (Tree::Atom { text: Seq::<u8>::empty() }));
        }
        r
    }

    /// True when this node is an atom with exactly the given text.
    pub fn is_named(&self, text: &[u8]) -> (r: bool)
        ensures
            r == (self@ == (Tree::Atom { text: text@ })),
    {
        match &self.kind {
            SexprKind::Atom(own) => {
                if own.len() != text.len() {
                    proof {
                        assert(self@ != (Tree::Atom { text: text@ }));
                    }
                    return false;
                }
                let n = own.len();
                let mut i: usize = 0;
                while i < n
                    invariant
                        n == own@.len() == text@.len(),
                        i <= n,
                        self@ == (Tree::Atom { text: own@ }),
                        forall|j: int| 0 <= j < i ==> own@[j] == text@[j],
                    decreases n - i,
                {
                    if own[i] != text[i] {
                        proof {
                            assert(own@ != text@);
                        }
                        return false;
                    }
                    i += 1;
                }
                proof {
                    assert(own@ =~= text@);
                }
                true
            }
            SexprKind::Compound(_, _) => {
                proof {
                    assert(self@ != (Tree::Atom { text: text@ }));
                }
                false
            }
        }
    }

    /// True when this node is the blank sentinel.
    pub fn is_blank(&self) -> (r: bool)
        ensures
            r == is_blank_tree(self@),
    {
        match &self.kind {
            SexprKind::Atom(own) => {
                let r = own.len() == 0;
                proof {
                    if r {
                        assert(own@ =~= Seq::<u8>::empty());
                    }
                }
                r
            }
            SexprKind::Compound(_, _) => false,
        }
    }

    /// The cached nesting-depth measure of this node.
    pub fn complexity(&self) -> (r: usize)
        ensures
            self.cpx_ok() ==> r == complexity(self@),
    {
        self.complexity
    }
}

impl View for Sexpr {
    type V = Tree;

    open spec fn view(&self) -> Tree {
        self.tree()
    }
}

pub proof fn lemma_trees_index(s: Seq<Sexpr>)
    ensures
        Sexpr::trees(s).len() == s.len(),
        forall|i: int| 0 <= i < s.len() ==> #[trigger] Sexpr::trees(s)[i] == s[i].tree(),
    decreases s.len(),
{
    if s.len() > 0 {
        lemma_trees_index(s.drop_first());
        assert forall|i: int| 0 <= i < s.len() implies #[trigger] Sexpr::trees(s)[i]
            == s[i].tree() by {
            if i > 0 {
                assert(Sexpr::trees(s)[i] == Sexpr::trees(s.drop_first())[i - 1]);
                assert(s.drop_first()[i - 1] == s[i]);
            }
        }
    }
}

pub proof fn lemma_trees_push(s: Seq<Sexpr>, x: Sexpr)
    ensures
        Sexpr::trees(s.push(x)) == Sexpr::trees(s).push(x.tree()),
    decreases s.len(),
{
    let p = s.push(x);
    if s.len() == 0 {
        assert(p[0] == x);
        assert(p.drop_first() =~= Seq::<Sexpr>::empty());
        assert(Sexpr::trees(p.drop_first()) =~= Seq::<Tree>::empty());
        assert(Sexpr::trees(p) =~= Sexpr::trees(s).push(x.tree()));
    } else {
        lemma_trees_push(s.drop_first(), x);
        assert(p[0] == s[0]);
        assert(p.drop_first() =~= s.drop_first().push(x));
        assert(Sexpr::trees(p) =~= Sexpr::trees(s).push(x.tree()));
    }
}

pub proof fn lemma_cpx_ok_seq_index(s: Seq<Sexpr>)
    requires
        Sexpr::cpx_ok_seq(s),
    ensures
        forall|i: int| 0 <= i < s.len() ==> #[trigger] s[i].cpx_ok(),
    decreases s.len(),
{
    if s.len() > 0 {
        lemma_cpx_ok_seq_index(s.drop_first());
        assert forall|i: int| 0 <= i < s.len() implies #[trigger] s[i].cpx_ok() by {
            if i > 0 {
                assert(s[i] == s.drop_first()[i - 1]);
            }
        }
    }
}

pub proof fn lemma_cpx_ok_seq_push(s: Seq<Sexpr>, x: Sexpr)
    requires
        Sexpr::cpx_ok_seq(s),
        x.cpx_ok(),
    ensures
        Sexpr::cpx_ok_seq(s.push(x)),
    decreases s.len(),
{
    let p = s.push(x);
    if s.len() == 0 {
        assert(p[0] == x);
        assert(p.drop_first() =~= Seq::<Sexpr>::empty());
        assert(Sexpr::cpx_ok_seq(p.drop_first()));
        assert(Sexpr::cpx_ok_seq(p));
    } else {
        lemma_cpx_ok_seq_push(s.drop_first(), x);
        assert(p[0] == s[0]);
        assert(p.drop_first() =~= s.drop_first().push(x));
        assert(Sexpr::cpx_ok_seq(p));
    }
}

/// How a parse can fail. Parsing is all-or-nothing: no tree is returned on
/// any of these.
#[derive(Clone, Copy, Debug, PartialEq, Eq, Structural)]
pub enum ParseError {
    /// Non-whitespace input remained after the top-level expression.
    UnclosedInput,
    /// Input ran out while a compound still expected its closing parenthesis.
    UnterminatedCompound,
    /// A compound's argument scan stopped on a byte that closes nothing.
    MalformedCompound,
}

/// `s` without its leading whitespace.
pub open spec fn trim_start(s: Seq<u8>) -> Seq<u8>
    decreases s.len(),
{
    if s.len() > 0 && is_space(s[0]) {
        trim_start(s.drop_first())
    } else {
        s
    }
}

/// Length of the longest prefix of `s` made of atom bytes.
pub open spec fn ident_run(s: Seq<u8>) -> nat
    decreases s.len(),
{
    if s.len() > 0 && is_ident_byte(s[0]) {
        (1 + ident_run(s.drop_first())) as nat
    } else {
        0
    }
}

/// True when every byte of `s` is whitespace.
pub open spec fn all_space(s: Seq<u8>) -> bool {
    forall|i: int| 0 <= i < s.len() ==> is_space(#[trigger] s[i])
}

pub proof fn lemma_trim_start_props(s: Seq<u8>)
    ensures
        trim_start(s).len() <= s.len(),
        trim_start(s).len() > 0 ==> !is_space(trim_start(s)[0]),
    decreases s.len(),
{
    if s.len() > 0 && is_space(s[0]) {
        lemma_trim_start_props(s.drop_first());
    }
}

pub proof fn lemma_trim_start_concat(ws: Seq<u8>, s: Seq<u8>)
    requires
        all_space(ws),
    ensures
        trim_start(ws + s) == trim_start(s),
    decreases ws.len(),
{
    if ws.len() == 0 {
        assert(ws + s =~= s);
    } else {
        assert((ws + s)[0] == ws[0]);
        assert((ws + s).drop_first() =~= ws.drop_first() + s);
        assert(all_space(ws.drop_first()));
        lemma_trim_start_concat(ws.drop_first(), s);
    }
}

pub proof fn lemma_ident_run_props(s: Seq<u8>)
    ensures
        ident_run(s) <= s.len(),
        forall|i: int| 0 <= i < ident_run(s) ==> is_ident_byte(#[trigger] s[i]),
        ident_run(s) < s.len() ==> !is_ident_byte(s[ident_run(s) as int]),
    decreases s.len(),
{
    if s.len() > 0 && is_ident_byte(s[0]) {
        lemma_ident_run_props(s.drop_first());
        assert forall|i: int| 0 <= i < ident_run(s) implies is_ident_byte(#[trigger] s[i]) by {
            if i > 0 {
                assert(s[i] == s.drop_first()[i - 1]);
            }
        }
        if ident_run(s) < s.len() {
            assert(s[ident_run(s) as int] == s.drop_first()[ident_run(s) - 1]);
        }
    }
}

pub proof fn lemma_ident_run_concat(a: Seq<u8>, b: Seq<u8>)
    requires
        ident_text(a),
        b.len() > 0 ==> !is_ident_byte(b[0]),
    ensures
        ident_run(a + b) == a.len(),
    decreases a.len(),
{
    if a.len() == 0 {
        assert(a + b =~= b);
    } else {
        assert((a + b)[0] == a[0]);
        assert((a + b).drop_first() =~= a.drop_first() + b);
        assert(ident_text(a.drop_first()));
        lemma_ident_run_concat(a.drop_first(), b);
    }
}

/// One expression read from the front of `s`: the tree and the unread rest.
/// The blank tree is returned, without error, when the trimmed input is
/// empty or starts with a closing parenthesis: the caller reads it as
/// "no more siblings here".
pub open spec fn parse_one(s: Seq<u8>) -> Result<(Tree, Seq<u8>), ParseError>
    decreases s.len(), 1int,
{
    let t = trim_start(s);
    if t.len() == 0 {
        Ok((blank_tree(), t))
    } else if t[0] == 40 {
        if t.len() <= s.len() {
            match parse_one(t.drop_first()) {
                Err(e) => Err(e),
                Ok((head, rem1)) => {
                    if rem1.len() < s.len() {
                        match parse_args(rem1) {
                            Err(e) => Err(e),
                            Ok((args, rem2)) => {
                                let r = trim_start(rem2);
                                if r.len() == 0 {
                                    Err(ParseError::UnterminatedCompound)
                                } else if r[0] == 41 {
                                    Ok((Tree::Compound { head: Box::new(head), args }, r.drop_first()))
                                } else {
                                    Err(ParseError::MalformedCompound)
                                }
                            }
                        }
                    } else {
                        Err(ParseError::MalformedCompound)
                    }
                }
            }
        } else {
            Err(ParseError::MalformedCompound)
        }
    } else {
        let n = ident_run(t) as int;
        Ok((Tree::Atom { text: t.take(n) }, t.skip(n)))
    }
}

/// Arguments read until the blank signal or the end of input, paired with
/// the input left at the point the scan stopped.
pub open spec fn parse_args(s: Seq<u8>) -> Result<(Seq<Tree>, Seq<u8>), ParseError>
    decreases s.len(), 2int,
{
    if s.len() == 0 {
        Ok((Seq::empty(), s))
    } else {
        match parse_one(s) {
            Err(e) => Err(e),
            Ok((t, tail)) => {
                if is_blank_tree(t) {
                    Ok((Seq::empty(), s))
                } else if tail.len() < s.len() {
                    match parse_args(tail) {
                        Err(e) => Err(e),
                        Ok((rest, tail2)) => Ok((seq![t] + rest, tail2)),
                    }
                } else {
                    Err(ParseError::MalformedCompound)
                }
            }
        }
    }
}

/// The meaning of parsing a whole input: one expression, followed by
/// nothing but whitespace.
pub open spec fn parse_spec(s: Seq<u8>) -> Result<Tree, ParseError> {
    match parse_one(s) {
        Err(e) => Err(e),
        Ok((t, tail)) => if all_space(tail) {
            Ok(t)
        } else {
            Err(ParseError::UnclosedInput)
        },
    }
}

fn is_space_b(b: u8) -> (r: bool)
    ensures
        r == is_space(b),
{
    b == 32 || b == 9 || b == 10 || b == 13
}

fn is_ident_b(b: u8) -> (r: bool)
    ensures
        r == is_ident_byte(b),
{
    b != 40 && b != 41 && !is_space_b(b)
}

/// First position at or after `i` holding a byte that is not whitespace.
fn skip_spaces(input: &[u8], i: usize) -> (j: usize)
    requires
        i <= input@.len(),
    ensures
        i <= j <= input@.len(),
        input@.skip(j as int) == trim_start(input@.skip(i as int)),
{
    let mut j = i;
    while j < input.len() && is_space_b(input[j])
        invariant
            i <= j <= input@.len(),
            trim_start(input@.skip(i as int)) == trim_start(input@.skip(j as int)),
        decreases input@.len() - j,
    {
        proof {
            assert(input@.skip(j as int)[0] == input@[j as int]);
            assert(input@.skip(j as int).drop_first() =~= input@.skip(j as int + 1));
        }
        j += 1;
    }
    proof {
        if j < input@.len() {
            assert(input@.skip(j as int)[0] == input@[j as int]);
        } else {
            assert(input@.skip(j as int).len() == 0);
        }
        assert(trim_start(input@.skip(j as int)) == input@.skip(j as int));
    }
    j
}

/// End of the atom that starts at `i`: the first position at or after `i`
/// holding a byte that cannot stand in an atom.
fn ident_end(input: &[u8], i: usize) -> (j: usize)
    requires
        i <= input@.len(),
    ensures
        i <= j <= input@.len(),
        j - i == ident_run(input@.skip(i as int)),
{
    let mut j = i;
    while j < input.len() && is_ident_b(input[j])
        invariant
            i <= j <= input@.len(),
            ident_run(input@.skip(i as int)) == j - i + ident_run(input@.skip(j as int)),
        decreases input@.len() - j,
    {
        proof {
            assert(input@.skip(j as int)[0] == input@[j as int]);
            assert(input@.skip(j as int).drop_first() =~= input@.skip(j as int + 1));
        }
        j += 1;
    }
    proof {
        if j < input@.len() {
            assert(input@.skip(j as int)[0] == input@[j as int]);
        } else {
            assert(input@.skip(j as int).len() == 0);
        }
        assert(ident_run(input@.skip(j as int)) == 0);
    }
    j
}

/// The bytes of `input` between `i` and `j`, as an owned vector.
fn copy_range(input: &[u8], i: usize, j: usize) -> (r: Vec<u8>)
    requires
        i <= j <= input@.len(),
    ensures
        r@ == input@.subrange(i as int, j as int),
{
    let mut r: Vec<u8> = Vec::new();
    let mut k = i;
    while k < j
        invariant
            i <= k <= j <= input@.len(),
            r@ == input@.subrange(i as int, k as int),
        decreases j - k,
    {
        r.push(input[k]);
        proof {
            assert(r@ =~= input@.subrange(i as int, k as int + 1));
        }
        k += 1;
    }
    r
}

/// True when nothing but whitespace stands at or after `i`.
fn rest_is_space(input: &[u8], i: usize) -> (r: bool)
    requires
        i <= input@.len(),
    ensures
        r == all_space(input@.skip(i as int)),
{
    let mut j = i;
    while j < input.len()
        invariant
            i <= j <= input@.len(),
            forall|k: int| i <= k < j ==> is_space(#[trigger] input@[k]),
        decreases input@.len() - j,
    {
        if !is_space_b(input[j]) {
            proof {
                assert(input@.skip(i as int)[j - i] == input@[j as int]);
            }
            return false;
        }
        j += 1;
    }
    proof {
        assert forall|k: int| 0 <= k < input@.skip(i as int).len() implies is_space(
            #[trigger] input@.skip(i as int)[k],
        ) by {
            assert(input@.skip(i as int)[k] == input@[i + k]);
        }
    }
    true
}

pub proof fn lemma_blank_result(s: Seq<u8>)
    ensures
        (match parse_one(s) {
            Ok((t, tail)) => is_blank_tree(t) ==> tail == trim_start(s) && (tail.len() == 0
                || tail[0] == 41),
            Err(_) => true,
        }),
{
    lemma_trim_start_props(s);
    let t = trim_start(s);
    if t.len() == 0 {
        assert(parse_one(s) == Ok::<(Tree, Seq<u8>), ParseError>((blank_tree(), t)));
    } else if t[0] == 40 {
        assert((match parse_one(s) {
            Ok(p) => !is_blank_tree(p.0),
            Err(_) => true,
        }));
    } else {
        let n = ident_run(t) as int;
        lemma_ident_run_props(t);
        assert(parse_one(s) == Ok::<(Tree, Seq<u8>), ParseError>(
            (Tree::Atom { text: t.take(n) }, t.skip(n)),
        ));
        if n == 0 {
            assert(t.take(0) =~= Seq::<u8>::empty());
            assert(t.skip(0) =~= t);
            assert(!is_ident_byte(t[0]));
            assert(t[0] == 41);
        } else {
            assert(t.take(n).len() == n);
            assert(!is_blank_tree(Tree::Atom { text: t.take(n) }));
        }
    }
}

/// How `parse_one` reads a compound, given what its head parsed to.
proof fn lemma_parse_one_compound(s: Seq<u8>, head: Tree, rem1: Seq<u8>)
    requires
        trim_start(s).len() > 0,
        trim_start(s)[0] == 40,
        trim_start(s).len() <= s.len(),
        parse_one(trim_start(s).drop_first()) == Ok::<(Tree, Seq<u8>), ParseError>((head, rem1)),
        rem1.len() < s.len(),
    ensures
        parse_one(s) == (match parse_args(rem1) {
            Err(e) => Err::<(Tree, Seq<u8>), ParseError>(e),
            Ok((args, rem2)) => {
                let r = trim_start(rem2);
                if r.len() == 0 {
                    Err(ParseError::UnterminatedCompound)
                } else if r[0] == 41 {
                    Ok((Tree::Compound { head: Box::new(head), args }, r.drop_first()))
                } else {
                    Err(ParseError::MalformedCompound)
                }
            },
        }),
{
}

impl Sexpr {
    /// One expression read from position `i` of `input`, with the position
    /// where reading stopped.
    fn parse_at(input: &[u8], i: usize) -> (r: Result<(Sexpr, usize), ParseError>)
        requires
            i <= input@.len(),
        ensures
            (match r {
                Ok(p) => {
                    &&& i <= p.1 <= input@.len()
                    &&& parse_one(input@.skip(i as int)) == Ok::<(Tree, Seq<u8>), ParseError>(
                        (p.0@, input@.skip(p.1 as int)),
                    )
                    &&& p.0.cpx_ok()
                    &&& wf_tree(p.0@)
                    &&& 2 * complexity(p.0@) <= p.1 - i
                    &&& (!is_blank_tree(p.0@) ==> p.1 > i)
                },
                Err(e) => parse_one(input@.skip(i as int)) == Err::<(Tree, Seq<u8>), ParseError>(
                    e,
                ),
            }),
        decreases input@.len() - i,
    {
        let ghost s = input@.skip(i as int);
        let t0 = skip_spaces(input, i);
        let ghost t = trim_start(s);
        proof {
            assert(t == input@.skip(t0 as int));
        }
        if t0 == input.len() {
            let sx = Sexpr::blank();
            proof {
                assert(t.len() == 0);
                assert(ident_text(Seq::<u8>::empty()));
            }
            return Ok((sx, t0));
        }
        let b = input[t0];
        proof {
            assert(t[0] == input@[t0 as int]);
            assert(t.len() == input@.len() - t0);
        }
        if b == 40 {
            match Sexpr::parse_at(input, t0 + 1) {
                Err(e) => {
                    proof {
                        assert(t.drop_first() =~= input@.skip(t0 as int + 1));
                    }
                    return Err(e);
                }
                Ok((head, k0)) => {
                    proof {
                        assert(t.drop_first() =~= input@.skip(t0 as int + 1));
                    }
                    let mut args: Vec<Sexpr> = Vec::new();
                    let mut cpx: usize = head.complexity;
                    let mut cur: usize = k0;
                    let mut done: bool = false;
                    proof {
                        assert(Sexpr::trees(args@) =~= Seq::<Tree>::empty());
                        assert(Sexpr::cpx_ok_seq(args@));
                        assert(wf_args(Sexpr::trees(args@)));
                        assert(max_arg_complexity(complexity(head@), Seq::<Tree>::empty())
                            == complexity(head@));
                        match parse_args(input@.skip(k0 as int)) {
                            Ok(p) => {
                                assert(Sexpr::trees(args@) + p.0 =~= p.0);
                            }
                            Err(_) => {}
                        }
                    }
                    while !done && cur < input.len()
                        invariant
                            i <= t0 < input@.len(),
                            input@[t0 as int] == 40,
                            trim_start(input@.skip(i as int)) == input@.skip(t0 as int),
                            t0 + 1 <= k0 <= cur <= input@.len(),
                            parse_one(input@.skip(t0 as int + 1))
                                == Ok::<(Tree, Seq<u8>), ParseError>(
                                (head@, input@.skip(k0 as int)),
                            ),
                            head.cpx_ok(),
                            wf_tree(head@),
                            2 * complexity(head@) <= k0 - t0 - 1,
                            cpx == max_arg_complexity(complexity(head@), Sexpr::trees(args@)),
                            2 * cpx <= cur - t0 - 1,
                            Sexpr::cpx_ok_seq(args@),
                            wf_args(Sexpr::trees(args@)),
                            Sexpr::trees(args@).len() == args@.len(),
                            is_blank_tree(head@) ==> args@.len() == 0 && cur == k0,
                            done ==> parse_args(input@.skip(cur as int))
                                == Ok::<(Seq<Tree>, Seq<u8>), ParseError>(
                                (Seq::empty(), input@.skip(cur as int)),
                            ),
                            (match parse_args(input@.skip(cur as int)) {
                                Ok(p) => parse_args(input@.skip(k0 as int)) == Ok::<
                                    (Seq<Tree>, Seq<u8>),
                                    ParseError,
                                >((Sexpr::trees(args@) + p.0, p.1)),
                                Err(e) => parse_args(input@.skip(k0 as int)) == Err::<
                                    (Seq<Tree>, Seq<u8>),
                                    ParseError,
                                >(e),
                            }),
                        decreases input@.len() - cur + (if done { 0int } else { 1int }),
                    {
                        match Sexpr::parse_at(input, cur) {
                            Err(e) => {
                                proof {
                                    assert(input@.skip(cur as int).len() > 0);
                                    assert(parse_args(input@.skip(cur as int))
                                        == Err::<(Seq<Tree>, Seq<u8>), ParseError>(e));
                                    let tt = input@.skip(t0 as int);
                                    assert(tt.len() == input@.len() - t0);
                                    assert(tt[0] == input@[t0 as int]);
                                    assert(tt.drop_first() =~= input@.skip(t0 as int + 1));
                                    lemma_parse_one_compound(
                                        input@.skip(i as int),
                                        head@,
                                        input@.skip(k0 as int),
                                    );
                                }
                                return Err(e);
                            }
                            Ok((sx, j)) => {
                                if sx.is_blank() {
                                    proof {
                                        assert(input@.skip(cur as int).len() > 0);
                                        assert(parse_args(input@.skip(cur as int))
                                            == Ok::<(Seq<Tree>, Seq<u8>), ParseError>(
                                            (Seq::empty(), input@.skip(cur as int)),
                                        ));
                                        match parse_args(input@.skip(k0 as int)) {
                                            Ok(p) => {
                                                assert(Sexpr::trees(args@) + Seq::<Tree>::empty()
                                                    =~= Sexpr::trees(args@));
                                            }
                                            Err(_) => {}
                                        }
                                    }
                                    done = true;
                                } else {
                                    proof {
                                        if is_blank_tree(head@) {
                                            lemma_blank_result(input@.skip(t0 as int + 1));
                                            let tl = input@.skip(k0 as int);
                                            assert(tl.len() > 0);
                                            assert(tl[0] == 41);
                                            assert(trim_start(tl) == tl);
                                            lemma_ident_run_props(tl);
                                            assert(ident_run(tl) == 0);
                                            assert(tl.take(0) =~= Seq::<u8>::empty());
                                            assert(tl.skip(0) =~= tl);
                                            assert(parse_one(tl) == Ok::<
                                                (Tree, Seq<u8>),
                                                ParseError,
                                            >((blank_tree(), tl)));
                                            assert(false);
                                        }
                                        assert(input@.skip(cur as int).len() > 0);
                                        lemma_trees_push(args@, sx);
                                        lemma_max_arg_complexity_push(
                                            complexity(head@),
                                            Sexpr::trees(args@),
                                            sx@,
                                        );
                                        lemma_cpx_ok_seq_push(args@, sx);
                                        lemma_wf_args_push(Sexpr::trees(args@), sx@);
                                        match parse_args(input@.skip(j as int)) {
                                            Ok(p) => {
                                                assert(Sexpr::trees(args@).push(sx@) + p.0
                                                    =~= Sexpr::trees(args@) + (seq![sx@] + p.0));
                                            }
                                            Err(_) => {}
                                        }
                                    }
                                    let scpx = sx.complexity;
                                    if scpx > cpx {
                                        cpx = scpx;
                                    }
                                    args.push(sx);
                                    cur = j;
                                }
                            }
                        }
                    }
                    proof {
                        if !done {
                            assert(cur == input@.len());
                            assert(input@.skip(cur as int).len() == 0);
                        }
                        assert(parse_args(input@.skip(cur as int))
                            == Ok::<(Seq<Tree>, Seq<u8>), ParseError>(
                            (Seq::empty(), input@.skip(cur as int)),
                        ));
                        assert(Sexpr::trees(args@) + Seq::<Tree>::empty() =~= Sexpr::trees(args@));
                        assert(parse_args(input@.skip(k0 as int)) == Ok::<
                            (Seq<Tree>, Seq<u8>),
                            ParseError,
                        >((Sexpr::trees(args@), input@.skip(cur as int))));
                        let tt = input@.skip(t0 as int);
                        assert(tt.len() == input@.len() - t0);
                        assert(tt[0] == input@[t0 as int]);
                        assert(tt.drop_first() =~= input@.skip(t0 as int + 1));
                        lemma_parse_one_compound(
                            input@.skip(i as int),
                            head@,
                            input@.skip(k0 as int),
                        );
                    }
                    let r0 = skip_spaces(input, cur);
                    if r0 == input.len() {
                        proof {
                            assert(trim_start(input@.skip(cur as int)).len() == 0);
                        }
                        return Err(ParseError::UnterminatedCompound);
                    }
                    let c = input[r0];
                    proof {
                        assert(input@.skip(r0 as int)[0] == input@[r0 as int]);
                    }
                    if c == 41 {
                        proof {
                            assert(2 * cpx + 2 <= cur - t0 + 1);
                            assert(cpx + 1 <= usize::MAX);
                        }
                        let total: usize = cpx + 1;
                        let sx = Sexpr {
                            kind: SexprKind::Compound(Box::new(head), args),
                            complexity: total,
                        };
                        proof {
                            assert(sx.tree() == (Tree::Compound {
                                head: Box::new(sx.kind->Compound_0.tree()),
                                args: Sexpr::trees(sx.kind->Compound_1@),
                            }));
                            assert(complexity(sx.tree()) == 1 + max_arg_complexity(
                                complexity(sx.kind->Compound_0.tree()),
                                Sexpr::trees(sx.kind->Compound_1@),
                            ));
                            assert(input@.skip(r0 as int).drop_first() =~= input@.skip(
                                r0 as int + 1,
                            ));
                        }
                        return Ok((sx, r0 + 1));
                    }
                    proof {
                        assert(trim_start(input@.skip(cur as int)).len() > 0);
                    }
                    return Err(ParseError::MalformedCompound);
                }
            }
        } else {
            let j = ident_end(input, t0);
            let text = copy_range(input, t0, j);
            let ghost n = ident_run(t) as int;
            proof {
                lemma_ident_run_props(t);
                assert(text@ =~= t.take(n));
                assert(t.skip(n) =~= input@.skip(j as int));
                assert(ident_text(text@));
            }
            let sx = Sexpr { kind: SexprKind::Atom(text), complexity: 0 };
            proof {
                assert(sx.tree() == (Tree::Atom { text: sx.kind->Atom_0@ }));
                if !is_blank_tree(sx@) {
                    if n == 0 {
                        assert(t.take(0) =~= Seq::<u8>::empty());
                        assert(false);
                    }
                    assert(n > 0);
                }
            }
            return Ok((sx, j));
        }
    }

    /// Attempt to create an s-expression from the given input.
    pub fn parse(input: &[u8]) -> (r: Result<Sexpr, ParseError>)
        ensures
            (match r {
                Ok(sx) => {
                    &&& parse_spec(input@) == Ok::<Tree, ParseError>(sx@)
                    &&& sx.cpx_ok()
                    &&& wf_tree(sx@)
                    &&& 2 * complexity(sx@) <= input@.len()
                },
                Err(e) => parse_spec(input@) == Err::<Tree, ParseError>(e),
            }),
    {
        proof {
            assert(input@.skip(0) =~= input@);
        }
        match Sexpr::parse_at(input, 0) {
            Err(e) => Err(e),
            Ok((sx, j)) => {
                if rest_is_space(input, j) {
                    Ok(sx)
                } else {
                    Err(ParseError::UnclosedInput)
                }
            }
        }
    }
}

/// `n` space bytes.
pub open spec fn spaces(n: nat) -> Seq<u8> {
    Seq::new(n, |i: int| 32u8)
}

/// A line break followed by `n` spaces of indentation.
pub open spec fn newline_indent(n: nat) -> Seq<u8> {
    seq![10u8] + spaces(n)
}

/// The bytes of the atom text `forall`.
pub open spec fn quant_forall() -> Seq<u8> {
    seq![102u8, 111u8, 114u8, 97u8, 108u8, 108u8]
}

/// The bytes of the atom text `exists`.
pub open spec fn quant_exists() -> Seq<u8> {
    seq![101u8, 120u8, 105u8, 115u8, 116u8, 115u8]
}

/// True when `t` is the atom `forall` or the atom `exists`.
pub open spec fn is_quant_head(t: Tree) -> bool {
    t == (Tree::Atom { text: quant_forall() }) || t == (Tree::Atom { text: quant_exists() })
}

/// The exact bytes the renderer emits for `t`. An atom is its text. A
/// compound opens with `(`, renders its head at the current depth, lays
/// each argument out either inline (a single space before it) or on a new
/// line indented `depth + 4` (chosen once for the whole node, by comparing
/// the node's complexity with the threshold), and closes with `)`, on a
/// line of its own at the node's depth when the node is multiline. With
/// `sq` set and a quantifier head, the first argument stays on the head's
/// line whatever the mode.
pub open spec fn render_one(t: Tree, th: nat, sq: bool, depth: nat) -> Seq<u8>
    decreases t,
{
    match t {
        Tree::Atom { text } => text,
        Tree::Compound { head, args } => {
            let inline = complexity(t) <= th;
            let nd: nat = if inline { 0 } else { (depth + 4) as nat };
            let sep = if inline { seq![32u8] } else { newline_indent((depth + 4) as nat) };
            let compact = sq && is_quant_head(*head);
            let sep0 = if compact { seq![32u8] } else { sep };
            let d0: nat = if compact { depth } else { nd };
            let close = if inline { Seq::<u8>::empty() } else { newline_indent(depth) };
            seq![40u8] + render_one(*head, th, sq, depth) + render_args(args, sep0, d0, sep, nd, th, sq)
                + close + seq![41u8]
        }
    }
}

/// Arguments in order, the first preceded by `sep0` and rendered at depth
/// `d0`, every later one preceded by `sep` and rendered at depth `d`.
pub open spec fn render_args(
    args: Seq<Tree>,
    sep0: Seq<u8>,
    d0: nat,
    sep: Seq<u8>,
    d: nat,
    th: nat,
    sq: bool,
) -> Seq<u8>
    decreases args,
{
    if args.len() == 0 {
        Seq::empty()
    } else {
        sep0 + render_one(args[0], th, sq, d0) + render_args(args.drop_first(), sep, d, sep, d, th, sq)
    }
}

/// Everything `Sexpr::write_helper` needs while it walks the tree.
#[derive(Clone, Copy)]
pub struct FormatArgs {
    /// Spaces already owed at the start of any fresh line.
    pub depth: usize,
    /// Largest complexity still rendered on a single line.
    pub complexity_threshold: u32,
    /// Glue the first argument of a quantifier to the head's line.
    pub short_quantifiers: bool,
}

impl FormatArgs {
    /// The default formatting arguments.
    pub fn new() -> (r: FormatArgs)
        ensures
            r.depth == 0,
            r.complexity_threshold == 1,
            !r.short_quantifiers,
    {
        FormatArgs { depth: 0, complexity_threshold: 1, short_quantifiers: false }
    }

    /// The formatting arguments that a command line asks for.
    pub fn from(cmd_args: &CmdArgs) -> (r: FormatArgs)
        ensures
            r.depth == 0,
            r.complexity_threshold == cmd_args.complexity_threshold,
            r.short_quantifiers == cmd_args.short_quantifiers,
    {
        FormatArgs {
            depth: 0,
            complexity_threshold: cmd_args.complexity_threshold(),
            short_quantifiers: cmd_args.short_quantifiers(),
        }
    }

    /// The same arguments at another depth.
    pub fn with_depth(&self, new_depth: usize) -> (r: FormatArgs)
        ensures
            r.depth == new_depth,
            r.complexity_threshold == self.complexity_threshold,
            r.short_quantifiers == self.short_quantifiers,
    {
        FormatArgs {
            depth: new_depth,
            complexity_threshold: self.complexity_threshold,
            short_quantifiers: self.short_quantifiers,
        }
    }

    /// As many spaces as the current depth.
    pub fn tab(&self) -> (r: Vec<u8>)
        ensures
            r@ == spaces(self.depth as nat),
    {
        let mut r: Vec<u8> = Vec::new();
        push_spaces(&mut r, self.depth);
        proof {
            assert(Seq::<u8>::empty() + spaces(self.depth as nat) =~= spaces(self.depth as nat));
        }
        r
    }
}

fn push_spaces(out: &mut Vec<u8>, n: usize)
    ensures
        final(out)@ == old(out)@ + spaces(n as nat),
{
    proof {
        assert(out@ =~= old(out)@ + spaces(0));
    }
    let mut k: usize = 0;
    while k < n
        invariant
            k <= n,
            out@ == old(out)@ + spaces(k as nat),
        decreases n - k,
    {
        out.push(32);
        proof {
            assert(out@ =~= old(out)@ + spaces((k + 1) as nat));
        }
        k += 1;
    }
}

proof fn lemma_push_is_cat(a: Seq<u8>, b: u8)
    ensures
        a.push(b) == a + seq![b],
{
    assert(a.push(b) =~= a + seq![b]);
}

proof fn lemma_cat_empty(a: Seq<u8>)
    ensures
        a + Seq::<u8>::empty() == a,
{
    assert(a + Seq::<u8>::empty() =~= a);
}

proof fn lemma_args_whole(ts: Seq<Tree>, s0: Seq<u8>, d0: nat, sep: Seq<u8>, d: nat, th: nat, sq: bool)
    ensures
        render_args(ts.skip(0), s0, d0, sep, d, th, sq) == render_args(ts, s0, d0, sep, d, th, sq),
{
    assert(ts.skip(0) =~= ts);
}

proof fn lemma_args_none(ts: Seq<Tree>, s0: Seq<u8>, d0: nat, sep: Seq<u8>, d: nat, th: nat, sq: bool)
    ensures
        render_args(ts.skip(ts.len() as int), s0, d0, sep, d, th, sq) == Seq::<u8>::empty(),
{
    assert(ts.skip(ts.len() as int) =~= Seq::<Tree>::empty());
}

/// One argument peeled off the front of a pending `render_args` goal.
proof fn lemma_args_step(
    pre: Seq<u8>,
    target: Seq<u8>,
    ts: Seq<Tree>,
    idx: int,
    sc: Seq<u8>,
    dc: nat,
    sep: Seq<u8>,
    nd: nat,
    th: nat,
    sq: bool,
)
    requires
        0 <= idx < ts.len(),
        pre + render_args(ts.skip(idx), sc, dc, sep, nd, th, sq) == target,
    ensures
        ((pre + sc) + render_one(ts[idx], th, sq, dc)) + render_args(
            ts.skip(idx + 1),
            sep,
            nd,
            sep,
            nd,
            th,
            sq,
        ) == target,
{
    assert(ts.skip(idx)[0] == ts[idx]);
    assert(ts.skip(idx).drop_first() =~= ts.skip(idx + 1));
    assert(((pre + sc) + render_one(ts[idx], th, sq, dc)) + render_args(
        ts.skip(idx + 1),
        sep,
        nd,
        sep,
        nd,
        th,
        sq,
    ) =~= pre + render_args(ts.skip(idx), sc, dc, sep, nd, th, sq));
}

/// The closing parenthesis completes the compound's rendering.
proof fn lemma_close_compound(o: Seq<u8>, rh: Seq<u8>, ra: Seq<u8>, cl: Seq<u8>, outv: Seq<u8>)
    requires
        outv == ((((o + seq![40u8]) + rh) + ra) + cl).push(41u8),
    ensures
        outv == o + (seq![40u8] + rh + ra + cl + seq![41u8]),
{
    assert(((((o + seq![40u8]) + rh) + ra) + cl).push(41u8) =~= o + (seq![40u8] + rh + ra + cl
        + seq![41u8]));
}

fn push_newline_indent(out: &mut Vec<u8>, n: usize)
    ensures
        final(out)@ == old(out)@ + newline_indent(n as nat),
{
    out.push(10);
    push_spaces(out, n);
    proof {
        assert(out@ =~= old(out)@ + newline_indent(n as nat));
    }
}

fn push_bytes(out: &mut Vec<u8>, bs: &Vec<u8>)
    ensures
        final(out)@ == old(out)@ + bs@,
{
    proof {
        assert(out@ =~= old(out)@ + bs@.take(0));
    }
    let n = bs.len();
    let mut k: usize = 0;
    while k < n
        invariant
            k <= n,
            n == bs@.len(),
            out@ == old(out)@ + bs@.take(k as int),
        decreases n - k,
    {
        out.push(bs[k]);
        proof {
            assert(out@ =~= old(out)@ + bs@.take(k as int + 1));
        }
        k += 1;
    }
    proof {
        assert(bs@.take(n as int) =~= bs@);
    }
}

impl Sexpr {
    /// True when this node is the atom `forall` or the atom `exists`.
    fn is_quant(&self) -> (r: bool)
        ensures
            r == is_quant_head(self@),
    {
        proof {
            assert(quant_forall().len() == 6);
            assert(quant_exists().len() == 6);
        }
        match &self.kind {
            SexprKind::Atom(t) => {
                proof {
                    assert(self.tree() == (Tree::Atom { text: self.kind->Atom_0@ }));
                }
                if t.len() != 6 {
                    false
                } else if t[0] == 102 && t[1] == 111 && t[2] == 114 && t[3] == 97 && t[4] == 108
                    && t[5] == 108 {
                    proof {
                        assert(t@ =~= quant_forall());
                    }
                    true
                } else if t[0] == 101 && t[1] == 120 && t[2] == 105 && t[3] == 115 && t[4] == 116
                    && t[5] == 115 {
                    proof {
                        assert(t@ =~= quant_exists());
                    }
                    true
                } else {
                    proof {
                        if t@ == quant_forall() {
                            assert(t@[0] == 102 && t@[1] == 111 && t@[2] == 114 && t@[3] == 97
                                && t@[4] == 108 && t@[5] == 108);
                        }
                        if t@ == quant_exists() {
                            assert(t@[0] == 101 && t@[1] == 120 && t@[2] == 105 && t@[3] == 115
                                && t@[4] == 116 && t@[5] == 115);
                        }
                    }
                    false
                }
            }
            SexprKind::Compound(_, _) => false,
        }
    }

    /// Append the rendering of this node to `out`. The head goes right
    /// after the opening parenthesis on the current line; each argument is
    /// laid out by this node's own complexity against the threshold.
    #[verifier::loop_isolation(false)]
    #[verifier::rlimit(50)]
    fn write_helper(&self, out: &mut Vec<u8>, args: FormatArgs)
        requires
            self.cpx_ok(),
            args.depth + 4 * complexity(self@) <= usize::MAX,
        ensures
            final(out)@ == old(out)@ + render_one(
                self@,
                args.complexity_threshold as nat,
                args.short_quantifiers,
                args.depth as nat,
            ),
        decreases *self,
    {
        let ghost th = args.complexity_threshold as nat;
        let ghost sq = args.short_quantifiers;
        let ghost d = args.depth as nat;
        match &self.kind {
            SexprKind::Atom(text) => {
                proof {
                    assert(self.tree() == (Tree::Atom { text: self.kind->Atom_0@ }));
                }
                push_bytes(out, text);
            }
            SexprKind::Compound(head, subs) => {
                proof {
                    assert(self.tree() == (Tree::Compound {
                        head: Box::new(self.kind->Compound_0.tree()),
                        args: Sexpr::trees(self.kind->Compound_1@),
                    }));
                }
                let ghost ts = Sexpr::trees(subs@);
                let ghost ct = complexity(self@);
                proof {
                    assert(ct == 1 + max_arg_complexity(complexity(head@), ts));
                    lemma_trees_index(subs@);
                    lemma_cpx_ok_seq_index(subs@);
                    lemma_max_arg_complexity(complexity(head@), ts);
                }
                let inline = self.complexity <= (args.complexity_threshold as usize);
                proof {
                    assert(inline == (ct <= th));
                }
                let new_depth: usize = if inline {
                    0
                } else {
                    args.depth + 4
                };
                let ghost nd = new_depth as nat;
                let ghost sep = if inline {
                    seq![32u8]
                } else {
                    newline_indent((d + 4) as nat)
                };
                out.push(40);
                proof {
                    lemma_push_is_cat(old(out)@, 40);
                }
                head.write_helper(out, args);
                let compact = args.short_quantifiers && head.is_quant();
                let ghost sep0 = if compact {
                    seq![32u8]
                } else {
                    sep
                };
                let ghost d0: nat = if compact {
                    d
                } else {
                    nd
                };
                let ghost rh = render_one(head@, th, sq, d);
                let ghost base = (old(out)@ + seq![40u8]) + rh;
                let ghost ra = render_args(ts, sep0, d0, sep, nd, th, sq);
                let ghost target = base + ra;
                proof {
                    assert(out@ == base);
                }
                let mut idx: usize = 0;
                if compact && subs.len() > 0 {
                    out.push(32);
                    proof {
                        lemma_push_is_cat(base, 32);
                    }
                    subs[0].write_helper(out, args);
                    idx = 1;
                    proof {
                        lemma_args_whole(ts, sep0, d0, sep, nd, th, sq);
                        lemma_args_step(base, target, ts, 0, sep0, d0, sep, nd, th, sq);
                    }
                } else {
                    proof {
                        lemma_args_whole(ts, sep0, d0, sep, nd, th, sq);
                    }
                }
                while idx < subs.len()
                    invariant
                        idx <= subs@.len(),
                        compact && subs@.len() > 0 ==> idx >= 1,
                        out@ + render_args(
                            ts.skip(idx as int),
                            (if idx == 0 { sep0 } else { sep }),
                            (if idx == 0 { d0 } else { nd }),
                            sep,
                            nd,
                            th,
                            sq,
                        ) == target,
                    decreases subs@.len() - idx,
                {
                    let ghost pre = out@;
                    proof {
                        if idx == 0 {
                            assert(!compact);
                        }
                    }
                    if inline {
                        out.push(32);
                        proof {
                            lemma_push_is_cat(pre, 32);
                        }
                    } else {
                        push_newline_indent(out, new_depth);
                    }
                    proof {
                        assert(out@ == pre + sep);
                    }
                    subs[idx].write_helper(out, args.with_depth(new_depth));
                    proof {
                        lemma_args_step(pre, target, ts, idx as int, sep, nd, sep, nd, th, sq);
                    }
                    idx += 1;
                }
                proof {
                    lemma_args_none(
                        ts,
                        (if idx == 0 { sep0 } else { sep }),
                        (if idx == 0 { d0 } else { nd }),
                        sep,
                        nd,
                        th,
                        sq,
                    );
                    lemma_cat_empty(out@);
                    assert(out@ == target);
                }
                let ghost cl = if inline {
                    Seq::<u8>::empty()
                } else {
                    newline_indent(d)
                };
                if !inline {
                    push_newline_indent(out, args.depth);
                } else {
                    proof {
                        lemma_cat_empty(target);
                    }
                }
                proof {
                    assert(out@ == target + cl);
                }
                out.push(41);
                proof {
                    lemma_close_compound(old(out)@, rh, ra, cl, out@);
                    assert(render_one(self@, th, sq, d) == seq![40u8] + rh + ra + cl + seq![41u8]);
                }
            }
        }
    }

    /// Render this expression with the given command-line configuration,
    /// starting at depth zero.
    pub fn render(&self, cmd_args: &CmdArgs) -> (out: Vec<u8>)
        requires
            self.cpx_ok(),
            4 * complexity(self@) <= usize::MAX,
        ensures
            out@ == render_one(
                self@,
                cmd_args.complexity_threshold as nat,
                cmd_args.short_quantifiers,
                0,
            ),
    {
        let fmt_args = FormatArgs::from(cmd_args);
        let mut out: Vec<u8> = Vec::new();
        self.write_helper(&mut out, fmt_args);
        proof {
            assert(out@ =~= render_one(
                self@,
                cmd_args.complexity_threshold as nat,
                cmd_args.short_quantifiers,
                0,
            ));
        }
        out
    }
}

} // verus!
