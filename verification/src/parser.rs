//! Spanned values and the AST produced by the script parser.

use vstd::prelude::*;
use vstd::string::StringExecFns;

use crate::lexer::Token;

verus! {

/// A half-open source range `[start, end)`, in characters.
pub type Span = (usize, usize);

/// Spec-level model of a `Spanned` value.
pub struct SpannedV {
    pub text: Seq<char>,
    pub span: Span,
}

/// A string bundled with the source range it was read from.
///
/// The span is metadata for diagnostics only: equality ignores it and
/// compares the text alone, so two occurrences of the same name compare
/// equal wherever they were written.
#[derive(Debug)]
pub struct Spanned {
    pub text: String,
    pub span: Span,
}

impl Spanned {
    /// A spanned value with the placeholder range `[0, 0)`.
    pub fn new(val: String) -> (r: Spanned)
        ensures
            r.text == val,
            r.span == (0usize, 0usize),
    {
        Spanned { text: val, span: (0, 0) }
    }

    /// A spanned value carrying the given source range.
    pub fn with_span(val: String, span: Span) -> (r: Spanned)
        ensures
            r.text == val,
            r.span == span,
    {
        Spanned { text: val, span }
    }

    pub fn span(&self) -> (s: Span)
        ensures
            s == self.span,
    {
        self.span
    }

    pub fn inner(&self) -> (t: &String)
        ensures
            t == &self.text,
    {
        &self.text
    }

    pub fn inner_owned(&self) -> (t: String)
        ensures
            t@ == self.text@,
    {
        self.text.clone()
    }

    /// An identical copy, span included.
    pub fn duplicate(&self) -> (r: Spanned)
        ensures
            r.text@ == self.text@,
            r.span == self.span,
    {
        Spanned { text: self.text.clone(), span: self.span }
    }
}

impl View for Spanned {
    type V = SpannedV;

    open spec fn view(&self) -> SpannedV {
        SpannedV { text: self.text@, span: self.span }
    }
}

impl DeepView for Spanned {
    type V = SpannedV;

    open spec fn deep_view(&self) -> SpannedV {
        self@
    }
}

impl PartialEq for Spanned {
    /// Equality is value-only: the span is ignored.
    fn eq(&self, other: &Spanned) -> (r: bool) {
        self.text == other.text
    }
}

impl vstd::std_specs::cmp::PartialEqSpecImpl for Spanned {
    open spec fn obeys_eq_spec() -> bool {
        true
    }

    open spec fn eq_spec(&self, other: &Spanned) -> bool {
        self.text@ == other.text@
    }
}

impl Eq for Spanned {}

/// A top-level item of a script.
#[derive(Debug, PartialEq, Eq)]
pub enum AST {
    /// `expose <unit> as <pragma>`.
    Expose(crate::Pragma, Spanned),
    /// `unit <name> { <command>* }`.
    Unit(Spanned, Vec<crate::Command>),
    /// A sentinel inserted by parse recovery, so several parse errors can be
    /// surfaced in one pass.
    Error,
}

/// Spec-level model of an `AST` item.
pub enum ASTV {
    Expose(crate::Pragma, SpannedV),
    Unit(SpannedV, Seq<crate::CommandV>),
    Error,
}

impl DeepView for AST {
    type V = ASTV;

    open spec fn deep_view(&self) -> ASTV {
        match *self {
            AST::Expose(p, ref n) => ASTV::Expose(p, n.deep_view()),
            AST::Unit(ref n, ref cmds) => ASTV::Unit(n.deep_view(), cmds.deep_view()),
            AST::Error => ASTV::Error,
        }
    }
}


/// The grammar rule the parser was inside when an error was found.
#[derive(Debug, Clone, Copy, PartialEq, Eq, Structural)]
pub enum ParserScope {
    /// The repetition of `expose` and `unit` items.
    TopLevel,
    /// An `expose <unit> as <pragma>` declaration.
    Expose,
    /// A `unit <name> { ... }` definition.
    Unit,
    /// A command call inside a unit body.
    Command,
}

/// A parse error: what was found, where, and which token classes the
/// current rule would have accepted.
#[derive(Debug, PartialEq, Eq)]
pub enum ParserError {
    /// An unexpected token.
    TokenMismatch { scope: ParserScope, span: Span, found: String, expected: Vec<String> },
    /// The stream ended inside a rule.
    OutOfTokens { scope: ParserScope, expected: Vec<String> },
}

/// The display name of each token class, used in diagnostics.
pub open spec fn token_name_spec(t: crate::lexer::Token) -> Seq<char> {
    match t {
        crate::lexer::Token::String(_) => "a string literal"@,
        crate::lexer::Token::Ident(_) => "an identifier"@,
        crate::lexer::Token::RawIdent(_) => "a raw identifier"@,
        crate::lexer::Token::Unit => "`unit`"@,
        crate::lexer::Token::Expose => "`expose`"@,
        crate::lexer::Token::As => "`as`"@,
        crate::lexer::Token::Attr => "`@`"@,
        crate::lexer::Token::Tilde => "`~`"@,
        crate::lexer::Token::DoubleColon => "`::`"@,
        crate::lexer::Token::DoubleArrow => "`=>`"@,
        crate::lexer::Token::Comma => "`,`"@,
        crate::lexer::Token::OpenDelim(_) => "an opening delimiter"@,
        crate::lexer::Token::CloseDelim(_) => "a closing delimiter"@,
        crate::lexer::Token::Unexpected(_) => "an unrecognised character"@,
    }
}

/// The display name of a token, for diagnostics.
pub fn token_name(t: &crate::lexer::Token) -> (r: String)
    ensures
        r@ == token_name_spec(*t),
{
    match t {
        crate::lexer::Token::String(_) => String::from_str("a string literal"),
        crate::lexer::Token::Ident(_) => String::from_str("an identifier"),
        crate::lexer::Token::RawIdent(_) => String::from_str("a raw identifier"),
        crate::lexer::Token::Unit => String::from_str("`unit`"),
        crate::lexer::Token::Expose => String::from_str("`expose`"),
        crate::lexer::Token::As => String::from_str("`as`"),
        crate::lexer::Token::Attr => String::from_str("`@`"),
        crate::lexer::Token::Tilde => String::from_str("`~`"),
        crate::lexer::Token::DoubleColon => String::from_str("`::`"),
        crate::lexer::Token::DoubleArrow => String::from_str("`=>`"),
        crate::lexer::Token::Comma => String::from_str("`,`"),
        crate::lexer::Token::OpenDelim(_) => String::from_str("an opening delimiter"),
        crate::lexer::Token::CloseDelim(_) => String::from_str("a closing delimiter"),
        crate::lexer::Token::Unexpected(_) => String::from_str("an unrecognised character"),
    }
}

// ---------------------------------------------------------------------------
// The grammar, as spec functions over the token stream
// ---------------------------------------------------------------------------

/// The grammar's one-identifier rule: the spanned name and the next
/// position, or nothing if the stream has no identifier here.
pub open spec fn sp_ident(toks: Seq<(Token, Span)>, p: int) -> Option<(SpannedV, int)> {
    if 0 <= p < toks.len() && toks[p].0 is Ident {
        Some((SpannedV { text: toks[p].0->Ident_0@, span: toks[p].1 }, p + 1))
    } else {
        None
    }
}

/// The one-string-literal rule.
pub open spec fn sp_str(toks: Seq<(Token, Span)>, p: int) -> Option<(SpannedV, int)> {
    if 0 <= p < toks.len() && toks[p].0 is String {
        Some((SpannedV { text: toks[p].0->String_0@, span: toks[p].1 }, p + 1))
    } else {
        None
    }
}

pub open spec fn at_open_round(toks: Seq<(Token, Span)>, p: int) -> bool {
    0 <= p < toks.len() && (toks[p].0 matches Token::OpenDelim(f)
        && f == crate::lexer::EncapsulatorType::Round)
}

pub open spec fn at_close_round(toks: Seq<(Token, Span)>, p: int) -> bool {
    0 <= p < toks.len() && (toks[p].0 matches Token::CloseDelim(f)
        && f == crate::lexer::EncapsulatorType::Round)
}

pub open spec fn at_comma(toks: Seq<(Token, Span)>, p: int) -> bool {
    0 <= p < toks.len() && toks[p].0 is Comma
}

/// The tail of `( name, name, ... )` after at least one name is owed:
/// an identifier, then a comma and more names or the closing paren.
pub open spec fn sp_name_list_rest(toks: Seq<(Token, Span)>, p: int) -> Option<
    (Seq<SpannedV>, int),
>
    decreases toks.len() - p,
{
    match sp_ident(toks, p) {
        None => None,
        Some((n, q)) => if at_comma(toks, q) {
            match sp_name_list_rest(toks, q + 1) {
                None => None,
                Some((ns, r)) => Some((seq![n] + ns, r)),
            }
        } else if at_close_round(toks, q) {
            Some((seq![n], q + 1))
        } else {
            None
        },
    }
}

/// `( name, name, ... )`: a possibly empty comma-separated name list.
pub open spec fn sp_name_list(toks: Seq<(Token, Span)>, p: int) -> Option<(Seq<SpannedV>, int)> {
    if at_open_round(toks, p) {
        if at_close_round(toks, p + 1) {
            Some((Seq::empty(), p + 2))
        } else {
            sp_name_list_rest(toks, p + 1)
        }
    } else {
        None
    }
}

/// `( "one" )`: a single string argument.
pub open spec fn sp_one_str(toks: Seq<(Token, Span)>, p: int) -> Option<(SpannedV, int)> {
    if at_open_round(toks, p) {
        match sp_str(toks, p + 1) {
            None => None,
            Some((s, q)) => if at_close_round(toks, q) {
                Some((s, q + 1))
            } else {
                None
            },
        }
    } else {
        None
    }
}

/// `( "one", "two" )`: two string arguments.
pub open spec fn sp_two_str(toks: Seq<(Token, Span)>, p: int) -> Option<
    ((SpannedV, SpannedV), int),
> {
    if at_open_round(toks, p) {
        match sp_str(toks, p + 1) {
            None => None,
            Some((a, q)) => if at_comma(toks, q) {
                match sp_str(toks, q + 1) {
                    None => None,
                    Some((b, r)) => if at_close_round(toks, r) {
                        Some(((a, b), r + 1))
                    } else {
                        None
                    },
                }
            } else {
                None
            },
        }
    } else {
        None
    }
}

/// The tail of `( arg arg ... )`: `exec` arguments are identifiers,
/// string literals or raw identifiers, with no separator.
pub open spec fn sp_exec_args_rest(toks: Seq<(Token, Span)>, p: int) -> Option<
    (Seq<SpannedV>, int),
>
    decreases toks.len() - p,
{
    if p < 0 || p >= toks.len() {
        None
    } else if at_close_round(toks, p) {
        Some((Seq::empty(), p + 1))
    } else if toks[p].0 is Ident || toks[p].0 is String || toks[p].0 is RawIdent {
        let a = SpannedV {
            text: match toks[p].0 {
                Token::Ident(s) => s@,
                Token::String(s) => s@,
                _ => toks[p].0->RawIdent_0@,
            },
            span: toks[p].1,
        };
        match sp_exec_args_rest(toks, p + 1) {
            None => None,
            Some((args, r)) => Some((seq![a] + args, r)),
        }
    } else {
        None
    }
}

pub open spec fn sp_exec_args(toks: Seq<(Token, Span)>, p: int) -> Option<(Seq<SpannedV>, int)> {
    if at_open_round(toks, p) {
        sp_exec_args_rest(toks, p + 1)
    } else {
        None
    }
}

/// The tail of `( @key "value" ... )`: the metadata form.
pub open spec fn sp_meta_args_rest(toks: Seq<(Token, Span)>, p: int) -> Option<
    (Seq<(SpannedV, Seq<char>)>, int),
>
    decreases toks.len() - p,
{
    if p < 0 || p >= toks.len() {
        None
    } else if at_close_round(toks, p) {
        Some((Seq::empty(), p + 1))
    } else if toks[p].0 is Attr {
        match sp_ident(toks, p + 1) {
            None => None,
            Some((key, q)) => match sp_str(toks, q) {
                None => None,
                Some((val, r)) => match sp_meta_args_rest(toks, r) {
                    None => None,
                    Some((items, e)) => Some((seq![(key, val.text)] + items, e)),
                },
            },
        }
    } else {
        None
    }
}

pub open spec fn sp_meta_args(toks: Seq<(Token, Span)>, p: int) -> Option<
    (Seq<(SpannedV, Seq<char>)>, int),
> {
    if at_open_round(toks, p) {
        sp_meta_args_rest(toks, p + 1)
    } else {
        None
    }
}

/// A filesystem operation, by name.
pub open spec fn sp_fs_command(toks: Seq<(Token, Span)>, p: int, op: Seq<char>) -> Option<
    (crate::FsCommandV, int),
> {
    if op == "create"@ {
        match sp_one_str(toks, p) {
            Some((s, q)) => Some((crate::FsCommandV::Create(s), q)),
            None => None,
        }
    } else if op == "create_dir"@ {
        match sp_one_str(toks, p) {
            Some((s, q)) => Some((crate::FsCommandV::CreateDir(s), q)),
            None => None,
        }
    } else if op == "remove"@ {
        match sp_one_str(toks, p) {
            Some((s, q)) => Some((crate::FsCommandV::Remove(s), q)),
            None => None,
        }
    } else if op == "copy"@ {
        match sp_two_str(toks, p) {
            Some(((a, b), q)) => Some((crate::FsCommandV::Copy(a, b), q)),
            None => None,
        }
    } else if op == "move"@ {
        match sp_two_str(toks, p) {
            Some(((a, b), q)) => Some((crate::FsCommandV::Move(a, b), q)),
            None => None,
        }
    } else if op == "print_file"@ {
        match sp_one_str(toks, p) {
            Some((s, q)) => Some((crate::FsCommandV::PrintFile(s), q)),
            None => None,
        }
    } else if op == "eprint_file"@ {
        match sp_one_str(toks, p) {
            Some((s, q)) => Some((crate::FsCommandV::EPrintFile(s), q)),
            None => None,
        }
    } else {
        None
    }
}

/// An output operation, by name.
pub open spec fn sp_io_command(toks: Seq<(Token, Span)>, p: int, op: Seq<char>) -> Option<
    (crate::IoCommandV, int),
> {
    if op == "println"@ {
        match sp_one_str(toks, p) {
            Some((s, q)) => Some((crate::IoCommandV::PrintLn(s), q)),
            None => None,
        }
    } else if op == "print"@ {
        match sp_one_str(toks, p) {
            Some((s, q)) => Some((crate::IoCommandV::Print(s), q)),
            None => None,
        }
    } else if op == "eprintln"@ {
        match sp_one_str(toks, p) {
            Some((s, q)) => Some((crate::IoCommandV::EPrintLn(s), q)),
            None => None,
        }
    } else if op == "eprint"@ {
        match sp_one_str(toks, p) {
            Some((s, q)) => Some((crate::IoCommandV::EPrint(s), q)),
            None => None,
        }
    } else {
        None
    }
}

/// An environment operation, by name.
pub open spec fn sp_env_command(toks: Seq<(Token, Span)>, p: int, op: Seq<char>) -> Option<
    (crate::EnvCommandV, int),
> {
    if op == "set_var"@ {
        match sp_two_str(toks, p) {
            Some(((a, b), q)) => Some((crate::EnvCommandV::SetVar(a, b), q)),
            None => None,
        }
    } else if op == "remove_var"@ {
        match sp_one_str(toks, p) {
            Some((s, q)) => Some((crate::EnvCommandV::RemoveVar(s), q)),
            None => None,
        }
    } else if op == "path_push"@ {
        match sp_one_str(toks, p) {
            Some((s, q)) => Some((crate::EnvCommandV::PathPush(s), q)),
            None => None,
        }
    } else if op == "path_remove"@ {
        match sp_one_str(toks, p) {
            Some((s, q)) => Some((crate::EnvCommandV::PathRemove(s), q)),
            None => None,
        }
    } else {
        None
    }
}

pub open spec fn is_fs_op(op: Seq<char>) -> bool {
    op == "create"@ || op == "create_dir"@ || op == "remove"@ || op == "copy"@ || op == "move"@
        || op == "print_file"@ || op == "eprint_file"@
}

pub open spec fn is_io_op(op: Seq<char>) -> bool {
    op == "println"@ || op == "print"@ || op == "eprintln"@ || op == "eprint"@
}

pub open spec fn is_env_op(op: Seq<char>) -> bool {
    op == "set_var"@ || op == "remove_var"@ || op == "path_push"@ || op == "path_remove"@
}

/// One command call of the grammar: what it accepts at `p`, the command
/// it denotes, and where it leaves the stream.  The module prefix
/// (`FS::`, `IO::`, `ENV::`) is case-insensitive and optional.
pub open spec fn sp_command(toks: Seq<(Token, Span)>, p: int) -> Option<(crate::CommandV, int)> {
    if p < 0 || p >= toks.len() {
        None
    } else if toks[p].0 is Tilde {
        match sp_exec_args(toks, p + 1) {
            Some((args, q)) => Some((crate::CommandV::Exec(args), q)),
            None => None,
        }
    } else if toks[p].0 is Attr {
        match sp_meta_args(toks, p + 1) {
            Some((items, q)) => Some((crate::CommandV::Meta(items), q)),
            None => None,
        }
    } else if toks[p].0 is Ident {
        let w = toks[p].0->Ident_0@;
        let prefixed = p + 1 < toks.len() && toks[p + 1].0 is DoubleColon;
        if prefixed && is_fs_word(w) {
            match sp_ident(toks, p + 2) {
                None => None,
                Some((inner, q)) => match sp_fs_command(toks, q, inner.text) {
                    Some((f, r)) => Some((crate::CommandV::Fs(f), r)),
                    None => None,
                },
            }
        } else if prefixed && is_io_word(w) {
            match sp_ident(toks, p + 2) {
                None => None,
                Some((inner, q)) => match sp_io_command(toks, q, inner.text) {
                    Some((f, r)) => Some((crate::CommandV::Io(f), r)),
                    None => None,
                },
            }
        } else if prefixed && is_env_word(w) {
            match sp_ident(toks, p + 2) {
                None => None,
                Some((inner, q)) => match sp_env_command(toks, q, inner.text) {
                    Some((f, r)) => Some((crate::CommandV::Env(f), r)),
                    None => None,
                },
            }
        } else if w == "depends_on"@ {
            match sp_name_list(toks, p + 1) {
                Some((ns, q)) => Some((crate::CommandV::DependsOn(ns), q)),
                None => None,
            }
        } else if w == "do"@ {
            match sp_name_list(toks, p + 1) {
                Some((ns, q)) => Some((crate::CommandV::Do(ns), q)),
                None => None,
            }
        } else if w == "meta"@ {
            match sp_meta_args(toks, p + 1) {
                Some((items, q)) => Some((crate::CommandV::Meta(items), q)),
                None => None,
            }
        } else if w == "exec"@ {
            match sp_exec_args(toks, p + 1) {
                Some((args, q)) => Some((crate::CommandV::Exec(args), q)),
                None => None,
            }
        } else if is_fs_op(w) {
            match sp_fs_command(toks, p + 1, w) {
                Some((f, r)) => Some((crate::CommandV::Fs(f), r)),
                None => None,
            }
        } else if is_io_op(w) {
            match sp_io_command(toks, p + 1, w) {
                Some((f, r)) => Some((crate::CommandV::Io(f), r)),
                None => None,
            }
        } else if is_env_op(w) {
            match sp_env_command(toks, p + 1, w) {
                Some((f, r)) => Some((crate::CommandV::Env(f), r)),
                None => None,
            }
        } else {
            None
        }
    } else {
        None
    }
}

/// `expose <unit> as (test | build)`, entered at the `expose` keyword.
pub open spec fn sp_expose(toks: Seq<(Token, Span)>, p: int) -> Option<(ASTV, int)> {
    match sp_ident(toks, p + 1) {
        None => None,
        Some((name, q)) => if 0 <= q < toks.len() && toks[q].0 is As {
            match sp_ident(toks, q + 1) {
                None => None,
                Some((prag, r)) => if prag.text == "test"@ {
                    Some((ASTV::Expose(crate::Pragma::Test, name), r))
                } else if prag.text == "build"@ {
                    Some((ASTV::Expose(crate::Pragma::Build, name), r))
                } else {
                    None
                },
            }
        } else {
            None
        },
    }
}

/// The body of a unit: commands until the closing `}`.
pub open spec fn sp_cmds_rest(toks: Seq<(Token, Span)>, p: int) -> Option<
    (Seq<crate::CommandV>, int),
>
    decreases toks.len() - p,
{
    if p < 0 || p >= toks.len() {
        None
    } else if toks[p].0 matches Token::CloseDelim(f) && f == crate::lexer::EncapsulatorType::Curly {
        Some((Seq::empty(), p + 1))
    } else {
        match sp_command(toks, p) {
            None => None,
            Some((c, q)) => if q <= p || q > toks.len() {
                None
            } else {
                match sp_cmds_rest(toks, q) {
                    None => None,
                    Some((cs, r)) => Some((seq![c] + cs, r)),
                }
            },
        }
    }
}

/// `unit <name> { <command>* }`, entered at the `unit` keyword.
pub open spec fn sp_unit(toks: Seq<(Token, Span)>, p: int) -> Option<(ASTV, int)> {
    match sp_ident(toks, p + 1) {
        None => None,
        Some((name, q)) => if 0 <= q < toks.len() && (toks[q].0 matches Token::OpenDelim(f) && f
            == crate::lexer::EncapsulatorType::Curly) {
            match sp_cmds_rest(toks, q + 1) {
                None => None,
                Some((cs, r)) => Some((ASTV::Unit(name, cs), r)),
            }
        } else {
            None
        },
    }
}

/// No token of the range can begin a top-level item.
pub open spec fn no_item_start(toks: Seq<(Token, Span)>, a: int, b: int) -> bool {
    forall|t: int| a <= t < b ==> !((#[trigger] toks[t].0) is Expose) && !(toks[t].0 is Unit)
}

/// The error-free reading of the whole stream from `p`: the top-level
/// items in order, each an `expose` or `unit` derivation.  `None` when
/// any step fails; the executable parser then recovers and reports.
pub open spec fn sp_top(toks: Seq<(Token, Span)>, p: int) -> Option<Seq<ASTV>>
    decreases toks.len() - p,
{
    if p < 0 || p > toks.len() {
        None
    } else if p == toks.len() {
        Some(Seq::empty())
    } else if toks[p].0 is Expose {
        match sp_expose(toks, p) {
            None => None,
            Some((a, q)) => if q <= p || q > toks.len() {
                None
            } else {
                match sp_top(toks, q) {
                    None => None,
                    Some(items) => Some(seq![a] + items),
                }
            },
        }
    } else if toks[p].0 is Unit {
        match sp_unit(toks, p) {
            None => None,
            Some((a, q)) => if q <= p || q > toks.len() {
                None
            } else {
                match sp_top(toks, q) {
                    None => None,
                    Some(items) => Some(seq![a] + items),
                }
            },
        }
    } else {
        None
    }
}

/// Does the word spell `fs`, in any letter case?
pub open spec fn is_fs_word(t: Seq<char>) -> bool {
    t.len() == 2 && (t[0] == 'f' || t[0] == 'F') && (t[1] == 's' || t[1] == 'S')
}

/// Does the word spell `io`, in any letter case?
pub open spec fn is_io_word(t: Seq<char>) -> bool {
    t.len() == 2 && (t[0] == 'i' || t[0] == 'I') && (t[1] == 'o' || t[1] == 'O')
}

/// Does the word spell `env`, in any letter case?
pub open spec fn is_env_word(t: Seq<char>) -> bool {
    t.len() == 3 && (t[0] == 'e' || t[0] == 'E') && (t[1] == 'n' || t[1] == 'N') && (t[2] == 'v'
        || t[2] == 'V')
}

fn eq_fs(s: &String) -> (r: bool)
    ensures
        r == is_fs_word(s@),
{
    let cs = crate::lexer::str_chars(s.as_str());
    cs.len() == 2 && (cs[0] == 'f' || cs[0] == 'F') && (cs[1] == 's' || cs[1] == 'S')
}

fn eq_io(s: &String) -> (r: bool)
    ensures
        r == is_io_word(s@),
{
    let cs = crate::lexer::str_chars(s.as_str());
    cs.len() == 2 && (cs[0] == 'i' || cs[0] == 'I') && (cs[1] == 'o' || cs[1] == 'O')
}

fn eq_env(s: &String) -> (r: bool)
    ensures
        r == is_env_word(s@),
{
    let cs = crate::lexer::str_chars(s.as_str());
    cs.len() == 3 && (cs[0] == 'e' || cs[0] == 'E') && (cs[1] == 'n' || cs[1] == 'N') && (cs[2]
        == 'v' || cs[2] == 'V')
}

/// Is the string equal to the literal?
fn text_is(s: &String, lit: &str) -> (r: bool)
    ensures
        r == (s@ == lit@),
{
    *s == String::from_str(lit)
}

fn one_expected(name: &str) -> (r: Vec<String>)
    ensures
        r@.len() == 1,
{
    let mut v: Vec<String> = Vec::new();
    v.push(String::from_str(name));
    v
}

fn two_expected(a: &str, b: &str) -> (r: Vec<String>)
    ensures
        r@.len() == 2,
{
    let mut v: Vec<String> = Vec::new();
    v.push(String::from_str(a));
    v.push(String::from_str(b));
    v
}

/// Take one identifier token, or report what stood in its way.
fn expect_ident(toks: &Vec<(Token, Span)>, p: &mut usize, scope: ParserScope) -> (r: Result<
    Spanned,
    ParserError,
>)
    requires
        *old(p) <= toks@.len(),
    ensures
        *old(p) <= *final(p) <= toks@.len(),
        match sp_ident(toks@, *old(p) as int) {
            Some(nq) => r is Ok && r->Ok_0@ == nq.0 && *final(p) == nq.1,
            None => r is Err && *final(p) == *old(p),
        },
        no_item_start(toks@, *old(p) as int, *final(p) as int),
{
    if *p >= toks.len() {
        return Err(ParserError::OutOfTokens { scope, expected: one_expected("an identifier") });
    }
    match &toks[*p].0 {
        Token::Ident(s) => {
            let sp = toks[*p].1;
            *p += 1;
            Ok(Spanned::with_span(s.clone(), sp))
        },
        t => Err(
            ParserError::TokenMismatch {
                scope,
                span: toks[*p].1,
                found: token_name(t),
                expected: one_expected("an identifier"),
            },
        ),
    }
}

/// Take one string-literal token, or report what stood in its way.
fn expect_str(toks: &Vec<(Token, Span)>, p: &mut usize, scope: ParserScope) -> (r: Result<
    Spanned,
    ParserError,
>)
    requires
        *old(p) <= toks@.len(),
    ensures
        *old(p) <= *final(p) <= toks@.len(),
        match sp_str(toks@, *old(p) as int) {
            Some(sq) => r is Ok && r->Ok_0@ == sq.0 && *final(p) == sq.1,
            None => r is Err && *final(p) == *old(p),
        },
        no_item_start(toks@, *old(p) as int, *final(p) as int),
{
    if *p >= toks.len() {
        return Err(
            ParserError::OutOfTokens { scope, expected: one_expected("a string literal") },
        );
    }
    match &toks[*p].0 {
        Token::String(s) => {
            let sp = toks[*p].1;
            *p += 1;
            Ok(Spanned::with_span(s.clone(), sp))
        },
        t => Err(
            ParserError::TokenMismatch {
                scope,
                span: toks[*p].1,
                found: token_name(t),
                expected: one_expected("a string literal"),
            },
        ),
    }
}

/// Take one exact punctuation or keyword token.
fn expect_tok(
    toks: &Vec<(Token, Span)>,
    p: &mut usize,
    scope: ParserScope,
    want: Token,
    name: &str,
) -> (r: Result<(), ParserError>)
    requires
        *old(p) <= toks@.len(),
        want is As || want is Comma || want is OpenDelim || want is CloseDelim,
    ensures
        *old(p) <= *final(p) <= toks@.len(),
        r is Ok <==> (*old(p) < toks@.len() && toks@[*old(p) as int].0 == want),
        r is Ok ==> *final(p) == *old(p) + 1,
        r is Err ==> *final(p) == *old(p),
        no_item_start(toks@, *old(p) as int, *final(p) as int),
{
    if *p >= toks.len() {
        return Err(ParserError::OutOfTokens { scope, expected: one_expected(name) });
    }
    let ok = match (&toks[*p].0, &want) {
        (Token::As, Token::As) => true,
        (Token::Comma, Token::Comma) => true,
        (Token::OpenDelim(a), Token::OpenDelim(b)) => a == b,
        (Token::CloseDelim(a), Token::CloseDelim(b)) => a == b,
        _ => false,
    };
    if ok {
        *p += 1;
        Ok(())
    } else {
        Err(
            ParserError::TokenMismatch {
                scope,
                span: toks[*p].1,
                found: token_name(&toks[*p].0),
                expected: one_expected(name),
            },
        )
    }
}

/// Parse `( name, name, ... )`: a comma-separated identifier list.
#[verifier::loop_isolation(false)]
fn name_list(toks: &Vec<(Token, Span)>, p: &mut usize) -> (r: Result<Vec<Spanned>, ParserError>)
    requires
        *old(p) <= toks@.len(),
    ensures
        *old(p) <= *final(p) <= toks@.len(),
        match sp_name_list(toks@, *old(p) as int) {
            Some(nsq) => r is Ok && r->Ok_0.deep_view() == nsq.0 && *final(p) == nsq.1,
            None => r is Err,
        },
        no_item_start(toks@, *old(p) as int, *final(p) as int),
{
    expect_tok(
        toks,
        p,
        ParserScope::Command,
        Token::OpenDelim(crate::lexer::EncapsulatorType::Round),
        "`(`",
    )?;
    let mut names: Vec<Spanned> = Vec::new();
    if *p < toks.len() {
        if let Token::CloseDelim(crate::lexer::EncapsulatorType::Round) = &toks[*p].0 {
            *p += 1;
            proof {
                assert(names.deep_view() =~= Seq::<SpannedV>::empty());
            }
            return Ok(names);
        }
    }
    proof {
        if sp_name_list_rest(toks@, *p as int) is Some {
            let nsq = sp_name_list_rest(toks@, *p as int)->Some_0;
            assert(names.deep_view() + nsq.0 =~= nsq.0);
        }
    }
    loop
        invariant
            *old(p) <= *p <= toks@.len(),
            no_item_start(toks@, *old(p) as int, *p as int),
            match sp_name_list_rest(toks@, *p as int) {
                Some(nsq) => sp_name_list(toks@, *old(p) as int) == Some(
                    (names.deep_view() + nsq.0, nsq.1),
                ),
                None => sp_name_list(toks@, *old(p) as int) is None,
            },
        decreases toks@.len() - *p,
    {
        let ghost acc0 = names.deep_view();
        let n = expect_ident(toks, p, ParserScope::Command)?;
        names.push(n);
        if *p >= toks.len() {
            return Err(
                ParserError::OutOfTokens {
                    scope: ParserScope::Command,
                    expected: two_expected("`,`", "`)`"),
                },
            );
        }
        match &toks[*p].0 {
            Token::Comma => {
                *p += 1;
                proof {
                    if sp_name_list_rest(toks@, *p as int) is Some {
                        let nsq = sp_name_list_rest(toks@, *p as int)->Some_0;
                        assert(acc0 + (seq![n@] + nsq.0) =~= names.deep_view() + nsq.0);
                    }
                }
            },
            Token::CloseDelim(crate::lexer::EncapsulatorType::Round) => {
                *p += 1;
                proof {
                    assert(acc0 + seq![n@] =~= names.deep_view());
                }
                return Ok(names);
            },
            t => {
                return Err(
                    ParserError::TokenMismatch {
                        scope: ParserScope::Command,
                        span: toks[*p].1,
                        found: token_name(t),
                        expected: two_expected("`,`", "`)`"),
                    },
                );
            },
        }
    }
}

/// Parse `( "one" )`: a single string argument.
fn one_str_args(toks: &Vec<(Token, Span)>, p: &mut usize) -> (r: Result<Spanned, ParserError>)
    requires
        *old(p) <= toks@.len(),
    ensures
        *old(p) <= *final(p) <= toks@.len(),
        match sp_one_str(toks@, *old(p) as int) {
            Some(sq) => r is Ok && r->Ok_0@ == sq.0 && *final(p) == sq.1,
            None => r is Err,
        },
        no_item_start(toks@, *old(p) as int, *final(p) as int),
{
    expect_tok(
        toks,
        p,
        ParserScope::Command,
        Token::OpenDelim(crate::lexer::EncapsulatorType::Round),
        "`(`",
    )?;
    let s = expect_str(toks, p, ParserScope::Command)?;
    expect_tok(
        toks,
        p,
        ParserScope::Command,
        Token::CloseDelim(crate::lexer::EncapsulatorType::Round),
        "`)`",
    )?;
    Ok(s)
}

/// Parse `( "one", "two" )`: two string arguments.
fn two_str_args(toks: &Vec<(Token, Span)>, p: &mut usize) -> (r: Result<
    (Spanned, Spanned),
    ParserError,
>)
    requires
        *old(p) <= toks@.len(),
    ensures
        *old(p) <= *final(p) <= toks@.len(),
        match sp_two_str(toks@, *old(p) as int) {
            Some(abq) => r is Ok && (r->Ok_0.0@, r->Ok_0.1@) == abq.0 && *final(p) == abq.1,
            None => r is Err,
        },
        no_item_start(toks@, *old(p) as int, *final(p) as int),
{
    expect_tok(
        toks,
        p,
        ParserScope::Command,
        Token::OpenDelim(crate::lexer::EncapsulatorType::Round),
        "`(`",
    )?;
    let a = expect_str(toks, p, ParserScope::Command)?;
    expect_tok(toks, p, ParserScope::Command, Token::Comma, "`,`")?;
    let b = expect_str(toks, p, ParserScope::Command)?;
    expect_tok(
        toks,
        p,
        ParserScope::Command,
        Token::CloseDelim(crate::lexer::EncapsulatorType::Round),
        "`)`",
    )?;
    Ok((a, b))
}

/// Parse `( arg arg ... )` where each argument is an identifier, a string
/// literal or a raw identifier, as `exec` accepts them.
#[verifier::loop_isolation(false)]
fn exec_args(toks: &Vec<(Token, Span)>, p: &mut usize) -> (r: Result<Vec<Spanned>, ParserError>)
    requires
        *old(p) <= toks@.len(),
    ensures
        *old(p) <= *final(p) <= toks@.len(),
        match sp_exec_args(toks@, *old(p) as int) {
            Some(aq) => r is Ok && r->Ok_0.deep_view() == aq.0 && *final(p) == aq.1,
            None => r is Err,
        },
        no_item_start(toks@, *old(p) as int, *final(p) as int),
{
    expect_tok(
        toks,
        p,
        ParserScope::Command,
        Token::OpenDelim(crate::lexer::EncapsulatorType::Round),
        "`(`",
    )?;
    let mut args: Vec<Spanned> = Vec::new();
    proof {
        if sp_exec_args_rest(toks@, *p as int) is Some {
            let aq = sp_exec_args_rest(toks@, *p as int)->Some_0;
            assert(args.deep_view() + aq.0 =~= aq.0);
        }
    }
    loop
        invariant
            *old(p) <= *p <= toks@.len(),
            no_item_start(toks@, *old(p) as int, *p as int),
            match sp_exec_args_rest(toks@, *p as int) {
                Some(aq) => sp_exec_args(toks@, *old(p) as int) == Some(
                    (args.deep_view() + aq.0, aq.1),
                ),
                None => sp_exec_args(toks@, *old(p) as int) is None,
            },
        decreases toks@.len() - *p,
    {
        let ghost acc0 = args.deep_view();
        if *p >= toks.len() {
            return Err(
                ParserError::OutOfTokens {
                    scope: ParserScope::Command,
                    expected: two_expected("an argument", "`)`"),
                },
            );
        }
        match &toks[*p].0 {
            Token::CloseDelim(crate::lexer::EncapsulatorType::Round) => {
                *p += 1;
                proof {
                    assert(args.deep_view() + Seq::<SpannedV>::empty() =~= args.deep_view());
                }
                return Ok(args);
            },
            Token::Ident(s) => {
                args.push(Spanned::with_span(s.clone(), toks[*p].1));
                *p += 1;
                proof {
                    if sp_exec_args_rest(toks@, *p as int) is Some {
                        let aq = sp_exec_args_rest(toks@, *p as int)->Some_0;
                        assert(acc0 + (seq![args.deep_view().last()] + aq.0) =~= args.deep_view()
                            + aq.0);
                    }
                }
            },
            Token::String(s) => {
                args.push(Spanned::with_span(s.clone(), toks[*p].1));
                *p += 1;
                proof {
                    if sp_exec_args_rest(toks@, *p as int) is Some {
                        let aq = sp_exec_args_rest(toks@, *p as int)->Some_0;
                        assert(acc0 + (seq![args.deep_view().last()] + aq.0) =~= args.deep_view()
                            + aq.0);
                    }
                }
            },
            Token::RawIdent(s) => {
                args.push(Spanned::with_span(s.clone(), toks[*p].1));
                *p += 1;
                proof {
                    if sp_exec_args_rest(toks@, *p as int) is Some {
                        let aq = sp_exec_args_rest(toks@, *p as int)->Some_0;
                        assert(acc0 + (seq![args.deep_view().last()] + aq.0) =~= args.deep_view()
                            + aq.0);
                    }
                }
            },
            t => {
                return Err(
                    ParserError::TokenMismatch {
                        scope: ParserScope::Command,
                        span: toks[*p].1,
                        found: token_name(t),
                        expected: two_expected("an argument", "`)`"),
                    },
                );
            },
        }
    }
}

/// Parse `( @key "value" @key "value" ... )`: the metadata form.
#[verifier::loop_isolation(false)]
fn meta_args(toks: &Vec<(Token, Span)>, p: &mut usize) -> (r: Result<
    Vec<(Spanned, String)>,
    ParserError,
>)
    requires
        *old(p) <= toks@.len(),
    ensures
        *old(p) <= *final(p) <= toks@.len(),
        match sp_meta_args(toks@, *old(p) as int) {
            Some(iq) => r is Ok && r->Ok_0.deep_view() == iq.0 && *final(p) == iq.1,
            None => r is Err,
        },
        no_item_start(toks@, *old(p) as int, *final(p) as int),
{
    expect_tok(
        toks,
        p,
        ParserScope::Command,
        Token::OpenDelim(crate::lexer::EncapsulatorType::Round),
        "`(`",
    )?;
    let mut items: Vec<(Spanned, String)> = Vec::new();
    proof {
        if sp_meta_args_rest(toks@, *p as int) is Some {
            let iq = sp_meta_args_rest(toks@, *p as int)->Some_0;
            assert(items.deep_view() + iq.0 =~= iq.0);
        }
    }
    loop
        invariant
            *old(p) <= *p <= toks@.len(),
            no_item_start(toks@, *old(p) as int, *p as int),
            match sp_meta_args_rest(toks@, *p as int) {
                Some(iq) => sp_meta_args(toks@, *old(p) as int) == Some(
                    (items.deep_view() + iq.0, iq.1),
                ),
                None => sp_meta_args(toks@, *old(p) as int) is None,
            },
        decreases toks@.len() - *p,
    {
        let ghost acc0 = items.deep_view();
        if *p >= toks.len() {
            return Err(
                ParserError::OutOfTokens {
                    scope: ParserScope::Command,
                    expected: two_expected("`@`", "`)`"),
                },
            );
        }
        match &toks[*p].0 {
            Token::CloseDelim(crate::lexer::EncapsulatorType::Round) => {
                *p += 1;
                proof {
                    assert(items.deep_view() + Seq::<(SpannedV, Seq<char>)>::empty()
                        =~= items.deep_view());
                }
                return Ok(items);
            },
            Token::Attr => {
                *p += 1;
                let key = expect_ident(toks, p, ParserScope::Command)?;
                let val = expect_str(toks, p, ParserScope::Command)?;
                items.push((key, val.text));
                proof {
                    if sp_meta_args_rest(toks@, *p as int) is Some {
                        let iq = sp_meta_args_rest(toks@, *p as int)->Some_0;
                        assert(acc0 + (seq![items.deep_view().last()] + iq.0) =~= items.deep_view()
                            + iq.0);
                    }
                }
            },
            t => {
                return Err(
                    ParserError::TokenMismatch {
                        scope: ParserScope::Command,
                        span: toks[*p].1,
                        found: token_name(t),
                        expected: two_expected("`@`", "`)`"),
                    },
                );
            },
        }
    }
}

/// Parse a filesystem operation by name.
fn fs_command(toks: &Vec<(Token, Span)>, p: &mut usize, op: &Spanned) -> (r: Result<
    crate::FsCommand,
    ParserError,
>)
    requires
        *old(p) <= toks@.len(),
    ensures
        *old(p) <= *final(p) <= toks@.len(),
        match sp_fs_command(toks@, *old(p) as int, op.text@) {
            Some(fq) => r is Ok && r->Ok_0.deep_view() == fq.0 && *final(p) == fq.1,
            None => r is Err,
        },
        no_item_start(toks@, *old(p) as int, *final(p) as int),
{
    if text_is(&op.text, "create") {
        Ok(crate::FsCommand::Create(one_str_args(toks, p)?))
    } else if text_is(&op.text, "create_dir") {
        Ok(crate::FsCommand::CreateDir(one_str_args(toks, p)?))
    } else if text_is(&op.text, "remove") {
        Ok(crate::FsCommand::Remove(one_str_args(toks, p)?))
    } else if text_is(&op.text, "copy") {
        let (a, b) = two_str_args(toks, p)?;
        Ok(crate::FsCommand::Copy(a, b))
    } else if text_is(&op.text, "move") {
        let (a, b) = two_str_args(toks, p)?;
        Ok(crate::FsCommand::Move(a, b))
    } else if text_is(&op.text, "print_file") {
        Ok(crate::FsCommand::PrintFile(one_str_args(toks, p)?))
    } else if text_is(&op.text, "eprint_file") {
        Ok(crate::FsCommand::EPrintFile(one_str_args(toks, p)?))
    } else {
        Err(
            ParserError::TokenMismatch {
                scope: ParserScope::Command,
                span: op.span,
                found: op.text.clone(),
                expected: one_expected("a filesystem operation"),
            },
        )
    }
}

/// Parse an output operation by name.
fn io_command(toks: &Vec<(Token, Span)>, p: &mut usize, op: &Spanned) -> (r: Result<
    crate::IoCommand,
    ParserError,
>)
    requires
        *old(p) <= toks@.len(),
    ensures
        *old(p) <= *final(p) <= toks@.len(),
        match sp_io_command(toks@, *old(p) as int, op.text@) {
            Some(fq) => r is Ok && r->Ok_0.deep_view() == fq.0 && *final(p) == fq.1,
            None => r is Err,
        },
        no_item_start(toks@, *old(p) as int, *final(p) as int),
{
    if text_is(&op.text, "println") {
        Ok(crate::IoCommand::PrintLn(one_str_args(toks, p)?))
    } else if text_is(&op.text, "print") {
        Ok(crate::IoCommand::Print(one_str_args(toks, p)?))
    } else if text_is(&op.text, "eprintln") {
        Ok(crate::IoCommand::EPrintLn(one_str_args(toks, p)?))
    } else if text_is(&op.text, "eprint") {
        Ok(crate::IoCommand::EPrint(one_str_args(toks, p)?))
    } else {
        Err(
            ParserError::TokenMismatch {
                scope: ParserScope::Command,
                span: op.span,
                found: op.text.clone(),
                expected: one_expected("an output operation"),
            },
        )
    }
}

/// Parse an environment operation by name.
fn env_command(toks: &Vec<(Token, Span)>, p: &mut usize, op: &Spanned) -> (r: Result<
    crate::EnvCommand,
    ParserError,
>)
    requires
        *old(p) <= toks@.len(),
    ensures
        *old(p) <= *final(p) <= toks@.len(),
        match sp_env_command(toks@, *old(p) as int, op.text@) {
            Some(fq) => r is Ok && r->Ok_0.deep_view() == fq.0 && *final(p) == fq.1,
            None => r is Err,
        },
        no_item_start(toks@, *old(p) as int, *final(p) as int),
{
    if text_is(&op.text, "set_var") {
        let (a, b) = two_str_args(toks, p)?;
        Ok(crate::EnvCommand::SetVar(a, b))
    } else if text_is(&op.text, "remove_var") {
        Ok(crate::EnvCommand::RemoveVar(one_str_args(toks, p)?))
    } else if text_is(&op.text, "path_push") {
        Ok(crate::EnvCommand::PathPush(one_str_args(toks, p)?))
    } else if text_is(&op.text, "path_remove") {
        Ok(crate::EnvCommand::PathRemove(one_str_args(toks, p)?))
    } else {
        Err(
            ParserError::TokenMismatch {
                scope: ParserScope::Command,
                span: op.span,
                found: op.text.clone(),
                expected: one_expected("an environment operation"),
            },
        )
    }
}

/// Parse one command call.  The module prefix (`FS::`, `IO::`, `ENV::`)
/// is case-insensitive and optional: a bare operation resolves by name.
pub fn command(toks: &Vec<(Token, Span)>, p: &mut usize) -> (r: Result<crate::Command, ParserError>)
    requires
        *old(p) < toks@.len(),
    ensures
        *old(p) <= *final(p) <= toks@.len(),
        r is Ok ==> *old(p) < *final(p),
        match sp_command(toks@, *old(p) as int) {
            Some(cq) => r is Ok && r->Ok_0.deep_view() == cq.0 && *final(p) == cq.1,
            None => r is Err,
        },
        no_item_start(toks@, *old(p) as int, *final(p) as int),
{
    proof {
        vstd::std_specs::vec::axiom_spec_len(toks);
    }
    match &toks[*p].0 {
        Token::Tilde => {
            *p += 1;
            Ok(crate::Command::Exec(exec_args(toks, p)?))
        },
        Token::Attr => {
            *p += 1;
            Ok(crate::Command::Meta(meta_args(toks, p)?))
        },
        Token::Ident(s) => {
            let op = Spanned::with_span(s.clone(), toks[*p].1);
            let prefixed = *p + 1 < toks.len() && matches!(&toks[*p + 1].0, Token::DoubleColon);
            if prefixed && eq_fs(&op.text) {
                *p += 2;
                let inner = expect_ident(toks, p, ParserScope::Command)?;
                Ok(crate::Command::Fs(fs_command(toks, p, &inner)?))
            } else if prefixed && eq_io(&op.text) {
                *p += 2;
                let inner = expect_ident(toks, p, ParserScope::Command)?;
                Ok(crate::Command::Io(io_command(toks, p, &inner)?))
            } else if prefixed && eq_env(&op.text) {
                *p += 2;
                let inner = expect_ident(toks, p, ParserScope::Command)?;
                Ok(crate::Command::Env(env_command(toks, p, &inner)?))
            } else if text_is(&op.text, "depends_on") {
                *p += 1;
                Ok(crate::Command::DependsOn(name_list(toks, p)?))
            } else if text_is(&op.text, "do") {
                *p += 1;
                Ok(crate::Command::Do(name_list(toks, p)?))
            } else if text_is(&op.text, "meta") {
                *p += 1;
                Ok(crate::Command::Meta(meta_args(toks, p)?))
            } else if text_is(&op.text, "exec") {
                *p += 1;
                Ok(crate::Command::Exec(exec_args(toks, p)?))
            } else if text_is(&op.text, "create") || text_is(&op.text, "create_dir") || text_is(
                &op.text,
                "remove",
            ) || text_is(&op.text, "copy") || text_is(&op.text, "move") || text_is(
                &op.text,
                "print_file",
            ) || text_is(&op.text, "eprint_file") {
                *p += 1;
                Ok(crate::Command::Fs(fs_command(toks, p, &op)?))
            } else if text_is(&op.text, "println") || text_is(&op.text, "print") || text_is(
                &op.text,
                "eprintln",
            ) || text_is(&op.text, "eprint") {
                *p += 1;
                Ok(crate::Command::Io(io_command(toks, p, &op)?))
            } else if text_is(&op.text, "set_var") || text_is(&op.text, "remove_var") || text_is(
                &op.text,
                "path_push",
            ) || text_is(&op.text, "path_remove") {
                *p += 1;
                Ok(crate::Command::Env(env_command(toks, p, &op)?))
            } else {
                Err(
                    ParserError::TokenMismatch {
                        scope: ParserScope::Command,
                        span: toks[*p].1,
                        found: op.text.clone(),
                        expected: one_expected("a command name"),
                    },
                )
            }
        },
        t => Err(
            ParserError::TokenMismatch {
                scope: ParserScope::Command,
                span: toks[*p].1,
                found: token_name(t),
                expected: one_expected("a command call"),
            },
        ),
    }
}

/// Parse `expose <unit> as (test | build)`.
pub fn expose(toks: &Vec<(Token, Span)>, p: &mut usize) -> (r: Result<AST, ParserError>)
    requires
        *old(p) < toks@.len(),
        toks@[*old(p) as int].0 is Expose,
    ensures
        *old(p) < *final(p) <= toks@.len(),
        match sp_expose(toks@, *old(p) as int) {
            Some(aq) => r is Ok && r->Ok_0.deep_view() == aq.0 && *final(p) == aq.1,
            None => r is Err,
        },
        no_item_start(toks@, *old(p) + 1, *final(p) as int),
{
    proof {
        vstd::std_specs::vec::axiom_spec_len(toks);
    }
    *p += 1;
    let name = expect_ident(toks, p, ParserScope::Expose)?;
    expect_tok(toks, p, ParserScope::Expose, Token::As, "`as`")?;
    let prag = expect_ident(toks, p, ParserScope::Expose)?;
    if text_is(&prag.text, "test") {
        Ok(AST::Expose(crate::Pragma::Test, name))
    } else if text_is(&prag.text, "build") {
        Ok(AST::Expose(crate::Pragma::Build, name))
    } else {
        Err(
            ParserError::TokenMismatch {
                scope: ParserScope::Expose,
                span: prag.span,
                found: prag.text,
                expected: two_expected("test", "build"),
            },
        )
    }
}

/// Parse `unit <name> { <command>* }`.
#[verifier::loop_isolation(false)]
pub fn unit(toks: &Vec<(Token, Span)>, p: &mut usize) -> (r: Result<AST, ParserError>)
    requires
        *old(p) < toks@.len(),
        toks@[*old(p) as int].0 is Unit,
    ensures
        *old(p) < *final(p) <= toks@.len(),
        match sp_unit(toks@, *old(p) as int) {
            Some(aq) => r is Ok && r->Ok_0.deep_view() == aq.0 && *final(p) == aq.1,
            None => r is Err,
        },
        no_item_start(toks@, *old(p) + 1, *final(p) as int),
{
    proof {
        vstd::std_specs::vec::axiom_spec_len(toks);
    }
    *p += 1;
    let name = expect_ident(toks, p, ParserScope::Unit)?;
    expect_tok(
        toks,
        p,
        ParserScope::Unit,
        Token::OpenDelim(crate::lexer::EncapsulatorType::Curly),
        "`{`",
    )?;
    let mut cmds: Vec<crate::Command> = Vec::new();
    proof {
        if sp_cmds_rest(toks@, *p as int) is Some {
            let cq = sp_cmds_rest(toks@, *p as int)->Some_0;
            assert(cmds.deep_view() + cq.0 =~= cq.0);
        }
    }
    loop
        invariant
            *old(p) < *p <= toks@.len(),
            no_item_start(toks@, *old(p) + 1, *p as int),
            name@ == sp_ident(toks@, *old(p) + 1)->Some_0.0,
            sp_ident(toks@, *old(p) + 1) is Some,
            toks@[*old(p) + 2].0 matches Token::OpenDelim(f) && f
                == crate::lexer::EncapsulatorType::Curly,
            *old(p) + 2 < toks@.len(),
            match sp_cmds_rest(toks@, *p as int) {
                Some(cq) => sp_unit(toks@, *old(p) as int) == Some(
                    (ASTV::Unit(name@, cmds.deep_view() + cq.0), cq.1),
                ),
                None => sp_unit(toks@, *old(p) as int) is None,
            },
        decreases toks@.len() - *p,
    {
        let ghost acc0 = cmds.deep_view();
        if *p >= toks.len() {
            return Err(
                ParserError::OutOfTokens {
                    scope: ParserScope::Unit,
                    expected: two_expected("a command call", "`}`"),
                },
            );
        }
        if let Token::CloseDelim(crate::lexer::EncapsulatorType::Curly) = &toks[*p].0 {
            *p += 1;
            proof {
                assert(cmds.deep_view() + Seq::<crate::CommandV>::empty() =~= cmds.deep_view());
            }
            return Ok(AST::Unit(name, cmds));
        }
        let c = command(toks, p)?;
        cmds.push(c);
        proof {
            if sp_cmds_rest(toks@, *p as int) is Some {
                let cq = sp_cmds_rest(toks@, *p as int)->Some_0;
                assert(acc0 + (seq![cmds.deep_view().last()] + cq.0) =~= cmds.deep_view() + cq.0);
            }
        }
    }
}

/// Skip forward to the next token that can begin a top-level item.
#[verifier::loop_isolation(false)]
fn skip_to_item(toks: &Vec<(Token, Span)>, p: &mut usize)
    requires
        *old(p) <= toks@.len(),
    ensures
        *old(p) <= *final(p) <= toks@.len(),
        no_item_start(toks@, *old(p) as int, *final(p) as int),
{
    while *p < toks.len() && !matches!(&toks[*p].0, Token::Expose | Token::Unit)
        invariant
            *old(p) <= *p <= toks@.len(),
            no_item_start(toks@, *old(p) as int, *p as int),
        decreases toks@.len() - *p,
    {
        *p += 1;
    }
}

/// How many recovery sentinels a list of items holds.
pub open spec fn sentinel_count(items: Seq<ASTV>) -> int
    decreases items.len(),
{
    if items.len() == 0 {
        0
    } else {
        sentinel_count(items.drop_last()) + (if items.last() is Error {
            1int
        } else {
            0int
        })
    }
}

/// Is `a` the item that the grammar derives at position `p`?
pub open spec fn item_derived_at(toks: Seq<(Token, Span)>, p: int, a: ASTV) -> bool {
    ||| exists|q: int| sp_expose(toks, p) == Some((a, q))
    ||| exists|q: int| sp_unit(toks, p) == Some((a, q))
}

/// Every kept item is a genuine derivation of the token stream: parse
/// recovery inserts sentinels, never fabricated items.
pub open spec fn items_genuine(items: Seq<ASTV>, toks: Seq<(Token, Span)>) -> bool {
    forall|k: int|
        0 <= k < items.len() ==> ((#[trigger] items[k]) is Error || exists|p: int|
            item_derived_at(toks, p, items[k]))
}

/// Source-level half of the round trip: a `unit` or `expose` item the
/// parser derives carries a name read off one identifier token, and
/// under a well-formed lexing that token's text is exactly the
/// identifier-shaped source text its span covers.  Together with
/// `parser`'s contract (the error-free items are the stream's
/// derivations, and every kept item is derived) and the lowering
/// round-trip lemma, this ties the module's unit names and expose
/// targets back to the source text itself.
pub proof fn lemma_item_name_from_source(toks: Seq<(Token, Span)>, src: Seq<char>, p: int, a: ASTV)
    requires
        crate::lexer::tokens_wf(toks, src),
        item_derived_at(toks, p, a),
        a is Unit || a is Expose,
    ensures
        ({
            let name = if a is Unit {
                a->Unit_0
            } else {
                a->Expose_1
            };
            &&& name.span.0 < name.span.1 <= src.len()
            &&& name.text == src.subrange(name.span.0 as int, name.span.1 as int)
            &&& crate::lexer::is_ident_start(src[name.span.0 as int])
            &&& forall|k: int|
                name.span.0 < k < name.span.1 ==> crate::lexer::is_ident_continue(
                    #[trigger] src[k],
                )
        }),
{
    let name = if a is Unit {
        a->Unit_0
    } else {
        a->Expose_1
    };
    if exists|q: int| sp_unit(toks, p) == Some((a, q)) {
        let q = choose|q: int| sp_unit(toks, p) == Some((a, q));
        assert(sp_ident(toks, p + 1) is Some);
        assert(name == sp_ident(toks, p + 1)->Some_0.0);
        assert(toks[p + 1].0 is Ident);
        assert(crate::lexer::token_matches_source(toks[p + 1].0, toks[p + 1].1, src));
    } else {
        let q = choose|q: int| sp_expose(toks, p) == Some((a, q));
        assert(sp_ident(toks, p + 1) is Some);
        assert(name == sp_ident(toks, p + 1)->Some_0.0);
        assert(toks[p + 1].0 is Ident);
        assert(crate::lexer::token_matches_source(toks[p + 1].0, toks[p + 1].1, src));
    }
}

/// If a top-level item can be derived at `t`, the derivation is kept.
pub open spec fn derived_kept(toks: Seq<(Token, Span)>, t: int, items: Seq<ASTV>) -> bool {
    &&& ((toks[t].0 is Expose && sp_expose(toks, t) is Some) ==> items.contains(
        sp_expose(toks, t)->Some_0.0,
    ))
    &&& ((toks[t].0 is Unit && sp_unit(toks, t) is Some) ==> items.contains(
        sp_unit(toks, t)->Some_0.0,
    ))
}

proof fn lemma_sentinel_push(items: Seq<ASTV>, a: ASTV)
    ensures
        sentinel_count(items.push(a)) == sentinel_count(items) + (if a is Error {
            1int
        } else {
            0int
        }),
{
    assert(items.push(a).drop_last() =~= items);
}

/// Parse a whole token stream into top-level items.
///
/// On an error the parser records it, inserts an `AST::Error` sentinel and
/// skips to the next `expose` or `unit` keyword, so several parse errors
/// can be reported in one pass.  When no error is reported, the items are
/// exactly the stream's derivations and hold no sentinel.  On a failed
/// reading, each malformed region contributes exactly one sentinel and one
/// report, every kept item is a genuine derivation of the stream, and
/// every well-formed top-level item is still returned.
#[verifier::loop_isolation(false)]
pub fn parser(toks: &Vec<(Token, Span)>) -> (r: (Vec<AST>, Vec<ParserError>))
    ensures
        r.1@.len() == 0 ==> forall|k: int| 0 <= k < r.0@.len() ==> !((#[trigger] r.0@[k]) is Error),
        match sp_top(toks@, 0) {
            Some(items) => r.1@.len() == 0 && r.0.deep_view() == items,
            None => r.1@.len() > 0,
        },
        r.1@.len() == sentinel_count(r.0.deep_view()),
        items_genuine(r.0.deep_view(), toks@),
        forall|t: int| 0 <= t < toks@.len() ==> #[trigger] derived_kept(toks@, t, r.0.deep_view()),
{
    let mut ast: Vec<AST> = Vec::new();
    let mut errors: Vec<ParserError> = Vec::new();
    let mut p: usize = 0;
    proof {
        assert(ast.deep_view() =~= Seq::<ASTV>::empty());
    }
    while p < toks.len()
        invariant
            p <= toks@.len(),
            errors@.len() == 0 ==> forall|k: int|
                0 <= k < ast@.len() ==> !((#[trigger] ast@[k]) is Error),
            errors@.len() == 0 ==> (match sp_top(toks@, p as int) {
                Some(items) => sp_top(toks@, 0) == Some(ast.deep_view() + items),
                None => sp_top(toks@, 0) is None,
            }),
            errors@.len() > 0 ==> sp_top(toks@, 0) is None,
            errors@.len() == sentinel_count(ast.deep_view()),
            items_genuine(ast.deep_view(), toks@),
            forall|t: int| 0 <= t < p ==> #[trigger] derived_kept(toks@, t, ast.deep_view()),
        decreases toks@.len() - p,
    {
        let ghost a0 = ast.deep_view();
        let ghost pb = p as int;
        match &toks[p].0 {
            Token::Expose => {
                match expose(toks, &mut p) {
                    Ok(a) => {
                        let ghost av = a.deep_view();
                        ast.push(a);
                        proof {
                            assert(ast.deep_view() =~= a0.push(av));
                            lemma_sentinel_push(a0, av);
                            assert(item_derived_at(toks@, pb, av));
                            assert forall|k: int|
                                0 <= k < ast.deep_view().len() implies ((
                            #[trigger] ast.deep_view()[k]) is Error || exists|q: int|
                                item_derived_at(toks@, q, ast.deep_view()[k])) by {
                                if k < a0.len() {
                                    assert(ast.deep_view()[k] == a0[k]);
                                }
                            }
                            assert(ast.deep_view().contains(av));
                            assert forall|t: int|
                                0 <= t < p implies #[trigger] derived_kept(
                                toks@,
                                t,
                                ast.deep_view(),
                            ) by {
                                if t < pb {
                                    assert(derived_kept(toks@, t, a0));
                                    if toks@[t].0 is Expose && sp_expose(toks@, t) is Some {
                                        let v = sp_expose(toks@, t)->Some_0.0;
                                        let ix = choose|ix: int|
                                            0 <= ix < a0.len() && a0[ix] == v;
                                        assert(ast.deep_view()[ix] == v);
                                    }
                                    if toks@[t].0 is Unit && sp_unit(toks@, t) is Some {
                                        let v = sp_unit(toks@, t)->Some_0.0;
                                        let ix = choose|ix: int|
                                            0 <= ix < a0.len() && a0[ix] == v;
                                        assert(ast.deep_view()[ix] == v);
                                    }
                                }
                            }
                        }
                    },
                    Err(e) => {
                        errors.push(e);
                        ast.push(AST::Error);
                        proof {
                            assert(ast.deep_view() =~= a0.push(ASTV::Error));
                            lemma_sentinel_push(a0, ASTV::Error);
                            assert forall|k: int|
                                0 <= k < ast.deep_view().len() implies ((
                            #[trigger] ast.deep_view()[k]) is Error || exists|q: int|
                                item_derived_at(toks@, q, ast.deep_view()[k])) by {
                                if k < a0.len() {
                                    assert(ast.deep_view()[k] == a0[k]);
                                }
                            }
                        }
                        let ghost pm = p as int;
                        skip_to_item(toks, &mut p);
                        proof {
                            assert forall|t: int|
                                0 <= t < p implies #[trigger] derived_kept(
                                toks@,
                                t,
                                ast.deep_view(),
                            ) by {
                                if t < pb {
                                    assert(derived_kept(toks@, t, a0));
                                    if toks@[t].0 is Expose && sp_expose(toks@, t) is Some {
                                        let v = sp_expose(toks@, t)->Some_0.0;
                                        let ix = choose|ix: int|
                                            0 <= ix < a0.len() && a0[ix] == v;
                                        assert(ast.deep_view()[ix] == v);
                                    }
                                    if toks@[t].0 is Unit && sp_unit(toks@, t) is Some {
                                        let v = sp_unit(toks@, t)->Some_0.0;
                                        let ix = choose|ix: int|
                                            0 <= ix < a0.len() && a0[ix] == v;
                                        assert(ast.deep_view()[ix] == v);
                                    }
                                }
                            }
                        }
                    },
                }
            },
            Token::Unit => {
                match unit(toks, &mut p) {
                    Ok(a) => {
                        let ghost av = a.deep_view();
                        ast.push(a);
                        proof {
                            assert(ast.deep_view() =~= a0.push(av));
                            lemma_sentinel_push(a0, av);
                            assert(item_derived_at(toks@, pb, av));
                            assert forall|k: int|
                                0 <= k < ast.deep_view().len() implies ((
                            #[trigger] ast.deep_view()[k]) is Error || exists|q: int|
                                item_derived_at(toks@, q, ast.deep_view()[k])) by {
                                if k < a0.len() {
                                    assert(ast.deep_view()[k] == a0[k]);
                                }
                            }
                            assert(ast.deep_view().contains(av));
                            assert forall|t: int|
                                0 <= t < p implies #[trigger] derived_kept(
                                toks@,
                                t,
                                ast.deep_view(),
                            ) by {
                                if t < pb {
                                    assert(derived_kept(toks@, t, a0));
                                    if toks@[t].0 is Expose && sp_expose(toks@, t) is Some {
                                        let v = sp_expose(toks@, t)->Some_0.0;
                                        let ix = choose|ix: int|
                                            0 <= ix < a0.len() && a0[ix] == v;
                                        assert(ast.deep_view()[ix] == v);
                                    }
                                    if toks@[t].0 is Unit && sp_unit(toks@, t) is Some {
                                        let v = sp_unit(toks@, t)->Some_0.0;
                                        let ix = choose|ix: int|
                                            0 <= ix < a0.len() && a0[ix] == v;
                                        assert(ast.deep_view()[ix] == v);
                                    }
                                }
                            }
                        }
                    },
                    Err(e) => {
                        errors.push(e);
                        ast.push(AST::Error);
                        proof {
                            assert(ast.deep_view() =~= a0.push(ASTV::Error));
                            lemma_sentinel_push(a0, ASTV::Error);
                            assert forall|k: int|
                                0 <= k < ast.deep_view().len() implies ((
                            #[trigger] ast.deep_view()[k]) is Error || exists|q: int|
                                item_derived_at(toks@, q, ast.deep_view()[k])) by {
                                if k < a0.len() {
                                    assert(ast.deep_view()[k] == a0[k]);
                                }
                            }
                        }
                        let ghost pm = p as int;
                        skip_to_item(toks, &mut p);
                        proof {
                            assert forall|t: int|
                                0 <= t < p implies #[trigger] derived_kept(
                                toks@,
                                t,
                                ast.deep_view(),
                            ) by {
                                if t < pb {
                                    assert(derived_kept(toks@, t, a0));
                                    if toks@[t].0 is Expose && sp_expose(toks@, t) is Some {
                                        let v = sp_expose(toks@, t)->Some_0.0;
                                        let ix = choose|ix: int|
                                            0 <= ix < a0.len() && a0[ix] == v;
                                        assert(ast.deep_view()[ix] == v);
                                    }
                                    if toks@[t].0 is Unit && sp_unit(toks@, t) is Some {
                                        let v = sp_unit(toks@, t)->Some_0.0;
                                        let ix = choose|ix: int|
                                            0 <= ix < a0.len() && a0[ix] == v;
                                        assert(ast.deep_view()[ix] == v);
                                    }
                                }
                            }
                        }
                    },
                }
            },
            t => {
                errors.push(
                    ParserError::TokenMismatch {
                        scope: ParserScope::TopLevel,
                        span: toks[p].1,
                        found: token_name(t),
                        expected: two_expected("`expose`", "`unit`"),
                    },
                );
                ast.push(AST::Error);
                proof {
                    assert(ast.deep_view() =~= a0.push(ASTV::Error));
                    lemma_sentinel_push(a0, ASTV::Error);
                    assert forall|k: int|
                        0 <= k < ast.deep_view().len() implies ((
                    #[trigger] ast.deep_view()[k]) is Error || exists|q: int|
                        item_derived_at(toks@, q, ast.deep_view()[k])) by {
                        if k < a0.len() {
                            assert(ast.deep_view()[k] == a0[k]);
                        }
                    }
                }
                p += 1;
                let ghost pm = p as int;
                skip_to_item(toks, &mut p);
                proof {
                    assert forall|t: int|
                        0 <= t < p implies #[trigger] derived_kept(toks@, t, ast.deep_view()) by {
                        if t < pb {
                            assert(derived_kept(toks@, t, a0));
                            if toks@[t].0 is Expose && sp_expose(toks@, t) is Some {
                                let v = sp_expose(toks@, t)->Some_0.0;
                                let ix = choose|ix: int| 0 <= ix < a0.len() && a0[ix] == v;
                                assert(ast.deep_view()[ix] == v);
                            }
                            if toks@[t].0 is Unit && sp_unit(toks@, t) is Some {
                                let v = sp_unit(toks@, t)->Some_0.0;
                                let ix = choose|ix: int| 0 <= ix < a0.len() && a0[ix] == v;
                                assert(ast.deep_view()[ix] == v);
                            }
                        }
                    }
                }
            },
        }
    }
    (ast, errors)
}

} // verus!
