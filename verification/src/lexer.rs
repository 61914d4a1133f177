//! Lexer: turns the UTF-8 source text into spanned tokens.
//!
//! The grammar is regular: string literals with a fixed escape set,
//! keywords (`unit`, `expose`, `as`) by longest match, identifiers,
//! permissive raw identifiers (used inside `exec(...)` argument lists),
//! multi-character punctuation (`::`, `=>`) taking precedence over the
//! single characters, four delimiter families, and skipped whitespace.
//! An unrecognised character becomes an `Unexpected` token covering exactly that
//! character, so a later stage can still parse the rest of the stream.

use vstd::prelude::*;
use vstd::string::StringExecFns;

use crate::parser::Span;

verus! {

/// One lexical token of the scripting language.
#[derive(Debug, PartialEq, Eq)]
pub enum Token {
    /// A quoted string literal; the contents are unescaped.
    String(String),
    /// A letter-or-underscore-led identifier.
    Ident(String),
    /// A permissive run of printable characters, accepted as an `exec` argument.
    RawIdent(String),

    Unit,
    Expose,
    As,

    Attr,
    Tilde,
    DoubleColon,
    DoubleArrow,
    Comma,

    OpenDelim(EncapsulatorType),
    CloseDelim(EncapsulatorType),

    /// Lexer recovery: an unrecognised character.
    Unexpected(char),
}

/// One of the four delimiter families.
#[derive(Debug, Clone, Copy, PartialEq, Eq, Structural)]
pub enum EncapsulatorType {
    Round,
    Curly,
    Square,
    Arrow,
}

/// Does `c` open or close one of the four delimiter families?
pub open spec fn is_delim_char(c: char) -> bool {
    c == '(' || c == ')' || c == '{' || c == '}' || c == '[' || c == ']' || c == '<' || c == '>'
}

impl EncapsulatorType {
    /// The family that `encap` belongs to.
    pub fn new(encap: char) -> (r: EncapsulatorType)
        requires
            is_delim_char(encap),
        ensures
            (encap == '(' || encap == ')') ==> r == EncapsulatorType::Round,
            (encap == '{' || encap == '}') ==> r == EncapsulatorType::Curly,
            (encap == '[' || encap == ']') ==> r == EncapsulatorType::Square,
            (encap == '<' || encap == '>') ==> r == EncapsulatorType::Arrow,
    {
        if encap == '(' || encap == ')' {
            EncapsulatorType::Round
        } else if encap == '{' || encap == '}' {
            EncapsulatorType::Curly
        } else if encap == '[' || encap == ']' {
            EncapsulatorType::Square
        } else {
            EncapsulatorType::Arrow
        }
    }

    pub fn opening_char(&self) -> (c: char)
        ensures
            c == self.opening_char_spec(),
    {
        match self {
            EncapsulatorType::Round => '(',
            EncapsulatorType::Curly => '{',
            EncapsulatorType::Square => '[',
            EncapsulatorType::Arrow => '<',
        }
    }

    pub fn closing_char(&self) -> (c: char)
        ensures
            c == self.closing_char_spec(),
    {
        match self {
            EncapsulatorType::Round => ')',
            EncapsulatorType::Curly => '}',
            EncapsulatorType::Square => ']',
            EncapsulatorType::Arrow => '>',
        }
    }

    pub open spec fn opening_char_spec(&self) -> char {
        match self {
            EncapsulatorType::Round => '(',
            EncapsulatorType::Curly => '{',
            EncapsulatorType::Square => '[',
            EncapsulatorType::Arrow => '<',
        }
    }

    pub open spec fn closing_char_spec(&self) -> char {
        match self {
            EncapsulatorType::Round => ')',
            EncapsulatorType::Curly => '}',
            EncapsulatorType::Square => ']',
            EncapsulatorType::Arrow => '>',
        }
    }
}

/// A lexing error that has no token of its own.
#[derive(Debug, PartialEq, Eq)]
pub enum LexError {
    /// A string literal was never closed; the span covers the opening quote.
    UnterminatedString(Span),
}

/// Relies on `str::chars`: yields exactly the characters of the string in order.
#[verifier::external_body]
pub(crate) fn str_chars(s: &str) -> (r: Vec<char>)
    ensures
        r@ == s@,
{
    s.chars().collect()
}

/// Relies on `String::from_iter` over `char`s: concatenates them in order.
#[verifier::external_body]
pub(crate) fn chars_string(v: &Vec<char>) -> (r: String)
    ensures
        r@ == v@,
{
    v.iter().collect()
}

/// The characters skipped between tokens: the Unicode whitespace set.
pub open spec fn is_whitespace_char(c: char) -> bool {
    ('\u{09}' <= c && c <= '\u{0D}') || c == ' ' || c == '\u{85}' || c == '\u{A0}' || c
        == '\u{1680}' || ('\u{2000}' <= c && c <= '\u{200A}') || c == '\u{2028}' || c == '\u{2029}'
        || c == '\u{202F}' || c == '\u{205F}' || c == '\u{3000}'
}

pub open spec fn is_ident_start(c: char) -> bool {
    ('a' <= c && c <= 'z') || ('A' <= c && c <= 'Z') || c == '_'
}

pub open spec fn is_ident_continue(c: char) -> bool {
    is_ident_start(c) || ('0' <= c && c <= '9')
}

/// The permissive character set of raw identifiers.
pub open spec fn is_raw_char(c: char) -> bool {
    ('!' <= c && c <= '&') || ('*' <= c && c <= '+') || ('-' <= c && c <= '.') || ('0' <= c
        && c <= ';') || c == '=' || ('?' <= c && c <= 'Z') || ('^' <= c && c <= 'z') || c == '|'
}

fn ws_char(c: char) -> (r: bool)
    ensures
        r == is_whitespace_char(c),
{
    ('\u{09}' <= c && c <= '\u{0D}') || c == ' ' || c == '\u{85}' || c == '\u{A0}' || c
        == '\u{1680}' || ('\u{2000}' <= c && c <= '\u{200A}') || c == '\u{2028}' || c == '\u{2029}'
        || c == '\u{202F}' || c == '\u{205F}' || c == '\u{3000}'
}

fn ident_start(c: char) -> (r: bool)
    ensures
        r == is_ident_start(c),
{
    ('a' <= c && c <= 'z') || ('A' <= c && c <= 'Z') || c == '_'
}

fn ident_continue(c: char) -> (r: bool)
    ensures
        r == is_ident_continue(c),
{
    ident_start(c) || ('0' <= c && c <= '9')
}

fn raw_char(c: char) -> (r: bool)
    ensures
        r == is_raw_char(c),
{
    ('!' <= c && c <= '&') || ('*' <= c && c <= '+') || ('-' <= c && c <= '.') || ('0' <= c
        && c <= ';') || c == '=' || ('?' <= c && c <= 'Z') || ('^' <= c && c <= 'z') || c == '|'
}

fn delim_char(c: char) -> (r: bool)
    ensures
        r == is_delim_char(c),
{
    c == '(' || c == ')' || c == '{' || c == '}' || c == '[' || c == ']' || c == '<' || c == '>'
}

/// What one escape sequence stands for; an unknown escape is kept as
/// written.
pub open spec fn esc_char(e: char) -> Seq<char> {
    if e == '\\' || e == '/' || e == '"' {
        seq![e]
    } else if e == 'b' {
        seq!['\x08']
    } else if e == 'f' {
        seq!['\x0C']
    } else if e == 'n' {
        seq!['\n']
    } else if e == 'r' {
        seq!['\r']
    } else if e == 't' {
        seq!['\t']
    } else {
        seq!['\\', e]
    }
}

/// Scan a string literal body: the unescaped contents, the number of
/// characters consumed (closing quote included), and whether the
/// closing quote was found.
pub open spec fn scan_str(s: Seq<char>) -> (Seq<char>, int, bool)
    decreases s.len(),
{
    if s.len() == 0 {
        (Seq::empty(), 0, false)
    } else if s.first() == '"' {
        (Seq::empty(), 1, true)
    } else if s.first() == '\\' && s.len() >= 2 {
        let r = scan_str(s.skip(2));
        (esc_char(s[1]) + r.0, r.1 + 2, r.2)
    } else {
        let r = scan_str(s.drop_first());
        (seq![s.first()] + r.0, r.1 + 1, r.2)
    }
}

/// What a token promises about the source range it was produced from:
/// its text, its shape (so the classification is pinned, not just the
/// span), and its maximality (the token could not have been longer).
pub open spec fn token_matches_source(t: Token, span: Span, src: Seq<char>) -> bool {
    &&& span.0 < span.1 <= src.len()
    &&& match t {
        Token::Ident(s) => {
            &&& s@ == src.subrange(span.0 as int, span.1 as int)
            &&& is_ident_start(src[span.0 as int])
            &&& forall|k: int| span.0 < k < span.1 ==> is_ident_continue(#[trigger] src[k])
            // longest match: the exact keyword texts never come back as
            // identifiers
            &&& s@ != "unit"@
            &&& s@ != "expose"@
            &&& s@ != "as"@
            &&& (span.1 < src.len() ==> !is_ident_continue(src[span.1 as int]))
        },
        Token::RawIdent(s) => {
            &&& s@ == src.subrange(span.0 as int, span.1 as int)
            &&& forall|k: int| span.0 <= k < span.1 ==> is_raw_char(#[trigger] src[k])
            // a raw identifier only begins where no other token can
            &&& !is_ident_start(src[span.0 as int])
            &&& src[span.0 as int] != '@'
            &&& src[span.0 as int] != '"'
            &&& !(src[span.0 as int] == ':' && span.0 + 1 < src.len() && src[span.0 + 1] == ':')
            &&& !(src[span.0 as int] == '=' && span.0 + 1 < src.len() && src[span.0 + 1] == '>')
            &&& (span.1 < src.len() ==> !is_raw_char(src[span.1 as int]))
        },
        Token::Unit => src.subrange(span.0 as int, span.1 as int) == "unit"@ && (span.1
            < src.len() ==> !is_ident_continue(src[span.1 as int])),
        Token::Expose => src.subrange(span.0 as int, span.1 as int) == "expose"@ && (span.1
            < src.len() ==> !is_ident_continue(src[span.1 as int])),
        Token::As => src.subrange(span.0 as int, span.1 as int) == "as"@ && (span.1 < src.len()
            ==> !is_ident_continue(src[span.1 as int])),
        Token::Attr => span.1 == span.0 + 1 && src[span.0 as int] == '@',
        Token::Tilde => span.1 == span.0 + 1 && src[span.0 as int] == '~',
        Token::Comma => span.1 == span.0 + 1 && src[span.0 as int] == ',',
        Token::DoubleColon => span.1 == span.0 + 2 && src[span.0 as int] == ':' && src[span.0
            + 1] == ':',
        Token::DoubleArrow => span.1 == span.0 + 2 && src[span.0 as int] == '=' && src[span.0
            + 1] == '>',
        Token::OpenDelim(d) => span.1 == span.0 + 1 && src[span.0 as int]
            == d.opening_char_spec(),
        Token::CloseDelim(d) => span.1 == span.0 + 1 && src[span.0 as int]
            == d.closing_char_spec(),
        Token::String(s) => src[span.0 as int] == '"' && {
            let r = scan_str(src.skip(span.0 + 1));
            r.2 && s@ == r.0 && span.1 == span.0 + 1 + r.1
        },
        // a recovery token stands only for a character that begins no
        // token at all
        Token::Unexpected(c) => {
            &&& span.1 == span.0 + 1
            &&& src[span.0 as int] == c
            &&& !is_whitespace_char(c)
            &&& c != '@'
            &&& c != '~'
            &&& c != ','
            &&& c != '"'
            &&& !is_delim_char(c)
            &&& !is_ident_start(c)
            &&& !is_raw_char(c)
        },
    }
}

/// Every reported lexing error is honest: its span covers an opening
/// quote whose literal really never closes.
pub open spec fn lex_errors_wf(errs: Seq<LexError>, src: Seq<char>) -> bool {
    forall|e: int|
        0 <= e < errs.len() ==> {
            let sp = (#[trigger] errs[e])->UnterminatedString_0;
            &&& sp.1 == sp.0 + 1
            &&& sp.0 < src.len()
            &&& src[sp.0 as int] == '"'
            &&& !scan_str(src.skip(sp.0 + 1)).2
        }
}

/// All spans are in bounds, non-empty, and strictly ordered along the stream,
/// and each token matches the source text it covers.
pub open spec fn tokens_wf(toks: Seq<(Token, Span)>, src: Seq<char>) -> bool {
    &&& forall|k: int|
        0 <= k < toks.len() ==> #[trigger] token_matches_source(toks[k].0, toks[k].1, src)
    &&& forall|k1: int, k2: int|
        0 <= k1 < k2 < toks.len() ==> (#[trigger] toks[k1].1).1 <= (#[trigger] toks[k2].1).0
}

/// One source position is accounted for: it is whitespace, lies inside
/// some token's span, or was swallowed by an unterminated string literal
/// (which consumes everything after its opening quote).
pub open spec fn lex_pos_covered(
    toks: Seq<(Token, Span)>,
    errs: Seq<LexError>,
    src: Seq<char>,
    p: int,
) -> bool {
    ||| is_whitespace_char(src[p])
    ||| exists|k: int| 0 <= k < toks.len() && (#[trigger] toks[k].1).0 <= p < toks[k].1.1
    ||| exists|e: int|
        0 <= e < errs.len() && ((#[trigger] errs[e]) matches LexError::UnterminatedString(sp)
            && sp.0 <= p)
}

/// Completeness of a lexing result: every position of the source is
/// accounted for.  An empty token stream over a non-blank source cannot
/// satisfy this.
pub open spec fn lex_covers(toks: Seq<(Token, Span)>, errs: Seq<LexError>, src: Seq<char>) -> bool {
    forall|p: int| 0 <= p < src.len() ==> #[trigger] lex_pos_covered(toks, errs, src, p)
}

/// Growing the token stream or the error list keeps every position
/// covered.
proof fn lemma_cover_extend(
    toks: Seq<(Token, Span)>,
    errs: Seq<LexError>,
    toks2: Seq<(Token, Span)>,
    errs2: Seq<LexError>,
    src: Seq<char>,
)
    requires
        toks.len() <= toks2.len(),
        forall|k: int| 0 <= k < toks.len() ==> toks2[k] == toks[k],
        errs.len() <= errs2.len(),
        forall|e: int| 0 <= e < errs.len() ==> errs2[e] == errs[e],
    ensures
        forall|p: int|
            0 <= p < src.len() && lex_pos_covered(toks, errs, src, p)
                ==> #[trigger] lex_pos_covered(toks2, errs2, src, p),
{
    assert forall|p: int|
        0 <= p < src.len() && lex_pos_covered(toks, errs, src, p) implies #[trigger] lex_pos_covered(
        toks2,
        errs2,
        src,
        p,
    ) by {
        if exists|k: int| 0 <= k < toks.len() && (#[trigger] toks[k].1).0 <= p < toks[k].1.1 {
            let k = choose|k: int| 0 <= k < toks.len() && (#[trigger] toks[k].1).0 <= p < toks[k].1.1;
            assert(toks2[k] == toks[k]);
        } else if exists|e: int|
            0 <= e < errs.len() && ((#[trigger] errs[e]) matches LexError::UnterminatedString(sp)
                && sp.0 <= p) {
            let e = choose|e: int|
                0 <= e < errs.len() && ((#[trigger] errs[e]) matches LexError::UnterminatedString(
                    sp,
                ) && sp.0 <= p);
            assert(errs2[e] == errs[e]);
        }
    }
}

/// Append one token, keeping the stream well-formed and every position
/// up to the new token's end accounted for.
fn push_tok(
    toks: &mut Vec<(Token, Span)>,
    t: Token,
    span: Span,
    src: Ghost<Seq<char>>,
    errs: Ghost<Seq<LexError>>,
)
    requires
        tokens_wf(old(toks)@, src@),
        token_matches_source(t, span, src@),
        forall|k: int| 0 <= k < old(toks)@.len() ==> (#[trigger] old(toks)@[k].1).1 <= span.0,
        forall|p: int| 0 <= p < span.0 ==> #[trigger] lex_pos_covered(old(toks)@, errs@, src@, p),
    ensures
        final(toks)@ == old(toks)@.push((t, span)),
        tokens_wf(final(toks)@, src@),
        forall|k: int| 0 <= k < final(toks)@.len() ==> (#[trigger] final(toks)@[k].1).1 <= span.1,
        forall|p: int| 0 <= p < span.1 ==> #[trigger] lex_pos_covered(final(toks)@, errs@, src@, p),
{
    toks.push((t, span));
    proof {
        let s = toks@;
        assert forall|k: int|
            0 <= k < s.len() implies #[trigger] token_matches_source(s[k].0, s[k].1, src@) by {
            if k < s.len() - 1 {
                assert(token_matches_source(old(toks)@[k].0, old(toks)@[k].1, src@));
            }
        }
        assert forall|k1: int, k2: int|
            0 <= k1 < k2 < s.len() implies (#[trigger] s[k1].1).1 <= (#[trigger] s[k2].1).0 by {
            if k2 < s.len() - 1 {
                assert((old(toks)@[k1].1).1 <= (old(toks)@[k2].1).0);
            } else {
                assert((old(toks)@[k1].1).1 <= span.0);
            }
        }
        assert forall|k: int|
            0 <= k < s.len() implies (#[trigger] s[k].1).1 <= span.1 by {
            if k < s.len() - 1 {
                assert((old(toks)@[k].1).1 <= span.0);
            }
        }
        lemma_cover_extend(old(toks)@, errs@, s, errs@, src@);
        assert forall|p: int|
            0 <= p < span.1 implies #[trigger] lex_pos_covered(s, errs@, src@, p) by {
            if p < span.0 {
                assert(lex_pos_covered(old(toks)@, errs@, src@, p));
            } else {
                let k = s.len() - 1;
                assert((s[k].1).0 <= p < (s[k].1).1);
            }
        }
    }
}

/// Lex the whole source into spanned tokens plus a list of lexing errors.
///
/// Unrecognised characters are embedded in the stream as
/// `Token::Unexpected`; an unterminated string literal is reported in the
/// error list with a span covering its opening quote.  Every character of
/// the source is accounted for: skipped as whitespace, covered by some
/// returned token's span, or swallowed by an unterminated string literal.
pub fn lexer(src: &str) -> (r: (Vec<(Token, Span)>, Vec<LexError>))
    ensures
        tokens_wf(r.0@, src@),
        lex_covers(r.0@, r.1@, src@),
        lex_errors_wf(r.1@, src@),
{
    let chars = str_chars(src);
    let n = chars.len();
    let mut toks: Vec<(Token, Span)> = Vec::new();
    let mut errs: Vec<LexError> = Vec::new();
    let mut i: usize = 0;

    while i < n
        invariant
            chars@ == src@,
            n == chars@.len(),
            i <= n,
            tokens_wf(toks@, src@),
            lex_errors_wf(errs@, src@),
            forall|k: int| 0 <= k < toks@.len() ==> (#[trigger] toks@[k].1).1 <= i,
            forall|p: int| 0 <= p < i ==> #[trigger] lex_pos_covered(toks@, errs@, src@, p),
        decreases n - i,
    {
        let c = chars[i];
        if ws_char(c) {
            i += 1;
            proof {
                assert forall|p: int|
                    0 <= p < i implies #[trigger] lex_pos_covered(toks@, errs@, src@, p) by {
                    if p == i - 1 {
                        assert(is_whitespace_char(src@[p]));
                    }
                }
            }
        } else if c == ':' && i + 1 < n && chars[i + 1] == ':' {
            push_tok(&mut toks, Token::DoubleColon, (i, i + 2), Ghost(src@), Ghost(errs@));
            i += 2;
        } else if c == '=' && i + 1 < n && chars[i + 1] == '>' {
            push_tok(&mut toks, Token::DoubleArrow, (i, i + 2), Ghost(src@), Ghost(errs@));
            i += 2;
        } else if c == '@' {
            push_tok(&mut toks, Token::Attr, (i, i + 1), Ghost(src@), Ghost(errs@));
            i += 1;
        } else if c == '~' {
            push_tok(&mut toks, Token::Tilde, (i, i + 1), Ghost(src@), Ghost(errs@));
            i += 1;
        } else if c == ',' {
            push_tok(&mut toks, Token::Comma, (i, i + 1), Ghost(src@), Ghost(errs@));
            i += 1;
        } else if delim_char(c) {
            let fam = EncapsulatorType::new(c);
            let t = if c == '(' || c == '{' || c == '[' || c == '<' {
                Token::OpenDelim(fam)
            } else {
                Token::CloseDelim(fam)
            };
            push_tok(&mut toks, t, (i, i + 1), Ghost(src@), Ghost(errs@));
            i += 1;
        } else if c == '"' {
            let start = i;
            i += 1;
            let ghost full = scan_str(src@.skip(start + 1));
            let mut content: Vec<char> = Vec::new();
            let mut closed = false;
            while i < n && !closed
                invariant
                    chars@ == src@,
                    n == chars@.len(),
                    start < i <= n,
                    full == scan_str(src@.skip(start + 1)),
                    !closed ==> {
                        let rest = scan_str(src@.skip(i as int));
                        full.0 == content@ + rest.0 && full.1 == (i - start - 1) + rest.1
                            && full.2 == rest.2
                    },
                    closed ==> full.2 && content@ == full.0 && i == start + 1 + full.1,
                decreases n - i,
            {
                proof {
                    let rest = src@.skip(i as int);
                    assert(rest.len() == n - i);
                    assert(rest.first() == src@[i as int]);
                    assert(rest.drop_first() =~= src@.skip(i + 1));
                    if i + 2 <= n {
                        assert(rest.skip(2) =~= src@.skip(i + 2));
                    }
                }
                let c2 = chars[i];
                if c2 == '"' {
                    closed = true;
                    i += 1;
                    proof {
                        assert(content@ + Seq::<char>::empty() =~= content@);
                    }
                } else if c2 == '\\' && i + 1 < n {
                    let e = chars[i + 1];
                    proof {
                        assert(src@.skip(i as int)[1] == src@[i + 1]);
                    }
                    if e == '\\' || e == '/' || e == '"' {
                        content.push(e);
                        i += 2;
                    } else if e == 'b' {
                        content.push('\x08');
                        i += 2;
                    } else if e == 'f' {
                        content.push('\x0C');
                        i += 2;
                    } else if e == 'n' {
                        content.push('\n');
                        i += 2;
                    } else if e == 'r' {
                        content.push('\r');
                        i += 2;
                    } else if e == 't' {
                        content.push('\t');
                        i += 2;
                    } else {
                        // Not one of the recognised escapes: keep both
                        // characters as written.
                        content.push(c2);
                        content.push(e);
                        i += 2;
                    }
                    proof {
                        assert(content@ + scan_str(src@.skip(i as int)).0 =~= full.0);
                    }
                } else {
                    content.push(c2);
                    i += 1;
                    proof {
                        assert(content@ + scan_str(src@.skip(i as int)).0 =~= full.0);
                    }
                }
            }
            if closed {
                push_tok(
                    &mut toks,
                    Token::String(chars_string(&content)),
                    (start, i),
                    Ghost(src@),
                    Ghost(errs@),
                );
            } else {
                proof {
                    assert(src@.skip(i as int) =~= Seq::<char>::empty());
                }
                let ghost t0 = toks@;
                let ghost e0 = errs@;
                errs.push(LexError::UnterminatedString((start, start + 1)));
                proof {
                    assert forall|e: int|
                        0 <= e < errs@.len() implies {
                        let sp = (#[trigger] errs@[e])->UnterminatedString_0;
                        &&& sp.1 == sp.0 + 1
                        &&& sp.0 < src@.len()
                        &&& src@[sp.0 as int] == '"'
                        &&& !scan_str(src@.skip(sp.0 + 1)).2
                    } by {
                        if e < errs@.len() - 1 {
                            assert(errs@[e] == e0[e]);
                        } else {
                            assert(!full.2);
                        }
                    }
                    lemma_cover_extend(t0, e0, toks@, errs@, src@);
                    assert forall|p: int|
                        0 <= p < i implies #[trigger] lex_pos_covered(toks@, errs@, src@, p) by {
                        if p >= start {
                            let e = errs@.len() - 1;
                            assert(errs@[e] matches LexError::UnterminatedString(sp) && sp.0 <= p);
                        }
                    }
                }
            }
        } else if ident_start(c) {
            let start = i;
            i += 1;
            while i < n && ident_continue(chars[i])
                invariant
                    chars@ == src@,
                    n == chars@.len(),
                    start < i <= n,
                    is_ident_start(src@[start as int]),
                    forall|k: int| start < k < i ==> is_ident_continue(#[trigger] src@[k]),
                decreases n - i,
            {
                i += 1;
            }
            let mut word: Vec<char> = Vec::new();
            let mut j = start;
            while j < i
                invariant
                    chars@ == src@,
                    n == chars@.len(),
                    start <= j <= i <= n,
                    word@ == src@.subrange(start as int, j as int),
                decreases i - j,
            {
                word.push(chars[j]);
                j += 1;
                assert(word@ == src@.subrange(start as int, j as int));
            }
            let text = chars_string(&word);
            let t = if text == String::from_str("unit") {
                Token::Unit
            } else if text == String::from_str("expose") {
                Token::Expose
            } else if text == String::from_str("as") {
                Token::As
            } else {
                Token::Ident(text)
            };
            push_tok(&mut toks, t, (start, i), Ghost(src@), Ghost(errs@));
        } else if raw_char(c) {
            let start = i;
            i += 1;
            while i < n && raw_char(chars[i])
                invariant
                    chars@ == src@,
                    n == chars@.len(),
                    start < i <= n,
                    forall|k: int| start <= k < i ==> is_raw_char(#[trigger] src@[k]),
                decreases n - i,
            {
                i += 1;
            }
            let mut word: Vec<char> = Vec::new();
            let mut j = start;
            while j < i
                invariant
                    chars@ == src@,
                    n == chars@.len(),
                    start <= j <= i <= n,
                    word@ == src@.subrange(start as int, j as int),
                decreases i - j,
            {
                word.push(chars[j]);
                j += 1;
                assert(word@ == src@.subrange(start as int, j as int));
            }
            push_tok(
                &mut toks,
                Token::RawIdent(chars_string(&word)),
                (start, i),
                Ghost(src@),
                Ghost(errs@),
            );
        } else {
            push_tok(&mut toks, Token::Unexpected(c), (i, i + 1), Ghost(src@), Ghost(errs@));
            i += 1;
        }
    }

    (toks, errs)
}

} // verus!
