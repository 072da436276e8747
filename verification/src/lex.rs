//! Lexer: turns source text into a stream of tokens.
//!
//! The lexer scans a vector of characters left to right, skipping
//! whitespace, and produces one token per call to [`Lex::next`]: an integer
//! literal, an identifier or keyword, or a single punctuation character.
//! Its whole behaviour is pinned down by the spec function [`scan`], which
//! maps a lexer state to the state after producing one more token.

use vstd::prelude::*;

verus! {

use vstd::std_specs::iter::IteratorSpec;

broadcast use vstd::string::axiom_spec_iter, vstd::string::next_postcondition;

/// Payload carried by a token: nothing, an integer literal, or the text of
/// an identifier.
#[derive(Debug, PartialEq, Clone)]
pub enum LexValue {
    Empty,
    Int(i64),
    Ident(String),
}

/// The kind of a token: a literal, an identifier, one of the single ASCII
/// punctuation characters, or a keyword.
#[derive(Debug, Clone, Copy, Eq, Hash, PartialEq, Structural)]
pub enum TokenKind {
    Int,
    Ident,
    Bang,
    Quote,
    Hashtag,
    Dollar,
    Percent,
    Ampersand,
    Apostrophe,
    LeftParen,
    RightParen,
    Asterisk,
    Plus,
    Comma,
    Hyphen,
    Period,
    Slash,
    Colon,
    SemiColon,
    Lt,
    Eq,
    Gt,
    Question,
    At,
    LeftBracket,
    BackSlash,
    RightBracket,
    Circumflex,
    LowLine,
    Grave,
    LeftBrace,
    VerticalBar,
    RightBrace,
    Tilde,
    // keywords
    Let,
    Fn,
    Return,
}

/// One token: where it starts in the source, what kind it is, and its
/// payload (the integer value of a literal, the text of an identifier).
#[derive(Debug, PartialEq, Clone)]
pub struct Token {
    pub pos: usize,
    pub kind: TokenKind,
    pub value: LexValue,
}

/// The mathematical shape of a token payload.
pub ghost enum LexValueS {
    Empty,
    Int(i64),
    Ident(Seq<char>),
}

/// The mathematical shape of a token.
pub ghost struct TokenS {
    pub pos: nat,
    pub kind: TokenKind,
    pub value: LexValueS,
}

impl View for LexValue {
    type V = LexValueS;

    open spec fn view(&self) -> LexValueS {
        match self {
            LexValue::Empty => LexValueS::Empty,
            LexValue::Int(n) => LexValueS::Int(*n),
            LexValue::Ident(s) => LexValueS::Ident(s@),
        }
    }
}

impl View for Token {
    type V = TokenS;

    open spec fn view(&self) -> TokenS {
        TokenS { pos: self.pos as nat, kind: self.kind, value: self.value@ }
    }
}

/// The shape of the lexer's lookahead slot.
pub open spec fn opt_token_view(t: Option<Token>) -> Option<TokenS> {
    match t {
        Option::None => Option::None,
        Option::Some(tok) => Option::Some(tok@),
    }
}

/// The lexer state: the source as characters, the scan position (just past
/// the text of the current token), the lookahead token, and the current
/// line number.
pub ghost struct LexS {
    pub chars: Seq<char>,
    pub p: nat,
    pub cur: Option<TokenS>,
    pub line: nat,
}

/// Whitespace skipped between tokens.
pub open spec fn is_ws(c: char) -> bool {
    c == ' ' || c == '\t' || c == '\n' || c == '\r'
}

/// A character that may start an identifier or keyword.
pub open spec fn is_ident_start(c: char) -> bool {
    (97 <= c as u32 && c as u32 <= 122) || (65 <= c as u32 && c as u32 <= 90) || c as u32 == 95
}

/// A decimal digit.
pub open spec fn is_digit(c: char) -> bool {
    48 <= c as u32 && c as u32 <= 57
}

/// A character that may continue an identifier or keyword.
pub open spec fn is_ident_char(c: char) -> bool {
    is_ident_start(c) || is_digit(c)
}

/// A printable ASCII character that is neither alphanumeric nor an
/// underscore: the single-character punctuation tokens.
pub open spec fn is_symbol(c: char) -> bool {
    33 <= c as u32 && c as u32 <= 126 && !is_ident_char(c)
}

/// The token kind of a punctuation character.
pub open spec fn symbol_kind(c: char) -> TokenKind {
    match c {
        '!' => TokenKind::Bang,
        '"' => TokenKind::Quote,
        '#' => TokenKind::Hashtag,
        '$' => TokenKind::Dollar,
        '%' => TokenKind::Percent,
        '&' => TokenKind::Ampersand,
        '\'' => TokenKind::Apostrophe,
        '(' => TokenKind::LeftParen,
        ')' => TokenKind::RightParen,
        '*' => TokenKind::Asterisk,
        '+' => TokenKind::Plus,
        ',' => TokenKind::Comma,
        '-' => TokenKind::Hyphen,
        '.' => TokenKind::Period,
        '/' => TokenKind::Slash,
        ':' => TokenKind::Colon,
        ';' => TokenKind::SemiColon,
        '<' => TokenKind::Lt,
        '=' => TokenKind::Eq,
        '>' => TokenKind::Gt,
        '?' => TokenKind::Question,
        '@' => TokenKind::At,
        '[' => TokenKind::LeftBracket,
        '\\' => TokenKind::BackSlash,
        ']' => TokenKind::RightBracket,
        '^' => TokenKind::Circumflex,
        '_' => TokenKind::LowLine,
        '`' => TokenKind::Grave,
        '{' => TokenKind::LeftBrace,
        '|' => TokenKind::VerticalBar,
        '}' => TokenKind::RightBrace,
        '~' => TokenKind::Tilde,
        _ => TokenKind::Bang,
    }
}

/// The keyword kind of an identifier's text, if it is a keyword.
pub open spec fn keyword_kind(s: Seq<char>) -> Option<TokenKind> {
    if s.len() == 3 && s[0] == 'l' && s[1] == 'e' && s[2] == 't' {
        Option::Some(TokenKind::Let)
    } else if s.len() == 2 && s[0] == 'f' && s[1] == 'n' {
        Option::Some(TokenKind::Fn)
    } else if s.len() == 6 && s[0] == 'r' && s[1] == 'e' && s[2] == 't' && s[3] == 'u' && s[4]
        == 'r' && s[5] == 'n' {
        Option::Some(TokenKind::Return)
    } else {
        Option::None
    }
}

/// The end of the run of identifier characters that starts at `q`.
pub open spec fn ident_end(chars: Seq<char>, q: nat) -> nat
    decreases chars.len() - q,
{
    if q >= chars.len() || !is_ident_char(chars[q as int]) {
        q
    } else {
        ident_end(chars, q + 1)
    }
}

/// The end of the run of digits that starts at `q`.
pub open spec fn digits_end(chars: Seq<char>, q: nat) -> nat
    decreases chars.len() - q,
{
    if q >= chars.len() || !is_digit(chars[q as int]) {
        q
    } else {
        digits_end(chars, q + 1)
    }
}

/// The decimal value of the digits at positions `a` (inclusive) to `b`
/// (exclusive).
pub open spec fn digits_val(chars: Seq<char>, a: nat, b: nat) -> int
    decreases b - a,
{
    if b <= a {
        0
    } else {
        digits_val(chars, a, (b - 1) as nat) * 10 + (chars[b - 1] as u32 - 48)
    }
}

/// An identifier run ends within the source, covers only identifier
/// characters, and ends right before a non-identifier character.
pub proof fn lemma_ident_end(chars: Seq<char>, q: nat)
    requires
        q <= chars.len(),
    ensures
        q <= ident_end(chars, q) <= chars.len(),
        forall|k: int| q <= k < ident_end(chars, q) ==> is_ident_char(#[trigger] chars[k]),
        ident_end(chars, q) < chars.len() ==> !is_ident_char(
            chars[ident_end(chars, q) as int],
        ),
    decreases chars.len() - q,
{
    if q < chars.len() && is_ident_char(chars[q as int]) {
        lemma_ident_end(chars, q + 1);
    }
}

/// A digit run ends within the source, covers only digits, and ends right
/// before a non-digit.
pub proof fn lemma_digits_end(chars: Seq<char>, q: nat)
    requires
        q <= chars.len(),
    ensures
        q <= digits_end(chars, q) <= chars.len(),
        forall|k: int| q <= k < digits_end(chars, q) ==> is_digit(#[trigger] chars[k]),
        digits_end(chars, q) < chars.len() ==> !is_digit(chars[digits_end(chars, q) as int]),
    decreases chars.len() - q,
{
    if q < chars.len() && is_digit(chars[q as int]) {
        lemma_digits_end(chars, q + 1);
    }
}

/// The value of a digit run is nonnegative and weakly grows with the run's
/// length.
pub proof fn lemma_digits_val_mono(chars: Seq<char>, a: nat, c: nat, b: nat)
    requires
        a <= c <= b,
        forall|k: int| a <= k < b ==> is_digit(#[trigger] chars[k]),
    ensures
        0 <= digits_val(chars, a, c) <= digits_val(chars, a, b),
    decreases b - a,
{
    if b <= a {
    } else if c == b {
        lemma_digits_val_mono(chars, a, (b - 1) as nat, (b - 1) as nat);
    } else {
        lemma_digits_val_mono(chars, a, c, (b - 1) as nat);
    }
}

/// One step of the lexer: from a scan position and line number to the next
/// token (or the end of input), the position just past it, and the line
/// number there. Whitespace is skipped, an identifier run becomes a keyword
/// or identifier token, a digit run becomes an integer literal token — or
/// is skipped outright when its value does not fit in 64 bits — and a
/// punctuation character becomes its own token. A character that fits no
/// class ends the token stream.
pub open spec fn scan(chars: Seq<char>, p: nat, line: nat) -> (Option<TokenS>, nat, nat)
    decreases chars.len() - p,
    via scan_decreases
{
    if p >= chars.len() {
        (Option::None, p, line)
    } else {
        let c = chars[p as int];
        if is_ws(c) {
            scan(chars, p + 1, if c == '\n' { line + 1 } else { line })
        } else if is_ident_start(c) {
            let q = ident_end(chars, p);
            let text = chars.subrange(p as int, q as int);
            match keyword_kind(text) {
                Option::Some(k) => (
                    Option::Some(TokenS { pos: p, kind: k, value: LexValueS::Empty }),
                    q,
                    line,
                ),
                Option::None => (
                    Option::Some(
                        TokenS { pos: p, kind: TokenKind::Ident, value: LexValueS::Ident(text) },
                    ),
                    q,
                    line,
                ),
            }
        } else if is_digit(c) {
            let q = digits_end(chars, p);
            let v = digits_val(chars, p, q);
            if v <= i64::MAX {
                (
                    Option::Some(
                        TokenS { pos: p, kind: TokenKind::Int, value: LexValueS::Int(v as i64) },
                    ),
                    q,
                    line,
                )
            } else {
                scan(chars, q, line)
            }
        } else if is_symbol(c) {
            (Option::Some(TokenS { pos: p, kind: symbol_kind(c), value: LexValueS::Empty }), p + 1, line)
        } else {
            (Option::None, p, line)
        }
    }
}

#[via_fn]
proof fn scan_decreases(chars: Seq<char>, p: nat, line: nat) {
    if p < chars.len() && is_digit(chars[p as int]) {
        lemma_digits_end(chars, p);
    }
}

/// The lexer state after producing one more token: the token becomes the
/// lookahead, and position and line move past it.
pub open spec fn advance_s(st: LexS) -> LexS {
    let (t, q, l2) = scan(st.chars, st.p, st.line);
    LexS { chars: st.chars, p: q, cur: t, line: l2 }
}

/// Whether the lookahead token exists and has the given kind.
pub open spec fn cur_kind_is(st: LexS, k: TokenKind) -> bool {
    match st.cur {
        Option::Some(t) => t.kind == k,
        Option::None => false,
    }
}

/// The lexer state after a conditional consume: the lookahead is consumed
/// exactly when it has the given kind.
pub open spec fn expect_s(st: LexS, k: TokenKind) -> LexS {
    if cur_kind_is(st, k) {
        advance_s(st)
    } else {
        st
    }
}

/// How much input is left to consume: the characters not yet scanned plus
/// the lookahead token. Every token consumed shrinks it.
pub open spec fn lex_m(st: LexS) -> int {
    st.chars.len() - st.p + (if st.cur is Some {
        1int
    } else {
        0int
    })
}

/// Producing a token keeps the source, stays within it, and never grows
/// the remaining input; with a lookahead present it strictly shrinks it.
pub proof fn lemma_advance_m(st: LexS)
    requires
        st.p <= st.chars.len(),
    ensures
        ({
            let st2 = advance_s(st);
            &&& st2.chars == st.chars
            &&& st2.p <= st2.chars.len()
            &&& lex_m(st2) <= lex_m(st)
            &&& (st.cur is Some ==> lex_m(st2) < lex_m(st))
        }),
{
    lemma_scan(st.chars, st.p, st.line);
}

/// Scanning never moves backward, stays within the source, produces a
/// token only by consuming at least one character, and advances the line
/// number by at most one per character passed.
pub proof fn lemma_scan(chars: Seq<char>, p: nat, line: nat)
    requires
        p <= chars.len(),
    ensures
        ({
            let (t, q, l2) = scan(chars, p, line);
            &&& p <= q <= chars.len()
            &&& (t is Some ==> q >= p + 1)
            &&& line <= l2
            &&& l2 - line <= q - p
        }),
    decreases chars.len() - p,
{
    if p < chars.len() {
        let c = chars[p as int];
        if is_ws(c) {
            lemma_scan(chars, p + 1, if c == '\n' { line + 1 } else { line });
        } else if is_ident_start(c) {
            lemma_ident_end(chars, p);
        } else if is_digit(c) {
            lemma_digits_end(chars, p);
            let q = digits_end(chars, p);
            if digits_val(chars, p, q) > i64::MAX {
                lemma_scan(chars, q, line);
            }
        }
    }
}

/// Relies on `String::push`: appending one character appends it to the
/// string's character sequence.
pub assume_specification[ String::push ](s: &mut String, c: char)
    ensures
        final(s)@ == old(s)@.push(c),
;

/// Whether `c` may start an identifier or keyword.
fn is_ident_start_c(c: char) -> (b: bool)
    ensures
        b == is_ident_start(c),
{
    let u = c as u32;
    (97 <= u && u <= 122) || (65 <= u && u <= 90) || u == 95
}

/// Whether `c` is a decimal digit.
fn is_digit_c(c: char) -> (b: bool)
    ensures
        b == is_digit(c),
{
    let u = c as u32;
    48 <= u && u <= 57
}

/// Whether `c` may continue an identifier or keyword.
fn is_ident_char_c(c: char) -> (b: bool)
    ensures
        b == is_ident_char(c),
{
    is_ident_start_c(c) || is_digit_c(c)
}

/// Whether `c` is a single-character punctuation token.
fn is_symbol_c(c: char) -> (b: bool)
    ensures
        b == is_symbol(c),
{
    let u = c as u32;
    33 <= u && u <= 126 && !is_ident_char_c(c)
}

/// The token kind of a punctuation character.
fn symbol_token_kind(c: char) -> (k: TokenKind)
    ensures
        k == symbol_kind(c),
{
    match c {
        '!' => TokenKind::Bang,
        '"' => TokenKind::Quote,
        '#' => TokenKind::Hashtag,
        '$' => TokenKind::Dollar,
        '%' => TokenKind::Percent,
        '&' => TokenKind::Ampersand,
        '\'' => TokenKind::Apostrophe,
        '(' => TokenKind::LeftParen,
        ')' => TokenKind::RightParen,
        '*' => TokenKind::Asterisk,
        '+' => TokenKind::Plus,
        ',' => TokenKind::Comma,
        '-' => TokenKind::Hyphen,
        '.' => TokenKind::Period,
        '/' => TokenKind::Slash,
        ':' => TokenKind::Colon,
        ';' => TokenKind::SemiColon,
        '<' => TokenKind::Lt,
        '=' => TokenKind::Eq,
        '>' => TokenKind::Gt,
        '?' => TokenKind::Question,
        '@' => TokenKind::At,
        '[' => TokenKind::LeftBracket,
        '\\' => TokenKind::BackSlash,
        ']' => TokenKind::RightBracket,
        '^' => TokenKind::Circumflex,
        '_' => TokenKind::LowLine,
        '`' => TokenKind::Grave,
        '{' => TokenKind::LeftBrace,
        '|' => TokenKind::VerticalBar,
        '}' => TokenKind::RightBrace,
        '~' => TokenKind::Tilde,
        _ => TokenKind::Bang,
    }
}

/// The text of the characters at positions `start` (inclusive) to `end`
/// (exclusive), as a string.
fn text_of(chars: &Vec<char>, start: usize, end: usize) -> (s: String)
    requires
        start <= end <= chars@.len(),
    ensures
        s@ == chars@.subrange(start as int, end as int),
{
    let mut s = String::new();
    let mut k = start;
    #[verifier::loop_isolation(false)]
    while k < end
        invariant
            start <= k <= end,
            s@ == chars@.subrange(start as int, k as int),
        decreases end - k,
    {
        s.push(chars[k]);
        proof {
            assert(chars@.subrange(start as int, k + 1) =~= chars@.subrange(
                start as int,
                k as int,
            ).push(chars@[k as int]));
        }
        k = k + 1;
    }
    s
}

/// The keyword kind of the text at positions `start` to `end`, if that
/// text is a keyword.
fn keyword_of(chars: &Vec<char>, start: usize, end: usize) -> (k: Option<TokenKind>)
    requires
        start <= end <= chars@.len(),
    ensures
        k == keyword_kind(chars@.subrange(start as int, end as int)),
{
    let n = end - start;
    if n == 3 && chars[start] == 'l' && chars[start + 1] == 'e' && chars[start + 2] == 't' {
        Some(TokenKind::Let)
    } else if n == 2 && chars[start] == 'f' && chars[start + 1] == 'n' {
        Some(TokenKind::Fn)
    } else if n == 6 && chars[start] == 'r' && chars[start + 1] == 'e' && chars[start + 2] == 't'
        && chars[start + 3] == 'u' && chars[start + 4] == 'r' && chars[start + 5] == 'n' {
        Some(TokenKind::Return)
    } else {
        None
    }
}

/// A copy of the lookahead slot with the same abstract contents.
fn clone_opt_token(t: &Option<Token>) -> (r: Option<Token>)
    ensures
        opt_token_view(r) == opt_token_view(*t),
{
    match t {
        None => None,
        Some(tok) => Some(
            Token {
                pos: tok.pos,
                kind: tok.kind,
                value: match &tok.value {
                    LexValue::Empty => LexValue::Empty,
                    LexValue::Int(n) => LexValue::Int(*n),
                    LexValue::Ident(s) => LexValue::Ident(s.clone()),
                },
            },
        ),
    }
}

/// The lexer: a cursor over the source characters with one token of
/// lookahead in `cur` and a line counter for diagnostics.
pub struct Lex {
    pub(crate) p: usize,
    pub(crate) chars: Vec<char>,
    pub cur: Option<Token>,
    pub line: usize,
}

impl View for Lex {
    type V = LexS;

    open(crate) spec fn view(&self) -> LexS {
        LexS {
            chars: self.chars@,
            p: self.p as nat,
            cur: opt_token_view(self.cur),
            line: self.line as nat,
        }
    }
}

impl Lex {
    /// The lexer's internal consistency: the scan position lies within the
    /// source, and the line counter has grown by at most one per character
    /// consumed, so that neither can overflow.
    pub open(crate) spec fn wf(&self) -> bool {
        &&& self.p <= self.chars@.len()
        &&& self.line as int + self.chars@.len() - self.p as int <= usize::MAX as int
    }

    /// A lexer over `code`, with the first token already scanned into the
    /// lookahead slot.
    pub fn new(code: &str) -> (l: Lex)
        requires
            code@.len() < usize::MAX,
        ensures
            l.wf(),
            l@ == advance_s(LexS { chars: code@, p: 0, cur: Option::None, line: 1 }),
    {
        let mut chars: Vec<char> = Vec::new();
        let mut it = code.chars();
        loop
            invariant
                it.obeys_prophetic_iter_laws(),
                chars@ + it.remaining() == code@,
            ensures
                chars@ == code@,
            decreases code@.len() - chars@.len(),
        {
            match it.next() {
                Some(c) => {
                    chars.push(c);
                },
                None => {
                    proof {
                        assert(it.remaining() =~= Seq::<char>::empty());
                        assert(chars@ =~= code@);
                    }
                    break;
                },
            }
        }
        let mut l = Lex { p: 0, chars, cur: None, line: 1 };
        l.next();
        l
    }

    /// Scans the next token into the lookahead slot and also returns it.
    pub fn next(&mut self) -> (r: Option<Token>)
        requires
            old(self).wf(),
        ensures
            final(self).wf(),
            final(self)@ == advance_s(old(self)@),
            opt_token_view(r) == final(self)@.cur,
    {
        #[verifier::loop_isolation(false)]
        loop
            invariant
                self.wf(),
                self.chars@ == old(self)@.chars,
                scan(self.chars@, self.p as nat, self.line as nat) == scan(
                    old(self)@.chars,
                    old(self)@.p,
                    old(self)@.line,
                ),
            decreases self.chars@.len() - self.p,
        {
            if self.p >= self.chars.len() {
                self.cur = None;
                return None;
            }
            let c = self.chars[self.p];
            if c == ' ' || c == '\t' || c == '\n' || c == '\r' {
                if c == '\n' {
                    self.line = self.line + 1;
                }
                self.p = self.p + 1;
            } else if is_ident_start_c(c) {
                let start = self.p;
                proof {
                    lemma_ident_end(self.chars@, start as nat);
                }
                let mut q = self.p;
                #[verifier::loop_isolation(false)]
                while q < self.chars.len() && is_ident_char_c(self.chars[q])
                    invariant
                        start <= q <= self.chars@.len(),
                        ident_end(self.chars@, start as nat) == ident_end(
                            self.chars@,
                            q as nat,
                        ),
                    decreases self.chars@.len() - q,
                {
                    q = q + 1;
                }
                let text = text_of(&self.chars, start, q);
                let kw = keyword_of(&self.chars, start, q);
                self.p = q;
                match kw {
                    Some(k) => {
                        self.cur = Some(Token { pos: start, kind: k, value: LexValue::Empty });
                    },
                    None => {
                        self.cur = Some(
                            Token { pos: start, kind: TokenKind::Ident, value: LexValue::Ident(text) },
                        );
                    },
                }
                return clone_opt_token(&self.cur);
            } else if is_digit_c(c) {
                let start = self.p;
                proof {
                    lemma_digits_end(self.chars@, start as nat);
                }
                let mut q = self.p;
                #[verifier::loop_isolation(false)]
                while q < self.chars.len() && is_digit_c(self.chars[q])
                    invariant
                        start <= q <= self.chars@.len(),
                        digits_end(self.chars@, start as nat) == digits_end(
                            self.chars@,
                            q as nat,
                        ),
                    decreases self.chars@.len() - q,
                {
                    q = q + 1;
                }
                let ghost dend = digits_end(self.chars@, start as nat);
                let mut val: u64 = 0;
                let mut k = start;
                let mut fits = true;
                #[verifier::loop_isolation(false)]
                while k < q && fits
                    invariant
                        start <= k <= q,
                        fits ==> val <= i64::MAX as u64 && val as int == digits_val(
                            self.chars@,
                            start as nat,
                            k as nat,
                        ),
                        !fits ==> digits_val(self.chars@, start as nat, dend) > i64::MAX,
                    decreases q - k, (if fits { 1int } else { 0int }),
                {
                    let d = (self.chars[k] as u32 - 48) as u64;
                    if val > (9_223_372_036_854_775_807u64 - d) / 10 {
                        proof {
                            assert(10 * (val as int) + d as int > i64::MAX);
                            assert(digits_val(self.chars@, start as nat, (k + 1) as nat)
                                == digits_val(self.chars@, start as nat, k as nat) * 10
                                + (self.chars@[k as int] as u32 - 48));
                            lemma_digits_val_mono(self.chars@, start as nat, (k + 1) as nat, dend);
                        }
                        fits = false;
                    } else {
                        val = val * 10 + d;
                        k = k + 1;
                    }
                }
                if fits {
                    self.p = q;
                    self.cur = Some(
                        Token { pos: start, kind: TokenKind::Int, value: LexValue::Int(val as i64) },
                    );
                    return clone_opt_token(&self.cur);
                }
                // an integer literal too large for 64 bits is skipped
                self.p = q;
            } else if is_symbol_c(c) {
                let k = symbol_token_kind(c);
                self.cur = Some(Token { pos: self.p, kind: k, value: LexValue::Empty });
                self.p = self.p + 1;
                return clone_opt_token(&self.cur);
            } else {
                // a character no token can start ends the stream
                self.cur = None;
                return None;
            }
        }
    }

    /// Returns the token one past the lookahead would be — by scanning it
    /// and rescanning the same position, so the lookahead ends up on that
    /// token, as a plain [`Lex::next`] would leave it.
    pub fn peek(&mut self) -> (r: Option<Token>)
        requires
            old(self).wf(),
        ensures
            final(self).wf(),
            final(self)@ == advance_s(old(self)@),
            opt_token_view(r) == final(self)@.cur,
    {
        let p_saved = self.p;
        let line_saved = self.line;
        let t = self.next();
        self.p = p_saved;
        self.line = line_saved;
        self.next();
        t
    }

    /// Consumes the lookahead when it has the given kind; reports whether
    /// it did. A mismatch is tolerated: the caller carries on, which gives
    /// the parser its best-effort recovery.
    pub fn expect(&mut self, other: TokenKind) -> (r: bool)
        requires
            old(self).wf(),
        ensures
            final(self).wf(),
            r == cur_kind_is(old(self)@, other),
            final(self)@ == expect_s(old(self)@, other),
    {
        let hit = match &self.cur {
            Some(t) => t.kind == other,
            None => false,
        };
        if hit {
            self.next();
        }
        hit
    }

    /// Consumes the lookahead when it has the given kind; reports whether
    /// it did.
    pub fn maybe(&mut self, other: TokenKind) -> (r: bool)
        requires
            old(self).wf(),
        ensures
            final(self).wf(),
            r == cur_kind_is(old(self)@, other),
            final(self)@ == expect_s(old(self)@, other),
    {
        let hit = match &self.cur {
            Some(t) => t.kind == other,
            None => false,
        };
        if hit {
            self.next();
        }
        hit
    }
}

} // verus!
