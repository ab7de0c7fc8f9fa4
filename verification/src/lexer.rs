use vstd::prelude::*;
use vstd::string::*;

verus! {

/// A token of the process-description language.
#[derive(Debug, Clone, PartialEq)]
pub enum Token {
    /// `=` for pool
    Pool(String),
    /// `==` for lane
    Lane(String),
    /// `#` for start event
    EventStart(String),
    /// `#M` for start message event
    EventStartMessage(String),
    /// `#T` for start timer event
    EventStartTimer(String),
    /// `#S` for start signal event
    EventStartSignal(String),
    /// `#E` for start error event
    EventStartError(String),
    /// `#M` for catch message event
    EventCatchMessage(String),
    /// `#T` for catch timer event
    EventCatchTimer(String),
    /// `#S` for catch signal event
    EventCatchSignal(String),
    /// `.` for end event
    EventEnd(String),
    /// `.M` for end message event
    EventEndMessage(String),
    /// `.S` for end signal event
    EventEndSignal(String),
    /// `.E` for end error event
    EventEndError(String),
    /// `-` for task activity
    ActivityTask(String),
    /// `X` for gateway
    GatewayExclusive,
    /// `+` for parallel gateway
    GatewayParallel,
    /// `O` for inclusive gateway
    GatewayInclusive,
    /// `*` for complex gateway
    GatewayEvent,
    /// `G` for go
    Go,
    /// `J` for join event
    Join(String, String),
    /// `:` for branch label
    Label(String),
    /// `->` branch label and text
    Branch(String, String),
    /// `<-` for join gateway
    JoinLabel(String),
    /// Any freeform text
    Text(String),
    /// End of file/input
    Eof,
}

/// A lexing failure: the offending character, line, column and a
/// two-line highlight of the place.
#[derive(Debug, Clone)]
pub enum LexerError {
    /// character, line, column, highlight
    UnexpectedCharacter(char, usize, usize, String),
    /// line, column, highlight
    UnterminatedString(usize, usize, String),
    /// character, line, column, highlight
    MissingCharacter(char, usize, usize, String),
}

/// A token over mathematical strings: what the lexer's contracts speak
/// of.
pub enum SpecToken {
    Pool(Seq<char>),
    Lane(Seq<char>),
    EventStart(Seq<char>),
    EventStartMessage(Seq<char>),
    EventStartTimer(Seq<char>),
    EventStartSignal(Seq<char>),
    EventStartError(Seq<char>),
    EventCatchMessage(Seq<char>),
    EventCatchTimer(Seq<char>),
    EventCatchSignal(Seq<char>),
    EventEnd(Seq<char>),
    EventEndMessage(Seq<char>),
    EventEndSignal(Seq<char>),
    EventEndError(Seq<char>),
    ActivityTask(Seq<char>),
    GatewayExclusive,
    GatewayParallel,
    GatewayInclusive,
    GatewayEvent,
    Go,
    Join(Seq<char>, Seq<char>),
    Label(Seq<char>),
    Branch(Seq<char>, Seq<char>),
    JoinLabel(Seq<char>),
    Text(Seq<char>),
    Eof,
}

/// A lexing failure over mathematical strings.
pub enum SpecLexError {
    UnexpectedCharacter(char, usize, usize, Seq<char>),
    UnterminatedString(usize, usize, Seq<char>),
    MissingCharacter(char, usize, usize, Seq<char>),
}

/// An executable token carrying the same content as a mathematical one.
pub open spec fn spec_token_matches(t: Token, s: SpecToken) -> bool {
    match (t, s) {
        (Token::Pool(a), SpecToken::Pool(b)) => a@ == b,
        (Token::Lane(a), SpecToken::Lane(b)) => a@ == b,
        (Token::EventStart(a), SpecToken::EventStart(b)) => a@ == b,
        (Token::EventStartMessage(a), SpecToken::EventStartMessage(b)) => a@ == b,
        (Token::EventStartTimer(a), SpecToken::EventStartTimer(b)) => a@ == b,
        (Token::EventStartSignal(a), SpecToken::EventStartSignal(b)) => a@ == b,
        (Token::EventStartError(a), SpecToken::EventStartError(b)) => a@ == b,
        (Token::EventCatchMessage(a), SpecToken::EventCatchMessage(b)) => a@ == b,
        (Token::EventCatchTimer(a), SpecToken::EventCatchTimer(b)) => a@ == b,
        (Token::EventCatchSignal(a), SpecToken::EventCatchSignal(b)) => a@ == b,
        (Token::EventEnd(a), SpecToken::EventEnd(b)) => a@ == b,
        (Token::EventEndMessage(a), SpecToken::EventEndMessage(b)) => a@ == b,
        (Token::EventEndSignal(a), SpecToken::EventEndSignal(b)) => a@ == b,
        (Token::EventEndError(a), SpecToken::EventEndError(b)) => a@ == b,
        (Token::ActivityTask(a), SpecToken::ActivityTask(b)) => a@ == b,
        (Token::GatewayExclusive, SpecToken::GatewayExclusive) => true,
        (Token::GatewayParallel, SpecToken::GatewayParallel) => true,
        (Token::GatewayInclusive, SpecToken::GatewayInclusive) => true,
        (Token::GatewayEvent, SpecToken::GatewayEvent) => true,
        (Token::Go, SpecToken::Go) => true,
        (Token::Join(a1, a2), SpecToken::Join(b1, b2)) => a1@ == b1 && a2@ == b2,
        (Token::Label(a), SpecToken::Label(b)) => a@ == b,
        (Token::Branch(a1, a2), SpecToken::Branch(b1, b2)) => a1@ == b1 && a2@ == b2,
        (Token::JoinLabel(a), SpecToken::JoinLabel(b)) => a@ == b,
        (Token::Text(a), SpecToken::Text(b)) => a@ == b,
        (Token::Eof, SpecToken::Eof) => true,
        _ => false,
    }
}

/// An executable error carrying the same content as a mathematical one.
pub open spec fn spec_error_matches(e: LexerError, s: SpecLexError) -> bool {
    match (e, s) {
        (
            LexerError::UnexpectedCharacter(c1, l1, co1, h1),
            SpecLexError::UnexpectedCharacter(c2, l2, co2, h2),
        ) => c1 == c2 && l1 == l2 && co1 == co2 && h1@ == h2,
        (
            LexerError::UnterminatedString(l1, co1, h1),
            SpecLexError::UnterminatedString(l2, co2, h2),
        ) => l1 == l2 && co1 == co2 && h1@ == h2,
        (
            LexerError::MissingCharacter(c1, l1, co1, h1),
            SpecLexError::MissingCharacter(c2, l2, co2, h2),
        ) => c1 == c2 && l1 == l2 && co1 == co2 && h1@ == h2,
        _ => false,
    }
}

/// The mathematical state of a lexer: its input, cursor and bookkeeping.
pub struct SpecLexer {
    pub input: Seq<char>,
    pub position: int,
    pub current_char: Option<char>,
    pub line: int,
    pub column: int,
    pub seen_start: bool,
}

/// A well-formed lexer state: the cursor holds the character just before
/// the position, the position runs out exactly when the cursor does, and
/// the line and column stay within the consumed prefix.
pub open spec fn spec_wf(l: SpecLexer) -> bool {
    &&& 0 <= l.position <= l.input.len()
    &&& (match l.current_char {
        Option::Some(c) => l.position >= 1 && l.input[l.position - 1] == c && 1 <= l.line
            <= l.position && 0 <= l.column <= l.position,
        Option::None => l.position == l.input.len() && 1 <= l.line <= l.position + 1 && 0
            <= l.column <= l.position + 1,
    })
}

/// How much input is left to consume.
pub open spec fn spec_fuel(l: SpecLexer) -> int {
    l.input.len() - l.position + (if l.current_char is Some {
        1int
    } else {
        0int
    })
}

/// The characters treated as whitespace.
pub open spec fn spec_is_ws(c: char) -> bool {
    c == ' ' || c == '\t' || c == '\n' || c == '\r' || c == '\u{b}' || c == '\u{c}'
}

/// The characters that end freeform text.
pub open spec fn spec_is_stop(c: char) -> bool {
    c == '\n' || c == '-' || c == '.' || c == '#' || c == '"'
}

/// The lower- or upper-case spelling of an event-kind letter.
pub open spec fn spec_is_letter(c: char, lower: char, upper: char) -> bool {
    c == lower || c == upper
}

/// One step of the cursor: the line and column advance over the consumed
/// character, then the next character is loaded.
pub open spec fn spec_advance(l: SpecLexer) -> SpecLexer {
    let line2 = if l.current_char == Some('\n') {
        l.line + 1
    } else {
        l.line
    };
    let column2 = if l.current_char == Some('\n') {
        1int
    } else {
        l.column + 1
    };
    if l.position < l.input.len() {
        SpecLexer {
            position: l.position + 1,
            current_char: Some(l.input[l.position]),
            line: line2,
            column: column2,
            ..l
        }
    } else {
        SpecLexer { current_char: None, line: line2, column: column2, ..l }
    }
}

/// Advancing a well-formed state keeps it well-formed and consumes fuel.
pub proof fn lemma_advance_wf(l: SpecLexer)
    requires
        spec_wf(l),
        l.current_char is Some,
    ensures
        spec_wf(spec_advance(l)),
        spec_fuel(spec_advance(l)) < spec_fuel(l),
        spec_advance(l).input == l.input,
        spec_advance(l).seen_start == l.seen_start,
{
}

/// The cursor after skipping all leading whitespace.
pub open spec fn spec_skip_ws(l: SpecLexer) -> SpecLexer
    decreases spec_fuel(l),
{
    match l.current_char {
        Option::Some(c) => if spec_is_ws(c) && 0 <= spec_fuel(spec_advance(l)) < spec_fuel(l) {
            spec_skip_ws(spec_advance(l))
        } else {
            l
        },
        Option::None => l,
    }
}

/// The cursor after consuming freeform text, and the raw text consumed.
pub open spec fn spec_scan_text(l: SpecLexer) -> (SpecLexer, Seq<char>)
    decreases spec_fuel(l),
{
    match l.current_char {
        Option::Some(c) => if !spec_is_stop(c) && 0 <= spec_fuel(spec_advance(l)) < spec_fuel(l) {
            let r = spec_scan_text(spec_advance(l));
            (r.0, seq![c] + r.1)
        } else {
            (l, Seq::empty())
        },
        Option::None => (l, Seq::empty()),
    }
}

/// Leading whitespace removed.
pub open spec fn spec_trim_start(s: Seq<char>) -> Seq<char>
    decreases s.len(),
{
    if s.len() > 0 && spec_is_ws(s.first()) {
        spec_trim_start(s.drop_first())
    } else {
        s
    }
}

/// Trailing whitespace removed.
pub open spec fn spec_trim_end(s: Seq<char>) -> Seq<char>
    decreases s.len(),
{
    if s.len() > 0 && spec_is_ws(s.last()) {
        spec_trim_end(s.drop_last())
    } else {
        s
    }
}

/// Surrounding whitespace removed.
pub open spec fn spec_trim(s: Seq<char>) -> Seq<char> {
    spec_trim_end(spec_trim_start(s))
}

/// The cursor and trimmed text that reading freeform text produces.
pub open spec fn spec_read_text(l: SpecLexer) -> (SpecLexer, Seq<char>) {
    let r = spec_scan_text(l);
    (r.0, spec_trim(r.1))
}

/// `n` spaces.
pub open spec fn spec_spaces(n: int) -> Seq<char>
    decreases n,
{
    if n <= 0 {
        Seq::empty()
    } else {
        spec_spaces(n - 1).push(' ')
    }
}

/// The head of the input up to (not including) its first newline.
pub open spec fn spec_line_head(s: Seq<char>) -> Seq<char>
    decreases s.len(),
{
    if s.len() == 0 || s.first() == '\n' {
        Seq::empty()
    } else {
        seq![s.first()] + spec_line_head(s.drop_first())
    }
}

/// The `n`-th newline-separated line of the input (zero-based); empty
/// when the input has fewer lines.
pub open spec fn spec_nth_line(s: Seq<char>, n: int) -> Seq<char>
    decreases s.len(),
{
    if n <= 0 {
        spec_line_head(s)
    } else if s.len() == 0 {
        Seq::empty()
    } else if s.first() == '\n' {
        spec_nth_line(s.drop_first(), n - 1)
    } else {
        spec_nth_line(s.drop_first(), n)
    }
}

/// The two-line highlight an error carries: the offending line, then a
/// caret under the offending column.
pub open spec fn spec_highlight(input: Seq<char>, line: int, column: int) -> Seq<char> {
    spec_nth_line(input, line - 1) + seq!['\n'] + spec_spaces(column - 2).push('^')
}

/// What reading a quoted text produces: the text between the quotes, or
/// an unterminated-string error, or the empty text when no quote opens.
pub open spec fn spec_read_quoted(l: SpecLexer) -> (SpecLexer, Result<Seq<char>, SpecLexError>) {
    if l.current_char == Some('"') {
        let r = spec_read_text(spec_advance(l));
        let l2 = r.0;
        if l2.current_char == Some('"') {
            (spec_advance(l2), Ok(r.1))
        } else {
            (
                l2,
                Err(
                    SpecLexError::UnterminatedString(
                        l2.line as usize,
                        l2.column as usize,
                        spec_highlight(l2.input, l2.line, l2.column),
                    ),
                ),
            )
        }
    } else {
        (l, Ok(Seq::empty()))
    }
}

/// What the next token is, and the state after it: the lexer's whole
/// step, over mathematical strings.
pub open spec fn spec_next_token(l0: SpecLexer) -> (SpecLexer, Result<SpecToken, SpecLexError>)
    decreases spec_fuel(l0),
{
    let l = spec_skip_ws(l0);
    match l.current_char {
        Option::None => (l, Ok(SpecToken::Eof)),
        Option::Some(c0) => {
            if c0 == '/' {
                let l1 = spec_advance(l);
                if l1.current_char == Some('/') {
                    let l2 = spec_skip_comment(l1);
                    let l3 = if l2.current_char == Some('\n') {
                        spec_advance(l2)
                    } else {
                        l2
                    };
                    if 0 <= spec_fuel(l3) < spec_fuel(l0) {
                        spec_next_token(l3)
                    } else {
                        (l3, Ok(SpecToken::Eof))
                    }
                } else {
                    (
                        l1,
                        Err(
                            SpecLexError::UnexpectedCharacter(
                                '/',
                                l1.line as usize,
                                l1.column as usize,
                                spec_highlight(l1.input, l1.line, l1.column),
                            ),
                        ),
                    )
                }
            } else if c0 == '=' {
                let l1 = spec_advance(l);
                if l1.current_char == Some('=') {
                    let r = spec_read_text(spec_advance(l1));
                    (r.0, Ok(SpecToken::Lane(r.1)))
                } else {
                    let r = spec_read_text(l1);
                    (r.0, Ok(SpecToken::Pool(r.1)))
                }
            } else if c0 == '#' {
                let l1 = spec_advance(l);
                match l1.current_char {
                    Option::None => (
                        l1,
                        Err(
                            SpecLexError::MissingCharacter(
                                '#',
                                l1.line as usize,
                                l1.column as usize,
                                spec_highlight(l1.input, l1.line, l1.column),
                            ),
                        ),
                    ),
                    Option::Some(ch) => {
                        if !l1.seen_start {
                            let l2 = spec_advance(
                                SpecLexer { seen_start: true, ..l1 },
                            );
                            let r = spec_read_text(l2);
                            if spec_is_letter(ch, 'm', 'M') {
                                (r.0, Ok(SpecToken::EventStartMessage(r.1)))
                            } else if spec_is_letter(ch, 't', 'T') {
                                (r.0, Ok(SpecToken::EventStartTimer(r.1)))
                            } else if spec_is_letter(ch, 's', 'S') {
                                (r.0, Ok(SpecToken::EventStartSignal(r.1)))
                            } else if spec_is_letter(ch, 'e', 'E') {
                                (r.0, Ok(SpecToken::EventStartError(r.1)))
                            } else {
                                (r.0, Ok(SpecToken::EventStart(r.1)))
                            }
                        } else {
                            if spec_is_letter(ch, 'm', 'M') || spec_is_letter(ch, 't', 'T')
                                || spec_is_letter(ch, 's', 'S') {
                                let l2 = spec_advance(l1);
                                let r = spec_read_text(l2);
                                if spec_is_letter(ch, 'm', 'M') {
                                    (r.0, Ok(SpecToken::EventCatchMessage(r.1)))
                                } else if spec_is_letter(ch, 't', 'T') {
                                    (r.0, Ok(SpecToken::EventCatchTimer(r.1)))
                                } else {
                                    (r.0, Ok(SpecToken::EventCatchSignal(r.1)))
                                }
                            } else {
                                (
                                    l1,
                                    Err(
                                        SpecLexError::UnexpectedCharacter(
                                            ch,
                                            l1.line as usize,
                                            l1.column as usize,
                                            spec_highlight(l1.input, l1.line, l1.column),
                                        ),
                                    ),
                                )
                            }
                        }
                    },
                }
            } else if c0 == '-' {
                let l1 = spec_advance(l);
                if l1.current_char == Some('>') {
                    let r = spec_read_text(spec_advance(l1));
                    let q = spec_read_quoted(r.0);
                    match q.1 {
                        Ok(text) => (q.0, Ok(SpecToken::Branch(r.1, text))),
                        Err(e) => (q.0, Err(e)),
                    }
                } else {
                    let r = spec_read_text(l1);
                    (r.0, Ok(SpecToken::ActivityTask(r.1)))
                }
            } else if c0 == '.' {
                let l1 = spec_advance(l);
                match l1.current_char {
                    Option::None => (
                        l1,
                        Err(
                            SpecLexError::MissingCharacter(
                                '#',
                                l1.line as usize,
                                l1.column as usize,
                                spec_highlight(l1.input, l1.line, l1.column),
                            ),
                        ),
                    ),
                    Option::Some(ch) => {
                        let r = spec_read_text(l1);
                        let l2 = SpecLexer { seen_start: false, ..r.0 };
                        if ch == ' ' {
                            (l2, Ok(SpecToken::EventEnd(r.1)))
                        } else if spec_is_letter(ch, 'm', 'M') {
                            (l2, Ok(SpecToken::EventEndMessage(r.1)))
                        } else if spec_is_letter(ch, 's', 'S') {
                            (l2, Ok(SpecToken::EventEndSignal(r.1)))
                        } else if spec_is_letter(ch, 'e', 'E') {
                            (l2, Ok(SpecToken::EventEndError(r.1)))
                        } else {
                            (l2, Ok(SpecToken::EventStart(r.1)))
                        }
                    },
                }
            } else if c0 == '<' {
                let l1 = spec_advance(l);
                if l1.current_char == Some('-') {
                    let r = spec_read_text(spec_advance(l1));
                    (r.0, Ok(SpecToken::JoinLabel(r.1)))
                } else {
                    let bad = match l1.current_char {
                        Option::Some(c) => c,
                        Option::None => '\u{0}',
                    };
                    (
                        l1,
                        Err(
                            SpecLexError::UnexpectedCharacter(
                                bad,
                                l1.line as usize,
                                l1.column as usize,
                                spec_highlight(l1.input, l1.line, l1.column),
                            ),
                        ),
                    )
                }
            } else if c0 == 'X' {
                (spec_advance(l), Ok(SpecToken::GatewayExclusive))
            } else if c0 == '+' {
                (spec_advance(l), Ok(SpecToken::GatewayParallel))
            } else if c0 == 'O' {
                (spec_advance(l), Ok(SpecToken::GatewayInclusive))
            } else if c0 == '*' {
                (spec_advance(l), Ok(SpecToken::GatewayEvent))
            } else if c0 == 'G' {
                (spec_advance(l), Ok(SpecToken::Go))
            } else if c0 == 'J' {
                let r = spec_read_text(spec_advance(l));
                let q = spec_read_quoted(r.0);
                match q.1 {
                    Ok(text) => (q.0, Ok(SpecToken::Join(r.1, text))),
                    Err(e) => (q.0, Err(e)),
                }
            } else {
                // freeform text; a trailing colon makes it a label
                let r = spec_read_text(l);
                if r.1.len() > 0 && r.1.last() == ':' {
                    (r.0, Ok(SpecToken::Label(r.1.drop_last())))
                } else {
                    (r.0, Ok(SpecToken::Text(r.1)))
                }
            }
        },
    }
}

/// The cursor after skipping to the end of a comment line: everything up
/// to the newline, or the end of the input.
pub open spec fn spec_skip_comment(l: SpecLexer) -> SpecLexer
    decreases spec_fuel(l),
{
    match l.current_char {
        Option::Some(c) => if c != '\n' && 0 <= spec_fuel(spec_advance(l)) < spec_fuel(l) {
            spec_skip_comment(spec_advance(l))
        } else {
            l
        },
        Option::None => l,
    }
}

/// The lexer: walks the input character by character and hands out
/// tokens. The state it is modelled by is `SpecLexer` over the input's
/// characters.
#[derive(Clone)]
pub struct Lexer {
    /// Input string
    pub input: String,
    /// The input's characters, for single-step scanning
    pub chars: Vec<char>,
    /// Current position in the input
    pub position: usize,
    /// Current character being examined
    pub current_char: Option<char>,
    /// Current line number
    pub line: usize,
    /// Current column number
    pub column: usize,
    /// State flag for distinguishing event start/middle
    pub seen_start: bool,
}

impl Lexer {
    /// The mathematical state of this lexer.
    pub open spec fn view(&self) -> SpecLexer {
        SpecLexer {
            input: self.input@,
            position: self.position as int,
            current_char: self.current_char,
            line: self.line as int,
            column: self.column as int,
            seen_start: self.seen_start,
        }
    }

    /// The representation invariant: the character list mirrors the input
    /// string and the cursor is well-formed.
    pub open spec fn wf(&self) -> bool {
        &&& self.chars@ == self.input@
        &&& spec_wf(self@)
        &&& self.input@.len() <= 0xfff_ffff
    }

    /// Creates a lexer over an input string, loaded onto its first
    /// character.
    pub fn new(input: &str) -> (lexer: Lexer)
        requires
            input@.len() <= 0xfff_ffff,
        ensures
            lexer.wf(),
            lexer@ == spec_advance(
                SpecLexer {
                    input: input@,
                    position: 0,
                    current_char: None,
                    line: 1,
                    column: 0,
                    seen_start: false,
                },
            ),
    {
        let n = input.unicode_len();
        let mut chars: Vec<char> = Vec::new();
        let mut i: usize = 0;
        while i < n
            invariant
                n == input@.len(),
                0 <= i <= n,
                chars@ == input@.take(i as int),
            decreases n - i,
        {
            let c = input.get_char(i);
            chars.push(c);
            proof {
                assert(chars@ =~= input@.take(i as int + 1));
            }
            i += 1;
        }
        proof {
            assert(chars@ =~= input@);
        }
        let mut lexer = Lexer {
            input: input.to_owned(),
            chars,
            position: 0,
            current_char: None,
            line: 1,
            column: 0,
            seen_start: false,
        };
        lexer.advance();
        lexer
    }

    /// Advance to the next character in the input.
    fn advance(&mut self)
        requires
            old(self).chars@ == old(self).input@,
            old(self).input@.len() <= 0xfff_ffff,
            old(self).position <= old(self).input@.len(),
            match old(self).current_char {
                Option::Some(c) => old(self).position >= 1 && old(self).input@[old(
                    self,
                ).position - 1] == c && 1 <= old(self).line <= old(self).position && 0 <= old(
                    self,
                ).column <= old(self).position,
                Option::None => old(self).position == 0 && old(self).line == 1 && old(self).column
                    == 0,
            },
        ensures
            final(self)@ == spec_advance(old(self)@),
            final(self).chars@ == final(self).input@,
            final(self).input@ == old(self).input@,
            spec_wf(final(self)@),
            final(self).wf(),
    {
        if self.current_char == Some('\n') {
            self.line = self.line + 1;
            self.column = 1;
        } else {
            self.column = self.column + 1;
        }
        if self.position < self.chars.len() {
            self.current_char = Some(self.chars[self.position]);
            self.position = self.position + 1;
        } else {
            self.current_char = None;
        }
    }
}


/// What a second highlight form carries: the line, then a caret indented
/// by the full column count.
pub open spec fn spec_highlight_line(input: Seq<char>, line_nr: int, column: int) -> Seq<char> {
    spec_nth_line(input, line_nr - 1) + seq!['\n'] + spec_spaces(column).push('^')
}

/// Whether a character counts as whitespace.
fn is_ws_char(c: char) -> (r: bool)
    ensures
        r == spec_is_ws(c),
{
    c == ' ' || c == '\t' || c == '\n' || c == '\r' || c == '\u{b}' || c == '\u{c}'
}

/// Whether a character ends freeform text.
fn is_stop_char(c: char) -> (r: bool)
    ensures
        r == spec_is_stop(c),
{
    c == '\n' || c == '-' || c == '.' || c == '#' || c == '"'
}

/// Dropping the leading whitespace of a known-whitespace prefix reaches
/// the first non-whitespace position.
proof fn lemma_trim_start_bound(s: Seq<char>, k: int)
    requires
        0 <= k <= s.len(),
        forall|j: int| 0 <= j < k ==> spec_is_ws(#[trigger] s[j]),
        k < s.len() ==> !spec_is_ws(s[k]),
    ensures
        spec_trim_start(s) =~= s.skip(k),
    decreases k,
{
    if k == 0 {
        if s.len() > 0 && spec_is_ws(s.first()) {
            assert(false);
        }
        assert(s.skip(0) =~= s);
    } else {
        assert(spec_is_ws(s.first()));
        lemma_trim_start_bound(s.drop_first(), k - 1);
        assert(s.drop_first().skip(k - 1) =~= s.skip(k));
    }
}

/// Dropping the trailing whitespace of a known-whitespace suffix reaches
/// the last non-whitespace position.
proof fn lemma_trim_end_bound(s: Seq<char>, k: int)
    requires
        0 <= k <= s.len(),
        forall|j: int| k <= j < s.len() ==> spec_is_ws(#[trigger] s[j]),
        k > 0 ==> !spec_is_ws(s[k - 1]),
    ensures
        spec_trim_end(s) =~= s.take(k),
    decreases s.len() - k,
{
    if k == s.len() {
        if s.len() > 0 && spec_is_ws(s.last()) {
            assert(false);
        }
        assert(s.take(k) =~= s);
    } else {
        assert(spec_is_ws(s.last()));
        lemma_trim_end_bound(s.drop_last(), k);
        assert(s.drop_last().take(k) =~= s.take(k));
    }
}

impl Lexer {
    /// The cursor's index into the input: the index of the character the
    /// cursor holds, or the input length at the end.
    pub open spec fn spec_idx(l: SpecLexer) -> int {
        if l.current_char is Some {
            l.position - 1
        } else {
            l.position
        }
    }

    /// Skip over any whitespace.
    fn skip_whitespace(&mut self)
        requires
            old(self).wf(),
        ensures
            final(self).wf(),
            final(self)@ == spec_skip_ws(old(self)@),
            final(self).input@ == old(self).input@,
    {
        loop
            invariant
                self.wf(),
                self.input@ == old(self).input@,
                spec_skip_ws(old(self)@) == spec_skip_ws(self@),
            ensures
                self.wf(),
                self.input@ == old(self).input@,
                self@ == spec_skip_ws(old(self)@),
            decreases spec_fuel(self@),
        {
            match self.current_char {
                Option::Some(c) => {
                    if is_ws_char(c) {
                        proof {
                            lemma_advance_wf(self@);
                        }
                        self.advance();
                    } else {
                        break;
                    }
                },
                Option::None => {
                    break;
                },
            }
        }
    }

    /// Read freeform text (e.g., event labels or descriptions): consumes
    /// characters up to a stop character and hands back the consumed run
    /// with surrounding whitespace removed.
    fn read_text(&mut self) -> (text: String)
        requires
            old(self).wf(),
        ensures
            final(self).wf(),
            final(self)@ == spec_read_text(old(self)@).0,
            text@ == spec_read_text(old(self)@).1,
            final(self).input@ == old(self).input@,
    {
        let start: usize = if self.current_char.is_some() {
            self.position - 1
        } else {
            self.position
        };
        loop
            invariant
                self.wf(),
                self.input@ == old(self).input@,
                start == Lexer::spec_idx(old(self)@),
                start <= Lexer::spec_idx(self@) <= self.input@.len(),
                spec_scan_text(old(self)@).0 == spec_scan_text(self@).0,
                spec_scan_text(old(self)@).1 =~= self.input@.subrange(
                    start as int,
                    Lexer::spec_idx(self@),
                ) + spec_scan_text(self@).1,
            ensures
                self.wf(),
                self.input@ == old(self).input@,
                self@ == spec_scan_text(old(self)@).0,
                spec_scan_text(old(self)@).1 =~= self.input@.subrange(
                    start as int,
                    Lexer::spec_idx(self@),
                ),
                start <= Lexer::spec_idx(self@) <= self.input@.len(),
            decreases spec_fuel(self@),
        {
            match self.current_char {
                Option::Some(c) => {
                    if !is_stop_char(c) {
                        proof {
                            lemma_advance_wf(self@);
                            assert(self.input@.subrange(start as int, Lexer::spec_idx(self@))
                                + seq![c] =~= self.input@.subrange(
                                start as int,
                                Lexer::spec_idx(self@) + 1,
                            ));
                        }
                        self.advance();
                    } else {
                        proof {
                            assert(spec_scan_text(self@) == (self@, Seq::<char>::empty()));
                            assert(self.input@.subrange(start as int, Lexer::spec_idx(self@))
                                + Seq::<char>::empty() =~= self.input@.subrange(
                                start as int,
                                Lexer::spec_idx(self@),
                            ));
                        }
                        break;
                    }
                },
                Option::None => {
                    proof {
                        assert(spec_scan_text(self@) == (self@, Seq::<char>::empty()));
                        assert(self.input@.subrange(start as int, Lexer::spec_idx(self@))
                            + Seq::<char>::empty() =~= self.input@.subrange(
                            start as int,
                            Lexer::spec_idx(self@),
                        ));
                    }
                    break;
                },
            }
        }
        let end: usize = if self.current_char.is_some() {
            self.position - 1
        } else {
            self.position
        };
        // trim the surrounding whitespace off the consumed run
        let mut ts: usize = start;
        while ts < end && is_ws_char(self.chars[ts])
            invariant
                self.wf(),
                start <= ts <= end,
                end <= self.input@.len(),
                forall|j: int| start <= j < ts ==> spec_is_ws(#[trigger] self.input@[j]),
            decreases end - ts,
        {
            ts += 1;
        }
        let mut te: usize = end;
        while te > ts && is_ws_char(self.chars[te - 1])
            invariant
                self.wf(),
                start <= ts <= te <= end,
                end <= self.input@.len(),
                forall|j: int| te <= j < end ==> spec_is_ws(#[trigger] self.input@[j]),
            decreases te,
        {
            te -= 1;
        }
        proof {
            let raw = self.input@.subrange(start as int, end as int);
            assert forall|j: int| 0 <= j < ts - start implies spec_is_ws(#[trigger] raw[j]) by {
                assert(raw[j] == self.input@[start + j]);
            }
            assert(ts < end ==> !spec_is_ws(raw[ts - start])) by {
                if ts < end {
                    assert(raw[ts - start] == self.input@[ts as int]);
                }
            }
            lemma_trim_start_bound(raw, ts - start);
            let mid = raw.skip(ts - start);
            assert(mid =~= self.input@.subrange(ts as int, end as int));
            assert forall|j: int| te - ts <= j < mid.len() implies spec_is_ws(#[trigger] mid[j]) by {
                assert(mid[j] == self.input@[ts + j]);
            }
            assert(te - ts > 0 ==> !spec_is_ws(mid[te - ts - 1])) by {
                if te > ts {
                    assert(mid[te - ts - 1] == self.input@[te - 1]);
                }
            }
            lemma_trim_end_bound(mid, te - ts);
            assert(mid.take(te - ts) =~= self.input@.subrange(ts as int, te as int));
            assert(spec_trim(raw) =~= self.input@.subrange(ts as int, te as int));
        }
        let piece = self.input.as_str().substring_char(ts, te);
        piece.to_owned()
    }

    /// Reads a quoted text: the run between two double quotes, or nothing
    /// when no quote opens here; a missing closing quote is an error.
    fn read_quoted_text(&mut self) -> (r: Result<String, LexerError>)
        requires
            old(self).wf(),
        ensures
            final(self).wf(),
            final(self)@ == spec_read_quoted(old(self)@).0,
            match (r, spec_read_quoted(old(self)@).1) {
                (Ok(t), Ok(st)) => t@ == st,
                (Err(e), Err(se)) => spec_error_matches(e, se),
                _ => false,
            },
            final(self).input@ == old(self).input@,
    {
        if self.current_char == Some('"') {
            proof {
                lemma_advance_wf(self@);
            }
            self.advance();
            let text = self.read_text();
            if self.current_char == Some('"') {
                proof {
                    lemma_advance_wf(self@);
                }
                self.advance();
                Ok(text)
            } else {
                let hl = self.highlight_error();
                Err(LexerError::UnterminatedString(self.line, self.column, hl))
            }
        } else {
            Ok(String::new())
        }
    }

    /// Renders a line of the input with a caret indented beneath it.
    fn render_highlight(&self, target_line: usize, space_count: usize) -> (msg: String)
        requires
            self.wf(),
        ensures
            msg@ == spec_nth_line(self.input@, target_line as int) + seq!['\n'] + spec_spaces(
                space_count as int,
            ).push('^'),
    {
        let len = self.chars.len();
        let mut i: usize = 0;
        let mut rem: usize = target_line;
        proof {
            assert(self.input@.skip(0) =~= self.input@);
        }
        while i < len && rem > 0
            invariant
                self.wf(),
                len == self.input@.len(),
                0 <= i <= len,
                spec_nth_line(self.input@, target_line as int) == spec_nth_line(
                    self.input@.skip(i as int),
                    rem as int,
                ),
            decreases len - i,
        {
            proof {
                assert(self.input@.skip(i as int).first() == self.input@[i as int]);
                assert(self.input@.skip(i as int).drop_first() =~= self.input@.skip(i as int + 1));
            }
            if self.chars[i] == '\n' {
                rem -= 1;
            }
            i += 1;
        }
        let ls = i;
        let mut j: usize = ls;
        while j < len && !(self.chars[j] == '\n')
            invariant
                self.wf(),
                len == self.input@.len(),
                ls <= j <= len,
                spec_line_head(self.input@.skip(ls as int)) =~= self.input@.subrange(
                    ls as int,
                    j as int,
                ) + spec_line_head(self.input@.skip(j as int)),
            decreases len - j,
        {
            proof {
                assert(self.input@.skip(j as int).first() == self.input@[j as int]);
                assert(self.input@.skip(j as int).drop_first() =~= self.input@.skip(j as int + 1));
                assert(self.input@.subrange(ls as int, j as int) + seq![self.input@[j as int]]
                    =~= self.input@.subrange(ls as int, j as int + 1));
                assert(seq![self.input@[j as int]] + spec_line_head(
                    self.input@.skip(j as int + 1),
                ) =~= (self.input@.subrange(ls as int, j as int + 1) + spec_line_head(
                    self.input@.skip(j as int + 1),
                )).skip(j - ls));
            }
            j += 1;
        }
        let le = j;
        proof {
            if rem > 0 {
                // past the last line: everything is empty
                assert(self.input@.skip(len as int) =~= Seq::<char>::empty());
                assert(spec_nth_line(self.input@, target_line as int) =~= Seq::<char>::empty());
                assert(ls == len && le == len);
                assert(spec_nth_line(self.input@, target_line as int) =~= self.input@.subrange(
                    ls as int,
                    le as int,
                ));
            } else {
                assert(spec_nth_line(self.input@.skip(ls as int), 0) == spec_line_head(
                    self.input@.skip(ls as int),
                ));
                if le < len {
                    assert(spec_line_head(self.input@.skip(le as int)) =~= Seq::<char>::empty());
                } else {
                    assert(self.input@.skip(le as int) =~= Seq::<char>::empty());
                    assert(spec_line_head(self.input@.skip(le as int)) =~= Seq::<char>::empty());
                }
                assert(spec_nth_line(self.input@, target_line as int) =~= self.input@.subrange(
                    ls as int,
                    le as int,
                ));
            }
        }
        let line_part = self.input.as_str().substring_char(ls, le);
        let mut msg = line_part.to_owned();
        proof {
            reveal_strlit("\n");
            reveal_strlit(" ");
            reveal_strlit("^");
        }
        msg.append("\n");
        proof {
            assert(msg@ =~= spec_nth_line(self.input@, target_line as int) + seq!['\n']
                + spec_spaces(0));
        }
        let mut k: usize = 0;
        while k < space_count
            invariant
                0 <= k <= space_count,
                msg@ =~= spec_nth_line(self.input@, target_line as int) + seq!['\n'] + spec_spaces(
                    k as int,
                ),
            decreases space_count - k,
        {
            proof {
                reveal_strlit(" ");
            }
            msg.append(" ");
            proof {
                assert(msg@ =~= spec_nth_line(self.input@, target_line as int) + seq!['\n']
                    + spec_spaces(k as int + 1));
            }
            k += 1;
        }
        proof {
            reveal_strlit("^");
        }
        msg.append("^");
        proof {
            assert(msg@ =~= spec_nth_line(self.input@, target_line as int) + seq!['\n']
                + spec_spaces(space_count as int).push('^'));
        }
        msg
    }

    /// The two-line highlight of the cursor's place: the current line and
    /// a caret under the column before the cursor.
    pub fn highlight_error(&self) -> (msg: String)
        requires
            self.wf(),
        ensures
            msg@ == spec_highlight(self.input@, self.line as int, self.column as int),
    {
        let tl: usize = if self.line >= 1 {
            self.line - 1
        } else {
            0
        };
        let sc: usize = if self.column >= 2 {
            self.column - 2
        } else {
            0
        };
        let msg = self.render_highlight(tl, sc);
        proof {
            assert(spec_nth_line(self.input@, tl as int) == spec_nth_line(
                self.input@,
                self.line as int - 1,
            ));
            assert(spec_spaces(sc as int) == spec_spaces(self.column as int - 2));
        }
        msg
    }

    /// The two-line highlight of a given line and column.
    pub fn highlight_line_error(&self, line_nr: usize, column: usize) -> (msg: String)
        requires
            self.wf(),
        ensures
            msg@ == spec_highlight_line(self.input@, line_nr as int, column as int),
    {
        let tl: usize = if line_nr >= 1 {
            line_nr - 1
        } else {
            0
        };
        let msg = self.render_highlight(tl, column);
        proof {
            assert(spec_nth_line(self.input@, tl as int) == spec_nth_line(
                self.input@,
                line_nr as int - 1,
            ));
        }
        msg
    }

    /// Get the next character in the input, or report that one is
    /// missing.
    fn check_char(&self) -> (r: Result<char, LexerError>)
        requires
            self.wf(),
        ensures
            match self.current_char {
                Option::Some(c) => r matches Ok(cc) && cc == c,
                Option::None => r matches Err(e) && spec_error_matches(
                    e,
                    SpecLexError::MissingCharacter(
                        '#',
                        self.line,
                        self.column,
                        spec_highlight(self.input@, self.line as int, self.column as int),
                    ),
                ),
            },
    {
        match self.current_char {
            Option::Some(c) => Ok(c),
            Option::None => {
                let hl = self.highlight_error();
                Err(LexerError::MissingCharacter('#', self.line, self.column, hl))
            },
        }
    }
}


/// Skipping whitespace keeps the state well-formed and never adds fuel.
pub proof fn lemma_skip_ws_wf(l: SpecLexer)
    requires
        spec_wf(l),
    ensures
        spec_wf(spec_skip_ws(l)),
        spec_fuel(spec_skip_ws(l)) <= spec_fuel(l),
        spec_skip_ws(l).input == l.input,
        spec_skip_ws(l).seen_start == l.seen_start,
    decreases spec_fuel(l),
{
    match l.current_char {
        Option::Some(c) => {
            if spec_is_ws(c) && 0 <= spec_fuel(spec_advance(l)) < spec_fuel(l) {
                lemma_advance_wf(l);
                lemma_skip_ws_wf(spec_advance(l));
            }
        },
        Option::None => {},
    }
}

/// Skipping a comment keeps the state well-formed and never adds fuel.
pub proof fn lemma_skip_comment_wf(l: SpecLexer)
    requires
        spec_wf(l),
    ensures
        spec_wf(spec_skip_comment(l)),
        spec_fuel(spec_skip_comment(l)) <= spec_fuel(l),
        spec_skip_comment(l).input == l.input,
        spec_skip_comment(l).seen_start == l.seen_start,
    decreases spec_fuel(l),
{
    match l.current_char {
        Option::Some(c) => {
            if c != '\n' && 0 <= spec_fuel(spec_advance(l)) < spec_fuel(l) {
                lemma_advance_wf(l);
                lemma_skip_comment_wf(spec_advance(l));
            }
        },
        Option::None => {},
    }
}

impl Lexer {
    /// Get the next token from the input: skips whitespace and comments,
    /// then dispatches on the first remaining character; the token's text
    /// comes out trimmed. Exactly the machine `spec_next_token` describes.
    #[verifier::rlimit(100)]
    #[verifier::spinoff_prover]
    pub fn next_token(&mut self) -> (r: Result<Token, LexerError>)
        requires
            old(self).wf(),
        ensures
            final(self).wf(),
            final(self)@ == spec_next_token(old(self)@).0,
            final(self).input@ == old(self).input@,
            match (r, spec_next_token(old(self)@).1) {
                (Ok(t), Ok(st)) => spec_token_matches(t, st),
                (Err(e), Err(se)) => spec_error_matches(e, se),
                _ => false,
            },
        decreases spec_fuel(old(self)@),
    {
        proof {
            lemma_skip_ws_wf(old(self)@);
        }
        self.skip_whitespace();
        let ghost l = self@;
        match self.current_char {
            Option::None => Ok(Token::Eof),
            Option::Some(c0) => {
                if c0 == '/' {
                    proof {
                        lemma_advance_wf(self@);
                    }
                    self.advance();
                    if self.current_char == Some('/') {
                        // skip the comment to the end of its line
                        let ghost l1 = self@;
                        loop
                            invariant
                                self.wf(),
                                self.input@ == old(self).input@,
                                spec_skip_comment(l1) == spec_skip_comment(self@),
                                spec_fuel(self@) <= spec_fuel(l1),
                            ensures
                                self.wf(),
                                self.input@ == old(self).input@,
                                self@ == spec_skip_comment(l1),
                            decreases spec_fuel(self@),
                        {
                            match self.current_char {
                                Option::Some(c) => {
                                    if c != '\n' {
                                        proof {
                                            lemma_advance_wf(self@);
                                        }
                                        self.advance();
                                    } else {
                                        break;
                                    }
                                },
                                Option::None => {
                                    break;
                                },
                            }
                        }
                        if self.current_char == Some('\n') {
                            proof {
                                lemma_advance_wf(self@);
                            }
                            self.advance();
                        }
                        proof {
                            assert(spec_fuel(self@) < spec_fuel(old(self)@));
                        }
                        self.next_token()
                    } else {
                        let hl = self.highlight_error();
                        Err(LexerError::UnexpectedCharacter('/', self.line, self.column, hl))
                    }
                } else if c0 == '=' {
                    proof {
                        lemma_advance_wf(self@);
                    }
                    self.advance();
                    if self.current_char == Some('=') {
                        proof {
                            lemma_advance_wf(self@);
                        }
                        self.advance();
                        let lane_name = self.read_text();
                        Ok(Token::Lane(lane_name))
                    } else {
                        let pool_name = self.read_text();
                        Ok(Token::Pool(pool_name))
                    }
                } else if c0 == '#' {
                    proof {
                        lemma_advance_wf(self@);
                    }
                    self.advance();
                    match self.check_char() {
                        Err(e) => Err(e),
                        Ok(ch) => {
                            if !self.seen_start {
                                self.seen_start = true;
                                proof {
                                    lemma_advance_wf(self@);
                                }
                                self.advance();
                                let text = self.read_text();
                                if ch == 'm' || ch == 'M' {
                                    Ok(Token::EventStartMessage(text))
                                } else if ch == 't' || ch == 'T' {
                                    Ok(Token::EventStartTimer(text))
                                } else if ch == 's' || ch == 'S' {
                                    Ok(Token::EventStartSignal(text))
                                } else if ch == 'e' || ch == 'E' {
                                    Ok(Token::EventStartError(text))
                                } else {
                                    Ok(Token::EventStart(text))
                                }
                            } else {
                                if ch == 'm' || ch == 'M' || ch == 't' || ch == 'T' || ch == 's'
                                    || ch == 'S' {
                                    proof {
                                        lemma_advance_wf(self@);
                                    }
                                    self.advance();
                                    let text = self.read_text();
                                    if ch == 'm' || ch == 'M' {
                                        Ok(Token::EventCatchMessage(text))
                                    } else if ch == 't' || ch == 'T' {
                                        Ok(Token::EventCatchTimer(text))
                                    } else {
                                        Ok(Token::EventCatchSignal(text))
                                    }
                                } else {
                                    let hl = self.highlight_error();
                                    Err(
                                        LexerError::UnexpectedCharacter(
                                            ch,
                                            self.line,
                                            self.column,
                                            hl,
                                        ),
                                    )
                                }
                            }
                        },
                    }
                } else if c0 == '-' {
                    proof {
                        lemma_advance_wf(self@);
                    }
                    self.advance();
                    if self.current_char == Some('>') {
                        proof {
                            lemma_advance_wf(self@);
                        }
                        self.advance();
                        let label = self.read_text();
                        match self.read_quoted_text() {
                            Ok(text) => Ok(Token::Branch(label, text)),
                            Err(e) => Err(e),
                        }
                    } else {
                        let text = self.read_text();
                        Ok(Token::ActivityTask(text))
                    }
                } else if c0 == '.' {
                    proof {
                        lemma_advance_wf(self@);
                    }
                    self.advance();
                    match self.check_char() {
                        Err(e) => Err(e),
                        Ok(ch) => {
                            let text = self.read_text();
                            self.seen_start = false;
                            if ch == ' ' {
                                Ok(Token::EventEnd(text))
                            } else if ch == 'm' || ch == 'M' {
                                Ok(Token::EventEndMessage(text))
                            } else if ch == 's' || ch == 'S' {
                                Ok(Token::EventEndSignal(text))
                            } else if ch == 'e' || ch == 'E' {
                                Ok(Token::EventEndError(text))
                            } else {
                                Ok(Token::EventStart(text))
                            }
                        },
                    }
                } else if c0 == '<' {
                    proof {
                        lemma_advance_wf(self@);
                    }
                    self.advance();
                    if self.current_char == Some('-') {
                        proof {
                            lemma_advance_wf(self@);
                        }
                        self.advance();
                        let label = self.read_text();
                        Ok(Token::JoinLabel(label))
                    } else {
                        let bad = match self.current_char {
                            Option::Some(c) => c,
                            Option::None => '\u{0}',
                        };
                        let hl = self.highlight_error();
                        Err(LexerError::UnexpectedCharacter(bad, self.line, self.column, hl))
                    }
                } else if c0 == 'X' {
                    proof {
                        lemma_advance_wf(self@);
                    }
                    self.advance();
                    Ok(Token::GatewayExclusive)
                } else if c0 == '+' {
                    proof {
                        lemma_advance_wf(self@);
                    }
                    self.advance();
                    Ok(Token::GatewayParallel)
                } else if c0 == 'O' {
                    proof {
                        lemma_advance_wf(self@);
                    }
                    self.advance();
                    Ok(Token::GatewayInclusive)
                } else if c0 == '*' {
                    proof {
                        lemma_advance_wf(self@);
                    }
                    self.advance();
                    Ok(Token::GatewayEvent)
                } else if c0 == 'G' {
                    proof {
                        lemma_advance_wf(self@);
                    }
                    self.advance();
                    Ok(Token::Go)
                } else if c0 == 'J' {
                    proof {
                        lemma_advance_wf(self@);
                    }
                    self.advance();
                    let label = self.read_text();
                    match self.read_quoted_text() {
                        Ok(text) => Ok(Token::Join(label, text)),
                        Err(e) => Err(e),
                    }
                } else {
                    // freeform text; a trailing colon makes it a label
                    let text = self.read_text();
                    let tlen = text.as_str().unicode_len();
                    if tlen > 0 {
                        let lastc = text.as_str().get_char(tlen - 1);
                        if lastc == ':' {
                            let shorter = text.as_str().substring_char(0, tlen - 1).to_owned();
                            proof {
                                assert(shorter@ =~= text@.drop_last());
                            }
                            return Ok(Token::Label(shorter));
                        }
                    }
                    Ok(Token::Text(text))
                }
            },
        }
    }

    /// Peek the next token in the input: reads it, then restores the
    /// cursor — only the start-event flag keeps whatever the read set it
    /// to.
    pub fn peek_token(&mut self) -> (r: Result<Token, LexerError>)
        requires
            old(self).wf(),
        ensures
            final(self).wf(),
            final(self)@ == (SpecLexer {
                seen_start: spec_next_token(old(self)@).0.seen_start,
                ..old(self)@
            }),
            final(self).input@ == old(self).input@,
            match (r, spec_next_token(old(self)@).1) {
                (Ok(t), Ok(st)) => spec_token_matches(t, st),
                (Err(e), Err(se)) => spec_error_matches(e, se),
                _ => false,
            },
    {
        let saved_position = self.position;
        let saved_char = self.current_char;
        let saved_line = self.line;
        let saved_column = self.column;
        let token = self.next_token();
        self.position = saved_position;
        self.current_char = saved_char;
        self.line = saved_line;
        self.column = saved_column;
        token
    }
}

} // verus!
