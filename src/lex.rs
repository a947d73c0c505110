use vstd::prelude::*;

verus! {

/// The arithmetic operators and the two parentheses.
#[derive(Debug, Clone, Copy, PartialEq, Eq, Structural)]
pub enum Operator {
    Add,
    Div,
    Mul,
    Sub,
    LeftParenthesis,
    RightParenthesis,
}

/// How tightly an arithmetic operator binds.
#[derive(Debug, Clone, Copy, PartialEq, Eq, Structural, PartialOrd, Ord)]
pub enum Precedence {
    Low,
    High,
}

/// The precedence of an operator; parentheses have none.
pub open spec fn precedence_of(op: Operator) -> Option<Precedence> {
    match op {
        Operator::Add | Operator::Sub => Some(Precedence::Low),
        Operator::Mul | Operator::Div => Some(Precedence::High),
        Operator::LeftParenthesis | Operator::RightParenthesis => None,
    }
}

/// Orders optional precedences: no precedence is below every level.
pub open spec fn rank(p: Option<Precedence>) -> int {
    match p {
        None => 0,
        Some(Precedence::Low) => 1,
        Some(Precedence::High) => 2,
    }
}

impl Operator {
    /// Multiplication and division bind tighter than addition and subtraction.
    pub fn precedence(&self) -> (r: Option<Precedence>)
        ensures
            r == precedence_of(*self),
    {
        match self {
            Operator::Add => Some(Precedence::Low),
            Operator::Div => Some(Precedence::High),
            Operator::Mul => Some(Precedence::High),
            Operator::Sub => Some(Precedence::Low),
            Operator::LeftParenthesis => None,
            Operator::RightParenthesis => None,
        }
    }
}

/// The decimal text of a number token: digits, then optionally a dot and more digits.
#[derive(Debug, Clone, PartialEq)]
pub struct Numeral {
    pub text: Vec<char>,
}

impl View for Numeral {
    type V = Seq<char>;

    open spec fn view(&self) -> Seq<char> {
        self.text@
    }
}

/// A number or an operator, as read from a line.
#[derive(Debug, Clone, PartialEq)]
pub enum Token {
    Number(Numeral),
    Operator(Operator),
}

/// What a token stands for, with a number given by its text.
pub enum TokenModel {
    Number(Seq<char>),
    Operator(Operator),
}

impl View for Token {
    type V = TokenModel;

    open spec fn view(&self) -> TokenModel {
        match self {
            Token::Number(n) => TokenModel::Number(n@),
            Token::Operator(o) => TokenModel::Operator(*o),
        }
    }
}

/// The models of a sequence of tokens.
pub open spec fn models(ts: Seq<Token>) -> Seq<TokenModel> {
    ts.map_values(|t: Token| t@)
}

/// A character that no token begins with.
#[derive(Debug, Clone, Copy, PartialEq, Eq, Structural)]
pub enum LexerError {
    UnknownCharacter(char),
}

pub open spec fn is_digit(c: char) -> bool {
    '0' <= c && c <= '9'
}

/// ASCII whitespace: space, tab, line feed, form feed and carriage return.
pub open spec fn is_whitespace(c: char) -> bool {
    c == ' ' || c == '\t' || c == '\n' || c == '\x0C' || c == '\r'
}

/// The operator that a single character spells, if any.
pub open spec fn operator_of(c: char) -> Option<Operator> {
    if c == '+' {
        Some(Operator::Add)
    } else if c == '/' {
        Some(Operator::Div)
    } else if c == '*' {
        Some(Operator::Mul)
    } else if c == '-' {
        Some(Operator::Sub)
    } else if c == '(' {
        Some(Operator::LeftParenthesis)
    } else if c == ')' {
        Some(Operator::RightParenthesis)
    } else {
        None
    }
}

/// The number of digits at the start of `s`.
pub open spec fn digit_run(s: Seq<char>) -> nat
    decreases s.len(),
{
    if s.len() > 0 && is_digit(s[0]) {
        1 + digit_run(s.drop_first())
    } else {
        0
    }
}

/// The length of the numeral at the start of `s`: a run of digits, and if a
/// dot follows it, the dot and the run of digits after it.
pub open spec fn numeral_len(s: Seq<char>) -> nat {
    let d = digit_run(s);
    if d < s.len() && s[d as int] == '.' {
        d + 1 + digit_run(s.skip((d + 1) as int))
    } else {
        d
    }
}

/// A well-formed numeral: it starts with a digit and is exactly one numeral long.
pub open spec fn is_numeral(s: Seq<char>) -> bool {
    s.len() > 0 && is_digit(s[0]) && numeral_len(s) == s.len()
}

/// A token whose number, if it is one, is a well-formed numeral.
pub open spec fn well_formed(t: TokenModel) -> bool {
    match t {
        TokenModel::Number(s) => is_numeral(s),
        TokenModel::Operator(_) => true,
    }
}

/// What scanning does with the first character of a non-empty `s`: the token
/// or error it yields (or nothing, for whitespace) and how many characters it takes.
pub open spec fn scan(s: Seq<char>) -> (Result<Option<TokenModel>, LexerError>, nat)
    recommends
        s.len() > 0,
{
    let c = s[0];
    if operator_of(c) is Some {
        (Ok(Some(TokenModel::Operator(operator_of(c)->0))), 1)
    } else if is_whitespace(c) {
        (Ok(None), 1)
    } else if is_digit(c) {
        let n = numeral_len(s);
        (Ok(Some(TokenModel::Number(s.take(n as int)))), n)
    } else {
        (Err(LexerError::UnknownCharacter(c)), 1)
    }
}

/// The tokens and the lexical errors of a line, each in the order of the input.
pub open spec fn lex_seq(s: Seq<char>) -> (Seq<TokenModel>, Seq<LexerError>)
    decreases s.len(),
    via lex_seq_decreases
{
    if s.len() == 0 {
        (Seq::empty(), Seq::empty())
    } else {
        let (out, n) = scan(s);
        let rest = lex_seq(s.skip(n as int));
        match out {
            Ok(Some(t)) => (seq![t] + rest.0, rest.1),
            Ok(None) => rest,
            Err(e) => (rest.0, seq![e] + rest.1),
        }
    }
}

/// A line of input being scanned: its characters and the position reached.
#[derive(Debug, Clone)]
pub struct Lexer {
    chars: Vec<char>,
    pos: usize,
}

impl View for Lexer {
    type V = Seq<char>;

    /// The characters still to be scanned.
    closed spec fn view(&self) -> Seq<char> {
        self.chars@.skip(self.pos as int)
    }
}

/// The model of one scanning outcome.
pub open spec fn outcome_model(r: Result<Option<Token>, LexerError>) -> Result<
    Option<TokenModel>,
    LexerError,
> {
    match r {
        Ok(Some(t)) => Ok(Some(t@)),
        Ok(None) => Ok(None),
        Err(e) => Err(e),
    }
}

fn is_digit_char(c: char) -> (r: bool)
    ensures
        r == is_digit(c),
{
    '0' <= c && c <= '9'
}

impl Lexer {
    /// The position lies within the input.
    pub closed spec fn valid(&self) -> bool {
        self.pos <= self.chars.len()
    }

    /// A lexer at the start of `src`, which holds no line terminator.
    pub fn new(src: &str) -> (r: Lexer)
        ensures
            r.valid(),
            r@ == src@,
    {
        let mut chars: Vec<char> = Vec::new();
        for c in it: src.chars()
            invariant
                chars@ == it.seq().take(it.index() as int),
        {
            chars.push(c);
        }
        assert(chars@ =~= src@);
        Lexer { chars, pos: 0 }
    }

    /// Scans the whole remaining input, collecting the tokens and, apart from
    /// them, an error for each unknown character.
    pub fn lex(self) -> (r: (Vec<Token>, Vec<LexerError>))
        requires
            self.valid(),
        ensures
            models(r.0@) == lex_seq(self@).0,
            r.1@ == lex_seq(self@).1,
    {
        let ghost input = self@;
        let mut lexer = self;
        let mut tokens: Vec<Token> = Vec::new();
        let mut errors: Vec<LexerError> = Vec::new();
        assert(models(tokens@) =~= Seq::<TokenModel>::empty());
        assert(errors@ =~= Seq::<LexerError>::empty());
        while lexer.pos < lexer.chars.len()
            invariant
                lexer.valid(),
                models(tokens@) + lex_seq(lexer@).0 == lex_seq(input).0,
                errors@ + lex_seq(lexer@).1 == lex_seq(input).1,
            decreases lexer.chars.len() - lexer.pos,
        {
            let ghost rest = lexer@;
            let start = lexer.pos;
            let c = lexer.chars[start];
            lexer.pos = start + 1;
            let out = lexer.interpret_char(c, start);
            proof {
                lemma_scan_len(rest);
                assert(lexer@ =~= rest.skip(scan(rest).1 as int));
            }
            match out {
                Ok(Some(token)) => {
                    let ghost prev = tokens@;
                    tokens.push(token);
                    assert(models(tokens@) =~= models(prev).push(token@));
                },
                Ok(None) => {},
                Err(err) => {
                    errors.push(err);
                },
            }
        }
        (tokens, errors)
    }

    fn interpret_char(&mut self, c: char, start: usize) -> (r: Result<Option<Token>, LexerError>)
        requires
            old(self).valid(),
            start < old(self).chars.len(),
            old(self).pos == start + 1,
            c == old(self).chars@[start as int],
        ensures
            final(self).valid(),
            final(self).chars@ == old(self).chars@,
            outcome_model(r) == scan(old(self).chars@.skip(start as int)).0,
            final(self).pos == start + scan(old(self).chars@.skip(start as int)).1,
    {
        let ghost s = self.chars@.skip(start as int);
        assert(s[0] == c);
        if c == '+' {
            Ok(Some(Token::Operator(Operator::Add)))
        } else if c == '/' {
            Ok(Some(Token::Operator(Operator::Div)))
        } else if c == '*' {
            Ok(Some(Token::Operator(Operator::Mul)))
        } else if c == '-' {
            Ok(Some(Token::Operator(Operator::Sub)))
        } else if c == '(' {
            Ok(Some(Token::Operator(Operator::LeftParenthesis)))
        } else if c == ')' {
            Ok(Some(Token::Operator(Operator::RightParenthesis)))
        } else if c == ' ' || c == '\t' || c == '\n' || c == '\x0C' || c == '\r' {
            Ok(None)
        } else if is_digit_char(c) {
            assert(s.drop_first() =~= self.chars@.skip(self.pos as int));
            self.consume_digits();
            let d = self.pos - start;
            assert(d == digit_run(s));
            if self.pos < self.chars.len() && self.chars[self.pos] == '.' {
                self.pos = self.pos + 1;
                assert(s.skip(d + 1) =~= self.chars@.skip(self.pos as int));
                self.consume_digits();
            }
            let text = self.current_lexeme_starting_from(start);
            assert(text@ =~= s.take(numeral_len(s) as int));
            Ok(Some(Token::Number(Numeral { text })))
        } else {
            Err(LexerError::UnknownCharacter(c))
        }
    }

    /// Moves past the run of digits at the current position.
    fn consume_digits(&mut self)
        requires
            old(self).valid(),
        ensures
            final(self).valid(),
            final(self).chars@ == old(self).chars@,
            final(self).pos == old(self).pos + digit_run(old(self)@),
    {
        let ghost s = self@;
        while self.pos < self.chars.len() && is_digit_char(self.chars[self.pos])
            invariant
                self.valid(),
                self.chars@ == old(self).chars@,
                old(self).pos <= self.pos,
                digit_run(s) == (self.pos - old(self).pos) + digit_run(self@),
            decreases self.chars.len() - self.pos,
        {
            let ghost before = self@;
            self.pos = self.pos + 1;
            assert(before.drop_first() =~= self@);
        }
    }

    /// The characters from `start` up to the current position.
    fn current_lexeme_starting_from(&self, start: usize) -> (r: Vec<char>)
        requires
            self.valid(),
            start <= self.pos,
        ensures
            r@ == self.chars@.subrange(start as int, self.pos as int),
    {
        let mut text: Vec<char> = Vec::new();
        let mut i: usize = start;
        while i < self.pos
            invariant
                self.valid(),
                start <= i <= self.pos,
                text@ == self.chars@.subrange(start as int, i as int),
            decreases self.pos - i,
        {
            text.push(self.chars[i]);
            i = i + 1;
        }
        text
    }
}

#[via_fn]
proof fn lex_seq_decreases(s: Seq<char>) {
    if s.len() > 0 {
        lemma_scan_len(s);
    }
}

/// Scanning takes at least one character and no more than there are.
pub proof fn lemma_scan_len(s: Seq<char>)
    requires
        s.len() > 0,
    ensures
        1 <= scan(s).1 <= s.len(),
{
    lemma_digit_run_len(s);
    let d = digit_run(s);
    if d < s.len() && s[d as int] == '.' {
        lemma_digit_run_len(s.skip((d + 1) as int));
    }
    if is_digit(s[0]) {
        reveal_with_fuel(digit_run, 2);
    }
}

pub proof fn lemma_digit_run_len(s: Seq<char>)
    ensures
        digit_run(s) <= s.len(),
        forall|i: int| 0 <= i < digit_run(s) ==> is_digit(#[trigger] s[i]),
        digit_run(s) < s.len() ==> !is_digit(s[digit_run(s) as int]),
    decreases s.len(),
{
    if s.len() > 0 && is_digit(s[0]) {
        lemma_digit_run_len(s.drop_first());
        assert forall|i: int| 0 <= i < digit_run(s) implies is_digit(#[trigger] s[i]) by {
            if i > 0 {
                assert(s[i] == s.drop_first()[i - 1]);
            }
        }
    }
}

/// Cutting a sequence at `k` keeps the digits before `k` of its leading run.
proof fn lemma_digit_run_take(s: Seq<char>, k: int)
    requires
        0 <= k <= s.len(),
    ensures
        digit_run(s.take(k)) == if k <= digit_run(s) {
            k as nat
        } else {
            digit_run(s)
        },
    decreases s.len(),
{
    if k > 0 && is_digit(s[0]) {
        assert(s.take(k).drop_first() =~= s.drop_first().take(k - 1));
        lemma_digit_run_take(s.drop_first(), k - 1);
    }
}

/// The numeral that scanning takes off the front of `s` is a well-formed numeral.
proof fn lemma_numeral_prefix(s: Seq<char>)
    requires
        s.len() > 0,
        is_digit(s[0]),
    ensures
        is_numeral(s.take(numeral_len(s) as int)),
{
    lemma_scan_len(s);
    lemma_digit_run_len(s);
    let n = numeral_len(s);
    let t = s.take(n as int);
    let d = digit_run(s);
    lemma_digit_run_take(s, n as int);
    if d < s.len() && s[d as int] == '.' {
        let u = s.skip((d + 1) as int);
        let e = digit_run(u);
        lemma_digit_run_len(u);
        assert(t.skip((d + 1) as int) =~= u.take(e as int));
        lemma_digit_run_take(u, e as int);
    }
}

/// Every number token that lexing yields is a well-formed numeral.
pub proof fn lemma_lex_well_formed(s: Seq<char>)
    ensures
        forall|i: int| 0 <= i < lex_seq(s).0.len() ==> well_formed(#[trigger] lex_seq(s).0[i]),
    decreases s.len(),
{
    if s.len() > 0 {
        lemma_scan_len(s);
        let n = scan(s).1;
        lemma_lex_well_formed(s.skip(n as int));
        if is_digit(s[0]) && operator_of(s[0]) is None && !is_whitespace(s[0]) {
            lemma_numeral_prefix(s);
        }
        let rest = lex_seq(s.skip(n as int)).0;
        assert forall|i: int| 0 <= i < lex_seq(s).0.len() implies well_formed(
            #[trigger] lex_seq(s).0[i],
        ) by {
            if scan(s).0 is Ok && scan(s).0->Ok_0 is Some && i > 0 {
                assert(lex_seq(s).0[i] == rest[i - 1]);
            }
        }
    }
}

} // verus!
