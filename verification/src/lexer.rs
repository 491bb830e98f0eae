//! Lexical analysis: turns raw source lines into an ordered sequence of
//! typed tokens. Each line is scanned independently, character by character,
//! with maximal-munch runs for words and numbers; the five punctuation
//! characters of the grammar become single-character tokens and every other
//! symbol (whitespace among them) is silently dropped.

use vstd::prelude::*;

verus! {

/// The kind of one lexical unit.
#[derive(Clone, Copy, Debug, PartialEq, Eq, Structural)]
pub enum TokenType {
    OpenBrace,
    CloseBrace,
    OpenParen,
    CloseParen,
    SemiColon,
    KeywordInt,
    KeywordRet,
    Identifier,
    Intliteral,
}

/// One token: its kind, the line it came from, the half-open column range
/// `[start_char, end_char)` it covers on that line, and, for identifiers and
/// integer literals, the text of the run (empty for every other kind).
pub struct TokenInfo {
    pub token_type: TokenType,
    pub source_line: usize,
    pub start_char: usize,
    pub end_char: usize,
    pub data: String,
}

/// The mathematical image of a token: the same fields with the text as a
/// sequence of characters and the positions as unbounded integers.
pub ghost struct TokenView {
    pub kind: TokenType,
    pub line: int,
    pub start: int,
    pub end: int,
    pub text: Seq<char>,
}

impl View for TokenInfo {
    type V = TokenView;

    open spec fn view(&self) -> TokenView {
        TokenView {
            kind: self.token_type,
            line: self.source_line as int,
            start: self.start_char as int,
            end: self.end_char as int,
            text: self.data@,
        }
    }
}

/// The views of a sequence of tokens.
pub open spec fn token_views(s: Seq<TokenInfo>) -> Seq<TokenView> {
    s.map_values(|t: TokenInfo| t@)
}

/// An ASCII letter.
pub open spec fn is_alpha_char(c: char) -> bool {
    ('a' <= c && c <= 'z') || ('A' <= c && c <= 'Z')
}

/// An ASCII digit.
pub open spec fn is_digit_char(c: char) -> bool {
    '0' <= c && c <= '9'
}

/// A character class, carrying the classified character.
pub enum CharClassified {
    Number(char),
    Alpha(char),
    Symbol(char),
}

/// The first position at or after `i` where a run of letters stops.
pub open spec fn alpha_run_end(line: Seq<char>, i: int) -> int
    decreases line.len() - i,
{
    if i < 0 || i >= line.len() {
        i
    } else if is_alpha_char(line[i]) {
        alpha_run_end(line, i + 1)
    } else {
        i
    }
}

/// The first position at or after `i` where a run of digits stops.
pub open spec fn digit_run_end(line: Seq<char>, i: int) -> int
    decreases line.len() - i,
{
    if i < 0 || i >= line.len() {
        i
    } else if is_digit_char(line[i]) {
        digit_run_end(line, i + 1)
    } else {
        i
    }
}

/// Bounds and characterisation of a letter run: every character before the
/// end is a letter, and the run is maximal.
pub proof fn lemma_alpha_run_end(line: Seq<char>, i: int)
    requires
        0 <= i <= line.len(),
    ensures
        i <= alpha_run_end(line, i) <= line.len(),
        forall|k: int| i <= k < alpha_run_end(line, i) ==> is_alpha_char(line[k]),
        alpha_run_end(line, i) == line.len() || !is_alpha_char(line[alpha_run_end(line, i)]),
    decreases line.len() - i,
{
    if i < line.len() && is_alpha_char(line[i]) {
        lemma_alpha_run_end(line, i + 1);
    }
}

/// Bounds and characterisation of a digit run, as for letters.
pub proof fn lemma_digit_run_end(line: Seq<char>, i: int)
    requires
        0 <= i <= line.len(),
    ensures
        i <= digit_run_end(line, i) <= line.len(),
        forall|k: int| i <= k < digit_run_end(line, i) ==> is_digit_char(line[k]),
        digit_run_end(line, i) == line.len() || !is_digit_char(line[digit_run_end(line, i)]),
    decreases line.len() - i,
{
    if i < line.len() && is_digit_char(line[i]) {
        lemma_digit_run_end(line, i + 1);
    }
}

/// A run end is the only position that closes a maximal run: any `j` whose
/// characters from `i` on are all letters and that sits at the end of the
/// line or before a non-letter is the run end.
pub proof fn lemma_alpha_run_end_unique(line: Seq<char>, i: int, j: int)
    requires
        0 <= i <= j <= line.len(),
        forall|k: int| i <= k < j ==> is_alpha_char(line[k]),
        j == line.len() || !is_alpha_char(line[j]),
    ensures
        alpha_run_end(line, i) == j,
    decreases line.len() - i,
{
    if i < line.len() && is_alpha_char(line[i]) {
        lemma_alpha_run_end_unique(line, i + 1, j);
    }
}

/// As for letters: the digit run end is uniquely determined.
pub proof fn lemma_digit_run_end_unique(line: Seq<char>, i: int, j: int)
    requires
        0 <= i <= j <= line.len(),
        forall|k: int| i <= k < j ==> is_digit_char(line[k]),
        j == line.len() || !is_digit_char(line[j]),
    ensures
        digit_run_end(line, i) == j,
    decreases line.len() - i,
{
    if i < line.len() && is_digit_char(line[i]) {
        lemma_digit_run_end_unique(line, i + 1, j);
    }
}

/// The token a maximal word run produces: one of the two keywords when the
/// run spells it, otherwise an identifier carrying the run's text.
pub open spec fn word_token(line: Seq<char>, ln: int, i: int, j: int) -> TokenView {
    let w = line.subrange(i, j);
    if w == "int"@ {
        TokenView { kind: TokenType::KeywordInt, line: ln, start: i, end: j, text: Seq::empty() }
    } else if w == "return"@ {
        TokenView { kind: TokenType::KeywordRet, line: ln, start: i, end: j, text: Seq::empty() }
    } else {
        TokenView { kind: TokenType::Identifier, line: ln, start: i, end: j, text: w }
    }
}

/// The token a single punctuation character produces.
pub open spec fn symbol_token(kind: TokenType, ln: int, i: int) -> TokenView {
    TokenView { kind: kind, line: ln, start: i, end: i + 1, text: Seq::empty() }
}

/// The tokens the lexer emits for the tail of `line` that starts at
/// position `i`, in order of appearance.
pub open spec fn line_tokens(line: Seq<char>, ln: int, i: int) -> Seq<TokenView>
    decreases line.len() - i,
    when 0 <= i
    via line_tokens_decreases
{
    if i < 0 || i >= line.len() {
        Seq::empty()
    } else {
        let c = line[i];
        if is_alpha_char(c) {
            let j = alpha_run_end(line, i);
            seq![word_token(line, ln, i, j)] + line_tokens(line, ln, j)
        } else if is_digit_char(c) {
            let j = digit_run_end(line, i);
            seq![
                TokenView {
                    kind: TokenType::Intliteral,
                    line: ln,
                    start: i,
                    end: j,
                    text: line.subrange(i, j),
                },
            ] + line_tokens(line, ln, j)
        } else if c == '(' {
            seq![symbol_token(TokenType::OpenParen, ln, i)] + line_tokens(line, ln, i + 1)
        } else if c == ')' {
            seq![symbol_token(TokenType::CloseParen, ln, i)] + line_tokens(line, ln, i + 1)
        } else if c == '{' {
            seq![symbol_token(TokenType::OpenBrace, ln, i)] + line_tokens(line, ln, i + 1)
        } else if c == '}' {
            seq![symbol_token(TokenType::CloseBrace, ln, i)] + line_tokens(line, ln, i + 1)
        } else if c == ';' {
            seq![symbol_token(TokenType::SemiColon, ln, i)] + line_tokens(line, ln, i + 1)
        } else {
            line_tokens(line, ln, i + 1)
        }
    }
}

#[via_fn]
proof fn line_tokens_decreases(line: Seq<char>, ln: int, i: int) {
    if 0 <= i < line.len() {
        if is_alpha_char(line[i]) {
            lemma_alpha_run_end(line, i);
            assert(alpha_run_end(line, i) >= i + 1) by {
                assert(alpha_run_end(line, i) == alpha_run_end(line, i + 1));
                lemma_alpha_run_end(line, i + 1);
            }
        } else if is_digit_char(line[i]) {
            lemma_digit_run_end(line, i);
            assert(digit_run_end(line, i) >= i + 1) by {
                assert(digit_run_end(line, i) == digit_run_end(line, i + 1));
                lemma_digit_run_end(line, i + 1);
            }
        }
    }
}

/// True exactly when the character may stand in a word (an ASCII letter).
pub fn is_word_char(input: &char) -> (r: bool)
    ensures
        r == is_alpha_char(*input),
{
    let c = *input;
    ('a' <= c && c <= 'z') || ('A' <= c && c <= 'Z')
}

/// True exactly when the character is an ASCII digit.
pub fn is_number(input: &char) -> (r: bool)
    ensures
        r == is_digit_char(*input),
{
    let c = *input;
    '0' <= c && c <= '9'
}

/// Sorts a character into exactly one of the three classes.
pub fn classify(input: &char) -> (r: CharClassified)
    ensures
        is_alpha_char(*input) ==> r == CharClassified::Alpha(*input),
        !is_alpha_char(*input) && is_digit_char(*input) ==> r == CharClassified::Number(*input),
        !is_alpha_char(*input) && !is_digit_char(*input) ==> r == CharClassified::Symbol(*input),
{
    if is_word_char(input) {
        CharClassified::Alpha(*input)
    } else if is_number(input) {
        CharClassified::Number(*input)
    } else {
        CharClassified::Symbol(*input)
    }
}

/// Greedily consumes the maximal run of letters that starts at `start`,
/// returning the position where the run stops.
pub fn read_word_run(s: &str, start: usize, n: usize) -> (j: usize)
    requires
        n == s@.len(),
        start < n,
        is_alpha_char(s@[start as int]),
    ensures
        j == alpha_run_end(s@, start as int),
        start < j <= n,
{
    let mut j: usize = start + 1;
    let mut done: bool = false;
    while !done && j < n
        invariant
            n == s@.len(),
            start < j <= n,
            forall|k: int| start <= k < j ==> is_alpha_char(s@[k]),
            done ==> j < n && !is_alpha_char(s@[j as int]),
        decreases n - j + (if done { 0int } else { 1int }),
    {
        let c = s.get_char(j);
        if is_word_char(&c) {
            j = j + 1;
        } else {
            done = true;
        }
    }
    proof {
        lemma_alpha_run_end_unique(s@, start as int, j as int);
    }
    j
}

/// Greedily consumes the maximal run of digits that starts at `start`,
/// returning the position where the run stops.
pub fn read_digit_run(s: &str, start: usize, n: usize) -> (j: usize)
    requires
        n == s@.len(),
        start < n,
        is_digit_char(s@[start as int]),
    ensures
        j == digit_run_end(s@, start as int),
        start < j <= n,
{
    let mut j: usize = start + 1;
    let mut done: bool = false;
    while !done && j < n
        invariant
            n == s@.len(),
            start < j <= n,
            forall|k: int| start <= k < j ==> is_digit_char(s@[k]),
            done ==> j < n && !is_digit_char(s@[j as int]),
        decreases n - j + (if done { 0int } else { 1int }),
    {
        let c = s.get_char(j);
        if is_number(&c) {
            j = j + 1;
        } else {
            done = true;
        }
    }
    proof {
        lemma_digit_run_end_unique(s@, start as int, j as int);
    }
    j
}

/// Character-by-character equality of two string slices.
pub fn str_eq(a: &str, b: &str) -> (r: bool)
    ensures
        r == (a@ == b@),
{
    let na = a.unicode_len();
    let nb = b.unicode_len();
    if na != nb {
        return false;
    }
    let mut k: usize = 0;
    while k < na
        invariant
            na == a@.len(),
            na == b@.len(),
            k <= na,
            forall|m: int| 0 <= m < k ==> a@[m] == b@[m],
        decreases na - k,
    {
        if a.get_char(k) != b.get_char(k) {
            return false;
        }
        k = k + 1;
    }
    proof {
        assert(a@ =~= b@);
    }
    true
}

/// Scans one source line and appends its tokens, in order, to the
/// collector. The contract pins the appended tokens to exactly the
/// mathematical token sequence of the line.
pub fn get_tokens(line: &String, line_num: usize, collector: &mut Vec<TokenInfo>)
    ensures
        token_views(final(collector)@) == token_views(old(collector)@)
            + line_tokens(line@, line_num as int, 0),
{
    let ghost ln: int = line_num as int;
    let s: &str = line.as_str();
    let n: usize = s.unicode_len();
    let mut i: usize = 0;
    while i < n
        invariant
            ln == line_num as int,
            s@ == line@,
            n == s@.len(),
            i <= n,
            token_views(collector@) + line_tokens(line@, ln, i as int) == token_views(
                old(collector)@,
            ) + line_tokens(line@, ln, 0),
        decreases n - i,
    {
        let ghost pre = collector@;
        let c = s.get_char(i);
        match classify(&c) {
            CharClassified::Alpha(_al) => {
                let j = read_word_run(s, i, n);
                let text = s.substring_char(i, j);
                let tok: TokenInfo;
                if str_eq(text, "int") {
                    tok = TokenInfo {
                        token_type: TokenType::KeywordInt,
                        source_line: line_num,
                        start_char: i,
                        end_char: j,
                        data: String::new(),
                    };
                } else if str_eq(text, "return") {
                    tok = TokenInfo {
                        token_type: TokenType::KeywordRet,
                        source_line: line_num,
                        start_char: i,
                        end_char: j,
                        data: String::new(),
                    };
                } else {
                    tok = TokenInfo {
                        token_type: TokenType::Identifier,
                        source_line: line_num,
                        start_char: i,
                        end_char: j,
                        data: text.to_owned(),
                    };
                }
                collector.push(tok);
                proof {
                    assert(tok@ == word_token(line@, ln, i as int, j as int));
                    assert(line_tokens(line@, ln, i as int) == seq![
                        word_token(line@, ln, i as int, j as int),
                    ] + line_tokens(line@, ln, j as int));
                    assert(token_views(collector@) + line_tokens(line@, ln, j as int)
                        =~= token_views(pre) + line_tokens(line@, ln, i as int));
                }
                i = j;
            }
            CharClassified::Number(_al) => {
                let j = read_digit_run(s, i, n);
                let text = s.substring_char(i, j);
                let tok = TokenInfo {
                    token_type: TokenType::Intliteral,
                    source_line: line_num,
                    start_char: i,
                    end_char: j,
                    data: text.to_owned(),
                };
                collector.push(tok);
                proof {
                    assert(line_tokens(line@, ln, i as int) == seq![tok@] + line_tokens(
                        line@,
                        ln,
                        j as int,
                    ));
                    assert(token_views(collector@) + line_tokens(line@, ln, j as int)
                        =~= token_views(pre) + line_tokens(line@, ln, i as int));
                }
                i = j;
            }
            CharClassified::Symbol(sym) => {
                let kind: Option<TokenType> = if sym == '(' {
                    Some(TokenType::OpenParen)
                } else if sym == ')' {
                    Some(TokenType::CloseParen)
                } else if sym == '{' {
                    Some(TokenType::OpenBrace)
                } else if sym == '}' {
                    Some(TokenType::CloseBrace)
                } else if sym == ';' {
                    Some(TokenType::SemiColon)
                } else {
                    None
                };
                match kind {
                    Some(k) => {
                        let tok = TokenInfo {
                            token_type: k,
                            source_line: line_num,
                            start_char: i,
                            end_char: i + 1,
                            data: String::new(),
                        };
                        collector.push(tok);
                        proof {
                            assert(tok@ == symbol_token(k, ln, i as int));
                            assert(line_tokens(line@, ln, i as int) == seq![
                                symbol_token(k, ln, i as int),
                            ] + line_tokens(line@, ln, i + 1));
                            assert(token_views(collector@) + line_tokens(line@, ln, i + 1)
                                =~= token_views(pre) + line_tokens(line@, ln, i as int));
                        }
                    }
                    None => {
                        proof {
                            assert(line_tokens(line@, ln, i as int) == line_tokens(
                                line@,
                                ln,
                                i + 1,
                            ));
                        }
                    }
                }
                i = i + 1;
            }
        }
    }
    proof {
        assert(line_tokens(line@, ln, n as int) =~= Seq::empty());
        assert(token_views(collector@) =~= token_views(collector@) + line_tokens(
            line@,
            ln,
            n as int,
        ));
    }
}

/// The views of a sequence of source lines.
pub open spec fn line_views(s: Seq<String>) -> Seq<Seq<char>> {
    s.map_values(|l: String| l@)
}

/// The tokens of all lines from index `i` on; the line at index `i` carries
/// the one-based line number `i + 1`.
pub open spec fn lex_tokens_from(lines: Seq<Seq<char>>, i: int) -> Seq<TokenView>
    decreases lines.len() - i,
{
    if 0 <= i < lines.len() {
        line_tokens(lines[i], i + 1, 0) + lex_tokens_from(lines, i + 1)
    } else {
        Seq::empty()
    }
}

/// The token sequence of a whole source text, line by line, top to bottom.
pub open spec fn lex_tokens(lines: Seq<Seq<char>>) -> Seq<TokenView> {
    lex_tokens_from(lines, 0)
}

/// Scans every line in order, starting the line count at one, and appends
/// all tokens to the collector.
pub fn lexinternal(lines: &Vec<String>, collector: &mut Vec<TokenInfo>)
    ensures
        token_views(final(collector)@) == token_views(old(collector)@)
            + lex_tokens(line_views(lines@)),
{
    let mut li: usize = 0;
    let n: usize = lines.len();
    while li < n
        invariant
            n == lines@.len(),
            li <= n,
            token_views(collector@) + lex_tokens_from(line_views(lines@), li as int)
                == token_views(old(collector)@) + lex_tokens_from(line_views(lines@), 0),
        decreases n - li,
    {
        let ghost pre = collector@;
        get_tokens(&lines[li], li + 1, collector);
        proof {
            assert(line_views(lines@)[li as int] == lines@[li as int]@);
            assert(lex_tokens_from(line_views(lines@), li as int) == line_tokens(
                lines@[li as int]@,
                li + 1,
                0,
            ) + lex_tokens_from(line_views(lines@), li + 1));
            assert(token_views(collector@) + lex_tokens_from(line_views(lines@), li + 1)
                =~= token_views(pre) + lex_tokens_from(line_views(lines@), li as int));
        }
        li = li + 1;
    }
    proof {
        assert(lex_tokens_from(line_views(lines@), n as int) =~= Seq::empty());
        assert(token_views(collector@) =~= token_views(collector@) + lex_tokens_from(
            line_views(lines@),
            n as int,
        ));
    }
}

/// Lexical analysis of a whole source text: the result holds exactly the
/// token sequence of the given lines, in source order.
pub fn lex(lines: &Vec<String>) -> (r: Vec<TokenInfo>)
    ensures
        token_views(r@) == lex_tokens(line_views(lines@)),
{
    let mut collector: Vec<TokenInfo> = Vec::new();
    lexinternal(lines, &mut collector);
    collector
}

/// The ordering discipline of a token sequence taken from one line: every
/// token lies inside the line at or after position `lo` and carries the
/// line's number, tokens follow one another left to right without overlap,
/// and an identifier or integer literal carries exactly the text of the
/// line range it covers.
pub open spec fn tokens_ordered_in(toks: Seq<TokenView>, lo: int, line: Seq<char>, ln: int) -> bool {
    &&& forall|m: int|
        0 <= m < toks.len() ==> {
            let t = #[trigger] toks[m];
            lo <= t.start < t.end <= line.len() && t.line == ln
        }
    &&& forall|m: int|
        0 <= m < toks.len() && ((#[trigger] toks[m]).kind == TokenType::Identifier || toks[m].kind
            == TokenType::Intliteral) ==> toks[m].text == line.subrange(toks[m].start, toks[m].end)
    &&& forall|m1: int, m2: int|
        0 <= m1 < m2 < toks.len() ==> (#[trigger] toks[m1]).end <= (#[trigger] toks[m2]).start
}

#[verifier::rlimit(50)]
proof fn lemma_ordered_cons(head: TokenView, rest: Seq<TokenView>, lo: int, line: Seq<char>, ln: int)
    requires
        lo <= head.start < head.end <= line.len(),
        head.line == ln,
        head.kind == TokenType::Identifier || head.kind == TokenType::Intliteral ==> head.text
            == line.subrange(head.start, head.end),
        tokens_ordered_in(rest, head.end, line, ln),
    ensures
        tokens_ordered_in(seq![head] + rest, lo, line, ln),
{
    let toks = seq![head] + rest;
    assert forall|m: int| 0 <= m < toks.len() implies {
        let t = #[trigger] toks[m];
        lo <= t.start < t.end <= line.len() && t.line == ln
    } by {
        if m > 0 {
            assert(toks[m] == rest[m - 1]);
        }
    }
    assert forall|m: int|
        0 <= m < toks.len() && ((#[trigger] toks[m]).kind == TokenType::Identifier || toks[m].kind
            == TokenType::Intliteral) implies toks[m].text == line.subrange(
        toks[m].start,
        toks[m].end,
    ) by {
        if m > 0 {
            assert(toks[m] == rest[m - 1]);
        }
    }
    assert forall|m1: int, m2: int| 0 <= m1 < m2 < toks.len() implies (#[trigger] toks[m1]).end <= (
    #[trigger] toks[m2]).start by {
        assert(toks[m2] == rest[m2 - 1]);
        if m1 == 0 {
            assert(rest[0].start <= rest[m2 - 1].start);
        } else {
            assert(toks[m1] == rest[m1 - 1]);
        }
    }
}

/// Law of the lexer: the tokens of a line, scanned from position `i`, obey
/// the ordering discipline above. In particular the texts of all emitted
/// identifiers and integer literals are disjoint, non-overlapping
/// substrings of the line in left-to-right order, and whitespace and
/// unrecognised symbols contribute no token.
#[verifier::rlimit(50)]
pub proof fn lemma_line_tokens_ordered(line: Seq<char>, ln: int, i: int)
    requires
        0 <= i <= line.len(),
    ensures
        tokens_ordered_in(line_tokens(line, ln, i), i, line, ln),
    decreases line.len() - i,
{
    if i >= line.len() {
    } else {
        let c = line[i];
        if is_alpha_char(c) {
            let j = alpha_run_end(line, i);
            lemma_alpha_run_end(line, i);
            assert(j >= i + 1) by {
                lemma_alpha_run_end(line, i + 1);
            }
            lemma_line_tokens_ordered(line, ln, j);
            lemma_ordered_cons(word_token(line, ln, i, j), line_tokens(line, ln, j), i, line, ln);
        } else if is_digit_char(c) {
            let j = digit_run_end(line, i);
            lemma_digit_run_end(line, i);
            assert(j >= i + 1) by {
                lemma_digit_run_end(line, i + 1);
            }
            lemma_line_tokens_ordered(line, ln, j);
            let head = TokenView {
                kind: TokenType::Intliteral,
                line: ln,
                start: i,
                end: j,
                text: line.subrange(i, j),
            };
            lemma_ordered_cons(head, line_tokens(line, ln, j), i, line, ln);
        } else {
            lemma_line_tokens_ordered(line, ln, i + 1);
            if c == '(' || c == ')' || c == '{' || c == '}' || c == ';' {
                let k = if c == '(' {
                    TokenType::OpenParen
                } else if c == ')' {
                    TokenType::CloseParen
                } else if c == '{' {
                    TokenType::OpenBrace
                } else if c == '}' {
                    TokenType::CloseBrace
                } else {
                    TokenType::SemiColon
                };
                lemma_ordered_cons(symbol_token(k, ln, i), line_tokens(line, ln, i + 1), i, line, ln);
            } else {
                assert forall|m: int| 0 <= m < line_tokens(line, ln, i).len() implies {
                    let t = #[trigger] line_tokens(line, ln, i)[m];
                    i <= t.start
                } by {
                    assert(line_tokens(line, ln, i)[m] == line_tokens(line, ln, i + 1)[m]);
                }
            }
        }
    }
}

/// Law of maximal munch: a maximal run of digits — one bounded on both
/// sides by the line's ends or by non-digits — is captured as one single
/// integer-literal token whose text is exactly that run, neither truncated
/// nor split.
pub proof fn lemma_maximal_digit_run(line: Seq<char>, ln: int, i: int, j: int)
    requires
        0 <= i < j <= line.len(),
        forall|k: int| i <= k < j ==> is_digit_char(line[k]),
        i == 0 || !is_digit_char(line[i - 1]),
        j == line.len() || !is_digit_char(line[j]),
    ensures
        line_tokens(line, ln, 0).contains(
            TokenView {
                kind: TokenType::Intliteral,
                line: ln,
                start: i,
                end: j,
                text: line.subrange(i, j),
            },
        ),
{
    lemma_maximal_digit_run_from(line, ln, i, j, 0);
}

proof fn lemma_maximal_digit_run_from(line: Seq<char>, ln: int, i: int, j: int, k: int)
    requires
        0 <= i < j <= line.len(),
        forall|m: int| i <= m < j ==> is_digit_char(line[m]),
        i == 0 || !is_digit_char(line[i - 1]),
        j == line.len() || !is_digit_char(line[j]),
        0 <= k <= i,
    ensures
        line_tokens(line, ln, k).contains(
            TokenView {
                kind: TokenType::Intliteral,
                line: ln,
                start: i,
                end: j,
                text: line.subrange(i, j),
            },
        ),
    decreases i - k,
{
    let tv = TokenView {
        kind: TokenType::Intliteral,
        line: ln,
        start: i,
        end: j,
        text: line.subrange(i, j),
    };
    if k == i {
        lemma_digit_run_end_unique(line, i, j);
        let rest = line_tokens(line, ln, j);
        assert(line_tokens(line, ln, k) == seq![tv] + rest);
        assert((seq![tv] + rest)[0] == tv);
    } else {
        let c = line[k];
        if is_alpha_char(c) {
            let next = alpha_run_end(line, k);
            lemma_alpha_run_end(line, k);
            assert(next >= k + 1) by {
                lemma_alpha_run_end(line, k + 1);
            }
            assert(next <= i) by {
                if next > i {
                    assert(is_alpha_char(line[i]));
                    assert(is_digit_char(line[i]));
                }
            }
            lemma_maximal_digit_run_from(line, ln, i, j, next);
            let rest = line_tokens(line, ln, next);
            let idx = choose|m: int| 0 <= m < rest.len() && rest[m] == tv;
            assert((seq![word_token(line, ln, k, next)] + rest)[idx + 1] == tv);
        } else if is_digit_char(c) {
            let next = digit_run_end(line, k);
            lemma_digit_run_end(line, k);
            assert(next >= k + 1) by {
                lemma_digit_run_end(line, k + 1);
            }
            assert(next < i) by {
                assert(!is_digit_char(line[i - 1]));
                if next > i - 1 {
                    assert(is_digit_char(line[i - 1]));
                }
            }
            lemma_maximal_digit_run_from(line, ln, i, j, next);
            let rest = line_tokens(line, ln, next);
            let idx = choose|m: int| 0 <= m < rest.len() && rest[m] == tv;
            let head = TokenView {
                kind: TokenType::Intliteral,
                line: ln,
                start: k,
                end: next,
                text: line.subrange(k, next),
            };
            assert((seq![head] + rest)[idx + 1] == tv);
        } else {
            lemma_maximal_digit_run_from(line, ln, i, j, k + 1);
            let rest = line_tokens(line, ln, k + 1);
            let idx = choose|m: int| 0 <= m < rest.len() && rest[m] == tv;
            if c == '(' || c == ')' || c == '{' || c == '}' || c == ';' {
                assert(line_tokens(line, ln, k)[idx + 1] == tv);
            } else {
                assert(line_tokens(line, ln, k)[idx] == tv);
            }
        }
    }
}

} // verus!
