use vstd::prelude::*;
use vstd::string::*;
use crate::span::SourceSpan;
use crate::statement::StatementToken;
use crate::text::{
    byte_len, byte_length, byte_offset, char_width, chars_of, lemma_byte_len_empty,
    lemma_byte_len_positive, lemma_byte_len_push, lemma_byte_offset_split, split_text,
};

verus! {

/// Whether a character beyond ASCII is a word character of Unicode.
pub uninterp spec fn unicode_word(c: char) -> bool;

/// Asks `regex_syntax::is_word_character` whether a character is a word
/// character of Unicode. The answer is looked up in a fixed table, so it
/// depends on the character alone; nothing more is claimed of it. The call
/// panics only where the crate is built without its table of word
/// characters, which is asked for here.
#[verifier::external_body]
fn unicode_word_character(c: char) -> (word: bool)
    ensures
        word == unicode_word(c),
{
    regex_syntax::is_word_character(c)
}

/// Whether a character can stand in a word: among the ASCII characters the
/// letters, the digits and the underscore, beyond them what Unicode counts as
/// a word character.
pub open spec fn is_word(c: char) -> bool {
    if (c as u32) < 128 {
        ('a' <= c && c <= 'z') || ('A' <= c && c <= 'Z') || ('0' <= c && c <= '9') || c == '_'
    } else {
        unicode_word(c)
    }
}

/// The class of a character that is a token by itself.
pub open spec fn punctuation(c: char) -> Option<StatementToken> {
    if c == '%' {
        Some(StatementToken::Ascii37)
    } else if c == '(' {
        Some(StatementToken::Ascii40)
    } else if c == ')' {
        Some(StatementToken::Ascii41)
    } else if c == '*' {
        Some(StatementToken::Ascii42)
    } else if c == '+' {
        Some(StatementToken::Ascii43)
    } else if c == ',' {
        Some(StatementToken::Ascii44)
    } else if c == '-' {
        Some(StatementToken::Ascii45)
    } else if c == '.' {
        Some(StatementToken::Ascii46)
    } else if c == '/' {
        Some(StatementToken::Ascii47)
    } else if c == ':' {
        Some(StatementToken::Ascii58)
    } else if c == ';' {
        Some(StatementToken::Ascii59)
    } else if c == '<' {
        Some(StatementToken::Ascii60)
    } else if c == '=' {
        Some(StatementToken::Ascii61)
    } else if c == '>' {
        Some(StatementToken::Ascii62)
    } else if c == '?' {
        Some(StatementToken::Ascii63)
    } else if c == '[' {
        Some(StatementToken::Ascii91)
    } else if c == '\\' {
        Some(StatementToken::Ascii92)
    } else if c == ']' {
        Some(StatementToken::Ascii93)
    } else if c == '^' {
        Some(StatementToken::Ascii94)
    } else {
        None
    }
}

/// Where the run of the character `c` that covers index `i` ends: the first
/// index from `i` on that holds another character, or the end of the text.
pub open spec fn run_end(s: Seq<char>, i: int, c: char) -> int
    decreases s.len() - i,
{
    if 0 <= i < s.len() && s[i] == c {
        run_end(s, i + 1, c)
    } else {
        i
    }
}

/// The first index from `i` on that holds the character `c`, or the end of
/// the text where there is none.
pub open spec fn next_of(s: Seq<char>, i: int, c: char) -> int
    decreases s.len() - i,
{
    if 0 <= i < s.len() && s[i] != c {
        next_of(s, i + 1, c)
    } else {
        i
    }
}

/// Where the run of word characters that covers index `i` ends.
pub open spec fn word_end(s: Seq<char>, i: int) -> int
    decreases s.len() - i,
{
    if 0 <= i < s.len() && is_word(s[i]) {
        word_end(s, i + 1)
    } else {
        i
    }
}

/// The index behind the first `*/` that starts at `i` or later, if there is one.
pub open spec fn comment_close(s: Seq<char>, i: int) -> Option<int>
    decreases s.len() - i,
{
    if i < 0 || i + 1 >= s.len() {
        None
    } else if s[i] == '*' && s[i + 1] == '/' {
        Some(i + 2)
    } else {
        comment_close(s, i + 1)
    }
}

/// The token that starts at index `i`, as its class and the index behind its
/// last character; `None` where no token can start with what stands there.
///
/// Of two tokens that could start at `i` the longer one is taken: a block
/// comment that is closed wins over the slash, a line comment over the minus.
/// A quote starts a string literal only if at least one character follows
/// before the next quote; by itself it is no token.
#[verifier::opaque]
pub open spec fn token_at(s: Seq<char>, i: int) -> Option<(StatementToken, int)>
    recommends
        0 <= i < s.len(),
{
    let c = s[i];
    if c == '\'' {
        let close = next_of(s, i + 1, '\'');
        if i + 1 < close < s.len() {
            Some((StatementToken::Sconst, close + 1))
        } else {
            None
        }
    } else if c == '/' && i + 1 < s.len() && s[i + 1] == '*' && comment_close(s, i + 2) is Some {
        Some((StatementToken::Comment, comment_close(s, i + 2).unwrap()))
    } else if c == '-' && i + 1 < s.len() && s[i + 1] == '-' {
        Some((StatementToken::Comment, next_of(s, i + 2, '\n')))
    } else if punctuation(c) is Some {
        Some((punctuation(c).unwrap(), i + 1))
    } else if c == ' ' {
        Some((StatementToken::Whitespace, run_end(s, i + 1, ' ')))
    } else if c == '\n' {
        Some((StatementToken::Newline, run_end(s, i + 1, '\n')))
    } else if c == '\t' {
        Some((StatementToken::Tab, run_end(s, i + 1, '\t')))
    } else if is_word(c) {
        Some((StatementToken::Word, word_end(s, i + 1)))
    } else {
        None
    }
}

/// A run ends within the text, holds the character `c` throughout, and is
/// followed by another character or by the end of the text.
pub proof fn lemma_run_end(s: Seq<char>, i: int, c: char)
    requires
        0 <= i <= s.len(),
    ensures
        i <= run_end(s, i, c) <= s.len(),
        forall|j: int| i <= j < run_end(s, i, c) ==> #[trigger] s[j] == c,
        run_end(s, i, c) < s.len() ==> s[run_end(s, i, c)] != c,
    decreases s.len() - i,
{
    if i < s.len() && s[i] == c {
        lemma_run_end(s, i + 1, c);
    }
}

/// The next `c` is the first one: no character before it, from `i` on, is `c`.
pub proof fn lemma_next_of(s: Seq<char>, i: int, c: char)
    requires
        0 <= i <= s.len(),
    ensures
        i <= next_of(s, i, c) <= s.len(),
        forall|j: int| i <= j < next_of(s, i, c) ==> #[trigger] s[j] != c,
        next_of(s, i, c) < s.len() ==> s[next_of(s, i, c)] == c,
    decreases s.len() - i,
{
    if i < s.len() && s[i] != c {
        lemma_next_of(s, i + 1, c);
    }
}

/// A word ends within the text, holds word characters throughout, and is
/// followed by a character that is none or by the end of the text.
pub proof fn lemma_word_end(s: Seq<char>, i: int)
    requires
        0 <= i <= s.len(),
    ensures
        i <= word_end(s, i) <= s.len(),
        forall|j: int| i <= j < word_end(s, i) ==> is_word(#[trigger] s[j]),
        word_end(s, i) < s.len() ==> !is_word(s[word_end(s, i)]),
    decreases s.len() - i,
{
    if i < s.len() && is_word(s[i]) {
        lemma_word_end(s, i + 1);
    }
}

/// A block comment is closed by the first `*/` from `i` on: the two
/// characters stand right before the index found, and no `*/` starts
/// earlier. Where none is found, no `*/` starts at `i` or later.
pub proof fn lemma_comment_close(s: Seq<char>, i: int)
    requires
        0 <= i,
    ensures
        match comment_close(s, i) {
            Some(end) => {
                &&& i + 2 <= end <= s.len()
                &&& s[end - 2] == '*'
                &&& s[end - 1] == '/'
                &&& forall|j: int| i <= j < end - 2 ==> !(#[trigger] s[j] == '*' && s[j + 1] == '/')
            },
            None => forall|j: int| i <= j && j + 1 < s.len() ==> !(#[trigger] s[j] == '*' && s[j + 1]
                == '/'),
        },
    decreases s.len() - i,
{
    if i + 1 < s.len() && !(s[i] == '*' && s[i + 1] == '/') {
        lemma_comment_close(s, i + 1);
    }
}

/// A token holds at least one character and ends within the text.
pub proof fn lemma_token_at_bounds(s: Seq<char>, i: int)
    requires
        0 <= i < s.len(),
        token_at(s, i) is Some,
    ensures
        i < token_at(s, i).unwrap().1 <= s.len(),
{
    reveal(token_at);
    lemma_next_of(s, i + 1, '\'');
    if i + 1 < s.len() {
        lemma_next_of(s, i + 2, '\n');
        lemma_comment_close(s, i + 2);
    }
    lemma_run_end(s, i + 1, ' ');
    lemma_run_end(s, i + 1, '\n');
    lemma_run_end(s, i + 1, '\t');
    lemma_word_end(s, i + 1);
}

/// One token of a text, by the indices of its characters.
pub struct Lexeme {
    pub kind: StatementToken,
    pub start: int,
    pub end: int,
}

/// The tokens of the text from index `i` on, or the index of the first
/// character with which no token can start.
pub open spec fn scan_from(s: Seq<char>, i: int) -> Result<Seq<Lexeme>, int>
    decreases s.len() - i,
{
    if i < 0 || i >= s.len() {
        Ok(Seq::empty())
    } else {
        match token_at(s, i) {
            None => Err(i),
            Some((kind, end)) => {
                proof {
                    lemma_token_at_bounds(s, i);
                }
                match scan_from(s, end) {
                    Ok(rest) => Ok(seq![Lexeme { kind, start: i, end }] + rest),
                    Err(at) => Err(at),
                }
            },
        }
    }
}

/// The tokens of a whole text.
pub open spec fn scan(s: Seq<char>) -> Result<Seq<Lexeme>, int> {
    scan_from(s, 0)
}

/// What a token looks like, class by class.
///
/// A word is a run of word characters that no word character follows; white
/// space, newlines and tabs are runs of their one character that the same
/// character does not follow. A string literal starts and ends with a quote,
/// with at least one character and no quote between the two. A block comment
/// starts with `/*` and ends with the first `*/` behind that; a line comment
/// starts with `--` and ends before the next newline or with the text. Every
/// other token is one character of punctuation.
pub proof fn lemma_token_shape(s: Seq<char>, i: int)
    requires
        0 <= i < s.len(),
        token_at(s, i) is Some,
    ensures
        ({
            let (kind, end) = token_at(s, i).unwrap();
            &&& i < end <= s.len()
            &&& match kind {
                StatementToken::Word => {
                    &&& forall|j: int| i <= j < end ==> is_word(#[trigger] s[j])
                    &&& end < s.len() ==> !is_word(s[end])
                },
                StatementToken::Whitespace => {
                    &&& forall|j: int| i <= j < end ==> #[trigger] s[j] == ' '
                    &&& end < s.len() ==> s[end] != ' '
                },
                StatementToken::Newline => {
                    &&& forall|j: int| i <= j < end ==> #[trigger] s[j] == '\n'
                    &&& end < s.len() ==> s[end] != '\n'
                },
                StatementToken::Tab => {
                    &&& forall|j: int| i <= j < end ==> #[trigger] s[j] == '\t'
                    &&& end < s.len() ==> s[end] != '\t'
                },
                StatementToken::Sconst => {
                    &&& i + 3 <= end
                    &&& s[i] == '\''
                    &&& s[end - 1] == '\''
                    &&& forall|j: int| i < j < end - 1 ==> #[trigger] s[j] != '\''
                },
                StatementToken::Comment => if s[i] == '/' {
                    &&& i + 4 <= end
                    &&& s[i + 1] == '*'
                    &&& s[end - 2] == '*'
                    &&& s[end - 1] == '/'
                    &&& forall|j: int|
                        i + 2 <= j < end - 2 ==> !(#[trigger] s[j] == '*' && s[j + 1] == '/')
                } else {
                    &&& i + 2 <= end
                    &&& s[i] == '-'
                    &&& s[i + 1] == '-'
                    &&& forall|j: int| i + 2 <= j < end ==> #[trigger] s[j] != '\n'
                    &&& end < s.len() ==> s[end] == '\n'
                },
                _ => end == i + 1 && punctuation(s[i]) == Some(kind),
            }
        }),
{
    reveal(token_at);
    lemma_next_of(s, i + 1, '\'');
    if i + 1 < s.len() {
        lemma_next_of(s, i + 2, '\n');
        lemma_comment_close(s, i + 2);
    }
    lemma_run_end(s, i + 1, ' ');
    lemma_run_end(s, i + 1, '\n');
    lemma_run_end(s, i + 1, '\t');
    lemma_word_end(s, i + 1);
}

/// With which characters no token starts: with a quote that is not followed
/// by at least one character and then a quote, and with any character that
/// is neither punctuation nor a blank, a newline, a tab or a word character.
pub proof fn lemma_token_none(s: Seq<char>, i: int)
    requires
        0 <= i < s.len(),
    ensures
        token_at(s, i) is None <==> if s[i] == '\'' {
            !(i + 1 < next_of(s, i + 1, '\'') < s.len())
        } else {
            &&& punctuation(s[i]) is None
            &&& s[i] != ' '
            &&& s[i] != '\n'
            &&& s[i] != '\t'
            &&& !is_word(s[i])
        },
{
    reveal(token_at);
}

/// A text in which a token starts with every character is sorted into
/// tokens from any index on.
pub proof fn lemma_scan_total(s: Seq<char>, i: int)
    requires
        0 <= i <= s.len(),
        forall|j: int| 0 <= j < s.len() ==> (#[trigger] token_at(s, j)) is Some,
    ensures
        scan_from(s, i) is Ok,
    decreases s.len() - i,
{
    if i < s.len() {
        lemma_token_at_bounds(s, i);
        lemma_scan_total(s, token_at(s, i).unwrap().1);
    }
}

/// Whether a character can stand in a word.
pub fn is_word_character(c: char) -> (word: bool)
    ensures
        word == is_word(c),
{
    if (c as u32) < 128 {
        ('a' <= c && c <= 'z') || ('A' <= c && c <= 'Z') || ('0' <= c && c <= '9') || c == '_'
    } else {
        unicode_word_character(c)
    }
}

/// The class of a character that is a token by itself.
pub fn punctuation_of(c: char) -> (class: Option<StatementToken>)
    ensures
        class == punctuation(c),
{
    if c == '%' {
        Some(StatementToken::Ascii37)
    } else if c == '(' {
        Some(StatementToken::Ascii40)
    } else if c == ')' {
        Some(StatementToken::Ascii41)
    } else if c == '*' {
        Some(StatementToken::Ascii42)
    } else if c == '+' {
        Some(StatementToken::Ascii43)
    } else if c == ',' {
        Some(StatementToken::Ascii44)
    } else if c == '-' {
        Some(StatementToken::Ascii45)
    } else if c == '.' {
        Some(StatementToken::Ascii46)
    } else if c == '/' {
        Some(StatementToken::Ascii47)
    } else if c == ':' {
        Some(StatementToken::Ascii58)
    } else if c == ';' {
        Some(StatementToken::Ascii59)
    } else if c == '<' {
        Some(StatementToken::Ascii60)
    } else if c == '=' {
        Some(StatementToken::Ascii61)
    } else if c == '>' {
        Some(StatementToken::Ascii62)
    } else if c == '?' {
        Some(StatementToken::Ascii63)
    } else if c == '[' {
        Some(StatementToken::Ascii91)
    } else if c == '\\' {
        Some(StatementToken::Ascii92)
    } else if c == ']' {
        Some(StatementToken::Ascii93)
    } else if c == '^' {
        Some(StatementToken::Ascii94)
    } else {
        None
    }
}

fn skip_run(chars: &Vec<char>, from: usize, c: char) -> (end: usize)
    requires
        from <= chars.len(),
    ensures
        end == run_end(chars@, from as int, c),
        from <= end <= chars.len(),
{
    let mut i: usize = from;
    while i < chars.len() && chars[i] == c
        invariant
            from <= i <= chars.len(),
            run_end(chars@, from as int, c) == run_end(chars@, i as int, c),
        decreases chars.len() - i,
    {
        i += 1;
    }
    i
}

fn find_next(chars: &Vec<char>, from: usize, c: char) -> (end: usize)
    requires
        from <= chars.len(),
    ensures
        end == next_of(chars@, from as int, c),
        from <= end <= chars.len(),
{
    let mut i: usize = from;
    while i < chars.len() && chars[i] != c
        invariant
            from <= i <= chars.len(),
            next_of(chars@, from as int, c) == next_of(chars@, i as int, c),
        decreases chars.len() - i,
    {
        i += 1;
    }
    i
}

fn skip_word(chars: &Vec<char>, from: usize) -> (end: usize)
    requires
        from <= chars.len(),
    ensures
        end == word_end(chars@, from as int),
        from <= end <= chars.len(),
{
    let mut i: usize = from;
    while i < chars.len() && is_word_character(chars[i])
        invariant
            from <= i <= chars.len(),
            word_end(chars@, from as int) == word_end(chars@, i as int),
        decreases chars.len() - i,
    {
        i += 1;
    }
    i
}

fn find_comment_close(chars: &Vec<char>, from: usize) -> (end: Option<usize>)
    requires
        from <= chars.len(),
    ensures
        match end {
            Some(e) => comment_close(chars@, from as int) == Some(e as int) && from + 2 <= e
                <= chars.len(),
            None => comment_close(chars@, from as int) is None,
        },
{
    let mut i: usize = from;
    while i < chars.len() && i + 1 < chars.len()
        invariant
            from <= i <= chars.len(),
            comment_close(chars@, from as int) == comment_close(chars@, i as int),
        decreases chars.len() - i,
    {
        if chars[i] == '*' && chars[i + 1] == '/' {
            return Some(i + 2);
        }
        i += 1;
    }
    None
}

/// The token that starts at index `at` of `chars`: its class and the index
/// behind its last character.
pub fn next_token(chars: &Vec<char>, at: usize) -> (token: Option<(StatementToken, usize)>)
    requires
        at < chars.len(),
    ensures
        match token {
            Some((kind, end)) => token_at(chars@, at as int) == Some((kind, end as int)) && at < end
                <= chars.len(),
            None => token_at(chars@, at as int) is None,
        },
{
    proof {
        reveal(token_at);
    }
    let c = chars[at];
    let n = chars.len();
    if c == '\'' {
        let close = find_next(chars, at + 1, '\'');
        if at + 1 < close && close < n {
            return Some((StatementToken::Sconst, close + 1));
        } else {
            return None;
        }
    }
    if c == '/' && at + 1 < n && chars[at + 1] == '*' {
        match find_comment_close(chars, at + 2) {
            Some(end) => {
                return Some((StatementToken::Comment, end));
            },
            None => {},
        }
    }
    if c == '-' && at + 1 < n && chars[at + 1] == '-' {
        return Some((StatementToken::Comment, find_next(chars, at + 2, '\n')));
    }
    match punctuation_of(c) {
        Some(kind) => {
            return Some((kind, at + 1));
        },
        None => {},
    }
    if c == ' ' {
        Some((StatementToken::Whitespace, skip_run(chars, at + 1, ' ')))
    } else if c == '\n' {
        Some((StatementToken::Newline, skip_run(chars, at + 1, '\n')))
    } else if c == '\t' {
        Some((StatementToken::Tab, skip_run(chars, at + 1, '\t')))
    } else if is_word_character(c) {
        Some((StatementToken::Word, skip_word(chars, at + 1)))
    } else {
        None
    }
}

/// What a token is: its class, the byte offsets between which it stands in
/// the text, and its characters.
pub struct Token {
    pub kind: StatementToken,
    pub start: int,
    pub end: int,
    pub text: Seq<char>,
}

impl Token {
    /// Whether the byte offset `pos` lies in the token.
    pub open spec fn holds(self, pos: int) -> bool {
        self.start <= pos < self.end
    }
}

/// One token as the classifier hands it out: its class, the bytes of the
/// text that it covers, and the characters that stand there.
#[derive(Clone, Debug, PartialEq, Eq)]
pub struct GenericToken {
    pub kind: StatementToken,
    pub span: SourceSpan,
    pub text: String,
}

impl View for GenericToken {
    type V = Token;

    open spec fn view(&self) -> Token {
        Token {
            kind: self.kind,
            start: self.span.start as int,
            end: self.span.end as int,
            text: self.text@,
        }
    }
}

/// What a row of tokens is.
pub open spec fn token_views(tokens: Seq<GenericToken>) -> Seq<Token> {
    Seq::new(tokens.len(), |i: int| tokens[i]@)
}

/// The input that the classifier cannot sort into any class: `at` is the byte
/// offset of the first character with which no token can start.
#[derive(Clone, Copy, Debug, PartialEq, Eq)]
pub struct UnsupportedInput {
    pub at: usize,
}

/// The token that a lexeme of the text `s` gives: the same class, the byte
/// offsets of its two ends, and the characters between them.
pub open spec fn rendered(s: Seq<char>, lexeme: Lexeme) -> Token {
    Token {
        kind: lexeme.kind,
        start: byte_offset(s, lexeme.start),
        end: byte_offset(s, lexeme.end),
        text: s.subrange(lexeme.start, lexeme.end),
    }
}

/// The tokens that lexemes of the text `s` give, one for one.
pub open spec fn rendered_all(s: Seq<char>, lexemes: Seq<Lexeme>) -> Seq<Token> {
    Seq::new(lexemes.len(), |i: int| rendered(s, lexemes[i]))
}

/// The tokens of a text that the classifier can sort.
pub open spec fn tokens_of(s: Seq<char>) -> Seq<Token>
    recommends
        scan(s) is Ok,
{
    rendered_all(s, scan(s)->Ok_0)
}

/// The characters of all the tokens, one token after the other.
pub open spec fn tokens_text(tokens: Seq<Token>) -> Seq<char>
    decreases tokens.len(),
{
    if tokens.len() == 0 {
        Seq::empty()
    } else {
        tokens_text(tokens.drop_last()) + tokens.last().text
    }
}

/// Whether `tokens` lie end to end from byte `from` to byte `to`, each of
/// them holding at least one byte.
pub open spec fn gapless(tokens: Seq<Token>, from: int, to: int) -> bool
    decreases tokens.len(),
{
    if tokens.len() == 0 {
        from == to
    } else {
        &&& gapless(tokens.drop_last(), from, tokens.last().start)
        &&& tokens.last().start < tokens.last().end
        &&& tokens.last().end == to
    }
}

/// What is already scanned, followed by what the rest of the text gives.
spec fn scanned_then(done: Seq<Lexeme>, rest: Result<Seq<Lexeme>, int>) -> Result<
    Seq<Lexeme>,
    int,
> {
    match rest {
        Ok(more) => Ok(done + more),
        Err(at) => Err(at),
    }
}

fn stretch_width(chars: &Vec<char>, from: usize, to: usize) -> (width: usize)
    requires
        from <= to <= chars.len(),
        byte_len(chars@) <= usize::MAX,
    ensures
        width == byte_len(chars@.subrange(from as int, to as int)),
{
    let mut width: usize = 0;
    let mut i: usize = from;
    proof {
        assert(chars@.subrange(from as int, from as int) =~= Seq::<char>::empty());
        lemma_byte_len_empty();
    }
    while i < to
        invariant
            from <= i <= to <= chars.len(),
            byte_len(chars@) <= usize::MAX,
            width == byte_len(chars@.subrange(from as int, i as int)),
        decreases to - i,
    {
        proof {
            let s = chars@;
            lemma_byte_len_push(s.subrange(from as int, i as int), s[i as int]);
            assert(s.subrange(from as int, i as int).push(s[i as int]) =~= s.subrange(
                from as int,
                i + 1,
            ));
            lemma_byte_offset_split(s, from as int, i + 1);
        }
        width += char_width(chars[i]);
        i += 1;
    }
    width
}

/// Scanning from the start of a token gives that token and then what
/// scanning from its end gives.
proof fn lemma_scan_step(s: Seq<char>, done: Seq<Lexeme>, pos: int, kind: StatementToken, end: int)
    requires
        0 <= pos < s.len(),
        token_at(s, pos) == Some((kind, end)),
    ensures
        scanned_then(done, scan_from(s, pos)) == scanned_then(
            done.push(Lexeme { kind, start: pos, end }),
            scan_from(s, end),
        ),
{
    let lexeme = Lexeme { kind, start: pos, end };
    let rest = scan_from(s, end);
    assert(scan_from(s, pos) == scanned_then(seq![lexeme], rest));
    if rest is Ok {
        assert(done + (seq![lexeme] + rest->Ok_0) =~= done.push(lexeme) + rest->Ok_0);
    }
}

/// The text of a token followed by more tokens.
proof fn lemma_tokens_text_prepend(first: Token, rest: Seq<Token>)
    ensures
        tokens_text(seq![first] + rest) == first.text + tokens_text(rest),
    decreases rest.len(),
{
    let all = seq![first] + rest;
    if rest.len() == 0 {
        assert(all.drop_last() =~= Seq::<Token>::empty());
        assert(all.last() == first);
        assert(tokens_text(all.drop_last()) =~= Seq::<char>::empty());
        assert(tokens_text(rest) =~= Seq::<char>::empty());
        assert(tokens_text(all) =~= first.text + tokens_text(rest));
    } else {
        assert(all.drop_last() =~= seq![first] + rest.drop_last());
        assert(all.last() == rest.last());
        lemma_tokens_text_prepend(first, rest.drop_last());
        assert(tokens_text(all) =~= first.text + tokens_text(rest));
    }
}

/// A token followed by more tokens lies end to end with them where they
/// start at its end.
proof fn lemma_gapless_prepend(first: Token, rest: Seq<Token>, to: int)
    ensures
        gapless(seq![first] + rest, first.start, to) == (first.start < first.end && gapless(
            rest,
            first.end,
            to,
        )),
    decreases rest.len(),
{
    let all = seq![first] + rest;
    if rest.len() == 0 {
        assert(all.drop_last() =~= Seq::<Token>::empty());
        assert(all.last() == first);
        assert(gapless(all.drop_last(), first.start, first.start));
        assert(gapless(rest, first.end, to) == (first.end == to));
    } else {
        assert(all.drop_last() =~= seq![first] + rest.drop_last());
        assert(all.last() == rest.last());
        lemma_gapless_prepend(first, rest.drop_last(), rest.last().start);
    }
}

/// The tokens from an index on cover the text from there to its end.
proof fn lemma_scan_from_covers(s: Seq<char>, i: int)
    requires
        0 <= i <= s.len(),
        scan_from(s, i) is Ok,
    ensures
        tokens_text(rendered_all(s, scan_from(s, i)->Ok_0)) == s.subrange(i, s.len() as int),
        gapless(rendered_all(s, scan_from(s, i)->Ok_0), byte_offset(s, i), byte_len(s)),
    decreases s.len() - i,
{
    lemma_byte_offset_split(s, i, s.len() as int);
    if i >= s.len() {
        assert(rendered_all(s, Seq::<Lexeme>::empty()) =~= Seq::<Token>::empty());
        assert(s.subrange(i, s.len() as int) =~= Seq::<char>::empty());
    } else {
        lemma_token_at_bounds(s, i);
        let (kind, end) = token_at(s, i).unwrap();
        let lexeme = Lexeme { kind, start: i, end };
        let rest = scan_from(s, end)->Ok_0;
        lemma_scan_from_covers(s, end);
        let first = rendered(s, lexeme);
        assert(rendered_all(s, seq![lexeme] + rest) =~= seq![first] + rendered_all(s, rest));
        lemma_tokens_text_prepend(first, rendered_all(s, rest));
        lemma_gapless_prepend(first, rendered_all(s, rest), byte_len(s));
        lemma_byte_offset_split(s, i, end);
        lemma_byte_len_positive(s.subrange(i, end));
        assert(s.subrange(i, end) + s.subrange(end, s.len() as int) =~= s.subrange(
            i,
            s.len() as int,
        ));
    }
}

/// The tokens of a text lie end to end from its first byte to its last, each
/// of them holding at least one byte, and their characters put together are
/// the text: no byte is left out and none is taken twice.
pub proof fn lemma_tokens_cover(s: Seq<char>)
    requires
        scan(s) is Ok,
    ensures
        gapless(tokens_of(s), 0, byte_len(s)),
        tokens_text(tokens_of(s)) == s,
{
    lemma_scan_from_covers(s, 0);
    lemma_byte_offset_split(s, 0, 0);
    assert(s.subrange(0, s.len() as int) =~= s);
}

/// Tokens that lie end to end: the first starts at `from`, each of them ends
/// after it starts and where the next one starts, and the last ends at `to`.
pub proof fn lemma_gapless_adjacent(tokens: Seq<Token>, from: int, to: int)
    requires
        gapless(tokens, from, to),
    ensures
        tokens.len() == 0 ==> from == to,
        tokens.len() > 0 ==> tokens[0].start == from && tokens.last().end == to,
        forall|k: int| 0 <= k < tokens.len() ==> (#[trigger] tokens[k]).start < tokens[k].end,
        forall|j: int, k: int|
            0 <= j && k == j + 1 && k < tokens.len() ==> (#[trigger] tokens[j]).end == (
            #[trigger] tokens[k]).start,
        from <= to,
    decreases tokens.len(),
{
    if tokens.len() > 0 {
        let front = tokens.drop_last();
        lemma_gapless_adjacent(front, from, tokens.last().start);
        assert forall|k: int| 0 <= k < tokens.len() implies (#[trigger] tokens[k]).start
            < tokens[k].end by {
            if k < front.len() {
                assert(front[k] == tokens[k]);
            }
        }
        assert forall|j: int, k: int| 0 <= j && k == j + 1 && k < tokens.len() implies (
        #[trigger] tokens[j]).end == (#[trigger] tokens[k]).start by {
            assert(front[j] == tokens[j]);
            if k < front.len() {
                assert(front[k] == tokens[k]);
            } else {
                assert(front.last() == tokens[j]);
            }
        }
        if front.len() > 0 {
            assert(front[0] == tokens[0]);
        }
    }
}

/// Every token of a text takes as many bytes as its characters do.
pub proof fn lemma_token_width(s: Seq<char>, k: int)
    requires
        scan(s) is Ok,
        0 <= k < tokens_of(s).len(),
    ensures
        tokens_of(s)[k].end - tokens_of(s)[k].start == byte_len(tokens_of(s)[k].text),
        tokens_of(s)[k].text.len() > 0,
{
    lemma_scan_from_lexemes(s, 0, k);
    let lexeme = scan(s)->Ok_0[k];
    lemma_byte_offset_split(s, lexeme.start, lexeme.end);
}

/// Every lexeme from an index on is the token that starts at its start.
proof fn lemma_scan_from_lexemes(s: Seq<char>, i: int, k: int)
    requires
        0 <= i <= s.len(),
        scan_from(s, i) is Ok,
        0 <= k < scan_from(s, i)->Ok_0.len(),
    ensures
        i <= scan_from(s, i)->Ok_0[k].start < scan_from(s, i)->Ok_0[k].end <= s.len(),
        token_at(s, scan_from(s, i)->Ok_0[k].start) == Some(
            (scan_from(s, i)->Ok_0[k].kind, scan_from(s, i)->Ok_0[k].end),
        ),
    decreases s.len() - i,
{
    if i < s.len() {
        lemma_token_at_bounds(s, i);
        let (kind, end) = token_at(s, i).unwrap();
        if k > 0 {
            lemma_scan_from_lexemes(s, end, k - 1);
        }
    }
}

/// Every token of a text is the token that `token_at` finds where it starts.
pub proof fn lemma_lexemes_are_tokens(s: Seq<char>, k: int)
    requires
        scan(s) is Ok,
        0 <= k < scan(s)->Ok_0.len(),
    ensures
        0 <= scan(s)->Ok_0[k].start < scan(s)->Ok_0[k].end <= s.len(),
        token_at(s, scan(s)->Ok_0[k].start) == Some((scan(s)->Ok_0[k].kind, scan(s)->Ok_0[k].end)),
{
    lemma_scan_from_lexemes(s, 0, k);
}

/// Where the classifier fails, it fails at a character of the text with
/// which no token starts.
pub proof fn lemma_scan_failure(s: Seq<char>, i: int)
    requires
        0 <= i <= s.len(),
        scan_from(s, i) is Err,
    ensures
        i <= scan_from(s, i)->Err_0 < s.len(),
        token_at(s, scan_from(s, i)->Err_0) is None,
    decreases s.len() - i,
{
    if i < s.len() && token_at(s, i) is Some {
        lemma_token_at_bounds(s, i);
        lemma_scan_from_failure_step(s, i);
        lemma_scan_failure(s, token_at(s, i).unwrap().1);
    }
}

proof fn lemma_scan_from_failure_step(s: Seq<char>, i: int)
    requires
        0 <= i < s.len(),
        token_at(s, i) is Some,
        scan_from(s, i) is Err,
    ensures
        scan_from(s, token_at(s, i).unwrap().1) is Err,
        scan_from(s, token_at(s, i).unwrap().1)->Err_0 == scan_from(s, i)->Err_0,
{
}

/// Sorts the whole text into tokens.
///
/// The tokens are exactly those of `tokens_of`. They lie end to end from the
/// first byte of the text to its last, each holds at least one byte, and
/// their characters put together are the text. Where some character starts
/// no token the call fails with that character's byte offset.
pub fn lex(text: &str) -> (result: Result<Vec<GenericToken>, UnsupportedInput>)
    ensures
        match result {
            Ok(tokens) => {
                &&& scan(text@) is Ok
                &&& token_views(tokens@) == tokens_of(text@)
                &&& gapless(tokens_of(text@), 0, byte_len(text@))
                &&& tokens_text(tokens_of(text@)) == text@
            },
            Err(error) => {
                &&& scan(text@) is Err
                &&& error.at == byte_offset(text@, scan(text@)->Err_0)
            },
        },
{
    let chars = chars_of(text);
    let n = chars.len();
    let total = byte_length(text);
    let ghost s = text@;
    let mut tokens: Vec<GenericToken> = Vec::new();
    let mut rest: &str = text;
    let mut pos: usize = 0;
    let mut byte: usize = 0;
    let ghost mut done: Seq<Lexeme> = Seq::empty();
    proof {
        lemma_byte_offset_split(s, 0, 0);
        assert(token_views(tokens@) =~= rendered_all(s, done));
        assert(s.subrange(0, n as int) =~= s);
    }
    while pos < n
        invariant
            chars@ == s,
            s == text@,
            n == s.len(),
            pos <= n,
            total == byte_len(s),
            byte == byte_offset(s, pos as int),
            rest@ == s.subrange(pos as int, n as int),
            token_views(tokens@) == rendered_all(s, done),
            scan(s) == scanned_then(done, scan_from(s, pos as int)),
        decreases n - pos,
    {
        match next_token(&chars, pos) {
            None => {
                return Err(UnsupportedInput { at: byte });
            },
            Some((kind, end)) => {
                let width = stretch_width(&chars, pos, end);
                proof {
                    lemma_byte_offset_split(s, pos as int, end as int);
                    assert(rest@.subrange(0, end - pos) =~= s.subrange(pos as int, end as int));
                    assert(rest@.subrange(end - pos, rest@.len() as int) =~= s.subrange(
                        end as int,
                        n as int,
                    ));
                }
                let (slice, tail) = split_text(rest, width, Ghost(end - pos));
                rest = tail;
                let token = GenericToken {
                    kind,
                    span: SourceSpan { start: byte, end: byte + width },
                    text: slice.to_owned(),
                };
                proof {
                    let lexeme = Lexeme { kind, start: pos as int, end: end as int };
                    lemma_scan_step(s, done, pos as int, kind, end as int);
                    assert(token@ == rendered(s, lexeme));
                    assert(token_views(tokens@.push(token)) =~= token_views(tokens@).push(token@));
                    assert(rendered_all(s, done.push(lexeme)) =~= rendered_all(s, done).push(
                        rendered(s, lexeme),
                    ));
                    done = done.push(lexeme);
                }
                tokens.push(token);
                pos = end;
                byte = byte + width;
            },
        }
    }
    proof {
        assert(done + Seq::<Lexeme>::empty() =~= done);
        lemma_tokens_cover(s);
    }
    Ok(tokens)
}

} // verus!
