use vstd::prelude::*;

use crate::token_kind::TokenKind;

verus! {

/// A half-open range of byte offsets into the source text.
#[derive(Debug, Clone, Copy, PartialEq, Eq, Hash, Structural)]
pub struct TextRange {
    pub start: usize,
    pub end: usize,
}

/// A token: its kind, its text and where the text stands in the input.
#[derive(Debug, Clone, PartialEq, Eq)]
pub struct Token {
    pub kind: TokenKind,
    pub text: String,
    pub range: TextRange,
}

impl View for Token {
    type V = (TokenKind, Seq<char>);

    open spec fn view(&self) -> (TokenKind, Seq<char>) {
        (self.kind, self.text@)
    }
}

// ---------------------------------------------------------------------------
// Character classes and UTF-8 widths
// ---------------------------------------------------------------------------
pub open spec fn is_letter(c: char) -> bool {
    ('a' <= c && c <= 'z') || ('A' <= c && c <= 'Z')
}

pub open spec fn is_digit(c: char) -> bool {
    '0' <= c && c <= '9'
}

/// The characters that may continue a run once it has started.
#[derive(Debug, Clone, Copy, PartialEq, Eq, Structural)]
pub enum Run {
    CarriageReturns,
    Blanks,
    AlphaNumerics,
    Digits,
    NotNewline,
}

pub open spec fn continues(c: char, run: Run) -> bool {
    match run {
        Run::CarriageReturns => c == '\r',
        Run::Blanks => c == ' ' || c == '\n',
        Run::AlphaNumerics => is_letter(c) || is_digit(c),
        Run::Digits => is_digit(c),
        Run::NotNewline => c != '\n',
    }
}

/// Number of bytes that the UTF-8 encoding of `c` takes.
pub open spec fn utf8_width(c: char) -> nat {
    if (c as u32) < 0x80 {
        1
    } else if (c as u32) < 0x800 {
        2
    } else if (c as u32) < 0x10000 {
        3
    } else {
        4
    }
}

/// Number of bytes that the UTF-8 encoding of `s` takes.
pub open spec fn byte_len(s: Seq<char>) -> nat
    decreases s.len(),
{
    if s.len() == 0 {
        0
    } else {
        byte_len(s.drop_last()) + utf8_width(s.last())
    }
}

// ---------------------------------------------------------------------------
// The token rules
// ---------------------------------------------------------------------------
/// End of the longest run of `run` characters in `s` that starts at `i`.
pub open spec fn run_end(s: Seq<char>, i: int, run: Run) -> int
    decreases s.len() - i,
{
    if 0 <= i < s.len() && continues(s[i], run) {
        run_end(s, i + 1, run)
    } else {
        i
    }
}

/// End of a block comment whose body starts at `i`: just past the first `*/`,
/// or the end of the input when none follows.
pub open spec fn block_comment_end(s: Seq<char>, i: int) -> int
    decreases s.len() - i,
{
    if i < 0 || i + 1 >= s.len() {
        s.len() as int
    } else if s[i] == '*' && s[i + 1] == '/' {
        i + 2
    } else {
        block_comment_end(s, i + 1)
    }
}

/// End of the token that starts at `i` (longest match).
pub open spec fn token_end(s: Seq<char>, i: int) -> int {
    let c = s[i];
    if c == '\r' {
        run_end(s, i, Run::CarriageReturns)
    } else if c == ' ' || c == '\n' {
        run_end(s, i, Run::Blanks)
    } else if is_letter(c) {
        run_end(s, i + 1, Run::AlphaNumerics)
    } else if is_digit(c) {
        run_end(s, i, Run::Digits)
    } else if c == '/' && i + 1 < s.len() && s[i + 1] == '/' {
        run_end(s, i, Run::NotNewline)
    } else if c == '/' && i + 1 < s.len() && s[i + 1] == '*' {
        block_comment_end(s, i + 2)
    } else {
        i + 1
    }
}

/// Kind of a one-character token.
pub open spec fn punctuation_kind(c: char) -> TokenKind {
    if c == '+' {
        TokenKind::Plus
    } else if c == '-' {
        TokenKind::Minus
    } else if c == '*' {
        TokenKind::Star
    } else if c == '/' {
        TokenKind::Slash
    } else if c == '=' {
        TokenKind::Equals
    } else if c == '{' {
        TokenKind::LCurlyBrace
    } else if c == '}' {
        TokenKind::RCurlyBrace
    } else if c == '(' {
        TokenKind::LBrace
    } else if c == ')' {
        TokenKind::RBrace
    } else if c == '[' {
        TokenKind::LSquareBrace
    } else if c == ']' {
        TokenKind::RSquareBrace
    } else {
        TokenKind::Undefined
    }
}

/// Kind of a word: a keyword or an identifier.
pub open spec fn word_kind(w: Seq<char>) -> TokenKind {
    if w == "callable"@ {
        TokenKind::Function
    } else if w == "def"@ {
        TokenKind::Define
    } else {
        TokenKind::Identifier
    }
}

/// Kind of the token that starts at `i`.
pub open spec fn token_kind_at(s: Seq<char>, i: int) -> TokenKind {
    let c = s[i];
    if c == '\r' || c == ' ' || c == '\n' {
        TokenKind::Whitespace
    } else if is_letter(c) {
        word_kind(s.subrange(i, token_end(s, i)))
    } else if is_digit(c) {
        TokenKind::Number
    } else if c == '/' && i + 1 < s.len() && (s[i + 1] == '/' || s[i + 1] == '*') {
        TokenKind::Comment
    } else {
        punctuation_kind(c)
    }
}

/// The tokens of `s` from position `i` on.
pub open spec fn lex_from(s: Seq<char>, i: int) -> Seq<(TokenKind, Seq<char>)>
    decreases s.len() - i,
{
    if i < 0 || i >= s.len() {
        seq![]
    } else {
        let e = token_end(s, i);
        if e <= i || e > s.len() {
            seq![]
        } else {
            seq![(token_kind_at(s, i), s.subrange(i, e))] + lex_from(s, e)
        }
    }
}

/// The tokens of `s`.
pub open spec fn spec_lex(s: Seq<char>) -> Seq<(TokenKind, Seq<char>)> {
    lex_from(s, 0)
}

/// The byte ranges of the tokens of `s`: each one starts where the text of
/// the tokens before it ends.
pub open spec fn lexed_ranges(s: Seq<char>) -> Seq<TextRange> {
    Seq::new(
        spec_lex(s).len(),
        |k: int|
            TextRange {
                start: byte_len(concat_texts(spec_lex(s).take(k))) as usize,
                end: byte_len(concat_texts(spec_lex(s).take(k + 1))) as usize,
            },
    )
}

/// The texts of `toks`, one after the other.
pub open spec fn concat_texts(toks: Seq<(TokenKind, Seq<char>)>) -> Seq<char>
    decreases toks.len(),
{
    if toks.len() == 0 {
        seq![]
    } else {
        concat_texts(toks.drop_last()) + toks.last().1
    }
}

// ---------------------------------------------------------------------------
// Lemmas
// ---------------------------------------------------------------------------
pub proof fn lemma_run_end_bounds(s: Seq<char>, i: int, run: Run)
    requires
        0 <= i <= s.len(),
    ensures
        i <= run_end(s, i, run) <= s.len(),
    decreases s.len() - i,
{
    if i < s.len() && continues(s[i], run) {
        lemma_run_end_bounds(s, i + 1, run);
    }
}

pub proof fn lemma_block_comment_end_bounds(s: Seq<char>, i: int)
    requires
        0 <= i <= s.len(),
    ensures
        i <= block_comment_end(s, i) <= s.len(),
    decreases s.len() - i,
{
    if i + 1 < s.len() && !(s[i] == '*' && s[i + 1] == '/') {
        lemma_block_comment_end_bounds(s, i + 1);
    }
}

pub proof fn lemma_token_end_bounds(s: Seq<char>, i: int)
    requires
        0 <= i < s.len(),
    ensures
        i < token_end(s, i) <= s.len(),
{
    let c = s[i];
    if c == '\r' {
        lemma_run_end_bounds(s, i, Run::CarriageReturns);
        assert(run_end(s, i, Run::CarriageReturns) == run_end(s, i + 1, Run::CarriageReturns));
        lemma_run_end_bounds(s, i + 1, Run::CarriageReturns);
    } else if c == ' ' || c == '\n' {
        assert(run_end(s, i, Run::Blanks) == run_end(s, i + 1, Run::Blanks));
        lemma_run_end_bounds(s, i + 1, Run::Blanks);
    } else if is_letter(c) {
        lemma_run_end_bounds(s, i + 1, Run::AlphaNumerics);
    } else if is_digit(c) {
        assert(run_end(s, i, Run::Digits) == run_end(s, i + 1, Run::Digits));
        lemma_run_end_bounds(s, i + 1, Run::Digits);
    } else if c == '/' && i + 1 < s.len() && s[i + 1] == '/' {
        assert(run_end(s, i, Run::NotNewline) == run_end(s, i + 1, Run::NotNewline));
        lemma_run_end_bounds(s, i + 1, Run::NotNewline);
    } else if c == '/' && i + 1 < s.len() && s[i + 1] == '*' {
        lemma_block_comment_end_bounds(s, i + 2);
    }
}

/// Concatenating the texts of the tokens from `i` on gives back the input from `i` on.
pub proof fn lemma_lex_from_lossless(s: Seq<char>, i: int)
    requires
        0 <= i <= s.len(),
    ensures
        concat_texts(lex_from(s, i)) == s.subrange(i, s.len() as int),
    decreases s.len() - i,
{
    if i < s.len() {
        let e = token_end(s, i);
        lemma_token_end_bounds(s, i);
        lemma_lex_from_lossless(s, e);
        let head = seq![(token_kind_at(s, i), s.subrange(i, e))];
        lemma_concat_texts_append(head, lex_from(s, e));
        assert(concat_texts(head) =~= s.subrange(i, e)) by {
            assert(head.drop_last() =~= Seq::<(TokenKind, Seq<char>)>::empty());
            assert(concat_texts(head.drop_last()) =~= Seq::<char>::empty());
        }
        assert(s.subrange(i, e) + s.subrange(e, s.len() as int) =~= s.subrange(i, s.len() as int));
    } else {
        assert(s.subrange(i, s.len() as int) =~= Seq::<char>::empty());
    }
}

pub proof fn lemma_concat_texts_append(
    a: Seq<(TokenKind, Seq<char>)>,
    b: Seq<(TokenKind, Seq<char>)>,
)
    ensures
        concat_texts(a + b) == concat_texts(a) + concat_texts(b),
    decreases b.len(),
{
    if b.len() == 0 {
        assert(a + b =~= a);
        assert(concat_texts(b) =~= Seq::<char>::empty());
        assert(concat_texts(a) + concat_texts(b) =~= concat_texts(a));
    } else {
        lemma_concat_texts_append(a, b.drop_last());
        assert((a + b).drop_last() =~= a + b.drop_last());
        assert((a + b).last() == b.last());
        assert(concat_texts(a) + concat_texts(b) =~= concat_texts(a) + concat_texts(b.drop_last())
            + b.last().1);
    }
}

pub proof fn lemma_byte_len_append(a: Seq<char>, b: Seq<char>)
    ensures
        byte_len(a + b) == byte_len(a) + byte_len(b),
    decreases b.len(),
{
    if b.len() == 0 {
        assert(a + b =~= a);
    } else {
        lemma_byte_len_append(a, b.drop_last());
        assert((a + b).drop_last() =~= a + b.drop_last());
        assert((a + b).last() == b.last());
    }
}

// ---------------------------------------------------------------------------
// Executable lexer
// ---------------------------------------------------------------------------
/// Relies on `str::chars`: the characters of a string, in order.
#[verifier::external_body]
pub(crate) fn chars_of(s: &str) -> (r: Vec<char>)
    ensures
        r@ == s@,
{
    s.chars().collect()
}

/// Relies on `String`'s `FromIterator<char>`: a string made of the given characters.
#[verifier::external_body]
pub(crate) fn string_of(cs: &[char]) -> (r: String)
    ensures
        r@ == cs@,
{
    cs.iter().collect()
}

fn char_width(c: char) -> (r: usize)
    ensures
        r == utf8_width(c),
{
    if (c as u32) < 0x80 {
        1
    } else if (c as u32) < 0x800 {
        2
    } else if (c as u32) < 0x10000 {
        3
    } else {
        4
    }
}

fn is_letter_exec(c: char) -> (r: bool)
    ensures
        r == is_letter(c),
{
    ('a' <= c && c <= 'z') || ('A' <= c && c <= 'Z')
}

fn is_digit_exec(c: char) -> (r: bool)
    ensures
        r == is_digit(c),
{
    '0' <= c && c <= '9'
}

fn continues_exec(c: char, run: Run) -> (r: bool)
    ensures
        r == continues(c, run),
{
    match run {
        Run::CarriageReturns => c == '\r',
        Run::Blanks => c == ' ' || c == '\n',
        Run::AlphaNumerics => is_letter_exec(c) || is_digit_exec(c),
        Run::Digits => is_digit_exec(c),
        Run::NotNewline => c != '\n',
    }
}

fn scan_run(s: &Vec<char>, i: usize, run: Run) -> (r: usize)
    requires
        i <= s.len(),
    ensures
        r == run_end(s@, i as int, run),
{
    let mut j = i;
    while j < s.len() && continues_exec(s[j], run)
        invariant
            i <= j <= s.len(),
            run_end(s@, i as int, run) == run_end(s@, j as int, run),
        decreases s.len() - j,
    {
        j = j + 1;
    }
    j
}

fn scan_block_comment(s: &Vec<char>, i: usize) -> (r: usize)
    requires
        i <= s.len(),
    ensures
        r == block_comment_end(s@, i as int),
{
    let mut j = i;
    while s.len() - j >= 2 && !(s[j] == '*' && s[j + 1] == '/')
        invariant
            i <= j <= s.len(),
            block_comment_end(s@, i as int) == block_comment_end(s@, j as int),
        decreases s.len() - j,
    {
        j = j + 1;
    }
    if s.len() - j >= 2 {
        j + 2
    } else {
        s.len()
    }
}

fn scan_token(s: &Vec<char>, i: usize) -> (r: usize)
    requires
        i < s.len(),
    ensures
        r == token_end(s@, i as int),
{
    let c = s[i];
    if c == '\r' {
        scan_run(s, i, Run::CarriageReturns)
    } else if c == ' ' || c == '\n' {
        scan_run(s, i, Run::Blanks)
    } else if is_letter_exec(c) {
        scan_run(s, i + 1, Run::AlphaNumerics)
    } else if is_digit_exec(c) {
        scan_run(s, i, Run::Digits)
    } else if c == '/' && i + 1 < s.len() && s[i + 1] == '/' {
        scan_run(s, i, Run::NotNewline)
    } else if c == '/' && i + 1 < s.len() && s[i + 1] == '*' {
        scan_block_comment(s, i + 2)
    } else {
        i + 1
    }
}

fn punctuation_kind_exec(c: char) -> (r: TokenKind)
    ensures
        r == punctuation_kind(c),
{
    if c == '+' {
        TokenKind::Plus
    } else if c == '-' {
        TokenKind::Minus
    } else if c == '*' {
        TokenKind::Star
    } else if c == '/' {
        TokenKind::Slash
    } else if c == '=' {
        TokenKind::Equals
    } else if c == '{' {
        TokenKind::LCurlyBrace
    } else if c == '}' {
        TokenKind::RCurlyBrace
    } else if c == '(' {
        TokenKind::LBrace
    } else if c == ')' {
        TokenKind::RBrace
    } else if c == '[' {
        TokenKind::LSquareBrace
    } else if c == ']' {
        TokenKind::RSquareBrace
    } else {
        TokenKind::Undefined
    }
}

/// Whether `s[i..e]` spells the word `w`.
fn spells(s: &Vec<char>, i: usize, e: usize, w: &str) -> (r: bool)
    requires
        i <= e <= s.len(),
    ensures
        r == (s@.subrange(i as int, e as int) == w@),
{
    let wc = chars_of(w);
    if e - i != wc.len() {
        proof {
            assert(s@.subrange(i as int, e as int).len() != w@.len());
        }
        return false;
    }
    let mut k: usize = 0;
    while k < wc.len()
        invariant
            e - i == wc.len(),
            i <= e <= s.len(),
            wc@ == w@,
            0 <= k <= wc.len(),
            forall|m: int| 0 <= m < k ==> s@[i + m] == wc@[m],
        decreases wc.len() - k,
    {
        if s[i + k] != wc[k] {
            proof {
                assert(s@.subrange(i as int, e as int)[k as int] != w@[k as int]);
            }
            return false;
        }
        k = k + 1;
    }
    proof {
        assert(s@.subrange(i as int, e as int) =~= w@);
    }
    true
}

fn token_kind_exec(s: &Vec<char>, i: usize, e: usize) -> (r: TokenKind)
    requires
        i < s.len(),
        e == token_end(s@, i as int),
    ensures
        r == token_kind_at(s@, i as int),
{
    proof {
        lemma_token_end_bounds(s@, i as int);
    }
    let c = s[i];
    if c == '\r' || c == ' ' || c == '\n' {
        TokenKind::Whitespace
    } else if is_letter_exec(c) {
        if spells(s, i, e, "callable") {
            TokenKind::Function
        } else if spells(s, i, e, "def") {
            TokenKind::Define
        } else {
            TokenKind::Identifier
        }
    } else if is_digit_exec(c) {
        TokenKind::Number
    } else if c == '/' && i + 1 < s.len() && (s[i + 1] == '/' || s[i + 1] == '*') {
        TokenKind::Comment
    } else {
        punctuation_kind_exec(c)
    }
}

/// Cuts source text into tokens, one at a time.
pub struct Lexer {
    chars: Vec<char>,
    pos: usize,
    offset: usize,
}

impl Lexer {
    /// Well-formedness: the position lies in the input and the byte offset
    /// is the UTF-8 length of what lies before it.
    pub closed spec fn wf(&self) -> bool {
        &&& self.pos <= self.chars.len()
        &&& self.offset == byte_len(self.chars@.subrange(0, self.pos as int))
        &&& byte_len(self.chars@) <= usize::MAX
    }

    /// The input being cut.
    pub closed spec fn input(&self) -> Seq<char> {
        self.chars@
    }

    /// The tokens still to come.
    pub closed spec fn rest(&self) -> Seq<(TokenKind, Seq<char>)> {
        lex_from(self.chars@, self.pos as int)
    }

    /// The byte offset of the next token.
    pub closed spec fn spec_offset(&self) -> usize {
        self.offset
    }

    pub fn new(input: &str) -> (r: Lexer)
        requires
            byte_len(input@) <= usize::MAX,
        ensures
            r.wf(),
            r.input() == input@,
            r.rest() == spec_lex(input@),
            r.spec_offset() == 0,
    {
        let chars = chars_of(input);
        proof {
            assert(chars@.subrange(0, 0) =~= Seq::<char>::empty());
        }
        Lexer { chars, pos: 0, offset: 0 }
    }

    /// The next token, or `None` at the end of the input.
    pub fn next(&mut self) -> (r: Option<Token>)
        requires
            old(self).wf(),
        ensures
            final(self).wf(),
            final(self).input() == old(self).input(),
            old(self).rest().len() == 0 <==> r is None,
            r is Some ==> {
                let t = r->0;
                &&& old(self).rest() == seq![t@] + final(self).rest()
                &&& t.range.start == old(self).spec_offset()
                &&& t.range.end == final(self).spec_offset()
                &&& t.range.end - t.range.start == byte_len(t.text@)
            },
            r is None ==> *final(self) == *old(self),
    {
        if self.pos >= self.chars.len() {
            return None;
        }
        let start = self.pos;
        let end = scan_token(&self.chars, start);
        proof {
            lemma_token_end_bounds(self.chars@, start as int);
        }
        let kind = token_kind_exec(&self.chars, start, end);
        let text = string_of(&self.chars.as_slice()[start..end]);
        let ghost s = self.chars@;
        let mut width: usize = 0;
        let mut k = start;
        while k < end
            invariant
                start <= k <= end <= self.chars.len(),
                s == self.chars@,
                self.wf(),
                self.pos == start,
                width == byte_len(s.subrange(start as int, k as int)),
                self.offset + width == byte_len(s.subrange(0, k as int)),
            decreases end - k,
        {
            proof {
                assert(s.subrange(0, k + 1).drop_last() =~= s.subrange(0, k as int));
                assert(s.subrange(start as int, k + 1).drop_last() =~= s.subrange(
                    start as int,
                    k as int,
                ));
                lemma_byte_len_append(s.subrange(0, k + 1), s.subrange(k + 1, s.len() as int));
                assert(s.subrange(0, k + 1) + s.subrange(k + 1, s.len() as int) =~= s);
            }
            width = width + char_width(self.chars[k]);
            k = k + 1;
        }
        proof {
            lemma_byte_len_append(s.subrange(0, end as int), s.subrange(end as int, s.len() as int));
            assert(s.subrange(0, end as int) + s.subrange(end as int, s.len() as int) =~= s);
        }
        let token_start = self.offset;
        self.offset = self.offset + width;
        self.pos = end;
        proof {
            assert(text@ =~= s.subrange(start as int, end as int));
        }
        Some(Token { kind, text, range: TextRange { start: token_start, end: self.offset } })
    }
}

/// Cuts `input` into its tokens.
pub fn lex(input: &str) -> (r: Vec<Token>)
    requires
        byte_len(input@) <= usize::MAX,
    ensures
        r@.map_values(|t: Token| t@) == spec_lex(input@),
        r.len() > 0 ==> r[0].range.start == 0,
        r.len() > 0 ==> r[r.len() - 1].range.end == byte_len(input@),
        forall|k: int| 0 <= k < r.len() ==> r[k].range.end - r[k].range.start == byte_len(#[trigger] r[k].text@),
        forall|k: int| 0 <= k < r.len() - 1 ==> r[k].range.end == #[trigger] r[k + 1].range.start,
        r@.map_values(|t: Token| t.range) == lexed_ranges(input@),
{
    let mut lexer = Lexer::new(input);
    let mut tokens: Vec<Token> = Vec::new();
    proof {
        assert(tokens@.map_values(|t: Token| t@) =~= Seq::<(TokenKind, Seq<char>)>::empty());
    }
    loop
        invariant
            lexer.wf(),
            lexer.input() == input@,
            tokens@.map_values(|t: Token| t@) + lexer.rest() == spec_lex(input@),
            tokens.len() == 0 ==> lexer.spec_offset() == 0,
            tokens.len() > 0 ==> tokens[0].range.start == 0,
            tokens.len() > 0 ==> tokens[tokens.len() - 1].range.end == lexer.spec_offset(),
            forall|k: int| 0 <= k < tokens.len() ==> tokens[k].range.end - tokens[k].range.start == byte_len(#[trigger] tokens[k].text@),
            forall|k: int| 0 <= k < tokens.len() - 1 ==> tokens[k].range.end == #[trigger] tokens[k + 1].range.start,
            lexer.spec_offset() == byte_len(concat_texts(tokens@.map_values(|t: Token| t@))),
            tokens.len() <= spec_lex(input@).len(),
            forall|k: int| 0 <= k < tokens.len() ==> #[trigger] tokens@[k].range == lexed_ranges(input@)[k],
        decreases lexer.rest().len(),
    {
        let ghost before = tokens@;
        match lexer.next() {
            Some(t) => {
                let ghost tv = t@;
                let ghost tr = t.range;
                tokens.push(t);
                proof {
                    let em0 = before.map_values(|t: Token| t@);
                    let em = tokens@.map_values(|t: Token| t@);
                    assert(em =~= em0.push(tv));
                    assert(em + lexer.rest() =~= em0 + (seq![tv] + lexer.rest()));
                    assert(em.drop_last() =~= em0);
                    lemma_byte_len_append(concat_texts(em0), tv.1);
                    let k = before.len() as int;
                    assert(spec_lex(input@).take(k) =~= em0) by {
                        assert forall|j: int| 0 <= j < k implies spec_lex(input@).take(k)[j] == em0[j] by {
                            assert((em + lexer.rest())[j] == em[j]);
                        }
                    }
                    assert(spec_lex(input@).take(k + 1) =~= em) by {
                        assert forall|j: int| 0 <= j <= k implies spec_lex(input@).take(k + 1)[j] == em[j] by {
                            assert((em + lexer.rest())[j] == em[j]);
                        }
                    }
                    assert(tokens@[k].range == tr);
                    assert(em.len() <= spec_lex(input@).len()) by {
                        assert((em + lexer.rest()).len() == spec_lex(input@).len());
                    }
                    assert forall|j: int| 0 <= j < tokens.len() implies #[trigger] tokens@[j].range == lexed_ranges(input@)[j] by {
                        if j < k {
                            assert(tokens@[j] == before[j]);
                        }
                    }
                }
            },
            None => {
                proof {
                    assert(lexer.rest().len() == 0);
                    assert(tokens@.map_values(|t: Token| t@) =~= spec_lex(input@));
                    lemma_end_offset(lexer);
                    assert(tokens@.map_values(|t: Token| t.range) =~= lexed_ranges(input@));
                }
                return tokens;
            },
        }
    }
}

/// When no token is left the offset has reached the end of the input.
proof fn lemma_end_offset(lx: Lexer)
    requires
        lx.wf(),
        lx.rest().len() == 0,
    ensures
        lx.spec_offset() == byte_len(lx.input()),
{
    if lx.pos < lx.chars.len() {
        lemma_token_end_bounds(lx.chars@, lx.pos as int);
    }
    assert(lx.chars@.subrange(0, lx.pos as int) =~= lx.chars@);
}

} // verus!
