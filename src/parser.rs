use vstd::prelude::*;

use crate::lexer::{TextRange, Token};
use crate::syntax::SyntaxKind;
use crate::token_kind::TokenKind;

verus! {

// ---------------------------------------------------------------------------
// The token sequence as the grammar sees it
// ---------------------------------------------------------------------------
pub open spec fn kinds_of(toks: Seq<Token>) -> Seq<TokenKind> {
    toks.map_values(|t: Token| t.kind)
}

/// The first position at or after `i` that holds no trivia (or the end).
pub open spec fn next_significant(ks: Seq<TokenKind>, i: int) -> int
    decreases ks.len() - i,
{
    if 0 <= i < ks.len() && ks[i].spec_is_trivia() {
        next_significant(ks, i + 1)
    } else {
        i
    }
}

/// How many of the first `n` tokens are not trivia.
pub open spec fn significant_count(ks: Seq<TokenKind>, n: int) -> int
    decreases n,
{
    if n <= 0 {
        0
    } else {
        significant_count(ks, n - 1) + if ks[n - 1].spec_is_trivia() {
            0int
        } else {
            1int
        }
    }
}

pub proof fn lemma_next_significant(ks: Seq<TokenKind>, i: int)
    requires
        0 <= i <= ks.len(),
    ensures
        i <= next_significant(ks, i) <= ks.len(),
        next_significant(ks, i) < ks.len() ==> !ks[next_significant(ks, i)].spec_is_trivia(),
        significant_count(ks, next_significant(ks, i)) == significant_count(ks, i),
    decreases ks.len() - i,
{
    if i < ks.len() && ks[i].spec_is_trivia() {
        lemma_next_significant(ks, i + 1);
    }
}

pub proof fn lemma_significant_count_grows(ks: Seq<TokenKind>, a: int, b: int)
    requires
        0 <= a <= b <= ks.len(),
    ensures
        significant_count(ks, a) <= significant_count(ks, b),
        a < b && !ks[a].spec_is_trivia() ==> significant_count(ks, a) < significant_count(ks, b),
    decreases b - a,
{
    if a < b {
        lemma_significant_count_grows(ks, a, b - 1);
    }
}

// ---------------------------------------------------------------------------
// Events
// ---------------------------------------------------------------------------
/// A syntax error: what the parser looked for, what it found, and where.
#[derive(Debug, Clone, PartialEq, Eq)]
pub struct ParseError {
    pub expected: Vec<TokenKind>,
    pub found: Option<TokenKind>,
    pub range: TextRange,
}

/// One entry of the parser's log, replayed later into a tree.
#[derive(Debug)]
pub enum Event {
    StartNode { kind: SyntaxKind },
    AddToken,
    FinishNode,
    Error(ParseError),
    Placeholder,
}

/// How an event changes the number of open nodes.
pub open spec fn delta(e: Event) -> int {
    match e {
        Event::StartNode { .. } => 1,
        Event::FinishNode => -1,
        _ => 0,
    }
}

pub open spec fn weight(e: Event, nesting: bool) -> int {
    if nesting {
        delta(e)
    } else if e is AddToken {
        1
    } else {
        0
    }
}

/// The summed weight of the first `n` events: open nodes (`nesting`) or tokens added.
pub open spec fn tally(evs: Seq<Event>, n: int, nesting: bool) -> int
    decreases n,
{
    if n <= 0 {
        0
    } else {
        tally(evs, n - 1, nesting) + weight(evs[n - 1], nesting)
    }
}

/// The number of nodes open after the first `n` events.
pub open spec fn depth(evs: Seq<Event>, n: int) -> int {
    tally(evs, n, true)
}

/// The number of tokens that the log adds.
pub open spec fn added(evs: Seq<Event>) -> int {
    tally(evs, evs.len() as int, false)
}

/// The events from `a` on close every node they open, and close none opened before.
pub open spec fn balanced_from(evs: Seq<Event>, a: int) -> bool {
    &&& 0 <= a <= evs.len()
    &&& depth(evs, evs.len() as int) == depth(evs, a)
    &&& forall|k: int| a <= k <= evs.len() ==> #[trigger] depth(evs, k) >= depth(evs, a)
}

/// A whole log: one outermost node, opened by the first event and closed by the last.
pub open spec fn well_nested(evs: Seq<Event>) -> bool {
    &&& evs.len() >= 2
    &&& evs[0] is StartNode
    &&& depth(evs, evs.len() as int) == 0
    &&& forall|k: int| 1 <= k < evs.len() ==> #[trigger] depth(evs, k) >= 1
}

/// What the grammar records in an event, without error details.
pub enum Shape {
    Start(SyntaxKind),
    Token,
    Finish,
    /// An error, with the kind of the token found where it was met and the
    /// kinds looked for there.
    Error(Option<TokenKind>, Seq<TokenKind>, TextRange),
    Pending,
    /// A trivia token, in a tree's layout.
    Trivia,
}

pub open spec fn shape(e: Event) -> Shape {
    match e {
        Event::StartNode { kind } => Shape::Start(kind),
        Event::AddToken => Shape::Token,
        Event::FinishNode => Shape::Finish,
        Event::Error(e) => Shape::Error(e.found, e.expected@, e.range),
        Event::Placeholder => Shape::Pending,
    }
}

pub open spec fn shapes(evs: Seq<Event>) -> Seq<Shape> {
    evs.map_values(|e: Event| shape(e))
}

/// The kinds of the tokens that are not trivia, in order.
pub open spec fn sig_kinds(ks: Seq<TokenKind>) -> Seq<TokenKind>
    decreases ks.len(),
{
    if ks.len() == 0 {
        seq![]
    } else if ks.last().spec_is_trivia() {
        sig_kinds(ks.drop_last())
    } else {
        sig_kinds(ks.drop_last()).push(ks.last())
    }
}

/// The ranges of the tokens, in order.
pub open spec fn ranges_of(ts: Seq<Token>) -> Seq<TextRange> {
    ts.map_values(|t: Token| t.range)
}

/// The ranges `rr` of the tokens whose kinds `ks` are not trivia, in order.
pub open spec fn sig_ranges(ks: Seq<TokenKind>, rr: Seq<TextRange>) -> Seq<TextRange>
    decreases ks.len(),
{
    if ks.len() == 0 {
        seq![]
    } else if ks.last().spec_is_trivia() {
        sig_ranges(ks.drop_last(), rr.drop_last())
    } else {
        sig_ranges(ks.drop_last(), rr.drop_last()).push(rr.last())
    }
}

/// Where an error met at each position of the significant tokens is
/// reported: that token's range, or past them all the last token's range.
pub open spec fn report_ranges(ks: Seq<TokenKind>, rr: Seq<TextRange>) -> Seq<TextRange> {
    sig_ranges(ks, rr).push(rr.last())
}

/// The kind at position `i` of the significant tokens, if there is one.
pub open spec fn peek_sig(sig: Seq<TokenKind>, i: int) -> Option<TokenKind> {
    if 0 <= i < sig.len() {
        Some(sig[i])
    } else {
        None
    }
}

/// The events a rule appends, where it leaves the significant tokens,
/// whether it found what it was looking for, and the kinds it leaves noted as
/// looked for since the last consumed token.
pub struct Parsed {
    pub events: Seq<Shape>,
    pub pos: int,
    pub ok: bool,
    pub ex: Seq<TokenKind>,
}

/// An error at position `i`, after the kinds `ex` were looked for: the
/// offending token is wrapped in an `Undefined` node unless it is `def` or
/// there is none.
pub open spec fn error_events(
    sig: Seq<TokenKind>,
    rs: Seq<TextRange>,
    i: int,
    ex: Seq<TokenKind>,
) -> Parsed {
    if peek_sig(sig, i) is Some && peek_sig(sig, i) != Some(TokenKind::Define) {
        Parsed {
            events: seq![
                Shape::Error(peek_sig(sig, i), ex, rs[i]),
                Shape::Start(SyntaxKind::Undefined),
                Shape::Token,
                Shape::Finish,
            ],
            pos: i + 1,
            ok: false,
            ex: seq![],
        }
    } else {
        Parsed { events: seq![Shape::Error(peek_sig(sig, i), ex, rs[i])], pos: i, ok: false, ex: seq![] }
    }
}

/// A token of kind `k` at position `i`, or an error.
pub open spec fn expect_events(
    sig: Seq<TokenKind>,
    rs: Seq<TextRange>,
    i: int,
    k: TokenKind,
    ex: Seq<TokenKind>,
) -> Parsed {
    if peek_sig(sig, i) == Some(k) {
        Parsed { events: seq![Shape::Token], pos: i + 1, ok: true, ex: seq![] }
    } else {
        error_events(sig, rs, i, ex.push(k))
    }
}

pub proof fn lemma_significant_count_drop_last(ks: Seq<TokenKind>, n: int)
    requires
        0 <= n < ks.len(),
    ensures
        significant_count(ks.drop_last(), n) == significant_count(ks, n),
    decreases n,
{
    if n > 0 {
        lemma_significant_count_drop_last(ks, n - 1);
    }
}

/// The significant tokens, indexed by how many significant tokens precede them.
pub proof fn lemma_sig_kinds(ks: Seq<TokenKind>)
    ensures
        sig_kinds(ks).len() == significant_count(ks, ks.len() as int),
        forall|p: int|
            0 <= p < ks.len() && !ks[p].spec_is_trivia() ==> #[trigger] sig_kinds(ks)[significant_count(ks, p)]
                == ks[p],
    decreases ks.len(),
{
    if ks.len() > 0 {
        let d = ks.drop_last();
        lemma_sig_kinds(d);
        let n = ks.len() - 1;
        lemma_significant_count_drop_last(ks, n);
        assert forall|p: int|
            0 <= p < ks.len() && !ks[p].spec_is_trivia() implies #[trigger] sig_kinds(ks)[significant_count(ks, p)]
                == ks[p] by {
            if p < n {
                lemma_significant_count_drop_last(ks, p);
                lemma_significant_count_grows(d, p, n);
                lemma_significant_count_grows(d, 0, p);
                assert(d[p] == ks[p]);
                assert(significant_count(d, p) < sig_kinds(d).len());
                assert(sig_kinds(d)[significant_count(d, p)] == d[p]);
                if !ks.last().spec_is_trivia() {
                    assert(sig_kinds(ks) == sig_kinds(d).push(ks.last()));
                    assert(sig_kinds(ks)[significant_count(d, p)] == sig_kinds(d)[significant_count(d, p)]);
                } else {
                    assert(sig_kinds(ks) == sig_kinds(d));
                }
                assert(sig_kinds(ks)[significant_count(ks, p)] == ks[p]);
            } else {
                assert(p == n);
                assert(sig_kinds(ks) == sig_kinds(d).push(ks.last()));
                assert(significant_count(ks, p) == significant_count(d, n));
                assert(sig_kinds(d).len() == significant_count(d, n));
                assert(sig_kinds(ks)[significant_count(ks, p)] == ks.last());
            }
        }
    }
}

/// The ranges of the significant tokens, indexed like their kinds.
pub proof fn lemma_sig_ranges(ks: Seq<TokenKind>, rr: Seq<TextRange>)
    requires
        ks.len() == rr.len(),
    ensures
        sig_ranges(ks, rr).len() == significant_count(ks, ks.len() as int),
        forall|p: int|
            0 <= p < ks.len() && !ks[p].spec_is_trivia() ==> #[trigger] sig_ranges(ks, rr)[significant_count(ks, p)]
                == rr[p],
    decreases ks.len(),
{
    if ks.len() > 0 {
        let d = ks.drop_last();
        let rd = rr.drop_last();
        lemma_sig_ranges(d, rd);
        let n = ks.len() - 1;
        lemma_significant_count_drop_last(ks, n);
        assert forall|p: int|
            0 <= p < ks.len() && !ks[p].spec_is_trivia() implies #[trigger] sig_ranges(ks, rr)[significant_count(ks, p)]
                == rr[p] by {
            if p < n {
                lemma_significant_count_drop_last(ks, p);
                lemma_significant_count_grows(d, p, n);
                lemma_significant_count_grows(d, 0, p);
                assert(d[p] == ks[p]);
                assert(rd[p] == rr[p]);
                assert(significant_count(d, p) < sig_ranges(d, rd).len());
                assert(sig_ranges(d, rd)[significant_count(d, p)] == rd[p]);
                if !ks.last().spec_is_trivia() {
                    assert(sig_ranges(ks, rr) == sig_ranges(d, rd).push(rr.last()));
                    assert(sig_ranges(ks, rr)[significant_count(d, p)] == sig_ranges(d, rd)[significant_count(d, p)]);
                } else {
                    assert(sig_ranges(ks, rr) == sig_ranges(d, rd));
                }
            } else {
                assert(sig_ranges(ks, rr) == sig_ranges(d, rd).push(rr.last()));
            }
        }
    }
}

pub proof fn lemma_tally_prefix(a: Seq<Event>, b: Seq<Event>, n: int, nesting: bool)
    requires
        0 <= n <= a.len(),
        n <= b.len(),
        a.subrange(0, n) == b.subrange(0, n),
    ensures
        tally(a, n, nesting) == tally(b, n, nesting),
    decreases n,
{
    if n > 0 {
        assert(a[n - 1] == a.subrange(0, n)[n - 1]);
        assert(b[n - 1] == b.subrange(0, n)[n - 1]);
        assert(a.subrange(0, n - 1) == a.subrange(0, n).subrange(0, n - 1));
        assert(b.subrange(0, n - 1) == b.subrange(0, n).subrange(0, n - 1));
        lemma_tally_prefix(a, b, n - 1, nesting);
    }
}

pub proof fn lemma_tally_insert(evs: Seq<Event>, pos: int, e: Event, nesting: bool, k: int)
    requires
        0 <= pos <= evs.len(),
        0 <= k <= evs.len() + 1,
    ensures
        k <= pos ==> tally(evs.insert(pos, e), k, nesting) == tally(evs, k, nesting),
        k > pos ==> tally(evs.insert(pos, e), k, nesting) == tally(evs, k - 1, nesting) + weight(
            e,
            nesting,
        ),
    decreases k,
{
    if k > 0 {
        lemma_tally_insert(evs, pos, e, nesting, k - 1);
    }
}

pub proof fn lemma_tally_update(evs: Seq<Event>, pos: int, e: Event, nesting: bool, k: int)
    requires
        0 <= pos < evs.len(),
        0 <= k <= evs.len(),
    ensures
        k <= pos ==> tally(evs.update(pos, e), k, nesting) == tally(evs, k, nesting),
        k > pos ==> tally(evs.update(pos, e), k, nesting) == tally(evs, k, nesting) - weight(
            evs[pos],
            nesting,
        ) + weight(e, nesting),
    decreases k,
{
    if k > 0 {
        lemma_tally_update(evs, pos, e, nesting, k - 1);
    }
}

/// Pushing an event that opens and closes nothing keeps a segment balanced.
pub proof fn lemma_balanced_push(evs: Seq<Event>, a: int, e: Event)
    requires
        balanced_from(evs, a),
        delta(e) == 0,
    ensures
        balanced_from(evs.push(e), a),
        added(evs.push(e)) == added(evs) + weight(e, false),
{
    let n = evs.push(e);
    assert forall|k: int| 0 <= k <= evs.len() implies depth(n, k) == depth(evs, k) && tally(
        n,
        k,
        false,
    ) == tally(evs, k, false) by {
        assert(n.subrange(0, k) =~= evs.subrange(0, k));
        lemma_tally_prefix(n, evs, k, true);
        lemma_tally_prefix(n, evs, k, false);
    }
    assert(n[evs.len() as int] == e);
    assert forall|k: int| a <= k <= n.len() implies #[trigger] depth(n, k) >= depth(n, a) by {
        if k <= evs.len() {
            assert(depth(evs, k) >= depth(evs, a));
        }
    }
}

/// A balanced segment followed by another balanced segment is balanced.
pub proof fn lemma_balanced_concat(mid: Seq<Event>, evs: Seq<Event>, a: int)
    requires
        balanced_from(mid, a),
        mid.len() <= evs.len(),
        evs.subrange(0, mid.len() as int) == mid,
        balanced_from(evs, mid.len() as int),
    ensures
        balanced_from(evs, a),
{
    assert forall|k: int| 0 <= k <= mid.len() implies depth(evs, k) == depth(mid, k) by {
        assert(evs.subrange(0, k) =~= mid.subrange(0, k));
        lemma_tally_prefix(evs, mid, k, true);
    }
    assert(depth(evs, mid.len() as int) == depth(mid, mid.len() as int));
    assert(depth(evs, a) == depth(mid, a));
    assert forall|k: int| a <= k <= evs.len() implies #[trigger] depth(evs, k) >= depth(evs, a) by {
        if k <= mid.len() {
            assert(depth(mid, k) >= depth(mid, a));
        } else {
            assert(depth(evs, k) >= depth(evs, mid.len() as int));
        }
    }
}

// ---------------------------------------------------------------------------
// Source: a cursor over the tokens
// ---------------------------------------------------------------------------
/// A cursor over the tokens that steps over trivia when the grammar looks ahead.
pub struct Source<'t> {
    tokens: &'t [Token],
    cursor: usize,
}

impl<'t> Source<'t> {
    pub closed spec fn tokens(&self) -> Seq<Token> {
        self.tokens@
    }

    pub closed spec fn cursor(&self) -> int {
        self.cursor as int
    }

    pub closed spec fn wf(&self) -> bool {
        self.cursor <= self.tokens@.len()
    }

    /// The position of the next token that is not trivia.
    pub open spec fn position(&self) -> int {
        next_significant(kinds_of(self.tokens()), self.cursor())
    }

    pub fn new(tokens: &'t [Token]) -> (r: Source<'t>)
        ensures
            r.wf(),
            r.tokens() == tokens@,
            r.cursor() == 0,
    {
        Source { tokens, cursor: 0 }
    }

    fn at_trivia(&self) -> (r: bool)
        requires
            self.wf(),
        ensures
            r == (self.cursor() < self.tokens().len() && kinds_of(self.tokens())[self.cursor()].spec_is_trivia()),
    {
        self.cursor < self.tokens.len() && self.tokens[self.cursor].kind.is_trivia()
    }

    /// Steps over trivia.
    fn eat_trivia(&mut self)
        requires
            old(self).wf(),
        ensures
            final(self).wf(),
            final(self).tokens() == old(self).tokens(),
            final(self).cursor() == old(self).position(),
    {
        proof {
            lemma_next_significant(kinds_of(self.tokens()), self.cursor());
        }
        while self.at_trivia()
            invariant
                self.wf(),
                self.tokens() == old(self).tokens(),
                self.position() == old(self).position(),
            decreases self.tokens().len() - self.cursor(),
        {
            if self.cursor < self.tokens.len() {
                self.cursor = self.cursor + 1;
            }
        }
    }

    /// The kind of the next token that is not trivia.
    pub fn peek_kind(&mut self) -> (r: Option<TokenKind>)
        requires
            old(self).wf(),
        ensures
            final(self).wf(),
            final(self).tokens() == old(self).tokens(),
            final(self).cursor() == old(self).position(),
            r == (if old(self).position() < old(self).tokens().len() {
                Some(kinds_of(old(self).tokens())[old(self).position()])
            } else {
                None
            }),
    {
        self.eat_trivia();
        if self.cursor < self.tokens.len() {
            Some(self.tokens[self.cursor].kind)
        } else {
            None
        }
    }

    /// The next token that is not trivia.
    pub fn peek_token(&mut self) -> (r: Option<&'t Token>)
        requires
            old(self).wf(),
        ensures
            final(self).wf(),
            final(self).tokens() == old(self).tokens(),
            final(self).cursor() == old(self).position(),
            r is Some <==> old(self).position() < old(self).tokens().len(),
            r is Some ==> *r->0 == old(self).tokens()[old(self).position()],
    {
        self.eat_trivia();
        if self.cursor < self.tokens.len() {
            Some(&self.tokens[self.cursor])
        } else {
            None
        }
    }

    /// Consumes the next token that is not trivia.
    pub fn next_token(&mut self) -> (r: Option<&'t Token>)
        requires
            old(self).wf(),
        ensures
            final(self).wf(),
            final(self).tokens() == old(self).tokens(),
            r is Some <==> old(self).position() < old(self).tokens().len(),
            r is Some ==> *r->0 == old(self).tokens()[old(self).position()] && final(self).cursor()
                == old(self).position() + 1,
            r is None ==> final(self).cursor() == old(self).position(),
    {
        self.eat_trivia();
        if self.cursor < self.tokens.len() {
            let t = &self.tokens[self.cursor];
            self.cursor = self.cursor + 1;
            Some(t)
        } else {
            None
        }
    }

    /// The range of the last token of the input, if there is one.
    pub fn last_token_range(&self) -> (r: Option<TextRange>)
        ensures
            r is Some <==> self.tokens().len() > 0,
            r is Some ==> r->0 == self.tokens().last().range,
    {
        if self.tokens.len() > 0 {
            Some(self.tokens[self.tokens.len() - 1].range)
        } else {
            None
        }
    }
}

// ---------------------------------------------------------------------------
// Markers
// ---------------------------------------------------------------------------
/// A node that has been started and awaits its kind.
pub struct Marker {
    pub pos: usize,
    /// Set when the node wraps a completed node that starts at `pos`.
    pub preceding: bool,
}

/// A node whose start event stands at `pos`.
#[derive(Clone, Copy)]
pub struct CompletedMarker {
    pub pos: usize,
}

// ---------------------------------------------------------------------------
// Parser
// ---------------------------------------------------------------------------
/// The grammar's state: the cursor, the event log, and the kinds looked for
/// since the last token was consumed.
pub struct Parser<'t> {
    source: Source<'t>,
    events: Vec<Event>,
    expected_kinds: Vec<TokenKind>,
}

impl<'t> Parser<'t> {
    pub closed spec fn tokens(&self) -> Seq<Token> {
        self.source.tokens()
    }

    pub open spec fn kinds(&self) -> Seq<TokenKind> {
        kinds_of(self.tokens())
    }

    /// Position of the next token that is not trivia.
    pub closed spec fn pos(&self) -> int {
        self.source.position()
    }

    pub closed spec fn evs(&self) -> Seq<Event> {
        self.events@
    }

    /// The kinds looked for since the last token was consumed, in order.
    pub closed spec fn expected(&self) -> Seq<TokenKind> {
        self.expected_kinds@
    }

    pub closed spec fn inv(&self) -> bool {
        &&& self.source.wf()
        &&& added(self.events@) == significant_count(self.kinds(), self.source.cursor())
    }

    /// The kind of the next token that is not trivia.
    pub open spec fn next_kind(&self) -> Option<TokenKind> {
        if 0 <= self.pos() < self.kinds().len() {
            Some(self.kinds()[self.pos()])
        } else {
            None
        }
    }

    /// How many tokens are left, counted from the next one that is not trivia.
    pub open spec fn remaining(&self) -> int {
        self.kinds().len() - self.pos()
    }

    /// The kinds of the significant tokens.
    pub open spec fn sig(&self) -> Seq<TokenKind> {
        sig_kinds(self.kinds())
    }

    /// How many significant tokens have been consumed.
    pub open spec fn sig_pos(&self) -> int {
        significant_count(self.kinds(), self.pos())
    }

    /// The grammar's view of the log.
    pub open spec fn shapes(&self) -> Seq<Shape> {
        shapes(self.evs())
    }

    /// The next kind is the one at `sig_pos` among the significant tokens.
    pub proof fn lemma_next_kind(&self)
        requires
            self.inv(),
        ensures
            self.next_kind() == peek_sig(self.sig(), self.sig_pos()),
            0 <= self.sig_pos() <= self.sig().len(),
    {
        let ks = self.kinds();
        lemma_next_significant(ks, self.source.cursor());
        lemma_sig_kinds(ks);
        let p = self.pos();
        lemma_significant_count_grows(ks, 0, p);
        lemma_significant_count_grows(ks, p, ks.len() as int);
        if p < ks.len() {
            assert(sig_kinds(ks)[significant_count(ks, p)] == ks[p]);
        }
    }

    /// Where an error met at each position of the significant tokens is reported.
    pub open spec fn ranges(&self) -> Seq<TextRange> {
        report_ranges(self.kinds(), ranges_of(self.tokens()))
    }

    /// An error met now is reported at the next significant token's range,
    /// or at the last token's range when none is left.
    pub proof fn lemma_report_range(&self)
        requires
            self.inv(),
            self.kinds().len() > 0,
        ensures
            self.ranges()[self.sig_pos()] == (if self.next_kind() is Some {
                self.tokens()[self.pos()].range
            } else {
                self.tokens().last().range
            }),
            self.ranges().len() == self.sig().len() + 1,
    {
        self.lemma_next_kind();
        let ts = self.tokens();
        let rr = ranges_of(ts);
        lemma_sig_ranges(self.kinds(), rr);
        lemma_sig_kinds(self.kinds());
        lemma_next_significant(self.kinds(), self.source.cursor());
        let p = self.pos();
        if p < ts.len() {
            lemma_significant_count_grows(self.kinds(), p, ts.len() as int);
            assert(sig_ranges(self.kinds(), rr)[significant_count(self.kinds(), p)] == rr[p]);
        }
    }

    /// Consuming more tokens never lowers the count of significant ones.
    pub proof fn lemma_sig_pos_grows(&self, later: &Parser)
        requires
            self.inv(),
            later.inv(),
            later.tokens() == self.tokens(),
            self.pos() <= later.pos(),
        ensures
            self.sig_pos() <= later.sig_pos(),
    {
        lemma_next_significant(self.kinds(), self.source.cursor());
        lemma_next_significant(later.kinds(), later.source.cursor());
        lemma_significant_count_grows(self.kinds(), self.pos(), later.pos());
    }

    /// Moving past a significant token raises the count of significant ones.
    pub proof fn lemma_sig_pos_strict(&self, later: &Parser)
        requires
            self.inv(),
            later.inv(),
            later.tokens() == self.tokens(),
            self.pos() < later.pos(),
            self.next_kind() is Some,
        ensures
            self.sig_pos() < later.sig_pos(),
    {
        lemma_next_significant(self.kinds(), self.source.cursor());
        lemma_next_significant(later.kinds(), later.source.cursor());
        lemma_significant_count_grows(self.kinds(), self.pos(), later.pos());
    }

    /// `self` is `old` with nothing but trivia stepped over.
    pub open spec fn same_as(&self, old: &Parser) -> bool {
        &&& self.inv()
        &&& self.tokens() == old.tokens()
        &&& self.pos() == old.pos()
        &&& self.evs() == old.evs()
    }

    /// `self` is `old` with a balanced run of events appended (the old ones kept).
    pub open spec fn extends(&self, old: &Parser) -> bool {
        &&& self.inv()
        &&& self.tokens() == old.tokens()
        &&& old.pos() <= self.pos()
        &&& old.evs().len() <= self.evs().len()
        &&& self.evs().subrange(0, old.evs().len() as int) == old.evs()
        &&& balanced_from(self.evs(), old.evs().len() as int)
    }

    pub proof fn lemma_pos_bounds(&self)
        requires
            self.inv(),
        ensures
            0 <= self.pos() <= self.kinds().len(),
            self.remaining() >= 0,
    {
        lemma_next_significant(self.kinds(), self.source.cursor());
    }

    pub fn new(tokens: &'t [Token]) -> (r: Parser<'t>)
        ensures
            r.inv(),
            r.tokens() == tokens@,
            r.evs() == Seq::<Event>::empty(),
            r.expected() == Seq::<TokenKind>::empty(),
            r.sig_pos() == 0,
    {
        let p = Parser { source: Source::new(tokens), events: Vec::new(), expected_kinds: Vec::new() };
        proof {
            lemma_next_significant(p.kinds(), 0);
        }
        p
    }

    /// Runs the grammar over the whole input and hands back the event log.
    pub fn parse(self) -> (r: Vec<Event>)
        requires
            self.inv(),
            self.evs().len() == 0,
            self.sig_pos() == 0,
            self.expected() == Seq::<TokenKind>::empty(),
        ensures
            well_nested(r@),
            added(r@) == significant_count(self.kinds(), self.kinds().len() as int),
            shapes(r@) == crate::grammar::program_events(self.sig(), self.ranges()),
    {
        let mut p = self;
        let ghost k = p.kinds();
        crate::grammar::root(&mut p);
        proof {
            // Only trivia is left, so every significant token has been added.
            lemma_next_significant(k, p.source.cursor());
        }
        p.events
    }

    /// The kind of the next token that is not trivia.
    pub fn peek(&mut self) -> (r: Option<TokenKind>)
        requires
            old(self).inv(),
        ensures
            final(self).same_as(old(self)),
            final(self).expected() == old(self).expected(),
            r == old(self).next_kind(),
    {
        proof {
            lemma_next_significant(self.kinds(), self.source.cursor());
        }
        let r = self.source.peek_kind();
        proof {
            lemma_next_significant(self.kinds(), self.source.cursor());
        }
        r
    }

    /// Whether the next token has kind `kind`; `kind` is noted as looked for.
    pub fn at(&mut self, kind: TokenKind) -> (r: bool)
        requires
            old(self).inv(),
        ensures
            final(self).same_as(old(self)),
            final(self).expected() == old(self).expected().push(kind),
            r == (old(self).next_kind() == Some(kind)),
    {
        self.expected_kinds.push(kind);
        self.peek() == Some(kind)
    }

    /// Whether the next token has one of the kinds in `set`.
    pub fn at_set(&mut self, set: &[TokenKind]) -> (r: bool)
        requires
            old(self).inv(),
        ensures
            final(self).same_as(old(self)),
            final(self).expected() == old(self).expected(),
            r == (old(self).next_kind() is Some && set@.contains(old(self).next_kind()->0)),
    {
        match self.peek() {
            Some(k) => contains_kind(set, k),
            None => false,
        }
    }

    /// Whether no token but trivia is left.
    pub fn at_end(&mut self) -> (r: bool)
        requires
            old(self).inv(),
        ensures
            final(self).same_as(old(self)),
            final(self).expected() == old(self).expected(),
            r == (old(self).next_kind() is None),
    {
        self.peek().is_none()
    }

    /// Consumes the next token that is not trivia.
    pub fn bump(&mut self)
        requires
            old(self).inv(),
            old(self).next_kind() is Some,
        ensures
            final(self).inv(),
            final(self).tokens() == old(self).tokens(),
            final(self).evs() == old(self).evs().push(Event::AddToken),
            final(self).pos() == next_significant(old(self).kinds(), old(self).pos() + 1),
            final(self).pos() > old(self).pos(),
            final(self).sig_pos() == old(self).sig_pos() + 1,
            final(self).expected() == Seq::<TokenKind>::empty(),
    {
        let ghost k = self.kinds();
        let ghost c0 = self.source.cursor();
        proof {
            lemma_next_significant(k, c0);
        }
        self.expected_kinds.clear();
        let t = self.source.next_token();
        proof {
            let p = next_significant(k, c0);
            lemma_significant_count_grows(k, p, p + 1);
            assert(significant_count(k, p + 1) == significant_count(k, p) + 1);
            lemma_balanced_push_added(self.events@, Event::AddToken);
            lemma_next_significant(k, p + 1);
        }
        self.events.push(Event::AddToken);
    }

    /// Starts a node whose kind is given when it completes.
    pub fn start(&mut self) -> (m: Marker)
        requires
            old(self).inv(),
        ensures
            final(self).inv(),
            final(self).tokens() == old(self).tokens(),
            final(self).pos() == old(self).pos(),
            final(self).evs() == old(self).evs().push(Event::Placeholder),
            final(self).expected() == old(self).expected(),
            m.pos == old(self).evs().len(),
            !m.preceding,
    {
        let pos = self.events.len();
        proof {
            lemma_balanced_push_added(self.events@, Event::Placeholder);
        }
        self.events.push(Event::Placeholder);
        Marker { pos, preceding: false }
    }

    /// Consumes the next token if it has kind `kind`; records an error otherwise.
    pub fn expect(&mut self, kind: TokenKind)
        requires
            old(self).inv(),
            old(self).kinds().len() > 0,
        ensures
            final(self).extends(old(self)),
            old(self).next_kind() is Some && old(self).next_kind() != Some(TokenKind::Define)
                ==> final(self).pos() > old(self).pos(),
            final(self).shapes() == old(self).shapes() + expect_events(old(self).sig(), old(self).ranges(), old(self).sig_pos(), kind, old(self).expected()).events,
            final(self).sig_pos() == expect_events(old(self).sig(), old(self).ranges(), old(self).sig_pos(), kind, old(self).expected()).pos,
            final(self).expected() == Seq::<TokenKind>::empty(),
    {
        let ghost o = *self;
        proof {
            self.lemma_next_kind();
        }
        if self.at(kind) {
            self.bump();
            proof {
                lemma_extends_push(&o, self, Event::AddToken);
                assert(self.shapes() =~= o.shapes() + seq![Shape::Token]);
            }
        } else {
            self.error();
        }
    }

    /// Records an error at the next token; unless that token may start a
    /// statement, or none is left, wraps it in an `Undefined` node.
    pub fn error(&mut self)
        requires
            old(self).inv(),
            old(self).kinds().len() > 0,
        ensures
            final(self).extends(old(self)),
            final(self).evs()[old(self).evs().len() as int] is Error,
            final(self).evs()[old(self).evs().len() as int]->Error_0.found == old(self).next_kind(),
            final(self).evs()[old(self).evs().len() as int]->Error_0.range == (if old(self).next_kind() is Some {
                old(self).tokens()[old(self).pos()].range
            } else {
                old(self).tokens().last().range
            }),
            old(self).next_kind() is Some && old(self).next_kind() != Some(TokenKind::Define)
                ==> final(self).pos() > old(self).pos(),
            final(self).evs()[old(self).evs().len() as int]->Error_0.expected@ == old(self).expected(),
            final(self).shapes() == old(self).shapes() + error_events(old(self).sig(), old(self).ranges(), old(self).sig_pos(), old(self).expected()).events,
            final(self).sig_pos() == error_events(old(self).sig(), old(self).ranges(), old(self).sig_pos(), old(self).expected()).pos,
            final(self).expected() == Seq::<TokenKind>::empty(),
    {
        let ghost o = *self;
        proof {
            lemma_next_significant(self.kinds(), self.source.cursor());
            self.lemma_next_kind();
            self.lemma_report_range();
        }
        let current = self.source.peek_token();
        let (found, range) = match current {
            Some(t) => (Some(t.kind), t.range),
            None => {
                let r = self.source.last_token_range();
                (None, r.unwrap())
            },
        };
        let mut expected: Vec<TokenKind> = Vec::new();
        core::mem::swap(&mut expected, &mut self.expected_kinds);
        proof {
            lemma_next_significant(self.kinds(), self.source.cursor());
        }
        proof {
            lemma_balanced_push_added(self.events@, Event::Error(ParseError { expected, found, range }));
        }
        self.events.push(Event::Error(ParseError { expected, found, range }));
        let ghost w = *self;
        proof {
            lemma_extends_push(&o, self, Event::Error(ParseError { expected, found, range }));
            lemma_extends_refl(&w);
        }
        let recovery = [TokenKind::Define];
        if !self.at_set(&recovery) && !self.at_end() {
            let ghost w2 = *self;
            let m = self.start();
            let ghost s = *self;
            self.bump();
            proof {
                lemma_extends_push(&s, self, Event::AddToken);
                lemma_open_node(&w2, &s, self);
            }
            let ghost before_complete = *self;
            m.complete(self, SyntaxKind::Undefined);
            proof {
                assert(self.shapes() =~= o.shapes() + seq![Shape::Error(found, o.expected(), range), Shape::Start(SyntaxKind::Undefined), Shape::Token, Shape::Finish]);
                assert(self.evs().subrange(0, w2.evs().len() as int) == w2.evs());
                lemma_extends_trans(&o, &w2, self);
                lemma_extends_trans(&w, &w2, self);
            }
        }
        proof {
            let l = o.evs().len() as int;
            assert(self.evs().subrange(0, w.evs().len() as int)[l] == self.evs()[l]);
            if !(o.next_kind() is Some && o.next_kind() != Some(TokenKind::Define)) {
                assert(self.shapes() =~= o.shapes() + seq![Shape::Error(found, o.expected(), range)]);
            }
        }
    }
}

/// Whether `k` is one of `set`.
fn contains_kind(set: &[TokenKind], k: TokenKind) -> (r: bool)
    ensures
        r == set@.contains(k),
{
    let mut i: usize = 0;
    while i < set.len()
        invariant
            i <= set.len(),
            forall|j: int| 0 <= j < i ==> set@[j] != k,
        decreases set.len() - i,
    {
        if set[i] == k {
            return true;
        }
        i = i + 1;
    }
    false
}

/// Pushing an event that opens and closes nothing.
proof fn lemma_balanced_push_added(evs: Seq<Event>, e: Event)
    requires
        delta(e) == 0,
    ensures
        added(evs.push(e)) == added(evs) + weight(e, false),
        forall|a: int| balanced_from(evs, a) ==> balanced_from(#[trigger] evs.push(e), a),
{
    assert(balanced_from(evs, evs.len() as int));
    lemma_balanced_push(evs, evs.len() as int, e);
    assert forall|a: int| balanced_from(evs, a) implies #[trigger] balanced_from(evs.push(e), a) by {
        lemma_balanced_push(evs, a, e);
    }
}

/// Pushing one neutral event extends the state.
pub proof fn lemma_extends_push(o: &Parser, p: &Parser, e: Event)
    requires
        o.inv(),
        p.inv(),
        p.tokens() == o.tokens(),
        o.pos() <= p.pos(),
        p.evs() == o.evs().push(e),
        delta(e) == 0,
    ensures
        p.extends(o),
{
    assert(p.evs().subrange(0, o.evs().len() as int) =~= o.evs());
    assert(balanced_from(o.evs(), o.evs().len() as int));
    lemma_balanced_push(o.evs(), o.evs().len() as int, e);
}

/// A parser state extends itself.
pub proof fn lemma_extends_refl(p: &Parser)
    requires
        p.inv(),
    ensures
        p.extends(p),
{
    assert(p.evs().subrange(0, p.evs().len() as int) =~= p.evs());
}

/// Extending is transitive.
pub proof fn lemma_extends_trans(a: &Parser, b: &Parser, c: &Parser)
    requires
        b.extends(a),
        c.extends(b),
    ensures
        c.extends(a),
{
    let la = a.evs().len() as int;
    let lb = b.evs().len() as int;
    assert(c.evs().subrange(0, la) =~= c.evs().subrange(0, lb).subrange(0, la));
    assert(b.evs().subrange(0, la) == a.evs());
    lemma_balanced_concat(b.evs(), c.evs(), la);
}

/// Between the start of a node and its completion: the placeholder is still
/// in place and what follows it is balanced.
pub proof fn lemma_open_node(o: &Parser, s: &Parser, q: &Parser)
    requires
        o.inv(),
        s.inv(),
        s.evs() == o.evs().push(Event::Placeholder),
        s.tokens() == o.tokens(),
        q.extends(s),
    ensures
        q.evs()[o.evs().len() as int] is Placeholder,
        balanced_from(q.evs(), o.evs().len() as int + 1),
        q.evs().subrange(0, o.evs().len() as int) == o.evs(),
        o.evs().len() < q.evs().len(),
{
    let l = o.evs().len() as int;
    assert(q.evs().subrange(0, l + 1)[l] == q.evs()[l]);
    assert(q.evs().subrange(0, l) =~= q.evs().subrange(0, l + 1).subrange(0, l));
    assert(s.evs().subrange(0, l) =~= o.evs());
}

impl Marker {
    /// Gives the node its kind and closes it.
    pub fn complete(self, p: &mut Parser, kind: SyntaxKind) -> (cm: CompletedMarker)
        requires
            old(p).inv(),
            self.pos < old(p).evs().len(),
            !self.preceding ==> old(p).evs()[self.pos as int] is Placeholder,
            !self.preceding ==> balanced_from(old(p).evs(), self.pos + 1),
            self.preceding ==> balanced_from(old(p).evs(), self.pos as int),
        ensures
            final(p).inv(),
            final(p).tokens() == old(p).tokens(),
            final(p).pos() == old(p).pos(),
            final(p).expected() == old(p).expected(),
            final(p).evs().len() > self.pos,
            final(p).evs().subrange(0, self.pos as int) == old(p).evs().subrange(0, self.pos as int),
            final(p).evs()[self.pos as int] == (Event::StartNode { kind }),
            balanced_from(final(p).evs(), self.pos as int),
            forall|k: int| self.pos < k < final(p).evs().len() ==> #[trigger] depth(final(p).evs(), k)
                >= depth(final(p).evs(), self.pos as int) + 1,
            cm.pos == self.pos,
            self.preceding ==> final(p).shapes() == old(p).shapes().subrange(0, self.pos as int)
                + seq![Shape::Start(kind)] + old(p).shapes().subrange(
                self.pos as int,
                old(p).shapes().len() as int,
            ) + seq![Shape::Finish],
            !self.preceding ==> final(p).shapes() == old(p).shapes().subrange(0, self.pos as int)
                + seq![Shape::Start(kind)] + old(p).shapes().subrange(
                self.pos + 1,
                old(p).shapes().len() as int,
            ) + seq![Shape::Finish],
    {
        let ghost e0 = p.events@;
        let ghost ks = p.kinds();
        let start = Event::StartNode { kind };
        if self.preceding {
            p.events.insert(self.pos, start);
            proof {
                let e1 = p.events@;
                assert(e1 == e0.insert(self.pos as int, Event::StartNode { kind }));
                assert forall|k: int| 0 <= k <= e1.len() implies #[trigger] depth(e1, k) == (if k <= self.pos { depth(e0, k) } else { depth(e0, k - 1) + 1 }) by {
                    lemma_tally_insert(e0, self.pos as int, Event::StartNode { kind }, true, k);
                }
                lemma_tally_insert(e0, self.pos as int, Event::StartNode { kind }, false, e1.len() as int);
                assert(e1.subrange(0, self.pos as int) =~= e0.subrange(0, self.pos as int));
                assert forall|k: int| self.pos < k <= e1.len() implies #[trigger] depth(e1, k) >= depth(e1, self.pos as int) + 1 by {
                    assert(depth(e0, k - 1) >= depth(e0, self.pos as int));
                }
            }
        } else {
            p.events.set(self.pos, start);
            proof {
                let e1 = p.events@;
                assert(e1 == e0.update(self.pos as int, Event::StartNode { kind }));
                assert forall|k: int| 0 <= k <= e1.len() implies #[trigger] depth(e1, k) == (if k <= self.pos { depth(e0, k) } else { depth(e0, k) + 1 }) by {
                    lemma_tally_update(e0, self.pos as int, Event::StartNode { kind }, true, k);
                }
                lemma_tally_update(e0, self.pos as int, Event::StartNode { kind }, false, e1.len() as int);
                assert(e1.subrange(0, self.pos as int) =~= e0.subrange(0, self.pos as int));
                assert(depth(e0, self.pos + 1) == depth(e0, self.pos as int));
                assert forall|k: int| self.pos < k <= e1.len() implies #[trigger] depth(e1, k) >= depth(e1, self.pos as int) + 1 by {
                    assert(depth(e0, k) >= depth(e0, self.pos + 1));
                }
            }
        }
        let ghost e1 = p.events@;
        p.events.push(Event::FinishNode);
        proof {
            let e2 = p.events@;
            assert(e2.subrange(0, e1.len() as int) =~= e1);
            assert forall|k: int| 0 <= k <= e1.len() implies #[trigger] depth(e2, k) == depth(e1, k) && tally(e2, k, false) == tally(e1, k, false) by {
                assert(e2.subrange(0, k) =~= e1.subrange(0, k));
                lemma_tally_prefix(e2, e1, k, true);
                lemma_tally_prefix(e2, e1, k, false);
            }
            assert(e2[e1.len() as int] == Event::FinishNode);
            assert(depth(e2, e1.len() as int) == depth(e1, e1.len() as int));
            assert(tally(e2, e1.len() as int, false) == tally(e1, e1.len() as int, false));
            assert(depth(e2, e2.len() as int) == depth(e1, e1.len() as int) - 1);
            assert(tally(e2, e2.len() as int, false) == tally(e1, e1.len() as int, false));
            assert(e2.subrange(0, self.pos as int) =~= e1.subrange(0, self.pos as int));
            assert forall|k: int| self.pos < k < e2.len() implies #[trigger] depth(e2, k) >= depth(e2, self.pos as int) + 1 by {
                assert(depth(e1, k) >= depth(e1, self.pos as int) + 1);
            }
            assert forall|k: int| self.pos <= k <= e2.len() implies #[trigger] depth(e2, k) >= depth(e2, self.pos as int) by {
                if self.pos < k < e2.len() {
                    assert(depth(e2, k) >= depth(e2, self.pos as int) + 1);
                }
            }
        }
        proof {
            let sh0 = shapes(e0);
            if self.preceding {
                assert(p.shapes() =~= sh0.subrange(0, self.pos as int) + seq![Shape::Start(kind)]
                    + sh0.subrange(self.pos as int, sh0.len() as int) + seq![Shape::Finish]);
            } else {
                assert(p.shapes() =~= sh0.subrange(0, self.pos as int) + seq![Shape::Start(kind)]
                    + sh0.subrange(self.pos + 1, sh0.len() as int) + seq![Shape::Finish]);
            }
        }
        CompletedMarker { pos: self.pos }
    }
}

impl CompletedMarker {
    /// A marker for a new node that will wrap this one.
    pub fn precede(self) -> (m: Marker)
        ensures
            m.pos == self.pos,
            m.preceding,
    {
        Marker { pos: self.pos, preceding: true }
    }
}

} // verus!
